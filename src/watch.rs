//! Watched files, the keys that name them in a snapshot, the repository a key
//! belongs to, and the address their content is fetched from.
use vstd::prelude::*;

verus! {

/// One configured repository and the files watched in it. An empty `token`
/// means that the files are fetched without a credential.
#[derive(Debug)]
pub struct Repository {
    pub owner: String,
    pub repo: String,
    pub token: String,
    pub branch: String,
    pub files: Vec<String>,
}

/// What a run needs to know: the repositories, where the snapshot is kept,
/// and the command that is told of changes.
#[derive(Debug)]
pub struct Config {
    pub repositories: Vec<Repository>,
    pub state_file: String,
    pub notification_command: String,
}

/// One watched file: where it lives and how to reach it.
#[derive(Debug)]
pub struct TrackedFile {
    pub owner: String,
    pub repo: String,
    pub branch: String,
    pub path: String,
    pub token: Option<String>,
}

/// The key of a file: owner, repository and path joined by `/`. Branch and
/// token take no part in it.
pub open spec fn key_of(owner: Seq<char>, repo: Seq<char>, path: Seq<char>) -> Seq<char> {
    owner + seq!['/'] + repo + seq!['/'] + path
}

pub open spec fn watched_key(f: TrackedFile) -> Seq<char> {
    key_of(f.owner@, f.repo@, f.path@)
}

/// The first `/` in `s` at or after `from`, or the length of `s` if none.
pub open spec fn next_slash(s: Seq<char>, from: int) -> int
    decreases s.len() - from,
{
    if from < 0 || from >= s.len() {
        s.len() as int
    } else if s[from] == '/' {
        from
    } else {
        next_slash(s, from + 1)
    }
}

/// The repository (`owner/repo`) that a key belongs to: the key up to its
/// second `/`, or the whole key when it holds a single `/`. A key without `/`
/// names no repository.
pub open spec fn repo_of(key: Seq<char>) -> Option<Seq<char>> {
    let first = next_slash(key, 0);
    if first >= key.len() {
        None
    } else {
        Some(key.subrange(0, next_slash(key, first + 1)))
    }
}

pub open spec fn url_of(f: TrackedFile) -> Seq<char> {
    let base = "https://raw.githubusercontent.com/"@ + f.owner@ + seq!['/'] + f.repo@
        + "/refs/heads/"@ + f.branch@ + seq!['/'] + f.path@;
    match f.token {
        Some(t) => base + "?token="@ + t@,
        None => base,
    }
}

/// The watched files of a list of repositories, repository by repository and
/// file by file.
pub open spec fn watched_of(repos: Seq<Repository>) -> Seq<TrackedFile>
    decreases repos.len(),
{
    if repos.len() == 0 {
        Seq::empty()
    } else {
        watched_of(repos.drop_last()) + files_of(repos.last())
    }
}

pub open spec fn files_of(r: Repository) -> Seq<TrackedFile> {
    r.files@.map_values(
        |p: String|
            TrackedFile {
                owner: r.owner,
                repo: r.repo,
                branch: r.branch,
                path: p,
                token: if r.token@.len() == 0 {
                    None
                } else {
                    Some(r.token)
                },
            },
    )
}

proof fn lemma_next_slash(s: Seq<char>, from: int, to: int)
    requires
        0 <= from <= to <= s.len(),
        forall|j: int| from <= j < to ==> s[j] != '/',
        to == s.len() || s[to] == '/',
    ensures
        next_slash(s, from) == to,
    decreases to - from,
{
    if from < to {
        lemma_next_slash(s, from + 1, to);
    }
}

/// A key made of an owner and a repository name without `/` belongs to
/// that owner's repository, whatever the path.
pub proof fn lemma_repo_of_key(owner: Seq<char>, repo: Seq<char>, path: Seq<char>)
    requires
        !owner.contains('/'),
        !repo.contains('/'),
    ensures
        repo_of(key_of(owner, repo, path)) == Some(owner + seq!['/'] + repo),
{
    let k = key_of(owner, repo, path);
    let ol = owner.len() as int;
    let rl = repo.len() as int;
    assert forall|j: int| 0 <= j < ol implies k[j] != '/' by {
        assert(k[j] == owner[j]);
    }
    lemma_next_slash(k, 0, ol);
    assert forall|j: int| ol + 1 <= j < ol + 1 + rl implies k[j] != '/' by {
        assert(k[j] == repo[j - ol - 1]);
    }
    lemma_next_slash(k, ol + 1, ol + 1 + rl);
    assert(k.subrange(0, ol + 1 + rl) =~= owner + seq!['/'] + repo);
}

/// The key of a watched file.
pub fn file_key(f: &TrackedFile) -> (r: String)
    ensures
        r@ == watched_key(*f),
{
    let mut k = f.owner.clone();
    k.append("/");
    k.append(f.repo.as_str());
    k.append("/");
    k.append(f.path.as_str());
    proof {
        reveal_strlit("/");
        assert(k@ =~= watched_key(*f));
    }
    k
}

/// The position of the first `/` of `s` at or after `from`.
fn find_slash(s: &String, from: usize) -> (r: usize)
    requires
        from <= s@.len(),
    ensures
        r == next_slash(s@, from as int),
        r <= s@.len(),
{
    let n = s.as_str().unicode_len();
    let mut i = from;
    while i < n
        invariant
            from <= i <= n,
            n == s@.len(),
            next_slash(s@, from as int) == next_slash(s@, i as int),
        decreases n - i,
    {
        if s.as_str().get_char(i) == '/' {
            return i;
        }
        i = i + 1;
    }
    i
}

/// The repository (`owner/repo`) that `key` belongs to; `None` for a key
/// without `/`.
pub fn repo_of_key(key: &String) -> (r: Option<String>)
    ensures
        match r {
            Some(s) => repo_of(key@) == Some(s@),
            None => repo_of(key@) is None,
        },
{
    let first = find_slash(key, 0);
    if first >= key.as_str().unicode_len() {
        return None;
    }
    let end = find_slash(key, first + 1);
    Some(String::from_str(key.as_str().substring_char(0, end)))
}

/// Where the content of a watched file is fetched from: the raw-content
/// address of the file on its branch, with the token as a query parameter
/// when there is one.
pub fn fetch_url(f: &TrackedFile) -> (r: String)
    ensures
        r@ == url_of(*f),
{
    let mut u = String::from_str("https://raw.githubusercontent.com/");
    u.append(f.owner.as_str());
    u.append("/");
    u.append(f.repo.as_str());
    u.append("/refs/heads/");
    u.append(f.branch.as_str());
    u.append("/");
    u.append(f.path.as_str());
    match &f.token {
        Some(t) => {
            u.append("?token=");
            u.append(t.as_str());
        },
        None => {},
    }
    proof {
        reveal_strlit("/");
        assert(u@ =~= url_of(*f));
    }
    u
}

/// The files that a list of repositories tracks, each file of each
/// repository once, in configuration order.
pub fn watched_files(repos: &Vec<Repository>) -> (r: Vec<TrackedFile>)
    ensures
        r@ == watched_of(repos@),
{
    let mut out: Vec<TrackedFile> = Vec::new();
    let mut i: usize = 0;
    while i < repos.len()
        invariant
            i <= repos@.len(),
            out@ == watched_of(repos@.subrange(0, i as int)),
        decreases repos@.len() - i,
    {
        let r = &repos[i];
        let ghost before = out@;
        let mut j: usize = 0;
        while j < r.files.len()
            invariant
                j <= r.files@.len(),
                out@ == before + files_of(*r).subrange(0, j as int),
            decreases r.files@.len() - j,
        {
            let token = if r.token.as_str().unicode_len() == 0 {
                None
            } else {
                Some(r.token.clone())
            };
            out.push(
                TrackedFile {
                    owner: r.owner.clone(),
                    repo: r.repo.clone(),
                    branch: r.branch.clone(),
                    path: r.files[j].clone(),
                    token,
                },
            );
            assert(out@ =~= before + files_of(*r).subrange(0, j + 1));
            j = j + 1;
        }
        assert(repos@.subrange(0, i + 1).drop_last() =~= repos@.subrange(0, i as int));
        assert(files_of(*r).subrange(0, j as int) =~= files_of(*r));
        i = i + 1;
    }
    assert(repos@.subrange(0, repos@.len() as int) =~= repos@);
    out
}

} // verus!
