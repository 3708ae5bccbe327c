//! One detection cycle: the snapshot of what was fetched, the repositories
//! whose files changed since the previous snapshot, and whether the new
//! snapshot has to be written.
use vstd::prelude::*;
use crate::fingerprint::{digest, digest_of};
use crate::snapshot::{Snapshot, map_of, keys_distinct, lemma_map_of_entries};
use crate::watch::{TrackedFile, file_key, repo_of_key, repo_of, watched_key};

verus! {

/// The contents that were fetched, as byte sequences.
pub open spec fn fetched_contents(fetched: Seq<Option<Vec<u8>>>) -> Seq<Seq<u8>> {
    fetched.map_values(
        |o: Option<Vec<u8>>|
            match o {
                Some(c) => c@,
                None => Seq::empty(),
            },
    )
}

/// The snapshot of a run: each file's key with the fingerprint of its
/// content, a later file with the same key replacing an earlier one.
pub open spec fn current_map(files: Seq<TrackedFile>, contents: Seq<Seq<u8>>) -> Map<
    Seq<char>,
    Seq<char>,
>
    decreases files.len(),
{
    if files.len() == 0 {
        Map::empty()
    } else {
        current_map(files.drop_last(), contents).insert(
            watched_key(files.last()),
            digest_of(contents[files.len() - 1]),
        )
    }
}

/// A key of the current snapshot that the previous one lacks or records
/// with another fingerprint.
pub open spec fn is_changed(
    cur: Map<Seq<char>, Seq<char>>,
    prev: Map<Seq<char>, Seq<char>>,
    k: Seq<char>,
) -> bool {
    cur.contains_key(k) && (!prev.contains_key(k) || prev[k] != cur[k])
}

/// The repositories that hold a changed key. A key that names no
/// repository, and a key that only the previous snapshot holds, report
/// nothing.
pub open spec fn change_set(cur: Map<Seq<char>, Seq<char>>, prev: Map<Seq<char>, Seq<char>>) -> Set<
    Seq<char>,
> {
    Set::new(|r: Seq<char>| exists|k: Seq<char>| is_changed(cur, prev, k) && repo_of(k) == Some(r))
}

pub open spec fn names(v: Seq<String>) -> Seq<Seq<char>> {
    v.map_values(|s: String| s@)
}

/// Entry `j` of `e` is changed and belongs to repository `r`.
pub open spec fn entry_reports(
    cur: Map<Seq<char>, Seq<char>>,
    prev: Map<Seq<char>, Seq<char>>,
    e: Seq<(String, String)>,
    j: int,
    r: Seq<char>,
) -> bool {
    is_changed(cur, prev, e[j].0@) && repo_of(e[j].0@) == Some(r)
}

/// Whether `name` is among `v`.
fn contains_name(v: &Vec<String>, name: &String) -> (r: bool)
    ensures
        r == names(v@).contains(name@),
{
    let mut i: usize = 0;
    while i < v.len()
        invariant
            i <= v@.len(),
            forall|j: int| 0 <= j < i ==> #[trigger] v@[j]@ != name@,
        decreases v@.len() - i,
    {
        if v[i] == *name {
            assert(names(v@)[i as int] == name@);
            return true;
        }
        i = i + 1;
    }
    proof {
        if names(v@).contains(name@) {
            let j = choose|j: int| 0 <= j < names(v@).len() && names(v@)[j] == name@;
            assert(v@[j]@ == name@);
        }
    }
    false
}

/// The repositories, each once, that hold a key whose fingerprint in
/// `current` is new or differs from the one in `previous`.
pub fn changed_repositories(current: &Snapshot, previous: &Snapshot) -> (r: Vec<String>)
    requires
        current.wf(),
        previous.wf(),
    ensures
        names(r@).no_duplicates(),
        names(r@).to_set() == change_set(current@, previous@),
{
    let entries = current.entries();
    let ghost cur = current@;
    let ghost prev = previous@;
    let mut out: Vec<String> = Vec::new();
    let mut i: usize = 0;
    while i < entries.len()
        invariant
            i <= entries@.len(),
            previous.wf(),
            cur == current@,
            prev == previous@,
            map_of(entries@) == cur,
            keys_distinct(entries@),
            names(out@).no_duplicates(),
            forall|x: Seq<char>|
                #[trigger] names(out@).contains(x) <==> exists|j: int|
                    0 <= j < i && #[trigger] entry_reports(cur, prev, entries@, j, x),
        decreases entries@.len() - i,
    {
        proof {
            lemma_map_of_entries(entries@);
        }
        let key = &entries[i].0;
        let fp = &entries[i].1;
        let differs = match previous.get(key) {
            Some(p) => *p != *fp,
            None => true,
        };
        assert(cur[key@] == fp@);
        assert(differs == is_changed(cur, prev, key@));
        let ghost before = out@;
        if differs {
            match repo_of_key(key) {
                Some(name) => {
                    if !contains_name(&out, &name) {
                        out.push(name);
                        proof {
                            assert(names(out@) =~= names(before).push(name@));
                        }
                    }
                },
                None => {},
            }
        }
        proof {
            assert forall|x: Seq<char>|
                #[trigger] names(out@).contains(x) <==> exists|j: int|
                    0 <= j < i + 1 && #[trigger] entry_reports(cur, prev, entries@, j, x) by {
                if names(out@).contains(x) && !names(before).contains(x) {
                    assert(entry_reports(cur, prev, entries@, i as int, x));
                }
                if names(before).contains(x) {
                    let k = choose|k: int| 0 <= k < names(before).len() && names(before)[k] == x;
                    assert(names(out@)[k] == x);
                }
                if exists|j: int|
                    0 <= j < i + 1 && #[trigger] entry_reports(cur, prev, entries@, j, x) {
                    let j = choose|j: int|
                        0 <= j < i + 1 && #[trigger] entry_reports(cur, prev, entries@, j, x);
                    if j == i {
                        if !names(before).contains(x) {
                            assert(names(out@)[names(out@).len() - 1] == x);
                        }
                    }
                }
            }
        }
        i = i + 1;
    }
    proof {
        lemma_map_of_entries(entries@);
        assert forall|x: Seq<char>|
            names(out@).to_set().contains(x) <==> #[trigger] change_set(cur, prev).contains(x) by {
            if change_set(cur, prev).contains(x) {
                let k = choose|k: Seq<char>| is_changed(cur, prev, k) && repo_of(k) == Some(x);
                let j = choose|j: int| 0 <= j < entries@.len() && #[trigger] entries@[j].0@ == k;
                assert(entry_reports(cur, prev, entries@, j, x));
            }
            if names(out@).contains(x) {
                let j = choose|j: int|
                    0 <= j < entries@.len() && #[trigger] entry_reports(cur, prev, entries@, j, x);
                assert(is_changed(cur, prev, entries@[j].0@));
            }
        }
        assert(names(out@).to_set() =~= change_set(cur, prev));
    }
    out
}

/// The snapshot of the fetched contents: each file's key with the
/// fingerprint of the content fetched for it. Entries of `fetched` past the
/// last file are not looked at.
pub fn get_current_state(files: &Vec<TrackedFile>, fetched: &Vec<Option<Vec<u8>>>) -> (r: Snapshot)
    requires
        all_fetched(files@.len() as int, fetched@),
    ensures
        r.wf(),
        r@ == current_map(files@, fetched_contents(fetched@)),
{
    let ghost contents = fetched_contents(fetched@);
    let mut snap = Snapshot::new();
    let mut i: usize = 0;
    while i < files.len()
        invariant
            i <= files@.len(),
            all_fetched(files@.len() as int, fetched@),
            contents == fetched_contents(fetched@),
            snap.wf(),
            snap@ == current_map(files@.subrange(0, i as int), contents),
        decreases files@.len() - i,
    {
        assert(fetch_ok(fetched@, i as int));
        match &fetched[i] {
            Some(content) => {
                let key = file_key(&files[i]);
                let fp = digest(content.as_slice());
                snap.insert(key, fp);
            },
            None => {},
        }
        assert(files@.subrange(0, i + 1).drop_last() =~= files@.subrange(0, i as int));
        i = i + 1;
    }
    assert(files@.subrange(0, files@.len() as int) =~= files@);
    snap
}

/// Why a run stopped.
#[derive(Debug, PartialEq, Eq, Structural)]
pub enum RunError {
    /// The content of the file at this position could not be fetched.
    Fetch(usize),
    /// The stored snapshot exists but cannot be read as one.
    StateCorrupt,
}

/// What the store held before the run.
#[derive(Debug)]
pub enum PreviousState {
    /// No snapshot was stored: the run starts from an empty one.
    Absent,
    /// Something is stored that is not a snapshot.
    Corrupt,
    Loaded(Snapshot),
}

impl PreviousState {
    pub open spec fn wf(&self) -> bool {
        match self {
            PreviousState::Loaded(s) => s.wf(),
            _ => true,
        }
    }

    /// The previous snapshot; an absent one is empty.
    pub open spec fn map(&self) -> Map<Seq<char>, Seq<char>> {
        match self {
            PreviousState::Loaded(s) => s@,
            _ => Map::empty(),
        }
    }
}

/// The outcome of a run that completed.
#[derive(Debug)]
pub struct RunReport {
    /// The repositories with a changed file, each once.
    pub changed: Vec<String>,
    /// The snapshot to store, when it differs from the previous one.
    pub new_state: Option<Snapshot>,
}

/// The content of file `i` was fetched.
pub open spec fn fetch_ok(fetched: Seq<Option<Vec<u8>>>, i: int) -> bool {
    0 <= i < fetched.len() && fetched[i] is Some
}

pub open spec fn all_fetched(n: int, fetched: Seq<Option<Vec<u8>>>) -> bool {
    forall|i: int| 0 <= i < n ==> #[trigger] fetch_ok(fetched, i)
}

/// Decides one run. `fetched[i]` is what fetching `files[i]` gave, `None`
/// where it failed; a file past the end of `fetched` was not fetched. The
/// first file that was not fetched stops the run, before the previous state
/// is looked at; a corrupt previous state stops it next. Otherwise the run
/// reports the repositories with changed files, and hands back the new
/// snapshot to store exactly when it differs from the previous one.
pub fn check_for_changes(
    files: &Vec<TrackedFile>,
    fetched: &Vec<Option<Vec<u8>>>,
    previous: &PreviousState,
) -> (r: Result<RunReport, RunError>)
    requires
        previous.wf(),
    ensures
        match r {
            Err(RunError::Fetch(i)) => {
                &&& i < files@.len()
                &&& !fetch_ok(fetched@, i as int)
                &&& all_fetched(i as int, fetched@)
            },
            Err(RunError::StateCorrupt) => {
                &&& all_fetched(files@.len() as int, fetched@)
                &&& previous is Corrupt
            },
            Ok(report) => {
                let cur = current_map(files@, fetched_contents(fetched@));
                &&& all_fetched(files@.len() as int, fetched@)
                &&& !(previous is Corrupt)
                &&& names(report.changed@).no_duplicates()
                &&& names(report.changed@).to_set() == change_set(cur, previous.map())
                &&& match report.new_state {
                    Some(s) => s.wf() && s@ == cur && cur != previous.map(),
                    None => cur == previous.map(),
                }
            },
        },
{
    let mut i: usize = 0;
    while i < files.len()
        invariant
            i <= files@.len(),
            all_fetched(i as int, fetched@),
        decreases files@.len() - i,
    {
        if i >= fetched.len() {
            return Err(RunError::Fetch(i));
        }
        if fetched[i].is_none() {
            return Err(RunError::Fetch(i));
        }
        i = i + 1;
    }
    let empty = Snapshot::new();
    let prev = match previous {
        PreviousState::Corrupt => {
            return Err(RunError::StateCorrupt);
        },
        PreviousState::Absent => &empty,
        PreviousState::Loaded(s) => s,
    };
    let current = get_current_state(files, fetched);
    let changed = changed_repositories(&current, prev);
    let new_state = if current.same_as(prev) {
        None
    } else {
        Some(current)
    };
    Ok(RunReport { changed, new_state })
}

/// Which keys a run's snapshot holds: those of its files, and when the
/// files' keys are distinct, exactly one per file.
pub proof fn lemma_current_map_keys(files: Seq<TrackedFile>, contents: Seq<Seq<u8>>)
    ensures
        current_map(files, contents).dom().finite(),
        forall|k: Seq<char>|
            #[trigger] current_map(files, contents).contains_key(k) <==> exists|i: int|
                0 <= i < files.len() && watched_key(#[trigger] files[i]) == k,
        (forall|i: int, j: int|
            0 <= i < j < files.len() ==> watched_key(#[trigger] files[i]) != watched_key(
                #[trigger] files[j],
            )) ==> current_map(files, contents).dom().len() == files.len(),
    decreases files.len(),
{
    if files.len() > 0 {
        let init = files.drop_last();
        lemma_current_map_keys(init, contents);
        let last = files.last();
        assert forall|k: Seq<char>|
            #[trigger] current_map(files, contents).contains_key(k) <==> exists|i: int|
                0 <= i < files.len() && watched_key(#[trigger] files[i]) == k by {
            if current_map(files, contents).contains_key(k) && k != watched_key(last) {
                let i = choose|i: int| 0 <= i < init.len() && watched_key(#[trigger] init[i]) == k;
                assert(files[i] == init[i]);
            }
            if exists|i: int| 0 <= i < files.len() && watched_key(#[trigger] files[i]) == k {
                let i = choose|i: int| 0 <= i < files.len() && watched_key(#[trigger] files[i]) == k;
                if i < init.len() {
                    assert(files[i] == init[i]);
                }
            }
        }
        if forall|i: int, j: int|
            0 <= i < j < files.len() ==> watched_key(#[trigger] files[i]) != watched_key(
                #[trigger] files[j],
            ) {
            assert forall|i: int, j: int|
                0 <= i < j < init.len() implies watched_key(#[trigger] init[i]) != watched_key(
                #[trigger] init[j],
            ) by {
                assert(files[i] == init[i] && files[j] == init[j]);
            }
            if current_map(init, contents).contains_key(watched_key(last)) {
                let i = choose|i: int|
                    0 <= i < init.len() && watched_key(#[trigger] init[i]) == watched_key(last);
                assert(files[i] == init[i]);
                assert(files[files.len() - 1] == last);
            }
        }
    }
}

/// A first run, with no stored snapshot and files of distinct keys, treats
/// every file as new: it reports the repositories of all the files, and the
/// snapshot it stores holds exactly one key per file.
pub proof fn lemma_first_run(files: Seq<TrackedFile>, contents: Seq<Seq<u8>>)
    requires
        forall|i: int, j: int|
            0 <= i < j < files.len() ==> watched_key(#[trigger] files[i]) != watched_key(
                #[trigger] files[j],
            ),
    ensures
        current_map(files, contents).dom().len() == files.len(),
        change_set(current_map(files, contents), Map::empty()) == Set::new(
            |r: Seq<char>|
                exists|i: int| 0 <= i < files.len() && repo_of(watched_key(#[trigger] files[i])) == Some(r),
        ),
        files.len() > 0 ==> current_map(files, contents) != Map::<Seq<char>, Seq<char>>::empty(),
{
    let cur = current_map(files, contents);
    lemma_current_map_keys(files, contents);
    let all = Set::new(
        |r: Seq<char>|
            exists|i: int| 0 <= i < files.len() && repo_of(watched_key(#[trigger] files[i])) == Some(r),
    );
    assert forall|r: Seq<char>| #[trigger] change_set(cur, Map::empty()).contains(r) <==> all.contains(r) by {
        if change_set(cur, Map::empty()).contains(r) {
            let k = choose|k: Seq<char>| is_changed(cur, Map::empty(), k) && repo_of(k) == Some(r);
            let i = choose|i: int| 0 <= i < files.len() && watched_key(#[trigger] files[i]) == k;
            assert(repo_of(watched_key(files[i])) == Some(r));
        }
        if all.contains(r) {
            let i = choose|i: int| 0 <= i < files.len() && repo_of(watched_key(#[trigger] files[i])) == Some(r);
            assert(cur.contains_key(watched_key(files[i])));
            assert(is_changed(cur, Map::empty(), watched_key(files[i])));
        }
    }
    assert(change_set(cur, Map::empty()) =~= all);
    if files.len() > 0 {
        assert(cur.contains_key(watched_key(files[0])));
    }
}

/// A run over unchanged content, after a run that stored its snapshot,
/// reports no repository and stores nothing.
pub proof fn lemma_repeat_run_is_quiet(
    files: Seq<TrackedFile>,
    contents: Seq<Seq<u8>>,
    stored: Map<Seq<char>, Seq<char>>,
)
    requires
        stored == current_map(files, contents),
    ensures
        change_set(current_map(files, contents), stored) == Set::<Seq<char>>::empty(),
        current_map(files, contents) == stored,
{
    assert(change_set(current_map(files, contents), stored) =~= Set::<Seq<char>>::empty());
}

/// A key whose fingerprint differs from the stored one reports its
/// repository, and the snapshot differs from the stored one, so it is
/// stored, with the new fingerprint.
pub proof fn lemma_change_detected(
    cur: Map<Seq<char>, Seq<char>>,
    prev: Map<Seq<char>, Seq<char>>,
    k: Seq<char>,
)
    requires
        cur.contains_key(k),
        prev.contains_key(k),
        cur[k] != prev[k],
        repo_of(k) is Some,
    ensures
        change_set(cur, prev).contains(repo_of(k)->0),
        cur != prev,
{
    assert(is_changed(cur, prev, k));
}

/// Changed keys that all belong to one repository report that repository
/// once: the list of changed repositories has exactly one element.
pub proof fn lemma_one_repository_once(
    cur: Map<Seq<char>, Seq<char>>,
    prev: Map<Seq<char>, Seq<char>>,
    r: Seq<char>,
    reported: Seq<Seq<char>>,
)
    requires
        exists|k: Seq<char>| is_changed(cur, prev, k) && #[trigger] repo_of(k) == Some(r),
        forall|k: Seq<char>| is_changed(cur, prev, k) ==> #[trigger] repo_of(k) == Some(r),
        reported.no_duplicates(),
        reported.to_set() == change_set(cur, prev),
    ensures
        change_set(cur, prev) == set![r],
        reported.len() == 1,
{
    assert forall|x: Seq<char>| #[trigger] change_set(cur, prev).contains(x) <==> x == r by {
        if change_set(cur, prev).contains(x) {
            let k = choose|k: Seq<char>| is_changed(cur, prev, k) && repo_of(k) == Some(x);
        }
    }
    assert(change_set(cur, prev) =~= set![r]);
    reported.unique_seq_to_set();
}

} // verus!
