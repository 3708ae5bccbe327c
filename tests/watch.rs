use repo_watch::watch::{fetch_url, file_key, repo_of_key, watched_files, Repository, TrackedFile};

fn file(owner: &str, repo: &str, branch: &str, path: &str, token: Option<&str>) -> TrackedFile {
    TrackedFile {
        owner: owner.to_string(),
        repo: repo.to_string(),
        branch: branch.to_string(),
        path: path.to_string(),
        token: token.map(|t| t.to_string()),
    }
}

#[test]
fn key_joins_owner_repo_and_path() {
    let f = file("owner", "repo", "main", "dir/file.txt", Some("secret"));
    assert_eq!(file_key(&f), "owner/repo/dir/file.txt");
    let g = file("owner", "repo", "dev", "dir/file.txt", None);
    assert_eq!(file_key(&g), file_key(&f));
}

#[test]
fn repository_of_a_key() {
    assert_eq!(repo_of_key(&"owner/repo/file.txt".to_string()), Some("owner/repo".to_string()));
    assert_eq!(repo_of_key(&"owner/repo/a/b/c".to_string()), Some("owner/repo".to_string()));
    assert_eq!(repo_of_key(&"owner/repo".to_string()), Some("owner/repo".to_string()));
    assert_eq!(repo_of_key(&"/x".to_string()), Some("/x".to_string()));
    assert_eq!(repo_of_key(&"plain".to_string()), None);
    assert_eq!(repo_of_key(&"".to_string()), None);
}

#[test]
fn url_without_and_with_token() {
    let f = file("rust-lang", "rust", "master", "README.md", None);
    assert_eq!(
        fetch_url(&f),
        "https://raw.githubusercontent.com/rust-lang/rust/refs/heads/master/README.md"
    );
    let g = file("test-owner", "test-repo", "main", "test.txt", Some("test-token"));
    assert_eq!(
        fetch_url(&g),
        "https://raw.githubusercontent.com/test-owner/test-repo/refs/heads/main/test.txt?token=test-token"
    );
}

#[test]
fn files_of_each_repository_in_order() {
    let repos = vec![
        Repository {
            owner: "a".to_string(),
            repo: "one".to_string(),
            token: "".to_string(),
            branch: "main".to_string(),
            files: vec!["x.txt".to_string(), "y.txt".to_string()],
        },
        Repository {
            owner: "b".to_string(),
            repo: "two".to_string(),
            token: "tok".to_string(),
            branch: "dev".to_string(),
            files: vec!["z.txt".to_string()],
        },
        Repository {
            owner: "c".to_string(),
            repo: "three".to_string(),
            token: "".to_string(),
            branch: "main".to_string(),
            files: vec![],
        },
    ];
    let files = watched_files(&repos);
    assert_eq!(files.len(), 3);
    let keys: Vec<String> = files.iter().map(file_key).collect();
    assert_eq!(keys, vec!["a/one/x.txt", "a/one/y.txt", "b/two/z.txt"]);
    assert_eq!(files[0].token, None);
    assert_eq!(files[2].token, Some("tok".to_string()));
    assert_eq!(files[2].branch, "dev");
}
