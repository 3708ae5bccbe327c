use repo_watch::engine::{
    changed_repositories, check_for_changes, get_current_state, PreviousState, RunError, RunReport,
};
use repo_watch::fingerprint::digest;
use repo_watch::snapshot::Snapshot;
use repo_watch::watch::{file_key, TrackedFile};

fn file(owner: &str, repo: &str, path: &str) -> TrackedFile {
    TrackedFile {
        owner: owner.to_string(),
        repo: repo.to_string(),
        branch: "main".to_string(),
        path: path.to_string(),
        token: None,
    }
}

fn fetched(contents: &[&str]) -> Vec<Option<Vec<u8>>> {
    contents.iter().map(|c| Some(c.as_bytes().to_vec())).collect()
}

fn snapshot(items: &[(&str, &str)]) -> Snapshot {
    let v: Vec<(String, String)> =
        items.iter().map(|(k, d)| (k.to_string(), d.to_string())).collect();
    Snapshot::from_entries(&v)
}

fn sorted(mut v: Vec<String>) -> Vec<String> {
    v.sort();
    v
}

fn completed(r: Result<RunReport, RunError>) -> RunReport {
    match r {
        Ok(report) => report,
        Err(e) => panic!("run stopped: {:?}", e),
    }
}

fn failed(r: Result<RunReport, RunError>) -> RunError {
    match r {
        Ok(report) => panic!("run completed: {:?}", report.changed),
        Err(e) => e,
    }
}

#[test]
fn current_state_keys_each_file_with_its_fingerprint() {
    let files = vec![file("o", "r", "a.txt"), file("o", "s", "b.txt")];
    let snap = get_current_state(&files, &fetched(&["alpha", "beta"]));
    assert_eq!(snap.len(), 2);
    assert_eq!(snap.get(&"o/r/a.txt".to_string()), Some(&digest(b"alpha")));
    assert_eq!(snap.get(&"o/s/b.txt".to_string()), Some(&digest(b"beta")));
}

#[test]
fn first_run_reports_every_repository_and_stores_every_file() {
    let files = vec![
        file("rust-lang", "rust", "README.md"),
        file("rust-lang", "rust", "LICENSE"),
        file("rust-lang", "cargo", "README.md"),
    ];
    let report = completed(check_for_changes(
        &files,
        &fetched(&["one", "two", "three"]),
        &PreviousState::Absent,
    ));
    assert_eq!(sorted(report.changed), vec!["rust-lang/cargo", "rust-lang/rust"]);
    let stored = report.new_state.expect("a first run stores its snapshot");
    assert_eq!(stored.len(), 3);
    for (f, c) in files.iter().zip(["one", "two", "three"]) {
        assert_eq!(stored.get(&file_key(f)), Some(&digest(c.as_bytes())));
    }
}

#[test]
fn second_run_over_unchanged_content_is_quiet() {
    let files = vec![file("owner", "repo", "file.txt"), file("owner", "other", "x")];
    let content = fetched(&["same", "content"]);
    let first = completed(check_for_changes(&files, &content, &PreviousState::Absent));
    let stored = first.new_state.expect("first run stores");
    let second = completed(check_for_changes(&files, &content, &PreviousState::Loaded(stored)));
    assert!(second.changed.is_empty());
    assert!(second.new_state.is_none());
}

#[test]
fn changed_fingerprint_is_reported_once_and_stored() {
    let files = vec![file("owner", "repo", "file.txt")];
    let previous = snapshot(&[("owner/repo/file.txt", "hashA")]);
    let report = completed(check_for_changes(
        &files,
        &fetched(&["new content"]),
        &PreviousState::Loaded(previous),
    ));
    assert_eq!(report.changed, vec!["owner/repo"]);
    let stored = report.new_state.expect("a change is stored");
    assert_eq!(stored.len(), 1);
    assert_eq!(stored.get(&"owner/repo/file.txt".to_string()), Some(&digest(b"new content")));
}

#[test]
fn two_changed_files_of_one_repository_report_it_once() {
    let files = vec![
        file("owner", "repo", "a.txt"),
        file("owner", "repo", "b.txt"),
        file("owner", "quiet", "c.txt"),
    ];
    let c_digest = digest(b"c");
    let previous = snapshot(&[
        ("owner/repo/a.txt", "old-a"),
        ("owner/repo/b.txt", "old-b"),
        ("owner/quiet/c.txt", c_digest.as_str()),
    ]);
    let report = completed(check_for_changes(
        &files,
        &fetched(&["a", "b", "c"]),
        &PreviousState::Loaded(previous),
    ));
    assert_eq!(report.changed, vec!["owner/repo"]);
    assert!(report.new_state.is_some());
}

#[test]
fn corrupt_state_stops_the_run() {
    let files = vec![file("owner", "repo", "file.txt")];
    let e = failed(check_for_changes(&files, &fetched(&["x"]), &PreviousState::Corrupt));
    assert_eq!(e, RunError::StateCorrupt);
}

#[test]
fn fetch_failure_stops_the_run_before_anything_else() {
    let files = vec![
        file("owner", "repo", "a.txt"),
        file("owner", "repo", "b.txt"),
        file("owner", "repo", "c.txt"),
    ];
    let mut results = fetched(&["a", "b", "c"]);
    results[1] = None;
    let e = failed(check_for_changes(&files, &results, &PreviousState::Absent));
    assert_eq!(e, RunError::Fetch(1));
    let e = failed(check_for_changes(&files, &results, &PreviousState::Corrupt));
    assert_eq!(e, RunError::Fetch(1));
    let e = failed(check_for_changes(&files, &fetched(&["a"]), &PreviousState::Absent));
    assert_eq!(e, RunError::Fetch(1));
}

#[test]
fn removed_file_is_not_reported_but_the_snapshot_is_stored() {
    let files = vec![file("owner", "repo", "kept.txt")];
    let kept = digest(b"kept");
    let previous = snapshot(&[
        ("owner/repo/kept.txt", kept.as_str()),
        ("owner/gone/removed.txt", "whatever"),
    ]);
    let report = completed(check_for_changes(
        &files,
        &fetched(&["kept"]),
        &PreviousState::Loaded(previous),
    ));
    assert!(report.changed.is_empty());
    let stored = report.new_state.expect("the smaller snapshot is stored");
    assert_eq!(stored.len(), 1);
    assert_eq!(stored.get(&"owner/gone/removed.txt".to_string()), None);
}

#[test]
fn empty_configuration_with_no_state_changes_nothing() {
    let report = completed(check_for_changes(&vec![], &vec![], &PreviousState::Absent));
    assert!(report.changed.is_empty());
    assert!(report.new_state.is_none());
}

#[test]
fn keys_that_name_no_repository_are_skipped() {
    let current = snapshot(&[("plain", "1"), ("a/b/c", "2"), ("a/b", "3")]);
    let previous = Snapshot::new();
    assert_eq!(changed_repositories(&current, &previous), vec!["a/b"]);
}
