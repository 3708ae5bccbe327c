use repo_watch::snapshot::Snapshot;

fn pairs(items: &[(&str, &str)]) -> Vec<(String, String)> {
    items.iter().map(|(k, v)| (k.to_string(), v.to_string())).collect()
}

#[test]
fn empty_snapshot() {
    let s = Snapshot::new();
    assert_eq!(s.len(), 0);
    assert_eq!(s.get(&"owner/repo/file.txt".to_string()), None);
    assert!(s.entries().is_empty());
}

#[test]
fn insert_replaces_the_fingerprint_of_a_key() {
    let mut s = Snapshot::new();
    s.insert("owner/repo/file.txt".to_string(), "hashA".to_string());
    s.insert("owner/repo/other.txt".to_string(), "hashC".to_string());
    s.insert("owner/repo/file.txt".to_string(), "hashB".to_string());
    assert_eq!(s.len(), 2);
    assert_eq!(s.get(&"owner/repo/file.txt".to_string()), Some(&"hashB".to_string()));
    assert_eq!(s.entries(), pairs(&[("owner/repo/file.txt", "hashB"), ("owner/repo/other.txt", "hashC")]));
}

#[test]
fn entries_round_trip() {
    for items in [
        vec![],
        vec![("owner/repo/file.txt", "hash123")],
        vec![("a/b/c", "1"), ("a/b/d", "2"), ("x/y/z", "3"), ("x/y/w", "4")],
    ] {
        let loaded = Snapshot::from_entries(&pairs(&items));
        let again = Snapshot::from_entries(&loaded.entries());
        assert!(again.same_as(&loaded));
        assert_eq!(again.entries(), loaded.entries());
        assert_eq!(again.len(), items.len());
    }
}

#[test]
fn later_entry_wins_when_loading() {
    let s = Snapshot::from_entries(&pairs(&[("k/r/f", "old"), ("k/r/f", "new")]));
    assert_eq!(s.len(), 1);
    assert_eq!(s.get(&"k/r/f".to_string()), Some(&"new".to_string()));
}

#[test]
fn comparison_of_whole_snapshots() {
    let a = Snapshot::from_entries(&pairs(&[("a/b/c", "1"), ("a/b/d", "2")]));
    let b = Snapshot::from_entries(&pairs(&[("a/b/d", "2"), ("a/b/c", "1")]));
    let c = Snapshot::from_entries(&pairs(&[("a/b/d", "2"), ("a/b/c", "9")]));
    let d = Snapshot::from_entries(&pairs(&[("a/b/d", "2")]));
    let e = Snapshot::from_entries(&pairs(&[("a/b/d", "2"), ("a/b/x", "1")]));
    assert!(a.same_as(&b));
    assert!(!a.same_as(&c));
    assert!(!a.same_as(&d));
    assert!(!d.same_as(&a));
    assert!(!a.same_as(&e));
}
