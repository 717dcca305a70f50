use folder_watch::changes::{derive_changes, derive_changes_at, take_snapshot};
use folder_watch::model::{ObservedChange, ObservedChangeKind, ObservedFile, StoredFingerprint};
use folder_watch::path_map::PathMap;

fn fingerprint(size_bytes: u64, modified_unix_ms: u64, hash: &str) -> StoredFingerprint {
    StoredFingerprint { size_bytes, modified_unix_ms, sha256: hash.to_string() }
}

fn observed(path: &str, relative: &str, print: StoredFingerprint) -> ObservedFile {
    ObservedFile {
        absolute_path: path.to_string(),
        relative_path: relative.to_string(),
        fingerprint: print,
    }
}

fn found(paths: &[(&str, u64)]) -> PathMap<ObservedFile> {
    let mut current: PathMap<ObservedFile> = PathMap::new();
    for (path, size) in paths {
        current.insert(path.to_string(), observed(path, path, fingerprint(*size, 1, "h")));
    }
    current
}

fn summary(changes: &Vec<ObservedChange>) -> Vec<(ObservedChangeKind, String)> {
    changes.iter().map(|c| (c.change_kind, c.absolute_path.clone())).collect()
}

#[test]
fn a_change_has_all_that_is_known_of_the_file() {
    let mut previous: PathMap<StoredFingerprint> = PathMap::new();
    previous.insert("/in/gone/x.txt".to_string(), fingerprint(3, 4, "g"));
    let mut current: PathMap<ObservedFile> = PathMap::new();
    current.insert("/in/a".to_string(), observed("/in/a", "a", fingerprint(8, 9, "abc")));
    let changes = derive_changes_at("s", &previous, &current, false, "noon");
    assert_eq!(changes.len(), 2);
    assert_eq!(changes[0].watcher, "folder-watch-actor");
    assert_eq!(changes[0].stream_name, "s");
    assert_eq!(changes[0].change_kind, ObservedChangeKind::Created);
    assert_eq!(changes[0].absolute_path, "/in/a");
    assert_eq!(changes[0].relative_path, "a");
    assert_eq!(changes[0].size_bytes, Some(8));
    assert_eq!(changes[0].modified_unix_ms, Some(9));
    assert_eq!(changes[0].sha256, Some("abc".to_string()));
    assert_eq!(changes[0].detected_at, "noon");
    assert_eq!(changes[1].watcher, "folder-watch-actor");
    assert_eq!(changes[1].change_kind, ObservedChangeKind::Deleted);
    assert_eq!(changes[1].absolute_path, "/in/gone/x.txt");
    assert_eq!(changes[1].relative_path, "x.txt");
    assert_eq!(changes[1].size_bytes, None);
    assert_eq!(changes[1].modified_unix_ms, None);
    assert_eq!(changes[1].sha256, None);
    assert_eq!(changes[1].detected_at, "noon");
}

#[test]
fn each_part_of_a_fingerprint_counts() {
    let old = fingerprint(1, 2, "h");
    for (new, changed) in vec![
        (fingerprint(1, 2, "h"), false),
        (fingerprint(9, 2, "h"), true),
        (fingerprint(1, 9, "h"), true),
        (fingerprint(1, 2, "x"), true),
    ] {
        let mut previous: PathMap<StoredFingerprint> = PathMap::new();
        previous.insert("/a".to_string(), old.clone());
        let mut current: PathMap<ObservedFile> = PathMap::new();
        current.insert("/a".to_string(), observed("/a", "a", new));
        let changes = derive_changes_at("s", &previous, &current, false, "now");
        assert_eq!(changes.len() == 1, changed);
        assert!(changes.iter().all(|c| c.change_kind == ObservedChangeKind::Modified));
    }
}

#[test]
fn changes_come_in_the_order_of_the_paths() {
    let before = take_snapshot(&found(&[("/d", 1), ("/b", 1), ("/z", 1), ("/a", 1)]));
    let after = found(&[("/c", 1), ("/z", 2), ("/d", 1), ("/B", 1)]);
    let changes = derive_changes_at("s", &before, &after, false, "now");
    assert_eq!(
        summary(&changes),
        vec![
            (ObservedChangeKind::Created, "/B".to_string()),
            (ObservedChangeKind::Created, "/c".to_string()),
            (ObservedChangeKind::Modified, "/z".to_string()),
            (ObservedChangeKind::Deleted, "/a".to_string()),
            (ObservedChangeKind::Deleted, "/b".to_string()),
        ]
    );
}

#[test]
fn nothing_changed_means_nothing_reported() {
    let current = found(&[("/d", 1), ("/b", 2)]);
    let snapshot = take_snapshot(&current);
    assert!(derive_changes_at("s", &snapshot, &current, false, "now").is_empty());
    assert!(derive_changes_at("s", &snapshot, &current, true, "now").is_empty());
}

#[test]
fn the_reports_make_the_next_snapshot() {
    let before = take_snapshot(&found(&[("/d", 1), ("/b", 1), ("/a", 1)]));
    let after = found(&[("/c", 1), ("/d", 2), ("/a", 1)]);
    let goal = take_snapshot(&after);
    let mut rebuilt: Vec<(String, u64)> = Vec::new();
    for i in 0..before.len() {
        let (path, print) = before.entry(i).unwrap();
        rebuilt.push((path.clone(), print.size_bytes));
    }
    for change in derive_changes_at("s", &before, &after, false, "now") {
        rebuilt.retain(|(path, _size)| *path != change.absolute_path);
        if let Some(size) = change.size_bytes {
            rebuilt.push((change.absolute_path, size));
        }
    }
    rebuilt.sort();
    assert_eq!(rebuilt.len(), goal.len());
    for (i, (path, size)) in rebuilt.iter().enumerate() {
        let (key, print) = goal.entry(i).unwrap();
        assert_eq!(key, path);
        assert_eq!(print.size_bytes, *size);
    }
}

#[test]
fn a_snapshot_keeps_the_fingerprints() {
    let snapshot = take_snapshot(&found(&[("/d", 7), ("/b", 8)]));
    assert_eq!(snapshot.len(), 2);
    assert_eq!(snapshot.get("/d").unwrap().size_bytes, 7);
    assert_eq!(snapshot.get("/b").unwrap().size_bytes, 8);
    assert_eq!(snapshot.get("/b").unwrap().sha256, "h");
    assert_eq!(snapshot.get("/b").unwrap().modified_unix_ms, 1);
}

#[test]
fn the_time_of_detection_is_the_time_of_day() {
    let previous: PathMap<StoredFingerprint> = PathMap::new();
    let before = chrono::Utc::now();
    let changes = derive_changes("s", &previous, &found(&[("/a", 1), ("/b", 1)]), true);
    let after = chrono::Utc::now();
    assert_eq!(changes.len(), 2);
    let time = chrono::DateTime::parse_from_rfc3339(&changes[0].detected_at).unwrap();
    assert!(before <= time && time <= after);
    assert!(changes[0].detected_at.ends_with("+00:00"));
    assert_eq!(changes[0].detected_at, changes[1].detected_at);
}
