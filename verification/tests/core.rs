use folder_watch::changes::derive_changes;
use folder_watch::digest::sha256_hex;
use folder_watch::filter::should_include_file;
use folder_watch::json::observed_change_to_json;
use folder_watch::model::{
    ObservedChange, ObservedChangeKind, ObservedFile, StoredConfig, StoredFingerprint,
};
use folder_watch::path::file_name_text;
use folder_watch::path_map::PathMap;
use folder_watch::scan::{fingerprint_for, FileStat};

fn fingerprint(hash: &str) -> StoredFingerprint {
    StoredFingerprint { size_bytes: 10, modified_unix_ms: 20, sha256: hash.to_string() }
}

fn observed(path: &str, hash: &str) -> ObservedFile {
    ObservedFile {
        absolute_path: path.to_string(),
        relative_path: file_name_text(path),
        fingerprint: fingerprint(hash),
    }
}

#[test]
fn hidden_files_are_excluded_by_default() {
    let config = StoredConfig::default();
    assert!(!should_include_file("/input/.secret".as_bytes(), &config));
    assert!(!should_include_file("/input/.dir/file.txt".as_bytes(), &config));
    assert!(should_include_file("/input/visible.txt".as_bytes(), &config));
}

#[test]
fn extension_filter_is_case_insensitive_and_trims_dots() {
    let config = StoredConfig {
        extensions: vec![" .RS ".to_string(), "toml".to_string()],
        ..StoredConfig::default()
    };
    assert!(should_include_file("/input/main.rs".as_bytes(), &config));
    assert!(should_include_file("/input/Cargo.TOML".as_bytes(), &config));
    assert!(!should_include_file("/input/readme.md".as_bytes(), &config));
}

#[test]
fn first_scan_suppresses_existing_files_unless_configured() {
    let previous: PathMap<StoredFingerprint> = PathMap::new();
    let mut current: PathMap<ObservedFile> = PathMap::new();
    current.insert("/input/a.txt".to_string(), observed("/input/a.txt", "a"));

    assert!(derive_changes("watch.folder", &previous, &current, false).is_empty());

    let changes = derive_changes("watch.folder", &previous, &current, true);
    assert_eq!(changes.len(), 1);
    assert_eq!(changes[0].change_kind, ObservedChangeKind::Created);
}

#[test]
fn changed_fingerprint_emits_modified_event() {
    let mut previous: PathMap<StoredFingerprint> = PathMap::new();
    previous.insert("/input/a.txt".to_string(), fingerprint("old"));
    let mut current: PathMap<ObservedFile> = PathMap::new();
    current.insert("/input/a.txt".to_string(), observed("/input/a.txt", "new"));

    let changes = derive_changes("watch.folder", &previous, &current, false);
    assert_eq!(changes.len(), 1);
    assert_eq!(changes[0].change_kind, ObservedChangeKind::Modified);
}

#[test]
fn missing_current_file_emits_deleted_event() {
    let mut previous: PathMap<StoredFingerprint> = PathMap::new();
    previous.insert("/input/a.txt".to_string(), fingerprint("old"));
    let current: PathMap<ObservedFile> = PathMap::new();

    let changes = derive_changes("watch.folder", &previous, &current, false);
    assert_eq!(changes.len(), 1);
    assert_eq!(changes[0].change_kind, ObservedChangeKind::Deleted);
    assert_eq!(changes[0].relative_path, "a.txt");
}

#[test]
fn observed_change_json_preserves_payload_shape() {
    let change = ObservedChange {
        watcher: "folder-watch-actor".to_string(),
        stream_name: "watch.folder".to_string(),
        change_kind: ObservedChangeKind::Created,
        absolute_path: "/input/a.txt".to_string(),
        relative_path: "a.txt".to_string(),
        size_bytes: Some(10),
        modified_unix_ms: Some(20),
        sha256: Some("abc".to_string()),
        detected_at: "now".to_string(),
    };

    let json = observed_change_to_json(&change);
    assert_eq!(json["watcher"], "folder-watch-actor");
    assert_eq!(json["stream"], "watch.folder");
    assert_eq!(json["change_kind"], "created");
    assert_eq!(json["absolute_path"], "/input/a.txt");
    assert_eq!(json["relative_path"], "a.txt");
    assert_eq!(json["size_bytes"], 10);
    assert_eq!(json["modified_unix_ms"], 20);
    assert_eq!(json["sha256"], "abc");
    assert_eq!(json["detected_at"], "now");
}

#[test]
fn fingerprint_reads_file_content_hash() {
    let stat = FileStat { size_bytes: 5, modified_ms: Some(7) };
    let fp = fingerprint_for(stat, b"hello");
    assert_eq!(fp.size_bytes, 5);
    assert_eq!(fp.sha256, sha256_hex(b"hello"));
}
