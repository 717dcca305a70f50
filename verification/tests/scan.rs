use folder_watch::digest::sha256_hex;
use folder_watch::model::{ObservedFile, StoredConfig};
use folder_watch::path_map::PathMap;
use folder_watch::scan::{
    fingerprint_for, whole_millis, Entry, EntryKind, FileStat, FolderScan, ScanAction, ScanEvent,
};

/// A tree of files: each directory with its entries, by their paths.
fn entries_of(path: &str) -> Vec<&'static str> {
    match path {
        "/in" => vec!["/in/b.txt", "/in/sub", "/in/link", "/in/pipe", "/in/.hidden", "/in/a.rs"],
        "/in/sub" => vec!["/in/sub/deep", "/in/sub/c.txt"],
        "/in/sub/deep" => vec!["/in/sub/deep/d.txt"],
        _ => panic!("{} is no directory", path),
    }
}

fn kind_of(path: &str) -> EntryKind {
    match path {
        "/in/sub" | "/in/sub/deep" => EntryKind::Directory,
        "/in/link" => EntryKind::Symlink,
        "/in/pipe" => EntryKind::Other,
        _ => EntryKind::File,
    }
}

fn text(path: &Vec<u8>) -> String {
    String::from_utf8(path.clone()).unwrap()
}

fn answer(action: &ScanAction) -> ScanEvent {
    match action {
        ScanAction::CheckExists => ScanEvent::Exists(true),
        ScanAction::CheckDirectory => ScanEvent::Directory(true),
        ScanAction::List(path) => ScanEvent::Listed(Ok(
            entries_of(&text(path)).iter().map(|e| Entry::Path(e.as_bytes().to_vec())).collect(),
        )),
        ScanAction::Inspect(path) => ScanEvent::Inspected(Ok(kind_of(&text(path)))),
        ScanAction::Stat(path) => ScanEvent::Statted(Ok(FileStat {
            size_bytes: path.len() as u64,
            modified_ms: Some(1000),
        })),
        ScanAction::Read(path) => ScanEvent::Read(Ok(path.clone())),
        ScanAction::Finish => panic!("the scan is over"),
    }
}

fn label(action: &ScanAction) -> String {
    match action {
        ScanAction::CheckExists => "exists".to_string(),
        ScanAction::CheckDirectory => "directory".to_string(),
        ScanAction::List(path) => format!("list {}", text(path)),
        ScanAction::Inspect(path) => format!("inspect {}", text(path)),
        ScanAction::Stat(path) => format!("stat {}", text(path)),
        ScanAction::Read(path) => format!("read {}", text(path)),
        ScanAction::Finish => "finish".to_string(),
    }
}

fn config() -> StoredConfig {
    StoredConfig { watch_path: "/in".to_string(), ..StoredConfig::default() }
}

/// Scans the tree, but hands out `failure` in place of the answer to `at`.
fn scan_with(
    config: &StoredConfig,
    at: &str,
    failure: Option<ScanEvent>,
) -> (Vec<String>, Result<PathMap<ObservedFile>, String>) {
    let mut scan = FolderScan::new(config);
    let mut failure = failure;
    let mut log = Vec::new();
    loop {
        let action = scan.action();
        if matches!(action, ScanAction::Finish) {
            assert!(scan.is_over());
            return (log, scan.outcome().unwrap());
        }
        assert!(!scan.is_over());
        log.push(label(&action));
        let event = if label(&action) == at && failure.is_some() {
            failure.take().unwrap()
        } else {
            answer(&action)
        };
        scan.advance(event);
    }
}

fn paths(found: &PathMap<ObservedFile>) -> Vec<String> {
    (0..found.len()).map(|i| found.entry(i).unwrap().0.clone()).collect()
}

#[test]
fn a_recursive_scan_finds_every_watched_file() {
    let (log, result) = scan_with(&config(), "", None);
    let found = match result {
        Ok(found) => found,
        Err(error) => panic!("{}", error),
    };
    assert_eq!(
        paths(&found),
        vec!["/in/a.rs", "/in/b.txt", "/in/sub/c.txt", "/in/sub/deep/d.txt"]
    );
    assert_eq!(
        log,
        vec![
            "exists", "directory", "list /in", "inspect /in/b.txt", "stat /in/b.txt",
            "read /in/b.txt", "inspect /in/sub", "list /in/sub", "inspect /in/sub/deep",
            "list /in/sub/deep", "inspect /in/sub/deep/d.txt", "stat /in/sub/deep/d.txt",
            "read /in/sub/deep/d.txt", "inspect /in/sub/c.txt", "stat /in/sub/c.txt",
            "read /in/sub/c.txt", "inspect /in/link", "inspect /in/pipe",
            "inspect /in/.hidden", "inspect /in/a.rs", "stat /in/a.rs", "read /in/a.rs",
        ]
    );
    let file = found.get("/in/sub/c.txt").unwrap();
    assert_eq!(file.absolute_path, "/in/sub/c.txt");
    assert_eq!(file.relative_path, "sub/c.txt");
    assert_eq!(file.fingerprint.size_bytes, 13);
    assert_eq!(file.fingerprint.modified_unix_ms, 1000);
    assert_eq!(file.fingerprint.sha256, sha256_hex(b"/in/sub/c.txt"));
}

#[test]
fn a_flat_scan_stays_in_its_folder() {
    let flat = StoredConfig { recursive: false, ..config() };
    let (log, result) = scan_with(&flat, "", None);
    assert_eq!(paths(&result.ok().unwrap()), vec!["/in/a.rs", "/in/b.txt"]);
    assert!(!log.contains(&"list /in/sub".to_string()));
}

#[test]
fn only_watched_files_are_read() {
    let rust = StoredConfig { extensions: vec!["rs".to_string()], ..config() };
    let (log, result) = scan_with(&rust, "", None);
    assert_eq!(paths(&result.ok().unwrap()), vec!["/in/a.rs"]);
    assert!(!log.contains(&"stat /in/b.txt".to_string()));
    let hidden = StoredConfig { include_hidden: true, recursive: false, ..config() };
    let (_log, result) = scan_with(&hidden, "", None);
    assert_eq!(paths(&result.ok().unwrap()), vec!["/in/.hidden", "/in/a.rs", "/in/b.txt"]);
}

#[test]
fn an_empty_folder_has_no_files() {
    let (log, result) = scan_with(&config(), "list /in", Some(ScanEvent::Listed(Ok(vec![]))));
    assert!(result.ok().unwrap().is_empty());
    assert_eq!(log.len(), 3);
}

fn failure(at: &str, event: ScanEvent) -> String {
    let (log, result) = scan_with(&config(), at, Some(event));
    assert_eq!(log.last().unwrap(), at);
    match result {
        Ok(_) => panic!("no failure at {}", at),
        Err(error) => error,
    }
}

#[test]
fn each_failure_has_its_text() {
    let e = || "boom".to_string();
    assert_eq!(failure("exists", ScanEvent::Exists(false)), "watch path does not exist: /in");
    assert_eq!(
        failure("directory", ScanEvent::Directory(false)),
        "watch path is not a directory: /in"
    );
    assert_eq!(
        failure("list /in/sub", ScanEvent::Listed(Err(e()))),
        "failed to read '/in/sub': boom"
    );
    assert_eq!(
        failure("inspect /in/sub", ScanEvent::Inspected(Err(e()))),
        "failed to stat '/in/sub': boom"
    );
    assert_eq!(
        failure("stat /in/b.txt", ScanEvent::Statted(Err(e()))),
        "failed to stat '/in/b.txt': boom"
    );
    assert_eq!(
        failure("read /in/b.txt", ScanEvent::Read(Err(e()))),
        "failed to read '/in/b.txt': boom"
    );
    assert_eq!(
        failure("list /in", ScanEvent::Listed(Ok(vec![Entry::Unreadable(e())]))),
        "failed reading dir entry: boom"
    );
}

#[test]
fn a_path_that_is_no_text_is_reported_with_replacements() {
    let mut scan = FolderScan::new(&config());
    scan.advance(ScanEvent::Exists(true));
    scan.advance(ScanEvent::Directory(true));
    scan.advance(ScanEvent::Listed(Ok(vec![Entry::Path(b"/in/x\xfe".to_vec())])));
    scan.advance(ScanEvent::Inspected(Ok(EntryKind::File)));
    scan.advance(ScanEvent::Statted(Ok(FileStat { size_bytes: 1, modified_ms: None })));
    scan.advance(ScanEvent::Read(Ok(vec![1])));
    let found = match scan.outcome() {
        Some(Ok(found)) => found,
        _ => panic!("the scan failed"),
    };
    let file = found.get("/in/x\u{fffd}").unwrap();
    assert_eq!(file.relative_path, "x\u{fffd}");
    assert_eq!(file.fingerprint.modified_unix_ms, 0);
}

#[test]
fn what_was_not_asked_for_changes_nothing() {
    let mut scan = FolderScan::new(&config());
    scan.advance(ScanEvent::Directory(true));
    assert!(matches!(scan.action(), ScanAction::CheckExists));
    scan.advance(ScanEvent::Exists(false));
    assert!(scan.is_over());
    scan.advance(ScanEvent::Exists(true));
    assert!(matches!(scan.action(), ScanAction::Finish));
    assert!(matches!(scan.outcome(), Some(Err(_))));
    assert!(FolderScan::new(&config()).outcome().is_none());
}

#[test]
fn milliseconds_keep_their_low_bits() {
    assert_eq!(whole_millis(5), 5);
    assert_eq!(whole_millis(u64::MAX as u128), u64::MAX);
    assert_eq!(whole_millis(u64::MAX as u128 + 8), 7);
    let stat = FileStat { size_bytes: 2, modified_ms: Some((1u128 << 64) + 3) };
    assert_eq!(fingerprint_for(stat, b"ab").modified_unix_ms, 3);
}

#[test]
fn links_make_no_difference() {
    let (log, with_links) = scan_with(&config(), "", None);
    let plain: Vec<Entry> = entries_of("/in")
        .iter()
        .filter(|e| kind_of(e) != EntryKind::Symlink)
        .map(|e| Entry::Path(e.as_bytes().to_vec()))
        .collect();
    let (plain_log, without) = scan_with(&config(), "list /in", Some(ScanEvent::Listed(Ok(plain))));
    let (a, b) = (with_links.ok().unwrap(), without.ok().unwrap());
    assert_eq!(paths(&a), paths(&b));
    assert_eq!(log.len(), plain_log.len() + 1);
    for path in paths(&a) {
        let (x, y) = (a.get(&path).unwrap(), b.get(&path).unwrap());
        assert_eq!(x.relative_path, y.relative_path);
        assert_eq!(x.fingerprint.sha256, y.fingerprint.sha256);
    }
}

#[test]
fn recursion_only_adds_what_lies_below() {
    let flat = StoredConfig { recursive: false, ..config() };
    let few = scan_with(&flat, "", None).1.ok().unwrap();
    let many = scan_with(&config(), "", None).1.ok().unwrap();
    for path in paths(&few) {
        let (x, y) = (few.get(&path).unwrap(), many.get(&path).unwrap());
        assert_eq!(x.absolute_path, y.absolute_path);
        assert_eq!(x.relative_path, y.relative_path);
        assert_eq!(x.fingerprint.size_bytes, y.fingerprint.size_bytes);
        assert_eq!(x.fingerprint.modified_unix_ms, y.fingerprint.modified_unix_ms);
        assert_eq!(x.fingerprint.sha256, y.fingerprint.sha256);
    }
    let added: Vec<String> =
        paths(&many).into_iter().filter(|path| !few.contains_key(path)).collect();
    assert_eq!(added, vec!["/in/sub/c.txt", "/in/sub/deep/d.txt"]);
}

#[test]
fn a_hidden_folder_yields_nothing() {
    let hidden = StoredConfig { watch_path: "/home/.cache".to_string(), ..StoredConfig::default() };
    let listing = || {
        ScanEvent::Listed(Ok(vec![Entry::Path(b"/home/.cache/a.txt".to_vec())]))
    };
    let (log, result) = scan_with(&hidden, "list /home/.cache", Some(listing()));
    assert!(result.ok().unwrap().is_empty());
    assert_eq!(log.last().unwrap(), "inspect /home/.cache/a.txt");
    let shown = StoredConfig { include_hidden: true, ..hidden };
    let (_log, result) = scan_with(&shown, "list /home/.cache", Some(listing()));
    assert_eq!(paths(&result.ok().unwrap()), vec!["/home/.cache/a.txt"]);
}
