use folder_watch::contract::{
    configure_reply, contract_to_stored_config, control_configure, control_status,
    handle_business_ingress_disabled, health, stored_to_contract_stats, HealthStatus,
    WatcherConfig,
};
use folder_watch::model::{ObservedChangeKind, StoredConfig, StoredFingerprint, StoredStats};
use folder_watch::path_map::PathMap;
use folder_watch::sink::{emit, FileChange};
use folder_watch::state::{
    clear_snapshot, control_reset, load_config, load_snapshot, load_stats, on_load, stored_text,
    StateWrite, StateWrites,
};

fn stats() -> StoredStats {
    StoredStats {
        ticks: 1,
        scans: 20,
        files_seen_total: 3,
        changes_detected_total: 4,
        events_emitted_total: 105,
        last_scan_at: Some("then".to_string()),
        last_error: None,
        last_scan_duration_ms: Some(6),
    }
}

fn watcher_config() -> WatcherConfig {
    WatcherConfig {
        watch_path: "/data".to_string(),
        stream_name: "s".to_string(),
        recursive: false,
        include_hidden: true,
        emit_existing_on_start: true,
        extensions: vec!["a".to_string(), "b".to_string()],
    }
}

fn is_zero(stats: &StoredStats) -> bool {
    stats.ticks == 0
        && stats.scans == 0
        && stats.files_seen_total == 0
        && stats.changes_detected_total == 0
        && stats.events_emitted_total == 0
        && stats.last_scan_at.is_none()
        && stats.last_error.is_none()
        && stats.last_scan_duration_ms.is_none()
}

/// Makes all the writes, and returns the keys.
fn make(state: StateWrites) -> Vec<&'static str> {
    let mut state = state;
    let mut keys = Vec::new();
    while let Some(write) = state.next_write() {
        keys.push(write.key());
        state.advance(Ok(()));
    }
    assert_eq!(state.outcome(), Some(Ok(())));
    keys
}

#[test]
fn the_default_configuration_watches_the_input_folder() {
    let config = load_config(None);
    assert_eq!(config.watch_path, "/input");
    assert_eq!(config.stream_name, "watch.folder");
    assert!(config.recursive);
    assert!(!config.include_hidden);
    assert!(!config.emit_existing_on_start);
    assert!(config.extensions.is_empty());
}

#[test]
fn what_is_stored_is_loaded() {
    let config = contract_to_stored_config(&watcher_config());
    assert_eq!(load_config(Some(config)).watch_path, "/data");
    assert_eq!(load_stats(Some(stats())).scans, 20);
    assert!(is_zero(&load_stats(None)));
    assert!(load_snapshot(None).is_empty());
    let mut snapshot: PathMap<StoredFingerprint> = PathMap::new();
    snapshot.insert(
        "/a".to_string(),
        StoredFingerprint { size_bytes: 1, modified_unix_ms: 2, sha256: "x".to_string() },
    );
    assert_eq!(load_snapshot(Some(snapshot)).len(), 1);
}

#[test]
fn stored_bytes_are_read_as_text() {
    assert_eq!(stored_text(Ok(Some("\u{e4}b".as_bytes().to_vec()))), Some("\u{e4}b".to_string()));
    assert_eq!(stored_text(Ok(Some(vec![0xff]))), None);
    assert_eq!(stored_text(Ok(None)), None);
    assert_eq!(stored_text(Err("no store".to_string())), None);
}

#[test]
fn a_configuration_is_stored_as_it_came() {
    let config = watcher_config();
    let stored = contract_to_stored_config(&config);
    assert_eq!(stored.watch_path, "/data");
    assert_eq!(stored.stream_name, "s");
    assert!(!stored.recursive);
    assert!(stored.include_hidden);
    assert!(stored.emit_existing_on_start);
    assert_eq!(stored.extensions, vec!["a".to_string(), "b".to_string()]);

    let writes = control_configure(&config, false);
    match writes.next_write() {
        Some(StateWrite::Config(written)) => assert_eq!(written.watch_path, "/data"),
        _ => panic!("the configuration comes first"),
    }
    assert_eq!(make(writes), vec!["folder-watch.config.v1"]);
    assert_eq!(
        make(control_configure(&config, true)),
        vec!["folder-watch.config.v1", "folder-watch.snapshot.v1"]
    );
}

#[test]
fn a_configuration_is_answered_with_itself_or_the_failure() {
    let echo = configure_reply(watcher_config(), Ok(())).ok().unwrap();
    assert_eq!(echo.watch_path, "/data");
    let error = configure_reply(watcher_config(), Err("full".to_string())).err().unwrap();
    assert_eq!(error, "full");
}

#[test]
fn the_first_failing_write_ends_a_call() {
    let mut writes = control_configure(&watcher_config(), true);
    writes.advance(Err("full".to_string()));
    assert!(writes.next_write().is_none());
    writes.advance(Ok(()));
    assert!(writes.next_write().is_none());
    assert_eq!(writes.outcome(), Some(Err("full".to_string())));
    assert_eq!(control_reset().outcome(), None);
}

#[test]
fn a_reset_forgets_the_snapshot_and_the_statistics() {
    let mut writes = control_reset();
    match writes.next_write() {
        Some(StateWrite::Snapshot(snapshot)) => assert!(snapshot.is_empty()),
        _ => panic!("the snapshot comes first"),
    }
    writes.advance(Ok(()));
    match writes.next_write() {
        Some(StateWrite::Stats(stats)) => assert!(is_zero(stats)),
        _ => panic!("the statistics come second"),
    }
    assert_eq!(
        make(control_reset()),
        vec!["folder-watch.snapshot.v1", "folder-watch.stats.v1"]
    );
    assert_eq!(clear_snapshot().key(), "folder-watch.snapshot.v1");
}

#[test]
fn a_load_adds_only_what_is_missing() {
    let config = || Some(StoredConfig::default());
    let both = vec!["folder-watch.config.v1", "folder-watch.stats.v1"];
    assert_eq!(make(on_load(&None, &None)), both);
    assert_eq!(make(on_load(&config(), &None)), vec!["folder-watch.stats.v1"]);
    assert_eq!(make(on_load(&None, &Some(stats()))), vec!["folder-watch.config.v1"]);
    assert!(make(on_load(&config(), &Some(stats()))).is_empty());
}

#[test]
fn the_status_shows_the_stored_statistics() {
    let shown = control_status(Some(stats()));
    assert_eq!(shown.ticks, 1);
    assert_eq!(shown.scans, 20);
    assert_eq!(shown.files_seen_total, 3);
    assert_eq!(shown.changes_detected_total, 4);
    assert_eq!(shown.events_emitted_total, 105);
    assert_eq!(shown.last_scan_at, Some("then".to_string()));
    assert_eq!(shown.last_error, None);
    assert_eq!(shown.last_scan_duration_ms, Some(6));
    assert_eq!(control_status(None).scans, 0);
    assert_eq!(stored_to_contract_stats(&stats()).scans, 20);
}

#[test]
fn the_health_sums_up_the_statistics() {
    let healthy = health(Some(stats()));
    assert_eq!(healthy.status, HealthStatus::Healthy);
    assert_eq!(healthy.reason, Some("scans=20 emitted=105 last_error=none".to_string()));
    let failed = StoredStats { last_error: Some("disk".to_string()), ..stats() };
    assert_eq!(
        health(Some(failed)).reason,
        Some("scans=20 emitted=105 last_error=disk".to_string())
    );
    assert_eq!(health(None).reason, Some("scans=0 emitted=0 last_error=none".to_string()));
}

#[test]
fn untyped_actions_are_refused_with_a_hint() {
    for (action, operation) in vec![
        ("configure", "patina:watch/control@0.1.0.configure"),
        ("status", "patina:watch/control@0.1.0.status"),
        ("scan-now", "patina:watch/control@0.1.0.scan-now"),
        ("reset", "patina:watch/control@0.1.0.reset"),
        ("dance", "patina:watch/control@0.1.0.status"),
        ("", "patina:watch/control@0.1.0.status"),
    ] {
        let expected = format!(
            "folder-watch-actor: handle business ingress is disabled; call '{}' via typed ingress (e.g. `patina child call folder-watch-actor {} '[]'`)",
            action, operation
        );
        assert_eq!(handle_business_ingress_disabled(action), Err(expected));
    }
}

#[test]
fn the_sink_drops_what_it_has_counted() {
    let change = FileChange {
        change_kind: ObservedChangeKind::Modified,
        absolute_path: "/in/a".to_string(),
    };
    assert_eq!(emit(&change, Ok(())), Ok("drop kind=modified path=/in/a".to_string()));
    assert_eq!(emit(&change, Err("no counter".to_string())), Err("no counter".to_string()));
}
