use folder_watch::cycle::{CycleAction, CycleEvent, ScanCycle};
use folder_watch::emit::{EmitAction, EmitEvent};
use folder_watch::model::{StoredConfig, StoredFingerprint, StoredStats};
use folder_watch::path_map::PathMap;
use folder_watch::report::{end_tick, record_scan, ScanOutcome, ScanReport};
use folder_watch::scan::{Entry, EntryKind, FileStat, ScanAction, ScanEvent};
use folder_watch::state::StateWrite;

/// A folder without folders in it, and what is kept between two cycles.
struct World {
    files: Vec<(&'static str, &'static str)>,
    config: Option<StoredConfig>,
    snapshot: Option<PathMap<StoredFingerprint>>,
    stats: Option<StoredStats>,
    topics: Vec<String>,
    saves: Vec<&'static str>,
    connects: bool,
    writable: bool,
}

fn world(files: Vec<(&'static str, &'static str)>) -> World {
    World {
        files,
        config: None,
        snapshot: None,
        stats: None,
        topics: vec![],
        saves: vec![],
        connects: true,
        writable: true,
    }
}

fn copy(snapshot: &PathMap<StoredFingerprint>) -> PathMap<StoredFingerprint> {
    let mut copy: PathMap<StoredFingerprint> = PathMap::new();
    for i in 0..snapshot.len() {
        let (path, print) = snapshot.entry(i).unwrap();
        copy.insert(path.clone(), print.clone());
    }
    copy
}

impl World {
    fn contents(&self, path: &Vec<u8>) -> &'static str {
        let found = self.files.iter().find(|(name, _text)| name.as_bytes() == path.as_slice());
        found.unwrap().1
    }

    fn look(&self, action: ScanAction) -> ScanEvent {
        match action {
            ScanAction::CheckExists => ScanEvent::Exists(true),
            ScanAction::CheckDirectory => ScanEvent::Directory(true),
            ScanAction::List(_path) => ScanEvent::Listed(Ok(
                self.files.iter().map(|(name, _)| Entry::Path(name.as_bytes().to_vec())).collect(),
            )),
            ScanAction::Inspect(_path) => ScanEvent::Inspected(Ok(EntryKind::File)),
            ScanAction::Stat(path) => ScanEvent::Statted(Ok(FileStat {
                size_bytes: self.contents(&path).len() as u64,
                modified_ms: Some(1),
            })),
            ScanAction::Read(path) => {
                ScanEvent::Read(Ok(self.contents(&path).as_bytes().to_vec()))
            }
            ScanAction::Finish => panic!("the scan is over"),
        }
    }

    fn save(&mut self, write: StateWrite) -> Result<(), String> {
        if !self.writable {
            return Err("store is full".to_string());
        }
        self.saves.push(write.key());
        match write {
            StateWrite::Config(config) => self.config = Some(config),
            StateWrite::Snapshot(snapshot) => self.snapshot = Some(snapshot),
            StateWrite::Stats(stats) => self.stats = Some(stats),
        }
        Ok(())
    }

    fn cycle(&mut self, reason: &str, now: &str) -> Result<ScanReport, String> {
        let snapshot = self.snapshot.as_ref().map(copy);
        let mut cycle = ScanCycle::new(reason, self.config.clone(), snapshot);
        loop {
            let event = match cycle.action() {
                CycleAction::Scan(action) => CycleEvent::Scan(self.look(action)),
                CycleAction::Emit(EmitAction::Connect(stream)) => {
                    assert_eq!(stream, "watch.folder");
                    let connected =
                        if self.connects { Ok(()) } else { Err("no stream".to_string()) };
                    CycleEvent::Emit(EmitEvent::Connected(connected))
                }
                CycleAction::Emit(EmitAction::Send(message)) => {
                    self.topics.push(message.topic);
                    CycleEvent::Emit(EmitEvent::Sent(Ok(())))
                }
                CycleAction::Emit(EmitAction::Finish) => panic!("the emission is over"),
                CycleAction::Save(write) => CycleEvent::Saved(self.save(write)),
                CycleAction::Measure => CycleEvent::Measured(42, self.stats.clone()),
                CycleAction::Finish => return cycle.outcome().unwrap(),
            };
            cycle.advance_at(event, now);
        }
    }
}

fn emitting(files: Vec<(&'static str, &'static str)>) -> World {
    World {
        config: Some(StoredConfig { emit_existing_on_start: true, ..StoredConfig::default() }),
        ..world(files)
    }
}

#[test]
fn a_cycle_emits_and_stores_the_snapshot_and_last_the_statistics() {
    let mut world = emitting(vec![("/input/b", "two"), ("/input/a", "one")]);
    let report = world.cycle("scan-now", "noon").unwrap();
    assert_eq!(
        report.outcome,
        ScanOutcome {
            files_seen: 2,
            created: 2,
            modified: 0,
            deleted: 0,
            emitted: 2,
            duration_ms: 42,
        }
    );
    assert_eq!(report.changes_detected, 2);
    assert_eq!(
        report.line,
        "scan-now scan: seen=2 created=2 modified=0 deleted=0 emitted=2 duration_ms=42"
    );
    assert_eq!(world.topics, vec!["file-created", "file-created"]);
    assert_eq!(world.saves, vec!["folder-watch.snapshot.v1", "folder-watch.stats.v1"]);
    let stats = world.stats.clone().unwrap();
    assert_eq!(stats.ticks, 0);
    assert_eq!(stats.scans, 1);
    assert_eq!(stats.files_seen_total, 2);
    assert_eq!(stats.changes_detected_total, 2);
    assert_eq!(stats.events_emitted_total, 2);
    assert_eq!(stats.last_scan_at, Some("noon".to_string()));
    assert_eq!(stats.last_error, None);
    assert_eq!(stats.last_scan_duration_ms, Some(42));
}

#[test]
fn a_second_look_reports_only_what_changed() {
    let mut world = emitting(vec![("/input/a", "one"), ("/input/b", "two")]);
    world.cycle("tick", "t").unwrap();
    world.topics.clear();
    let again = world.cycle("tick", "t").unwrap();
    assert_eq!(again.outcome.emitted, 0);
    assert_eq!(again.outcome.files_seen, 2);
    assert_eq!(again.outcome.created, 0);
    assert_eq!(again.outcome.modified, 0);
    assert_eq!(again.outcome.deleted, 0);
    assert_eq!(again.changes_detected, 0);
    assert!(world.topics.is_empty());
    assert_eq!(world.snapshot.as_ref().unwrap().len(), 2);
    assert_eq!(world.snapshot.as_ref().unwrap().get("/input/a").unwrap().size_bytes, 3);
    world.files = vec![("/input/a", "ONE"), ("/input/c", "three")];
    let changed = world.cycle("tick", "t").unwrap();
    assert_eq!(world.topics, vec!["file-modified", "file-created", "file-deleted"]);
    assert_eq!(changed.outcome.created, 1);
    assert_eq!(changed.outcome.modified, 1);
    assert_eq!(changed.outcome.deleted, 1);
    assert_eq!(changed.outcome.emitted, 3);
    assert_eq!(world.stats.unwrap().files_seen_total, 6);
}

#[test]
fn the_first_cycle_is_silent_unless_configured() {
    let mut world = world(vec![("/input/a", "one")]);
    world.connects = false;
    let first = world.cycle("tick", "t").unwrap();
    assert_eq!(first.outcome.emitted, 0);
    assert_eq!(first.outcome.files_seen, 1);
    assert_eq!(world.snapshot.unwrap().len(), 1);
}

#[test]
fn a_failed_emission_leaves_the_store_alone() {
    let mut world = emitting(vec![("/input/a", "one")]);
    world.connects = false;
    assert_eq!(world.cycle("tick", "t").err(), Some("no stream".to_string()));
    assert!(world.saves.is_empty());
    assert!(world.snapshot.is_none());
    world.connects = true;
    assert_eq!(world.cycle("tick", "t").unwrap().outcome.created, 1);
}

#[test]
fn a_failed_write_fails_the_cycle() {
    let mut world = emitting(vec![("/input/a", "one")]);
    world.writable = false;
    assert_eq!(world.cycle("tick", "t").err(), Some("store is full".to_string()));
    assert_eq!(world.topics.len(), 1);
}

#[test]
fn a_failed_scan_fails_the_cycle() {
    let mut cycle = ScanCycle::new("tick", None, None);
    cycle.advance_at(CycleEvent::Scan(ScanEvent::Exists(false)), "t");
    assert!(matches!(cycle.action(), CycleAction::Finish));
    cycle.advance_at(CycleEvent::Scan(ScanEvent::Exists(true)), "t");
    assert!(matches!(cycle.action(), CycleAction::Finish));
    assert_eq!(
        cycle.outcome().unwrap().err(),
        Some("watch path does not exist: /input".to_string())
    );
}

#[test]
fn a_failed_write_of_the_statistics_fails_the_cycle() {
    let mut cycle = ScanCycle::new("tick", None, None);
    cycle.advance_at(CycleEvent::Saved(Ok(())), "t");
    assert!(matches!(cycle.action(), CycleAction::Scan(ScanAction::CheckExists)));
    cycle.advance(CycleEvent::Scan(ScanEvent::Exists(true)));
    cycle.advance(CycleEvent::Scan(ScanEvent::Directory(true)));
    cycle.advance(CycleEvent::Scan(ScanEvent::Listed(Ok(vec![]))));
    assert!(matches!(cycle.action(), CycleAction::Save(StateWrite::Snapshot(_))));
    cycle.advance(CycleEvent::Saved(Ok(())));
    assert!(matches!(cycle.action(), CycleAction::Measure));
    cycle.advance(CycleEvent::Measured(1, None));
    match cycle.action() {
        CycleAction::Save(StateWrite::Stats(stats)) => {
            let time = stats.last_scan_at.unwrap();
            assert!(chrono::DateTime::parse_from_rfc3339(&time).is_ok());
        }
        _ => panic!("the statistics come last"),
    }
    cycle.advance(CycleEvent::Saved(Err("full".to_string())));
    assert_eq!(cycle.outcome().unwrap().err(), Some("full".to_string()));
}

#[test]
fn full_counters_start_over() {
    let full = StoredStats { scans: u64::MAX, files_seen_total: u64::MAX - 1, ..StoredStats::default() };
    let after = record_scan(full, 5, 1, 1, "t", 9);
    assert_eq!(after.scans, 0);
    assert_eq!(after.files_seen_total, 3);
    assert_eq!(after.changes_detected_total, 1);
}

#[test]
fn a_tick_counts_itself_and_keeps_the_other_statistics() {
    let stats = StoredStats {
        ticks: 7,
        scans: 3,
        last_error: Some("old".to_string()),
        ..StoredStats::default()
    };
    let (after, warning) = end_tick(Some(stats.clone()), Ok(()));
    assert_eq!(after.ticks, 8);
    assert_eq!(after.scans, 3);
    assert_eq!(after.last_error, Some("old".to_string()));
    assert_eq!(warning, None);
    let (after, warning) = end_tick(Some(stats), Err("disk".to_string()));
    assert_eq!(after.ticks, 8);
    assert_eq!(after.scans, 3);
    assert_eq!(after.last_error, Some("disk".to_string()));
    assert_eq!(warning, Some("tick failed: disk".to_string()));
    let (first, _warning) = end_tick(None, Ok(()));
    assert_eq!(first.ticks, 1);
}
