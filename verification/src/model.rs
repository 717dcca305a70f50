//! The watcher's own data: its configuration and statistics, what it knows of a
//! file, and what it reports.

use vstd::prelude::*;

verus! {

/// The stream that changes go to unless another is configured.
pub const DEFAULT_STREAM: &'static str = "watch.folder";

/// The folder that is watched unless another is configured.
pub const DEFAULT_WATCH_PATH: &'static str = "/input";

/// The name under which the watcher reports and logs.
pub const WATCHER_NAME: &'static str = "folder-watch-actor";

/// The text of each string of a list.
pub open spec fn texts(list: Seq<String>) -> Seq<Seq<char>> {
    list.map_values(|text: String| text@)
}

/// The text of an optional string.
pub open spec fn text_of(text: Option<String>) -> Option<Seq<char>> {
    match text {
        Some(t) => Some(t@),
        None => None,
    }
}

pub(crate) fn copy_texts(list: &Vec<String>) -> (copy: Vec<String>)
    ensures
        texts(copy@) == texts(list@),
{
    let mut copy: Vec<String> = Vec::new();
    let mut i: usize = 0;
    while i < list.len()
        invariant
            i <= list.len(),
            copy@.len() == i,
            forall|k: int| 0 <= k < i ==> (#[trigger] copy@[k])@ == list@[k]@,
        decreases list.len() - i,
    {
        copy.push(list[i].clone());
        i = i + 1;
    }
    assert(texts(copy@) =~= texts(list@));
    copy
}

pub(crate) fn copy_text(text: &Option<String>) -> (copy: Option<String>)
    ensures
        text_of(copy) == text_of(*text),
{
    match text {
        Some(t) => Some(t.clone()),
        None => None,
    }
}

/// What to watch, and how.
#[derive(Debug)]
pub struct StoredConfig {
    pub watch_path: String,
    pub stream_name: String,
    pub recursive: bool,
    pub include_hidden: bool,
    pub emit_existing_on_start: bool,
    pub extensions: Vec<String>,
}

/// A configuration, with texts for strings.
pub struct ConfigView {
    pub watch_path: Seq<char>,
    pub stream_name: Seq<char>,
    pub recursive: bool,
    pub include_hidden: bool,
    pub emit_existing_on_start: bool,
    pub extensions: Seq<Seq<char>>,
}

impl View for StoredConfig {
    type V = ConfigView;

    open spec fn view(&self) -> ConfigView {
        ConfigView {
            watch_path: self.watch_path@,
            stream_name: self.stream_name@,
            recursive: self.recursive,
            include_hidden: self.include_hidden,
            emit_existing_on_start: self.emit_existing_on_start,
            extensions: texts(self.extensions@),
        }
    }
}

impl Clone for StoredConfig {
    fn clone(&self) -> (copy: Self)
        ensures
            copy@ == self@,
    {
        StoredConfig {
            watch_path: self.watch_path.clone(),
            stream_name: self.stream_name.clone(),
            recursive: self.recursive,
            include_hidden: self.include_hidden,
            emit_existing_on_start: self.emit_existing_on_start,
            extensions: copy_texts(&self.extensions),
        }
    }
}

/// The configuration of a watcher that was never configured: `/input` and all
/// below it, no hidden files, every extension, and no report of files that are
/// already there at the start.
pub open spec fn default_config() -> ConfigView {
    ConfigView {
        watch_path: DEFAULT_WATCH_PATH@,
        stream_name: DEFAULT_STREAM@,
        recursive: true,
        include_hidden: false,
        emit_existing_on_start: false,
        extensions: seq![],
    }
}

impl Default for StoredConfig {
    fn default() -> (config: Self)
        ensures
            config@ == default_config(),
    {
        let config = StoredConfig {
            watch_path: DEFAULT_WATCH_PATH.to_string(),
            stream_name: DEFAULT_STREAM.to_string(),
            recursive: true,
            include_hidden: false,
            emit_existing_on_start: false,
            extensions: Vec::new(),
        };
        assert(texts(config.extensions@) =~= seq![]);
        config
    }
}

/// What the watcher has counted since it was last reset, and how its last scan
/// went.
#[derive(Debug)]
pub struct StoredStats {
    pub ticks: u64,
    pub scans: u64,
    pub files_seen_total: u64,
    pub changes_detected_total: u64,
    pub events_emitted_total: u64,
    pub last_scan_at: Option<String>,
    pub last_error: Option<String>,
    pub last_scan_duration_ms: Option<u64>,
}

/// Statistics, with texts for strings.
pub struct StatsView {
    pub ticks: u64,
    pub scans: u64,
    pub files_seen_total: u64,
    pub changes_detected_total: u64,
    pub events_emitted_total: u64,
    pub last_scan_at: Option<Seq<char>>,
    pub last_error: Option<Seq<char>>,
    pub last_scan_duration_ms: Option<u64>,
}

impl View for StoredStats {
    type V = StatsView;

    open spec fn view(&self) -> StatsView {
        StatsView {
            ticks: self.ticks,
            scans: self.scans,
            files_seen_total: self.files_seen_total,
            changes_detected_total: self.changes_detected_total,
            events_emitted_total: self.events_emitted_total,
            last_scan_at: text_of(self.last_scan_at),
            last_error: text_of(self.last_error),
            last_scan_duration_ms: self.last_scan_duration_ms,
        }
    }
}

impl Clone for StoredStats {
    fn clone(&self) -> (copy: Self)
        ensures
            copy@ == self@,
    {
        StoredStats {
            ticks: self.ticks,
            scans: self.scans,
            files_seen_total: self.files_seen_total,
            changes_detected_total: self.changes_detected_total,
            events_emitted_total: self.events_emitted_total,
            last_scan_at: copy_text(&self.last_scan_at),
            last_error: copy_text(&self.last_error),
            last_scan_duration_ms: self.last_scan_duration_ms,
        }
    }
}

/// The statistics of a watcher that has done nothing yet.
pub open spec fn no_stats() -> StatsView {
    StatsView {
        ticks: 0,
        scans: 0,
        files_seen_total: 0,
        changes_detected_total: 0,
        events_emitted_total: 0,
        last_scan_at: None,
        last_error: None,
        last_scan_duration_ms: None,
    }
}

impl Default for StoredStats {
    fn default() -> (stats: Self)
        ensures
            stats@ == no_stats(),
    {
        StoredStats {
            ticks: 0,
            scans: 0,
            files_seen_total: 0,
            changes_detected_total: 0,
            events_emitted_total: 0,
            last_scan_at: None,
            last_error: None,
            last_scan_duration_ms: None,
        }
    }
}

/// By what two versions of a file are told apart.
#[derive(Debug)]
pub struct StoredFingerprint {
    pub size_bytes: u64,
    pub modified_unix_ms: u64,
    pub sha256: String,
}

/// A fingerprint, with texts for strings.
pub struct FingerprintView {
    pub size_bytes: u64,
    pub modified_unix_ms: u64,
    pub sha256: Seq<char>,
}

impl View for StoredFingerprint {
    type V = FingerprintView;

    open spec fn view(&self) -> FingerprintView {
        FingerprintView {
            size_bytes: self.size_bytes,
            modified_unix_ms: self.modified_unix_ms,
            sha256: self.sha256@,
        }
    }
}

impl Clone for StoredFingerprint {
    fn clone(&self) -> (copy: Self)
        ensures
            copy@ == self@,
    {
        StoredFingerprint {
            size_bytes: self.size_bytes,
            modified_unix_ms: self.modified_unix_ms,
            sha256: self.sha256.clone(),
        }
    }
}

/// A file as a scan found it.
#[derive(Debug)]
pub struct ObservedFile {
    pub absolute_path: String,
    pub relative_path: String,
    pub fingerprint: StoredFingerprint,
}

/// A file as a scan found it, with texts for strings.
pub struct FileView {
    pub absolute_path: Seq<char>,
    pub relative_path: Seq<char>,
    pub fingerprint: FingerprintView,
}

impl View for ObservedFile {
    type V = FileView;

    open spec fn view(&self) -> FileView {
        FileView {
            absolute_path: self.absolute_path@,
            relative_path: self.relative_path@,
            fingerprint: self.fingerprint@,
        }
    }
}

impl Clone for ObservedFile {
    fn clone(&self) -> (copy: Self)
        ensures
            copy@ == self@,
    {
        ObservedFile {
            absolute_path: self.absolute_path.clone(),
            relative_path: self.relative_path.clone(),
            fingerprint: self.fingerprint.clone(),
        }
    }
}

/// What happened to a file.
#[derive(Debug, Clone, Copy, PartialEq, Eq, Structural)]
pub enum ObservedChangeKind {
    Created,
    Modified,
    Deleted,
}

/// A change of a file, as it is reported.
#[derive(Debug)]
pub struct ObservedChange {
    pub watcher: String,
    pub stream_name: String,
    pub change_kind: ObservedChangeKind,
    pub absolute_path: String,
    pub relative_path: String,
    pub size_bytes: Option<u64>,
    pub modified_unix_ms: Option<u64>,
    pub sha256: Option<String>,
    pub detected_at: String,
}

/// A change of a file, with texts for strings.
pub struct ChangeView {
    pub watcher: Seq<char>,
    pub stream_name: Seq<char>,
    pub change_kind: ObservedChangeKind,
    pub absolute_path: Seq<char>,
    pub relative_path: Seq<char>,
    pub size_bytes: Option<u64>,
    pub modified_unix_ms: Option<u64>,
    pub sha256: Option<Seq<char>>,
    pub detected_at: Seq<char>,
}

impl View for ObservedChange {
    type V = ChangeView;

    open spec fn view(&self) -> ChangeView {
        ChangeView {
            watcher: self.watcher@,
            stream_name: self.stream_name@,
            change_kind: self.change_kind,
            absolute_path: self.absolute_path@,
            relative_path: self.relative_path@,
            size_bytes: self.size_bytes,
            modified_unix_ms: self.modified_unix_ms,
            sha256: text_of(self.sha256),
            detected_at: self.detected_at@,
        }
    }
}

impl Clone for ObservedChange {
    fn clone(&self) -> (copy: Self)
        ensures
            copy@ == self@,
    {
        ObservedChange {
            watcher: self.watcher.clone(),
            stream_name: self.stream_name.clone(),
            change_kind: self.change_kind,
            absolute_path: self.absolute_path.clone(),
            relative_path: self.relative_path.clone(),
            size_bytes: self.size_bytes,
            modified_unix_ms: self.modified_unix_ms,
            sha256: copy_text(&self.sha256),
            detected_at: self.detected_at.clone(),
        }
    }
}

/// The view of a configuration has each of its parts.
pub proof fn law_view_of_a_configuration(config: StoredConfig)
    ensures
        config@.watch_path == config.watch_path@,
        config@.stream_name == config.stream_name@,
        config@.recursive == config.recursive,
        config@.include_hidden == config.include_hidden,
        config@.emit_existing_on_start == config.emit_existing_on_start,
        config@.extensions.len() == config.extensions@.len(),
        forall|i: int|
            0 <= i < config.extensions@.len() ==> #[trigger] config@.extensions[i] == config.extensions@[i]@,
{
}

/// The view of statistics has each of their parts.
pub proof fn law_view_of_statistics(stats: StoredStats)
    ensures
        stats@.ticks == stats.ticks,
        stats@.scans == stats.scans,
        stats@.files_seen_total == stats.files_seen_total,
        stats@.changes_detected_total == stats.changes_detected_total,
        stats@.events_emitted_total == stats.events_emitted_total,
        stats@.last_scan_duration_ms == stats.last_scan_duration_ms,
        stats.last_scan_at matches Some(text) ==> stats@.last_scan_at == Some(text@),
        stats.last_scan_at is None ==> stats@.last_scan_at is None,
        stats.last_error matches Some(text) ==> stats@.last_error == Some(text@),
        stats.last_error is None ==> stats@.last_error is None,
{
}

/// The view of a file has each of its parts, and those of its fingerprint.
pub proof fn law_view_of_a_file(file: ObservedFile)
    ensures
        file@.absolute_path == file.absolute_path@,
        file@.relative_path == file.relative_path@,
        file@.fingerprint.size_bytes == file.fingerprint.size_bytes,
        file@.fingerprint.modified_unix_ms == file.fingerprint.modified_unix_ms,
        file@.fingerprint.sha256 == file.fingerprint.sha256@,
{
}

/// The view of a change has each of its parts.
pub proof fn law_view_of_a_change(change: ObservedChange)
    ensures
        change@.watcher == change.watcher@,
        change@.stream_name == change.stream_name@,
        change@.absolute_path == change.absolute_path@,
        change@.relative_path == change.relative_path@,
        change@.detected_at == change.detected_at@,
        change@.change_kind == change.change_kind,
        change@.size_bytes == change.size_bytes,
        change@.modified_unix_ms == change.modified_unix_ms,
        change.sha256 matches Some(text) ==> change@.sha256 == Some(text@),
        change.sha256 is None ==> change@.sha256 is None,
{
}

/// A watcher that was never configured watches `/input` and all below it, reports to
/// `watch.folder`, and leaves hidden files and files that are there at the start alone. A
/// watcher that has done nothing has counted nothing.
pub proof fn law_defaults()
    ensures
        default_config().watch_path == "/input"@,
        default_config().stream_name == "watch.folder"@,
        default_config().recursive,
        !default_config().include_hidden,
        !default_config().emit_existing_on_start,
        default_config().extensions.len() == 0,
        no_stats().ticks == 0,
        no_stats().scans == 0,
        no_stats().files_seen_total == 0,
        no_stats().changes_detected_total == 0,
        no_stats().events_emitted_total == 0,
        no_stats().last_scan_at is None,
        no_stats().last_error is None,
        no_stats().last_scan_duration_ms is None,
{
}

} // verus!
