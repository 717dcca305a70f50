//! The scan of a folder, one look at the file system at a time.
//!
//! A `FolderScan` says what it has to look at next, and is told what was there.
//! It goes through a folder in the order in which its entries are listed, and
//! through each folder below it in its place. Symbolic links are left alone.

use vstd::prelude::*;
use vstd::string::*;
use vstd::utf8::*;

use crate::digest::{hex, sha256, sha256_hex};
use crate::filter::{is_watched, should_include_file};
use crate::model::{
    ConfigView, FileView, FingerprintView, ObservedFile, StoredConfig, StoredFingerprint,
};
use crate::path::{relative_path, relative_text};
use crate::path_map::PathMap;
use crate::text::{lossy_text, lossy_utf8};

verus! {

/// What an entry of a folder is.
#[derive(Debug, Clone, Copy, PartialEq, Eq, Structural)]
pub enum EntryKind {
    Symlink,
    Directory,
    File,
    Other,
}

/// An entry of a folder: its path, or why it could not be read.
pub enum Entry {
    Path(Vec<u8>),
    Unreadable(String),
}

/// An entry of a folder, with texts for strings.
pub enum EntryView {
    Path(Seq<u8>),
    Unreadable(Seq<char>),
}

impl View for Entry {
    type V = EntryView;

    open spec fn view(&self) -> EntryView {
        match self {
            Entry::Path(path) => EntryView::Path(path@),
            Entry::Unreadable(error) => EntryView::Unreadable(error@),
        }
    }
}

/// What the file system says of a file: its size, and when it was last changed, in
/// milliseconds since the start of 1970, if it is known and not before that.
#[derive(Clone, Copy)]
pub struct FileStat {
    pub size_bytes: u64,
    pub modified_ms: Option<u128>,
}

/// What a scan has to look at next.
pub enum ScanAction {
    /// Whether the watched folder exists.
    CheckExists,
    /// Whether the watched folder is a directory.
    CheckDirectory,
    /// The entries of a directory.
    List(Vec<u8>),
    /// What an entry is, without following it if it is a symbolic link.
    Inspect(Vec<u8>),
    /// The size of a file, and when it was last changed.
    Stat(Vec<u8>),
    /// The contents of a file.
    Read(Vec<u8>),
    /// Nothing: the scan is over.
    Finish,
}

/// What a scan has to look at next, with texts for strings.
pub enum ActionView {
    CheckExists,
    CheckDirectory,
    List(Seq<u8>),
    Inspect(Seq<u8>),
    Stat(Seq<u8>),
    Read(Seq<u8>),
    Finish,
}

impl View for ScanAction {
    type V = ActionView;

    open spec fn view(&self) -> ActionView {
        match self {
            ScanAction::CheckExists => ActionView::CheckExists,
            ScanAction::CheckDirectory => ActionView::CheckDirectory,
            ScanAction::List(path) => ActionView::List(path@),
            ScanAction::Inspect(path) => ActionView::Inspect(path@),
            ScanAction::Stat(path) => ActionView::Stat(path@),
            ScanAction::Read(path) => ActionView::Read(path@),
            ScanAction::Finish => ActionView::Finish,
        }
    }
}

/// What was found.
pub enum ScanEvent {
    Exists(bool),
    Directory(bool),
    Listed(Result<Vec<Entry>, String>),
    Inspected(Result<EntryKind, String>),
    Statted(Result<FileStat, String>),
    Read(Result<Vec<u8>, String>),
}

/// What was found, with texts for strings.
pub enum EventView {
    Exists(bool),
    Directory(bool),
    Listed(Result<Seq<EntryView>, Seq<char>>),
    Inspected(Result<EntryKind, Seq<char>>),
    Statted(Result<FileStat, Seq<char>>),
    Read(Result<Seq<u8>, Seq<char>>),
}

/// The entries of a list.
pub open spec fn entry_views(entries: Seq<Entry>) -> Seq<EntryView> {
    entries.map_values(|entry: Entry| entry@)
}

impl View for ScanEvent {
    type V = EventView;

    open spec fn view(&self) -> EventView {
        match self {
            ScanEvent::Exists(there) => EventView::Exists(*there),
            ScanEvent::Directory(is) => EventView::Directory(*is),
            ScanEvent::Listed(Ok(entries)) => EventView::Listed(Ok(entry_views(entries@))),
            ScanEvent::Listed(Err(error)) => EventView::Listed(Err(error@)),
            ScanEvent::Inspected(Ok(kind)) => EventView::Inspected(Ok(*kind)),
            ScanEvent::Inspected(Err(error)) => EventView::Inspected(Err(error@)),
            ScanEvent::Statted(Ok(stat)) => EventView::Statted(Ok(*stat)),
            ScanEvent::Statted(Err(error)) => EventView::Statted(Err(error@)),
            ScanEvent::Read(Ok(bytes)) => EventView::Read(Ok(bytes@)),
            ScanEvent::Read(Err(error)) => EventView::Read(Err(error@)),
        }
    }
}

enum Step {
    Exists,
    Directory,
    List(Vec<u8>),
    Inspect(Vec<u8>),
    Stat(Vec<u8>),
    Read(Vec<u8>, FileStat),
    Done,
    Failed(String),
}

/// Where a scan stands: what it waits for, or how it ended.
pub enum StepView {
    Exists,
    Directory,
    List(Seq<u8>),
    Inspect(Seq<u8>),
    Stat(Seq<u8>),
    Read(Seq<u8>, FileStat),
    Done,
    Failed(Seq<char>),
}

impl View for Step {
    type V = StepView;

    closed spec fn view(&self) -> StepView {
        match self {
            Step::Exists => StepView::Exists,
            Step::Directory => StepView::Directory,
            Step::List(path) => StepView::List(path@),
            Step::Inspect(path) => StepView::Inspect(path@),
            Step::Stat(path) => StepView::Stat(path@),
            Step::Read(path, stat) => StepView::Read(path@, *stat),
            Step::Done => StepView::Done,
            Step::Failed(error) => StepView::Failed(error@),
        }
    }
}

/// The state of a scan: the entries that it has yet to look at, in order, and the
/// files that it found so far, by their paths.
pub struct ScanView {
    pub config: ConfigView,
    pub step: StepView,
    pub pending: Seq<EntryView>,
    pub found: Map<Seq<char>, FileView>,
}

/// The path of the watched folder.
pub open spec fn root_of(config: ConfigView) -> Seq<u8> {
    encode_utf8(config.watch_path)
}

/// A scan that has not begun.
pub open spec fn scan_start(config: ConfigView) -> ScanView {
    ScanView { config, step: StepView::Exists, pending: seq![], found: Map::empty() }
}

/// Why a scan fails if the watched folder does not exist.
pub open spec fn missing_text(config: ConfigView) -> Seq<char> {
    "watch path does not exist: "@ + config.watch_path
}

/// Why a scan fails if the watched folder is not a directory.
pub open spec fn no_directory_text(config: ConfigView) -> Seq<char> {
    "watch path is not a directory: "@ + config.watch_path
}

/// Why a scan fails if a directory or a file cannot be read.
pub open spec fn read_failure(path: Seq<u8>, error: Seq<char>) -> Seq<char> {
    "failed to read '"@ + lossy_utf8(path) + "': "@ + error
}

/// Why a scan fails if nothing can be learnt of an entry.
pub open spec fn stat_failure(path: Seq<u8>, error: Seq<char>) -> Seq<char> {
    "failed to stat '"@ + lossy_utf8(path) + "': "@ + error
}

/// Why a scan fails if an entry of a directory cannot be read.
pub open spec fn entry_failure(error: Seq<char>) -> Seq<char> {
    "failed reading dir entry: "@ + error
}

/// Milliseconds as a `u64`: as many of the low bits as it holds.
pub open spec fn low_millis(ms: u128) -> u64 {
    (ms % 0x1_0000_0000_0000_0000) as u64
}

/// The fingerprint of a file with these bytes.
pub open spec fn fingerprint(stat: FileStat, bytes: Seq<u8>) -> FingerprintView {
    FingerprintView {
        size_bytes: stat.size_bytes,
        modified_unix_ms: match stat.modified_ms {
            Some(ms) => low_millis(ms),
            None => 0,
        },
        sha256: hex(sha256(bytes)),
    }
}

/// A file as it is reported.
pub open spec fn observed(
    config: ConfigView,
    path: Seq<u8>,
    stat: FileStat,
    bytes: Seq<u8>,
) -> FileView {
    FileView {
        absolute_path: lossy_utf8(path),
        relative_path: relative_text(root_of(config), path),
        fingerprint: fingerprint(stat, bytes),
    }
}

/// The scan goes on to the next entry, or is done if there is none.
pub open spec fn next_entry(scan: ScanView) -> ScanView {
    if scan.pending.len() == 0 {
        ScanView { step: StepView::Done, ..scan }
    } else {
        ScanView {
            step: match scan.pending[0] {
                EntryView::Path(path) => StepView::Inspect(path),
                EntryView::Unreadable(error) => StepView::Failed(entry_failure(error)),
            },
            pending: scan.pending.skip(1),
            ..scan
        }
    }
}

/// The scan goes on with another step.
pub open spec fn with_step(scan: ScanView, step: StepView) -> ScanView {
    ScanView { step, ..scan }
}

/// What becomes of an entry, by what it is: a directory is listed if the scan is
/// recursive, a file is read if it is watched, and all else is passed over.
pub open spec fn after_inspection(scan: ScanView, path: Seq<u8>, kind: EntryKind) -> ScanView {
    if kind is Directory && scan.config.recursive {
        with_step(scan, StepView::List(path))
    } else if kind is File && is_watched(path, scan.config) {
        with_step(scan, StepView::Stat(path))
    } else {
        next_entry(scan)
    }
}

/// What a scan has to look at next.
pub open spec fn next_look(step: StepView) -> ActionView {
    match step {
        StepView::Exists => ActionView::CheckExists,
        StepView::Directory => ActionView::CheckDirectory,
        StepView::List(path) => ActionView::List(path),
        StepView::Inspect(path) => ActionView::Inspect(path),
        StepView::Stat(path) => ActionView::Stat(path),
        StepView::Read(path, stat) => ActionView::Read(path),
        StepView::Done => ActionView::Finish,
        StepView::Failed(error) => ActionView::Finish,
    }
}

/// The state of a scan after it was told what was found. What it did not ask for it
/// takes no notice of.
pub open spec fn scan_after(scan: ScanView, event: EventView) -> ScanView {
    match (scan.step, event) {
        (StepView::Exists, EventView::Exists(there)) => with_step(
            scan,
            if there {
                StepView::Directory
            } else {
                StepView::Failed(missing_text(scan.config))
            },
        ),
        (StepView::Directory, EventView::Directory(is)) => with_step(
            scan,
            if is {
                StepView::List(root_of(scan.config))
            } else {
                StepView::Failed(no_directory_text(scan.config))
            },
        ),
        (StepView::List(path), EventView::Listed(Err(error))) => with_step(
            scan,
            StepView::Failed(read_failure(path, error)),
        ),
        (StepView::List(path), EventView::Listed(Ok(entries))) => next_entry(
            ScanView { pending: entries + scan.pending, ..scan },
        ),
        (StepView::Inspect(path), EventView::Inspected(Err(error))) => with_step(
            scan,
            StepView::Failed(stat_failure(path, error)),
        ),
        (StepView::Inspect(path), EventView::Inspected(Ok(kind))) => after_inspection(
            scan,
            path,
            kind,
        ),
        (StepView::Stat(path), EventView::Statted(Err(error))) => with_step(
            scan,
            StepView::Failed(stat_failure(path, error)),
        ),
        (StepView::Stat(path), EventView::Statted(Ok(stat))) => with_step(
            scan,
            StepView::Read(path, stat),
        ),
        (StepView::Read(path, stat), EventView::Read(Err(error))) => with_step(
            scan,
            StepView::Failed(read_failure(path, error)),
        ),
        (StepView::Read(path, stat), EventView::Read(Ok(bytes))) => next_entry(
            ScanView {
                found: scan.found.insert(
                    lossy_utf8(path),
                    observed(scan.config, path, stat, bytes),
                ),
                ..scan
            },
        ),
        _ => scan,
    }
}

/// The entries of a stack, from its top.
spec fn from_top(stack: Seq<Entry>) -> Seq<EntryView> {
    Seq::new(stack.len(), |i: int| stack[stack.len() - 1 - i]@)
}

/// The scan of a folder.
pub struct FolderScan {
    config: StoredConfig,
    step: Step,
    pending: Vec<Entry>,
    found: PathMap<ObservedFile>,
}

impl View for FolderScan {
    type V = ScanView;

    closed spec fn view(&self) -> ScanView {
        ScanView {
            config: self.config@,
            step: self.step@,
            pending: from_top(self.pending@),
            found: self.found@,
        }
    }
}

/// The fingerprint of a file, from what the file system says of it and its
/// contents.
pub fn fingerprint_for(stat: FileStat, bytes: &[u8]) -> (print: StoredFingerprint)
    ensures
        print@ == fingerprint(stat, bytes@),
        print.size_bytes == stat.size_bytes,
        stat.modified_ms matches Some(ms) ==> print.modified_unix_ms as int == ms as int
            % 0x1_0000_0000_0000_0000,
        stat.modified_ms is None ==> print.modified_unix_ms == 0,
        print.sha256@ == hex(sha256(bytes@)),
{
    StoredFingerprint {
        size_bytes: stat.size_bytes,
        modified_unix_ms: match stat.modified_ms {
            Some(ms) => whole_millis(ms),
            None => 0,
        },
        sha256: sha256_hex(bytes),
    }
}

/// Milliseconds as a `u64`: as many of the low bits as it holds.
pub fn whole_millis(ms: u128) -> (low: u64)
    ensures
        low == low_millis(ms),
        low as int == ms as int % 0x1_0000_0000_0000_0000,
{
    assert(ms as u64 == (ms % 0x1_0000_0000_0000_0000) as u64) by (bit_vector);
    #[verifier::truncate]
    let low: u64 = ms as u64;
    low
}

fn path_failure(what: &str, path: &[u8], error: &str) -> (text: String)
    ensures
        text@ == what@ + lossy_utf8(path@) + "': "@ + error@,
{
    let mut text = what.to_string();
    text.append(lossy_text(path).as_str());
    text.append("': ");
    text.append(error);
    text
}

impl FolderScan {
    /// A scan that has not begun.
    pub fn new(config: &StoredConfig) -> (scan: Self)
        ensures
            scan@ == scan_start(config@),
    {
        let scan = FolderScan {
            config: config.clone(),
            step: Step::Exists,
            pending: Vec::new(),
            found: PathMap::new(),
        };
        assert(scan@.pending =~= seq![]);
        scan
    }

    fn go_on(&mut self)
        ensures
            final(self)@ == next_entry(old(self)@),
    {
        let ghost before = self.pending@;
        match self.pending.pop() {
            None => {
                self.step = Step::Done;
                assert(self@.pending =~= old(self)@.pending);
            },
            Some(Entry::Path(path)) => {
                self.step = Step::Inspect(path);
                assert(from_top(before)[0] == before.last()@);
                assert(self@.pending =~= old(self)@.pending.skip(1));
            },
            Some(Entry::Unreadable(error)) => {
                let mut text = "failed reading dir entry: ".to_string();
                text.append(error.as_str());
                self.step = Step::Failed(text);
                assert(from_top(before)[0] == before.last()@);
                assert(self@.pending =~= old(self)@.pending.skip(1));
            },
        }
    }

    /// What to look at next.
    pub fn action(&self) -> (action: ScanAction)
        ensures
            action@ == next_look(self@.step),
    {
        match &self.step {
            Step::Exists => ScanAction::CheckExists,
            Step::Directory => ScanAction::CheckDirectory,
            Step::List(path) => ScanAction::List(path.clone()),
            Step::Inspect(path) => ScanAction::Inspect(path.clone()),
            Step::Stat(path) => ScanAction::Stat(path.clone()),
            Step::Read(path, _stat) => ScanAction::Read(path.clone()),
            Step::Done => ScanAction::Finish,
            Step::Failed(_error) => ScanAction::Finish,
        }
    }

    fn put_first(&mut self, entries: Vec<Entry>)
        ensures
            final(self)@ == (ScanView {
                pending: entry_views(entries@) + old(self)@.pending,
                ..old(self)@
            }),
    {
        let mut rest = entries;
        assert(entry_views(entries@) =~= entry_views(rest@));
        let ghost after = from_top(self.pending@);
        while rest.len() > 0
            invariant
                self.config == old(self).config,
                self.step == old(self).step,
                self.found == old(self).found,
                entry_views(rest@) + from_top(self.pending@) == entry_views(entries@) + after,
            decreases rest.len(),
        {
            let ghost left = rest@;
            let ghost stack = self.pending@;
            if let Some(entry) = rest.pop() {
                self.pending.push(entry);
                assert(entry_views(rest@) + from_top(self.pending@) =~= entry_views(left)
                    + from_top(stack));
            }
        }
        assert(self@.pending =~= entry_views(entries@) + after);
    }

    fn take_entry(&mut self, path: Vec<u8>, kind: EntryKind)
        ensures
            final(self)@ == after_inspection(old(self)@, path@, kind),
    {
        match kind {
            EntryKind::Directory => {
                if self.config.recursive {
                    self.step = Step::List(path);
                } else {
                    self.go_on();
                }
            },
            EntryKind::File => {
                if should_include_file(path.as_slice(), &self.config) {
                    self.step = Step::Stat(path);
                } else {
                    self.go_on();
                }
            },
            EntryKind::Symlink => {
                self.go_on();
            },
            EntryKind::Other => {
                self.go_on();
            },
        }
    }

    fn take_file(&mut self, path: Vec<u8>, stat: FileStat, bytes: Vec<u8>)
        ensures
            final(self)@ == next_entry(
                ScanView {
                    found: old(self)@.found.insert(
                        lossy_utf8(path@),
                        observed(old(self)@.config, path@, stat, bytes@),
                    ),
                    ..old(self)@
                },
            ),
    {
        let absolute_path = lossy_text(path.as_slice());
        let relative = relative_path(self.config.watch_path.as_str().as_bytes(), path.as_slice());
        let file = ObservedFile {
            absolute_path: absolute_path.clone(),
            relative_path: relative,
            fingerprint: fingerprint_for(stat, bytes.as_slice()),
        };
        self.found.insert(absolute_path, file);
        self.go_on();
    }

    /// Takes what was found, and goes on.
    pub fn advance(&mut self, event: ScanEvent)
        ensures
            final(self)@ == scan_after(old(self)@, event@),
    {
        let mut step = Step::Done;
        std::mem::swap(&mut step, &mut self.step);
        match (step, event) {
            (Step::Exists, ScanEvent::Exists(there)) => {
                if there {
                    self.step = Step::Directory;
                } else {
                    let mut text = "watch path does not exist: ".to_string();
                    text.append(self.config.watch_path.as_str());
                    self.step = Step::Failed(text);
                }
            },
            (Step::Directory, ScanEvent::Directory(is)) => {
                if is {
                    let root = self.config.watch_path.as_str().as_bytes_vec();
                    self.step = Step::List(root);
                } else {
                    let mut text = "watch path is not a directory: ".to_string();
                    text.append(self.config.watch_path.as_str());
                    self.step = Step::Failed(text);
                }
            },
            (Step::List(path), ScanEvent::Listed(listed)) => match listed {
                Ok(entries) => {
                    self.put_first(entries);
                    self.go_on();
                },
                Err(error) => {
                    let text = path_failure("failed to read '", path.as_slice(), error.as_str());
                    self.step = Step::Failed(text);
                },
            },
            (Step::Inspect(path), ScanEvent::Inspected(inspected)) => match inspected {
                Ok(kind) => {
                    self.take_entry(path, kind);
                },
                Err(error) => {
                    let text = path_failure("failed to stat '", path.as_slice(), error.as_str());
                    self.step = Step::Failed(text);
                },
            },
            (Step::Stat(path), ScanEvent::Statted(statted)) => match statted {
                Ok(stat) => {
                    self.step = Step::Read(path, stat);
                },
                Err(error) => {
                    let text = path_failure("failed to stat '", path.as_slice(), error.as_str());
                    self.step = Step::Failed(text);
                },
            },
            (Step::Read(path, stat), ScanEvent::Read(read)) => match read {
                Ok(bytes) => {
                    self.take_file(path, stat, bytes);
                },
                Err(error) => {
                    let text = path_failure("failed to read '", path.as_slice(), error.as_str());
                    self.step = Step::Failed(text);
                },
            },
            (step, _event) => {
                self.step = step;
            },
        }
    }

    /// Tells whether the scan is over.
    pub fn is_over(&self) -> (over: bool)
        ensures
            over == (self@.step is Done || self@.step is Failed),
    {
        match &self.step {
            Step::Done => true,
            Step::Failed(_error) => true,
            _ => false,
        }
    }

    /// The files that were found, or why the scan failed, once it is over.
    pub fn outcome(self) -> (outcome: Option<Result<PathMap<ObservedFile>, String>>)
        ensures
            match outcome {
                Some(Ok(found)) => self@.step is Done && found@ == self@.found,
                Some(Err(error)) => self@.step == StepView::Failed(error@),
                None => !(self@.step is Done) && !(self@.step is Failed),
            },
    {
        match self.step {
            Step::Done => Some(Ok(self.found)),
            Step::Failed(error) => Some(Err(error)),
            _ => None,
        }
    }
}

/// The view of a look that a scan asks for is that very look, at that very path.
pub proof fn law_view_of_a_look(action: ScanAction)
    ensures
        action is CheckExists <==> action@ is CheckExists,
        action is CheckDirectory <==> action@ is CheckDirectory,
        action matches ScanAction::List(path) ==> action@ == ActionView::List(path@),
        action matches ScanAction::Inspect(path) ==> action@ == ActionView::Inspect(path@),
        action matches ScanAction::Stat(path) ==> action@ == ActionView::Stat(path@),
        action matches ScanAction::Read(path) ==> action@ == ActionView::Read(path@),
        action is Finish <==> action@ is Finish,
{
}

/// The view of what was found is what was found.
pub proof fn law_view_of_a_finding(event: ScanEvent)
    ensures
        event matches ScanEvent::Exists(there) ==> event@ == EventView::Exists(there),
        event matches ScanEvent::Directory(is) ==> event@ == EventView::Directory(is),
        event matches ScanEvent::Inspected(Ok(kind)) ==> event@ == EventView::Inspected(Ok(kind)),
        event matches ScanEvent::Inspected(Err(error)) ==> event@ == EventView::Inspected(
            Err(error@),
        ),
        event matches ScanEvent::Statted(Ok(stat)) ==> event@ == EventView::Statted(Ok(stat)),
        event matches ScanEvent::Statted(Err(error)) ==> event@ == EventView::Statted(Err(error@)),
        event matches ScanEvent::Read(Ok(bytes)) ==> event@ == EventView::Read(Ok(bytes@)),
        event matches ScanEvent::Read(Err(error)) ==> event@ == EventView::Read(Err(error@)),
        event matches ScanEvent::Listed(Err(error)) ==> event@ == EventView::Listed(Err(error@)),
        event matches ScanEvent::Listed(Ok(entries)) ==> event@ matches EventView::Listed(
            Ok(views),
        ) && views.len() == entries@.len() && forall|i: int|
            0 <= i < views.len() ==> #[trigger] views[i] == entries@[i]@,
{
}

/// The view of an entry has its path, or why it could not be read.
pub proof fn law_view_of_an_entry(path: Vec<u8>, error: String)
    ensures
        Entry::Path(path)@ == EntryView::Path(path@),
        Entry::Unreadable(error)@ == EntryView::Unreadable(error@),
{
}

} // verus!
