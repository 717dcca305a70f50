//! A scan from its start to its report, one step at a time.
//!
//! A `ScanCycle` scans the watched folder, emits what changed since the last scan,
//! and stores first the snapshot for the next one and last the statistics. It says
//! what it has to do next, and is told how that went. The first failure ends it:
//! as long as the changes are not all emitted, the old snapshot stays.

use vstd::pervasive::unreached;
use vstd::prelude::*;

use crate::changes::{
    change_views, changes_between, derive_changes_at, snapshot_of, take_snapshot,
};
use crate::clock::now_rfc3339;
use crate::emit::{
    emission_after, emission_start, next_emit, tally_of, EmissionView, EmitAction,
    EmitActionView, EmitEvent, EmitEventView, EmitStepView, EmitTotals, Emission, TallyView,
};
use crate::model::{
    ChangeView, ConfigView, FileView, FingerprintView, ObservedFile, StatsView, StoredConfig,
    StoredFingerprint, StoredStats,
};
use crate::path_map::PathMap;
use crate::report::{record_scan, recorded, report_of, report_scan, ReportView, ScanReport};
use crate::scan::{
    low_millis, next_look, scan_after, scan_start, whole_millis, ActionView, EventView,
    FolderScan, ScanAction, ScanEvent, ScanView, StepView,
};
use crate::state::{
    config_or_default, load_config, load_snapshot, load_stats, result_view, snapshot_or_empty,
    stats_or_zero, view_of, StateWrite, WriteView,
};

verus! {

/// What a cycle has to do next.
pub enum CycleAction {
    /// Look at the file system.
    Scan(ScanAction),
    /// Send to the stream.
    Emit(EmitAction),
    /// Write to the store.
    Save(StateWrite),
    /// Take the time since the start of the cycle, and read the statistics.
    Measure,
    /// Nothing: the cycle is over.
    Finish,
}

/// What a cycle has to do next, with texts for strings.
pub enum CycleActionView {
    Scan(ActionView),
    Emit(EmitActionView),
    Save(WriteView),
    Measure,
    Finish,
}

impl View for CycleAction {
    type V = CycleActionView;

    open spec fn view(&self) -> CycleActionView {
        match self {
            CycleAction::Scan(action) => CycleActionView::Scan(action@),
            CycleAction::Emit(action) => CycleActionView::Emit(action@),
            CycleAction::Save(write) => CycleActionView::Save(write@),
            CycleAction::Measure => CycleActionView::Measure,
            CycleAction::Finish => CycleActionView::Finish,
        }
    }
}

/// How it went.
pub enum CycleEvent {
    Scan(ScanEvent),
    Emit(EmitEvent),
    Saved(Result<(), String>),
    /// The milliseconds since the start of the cycle, and the stored statistics.
    Measured(u128, Option<StoredStats>),
}

/// How it went, with texts for strings.
pub enum CycleEventView {
    Scan(EventView),
    Emit(EmitEventView),
    Saved(Result<(), Seq<char>>),
    Measured(u128, Option<StatsView>),
}

impl View for CycleEvent {
    type V = CycleEventView;

    open spec fn view(&self) -> CycleEventView {
        match self {
            CycleEvent::Scan(event) => CycleEventView::Scan(event@),
            CycleEvent::Emit(event) => CycleEventView::Emit(event@),
            CycleEvent::Saved(saved) => CycleEventView::Saved(result_view(*saved)),
            CycleEvent::Measured(ms, stored) => CycleEventView::Measured(*ms, view_of(*stored)),
        }
    }
}

enum CycleStep {
    Scan(FolderScan),
    Emit(PathMap<ObservedFile>, u64, Emission),
    SaveSnapshot(PathMap<ObservedFile>, u64, EmitTotals),
    Measure(u64, u64, EmitTotals),
    SaveStats(StoredStats, ScanReport),
    Done(ScanReport),
    Failed(String),
}

/// Where a cycle stands: what it waits for, or how it ended.
pub enum CycleStepView {
    /// The scan is under way.
    Scan(ScanView),
    /// The files that were found, the number of changes, and their emission.
    Emit(Map<Seq<char>, FileView>, nat, EmissionView),
    /// The files that were found, the number of changes, and what was emitted.
    SaveSnapshot(Map<Seq<char>, FileView>, nat, TallyView),
    /// The number of files, the number of changes, and what was emitted.
    Measure(nat, nat, TallyView),
    /// The new statistics, and what is to be said of the scan.
    SaveStats(StatsView, ReportView),
    Done(ReportView),
    Failed(Seq<char>),
}

impl View for CycleStep {
    type V = CycleStepView;

    closed spec fn view(&self) -> CycleStepView {
        match self {
            CycleStep::Scan(scan) => CycleStepView::Scan(scan@),
            CycleStep::Emit(current, changes, emission) => CycleStepView::Emit(
                current@,
                *changes as nat,
                emission@,
            ),
            CycleStep::SaveSnapshot(current, changes, totals) => CycleStepView::SaveSnapshot(
                current@,
                *changes as nat,
                totals@,
            ),
            CycleStep::Measure(files, changes, totals) => CycleStepView::Measure(
                *files as nat,
                *changes as nat,
                totals@,
            ),
            CycleStep::SaveStats(stats, report) => CycleStepView::SaveStats(stats@, report@),
            CycleStep::Done(report) => CycleStepView::Done(report@),
            CycleStep::Failed(error) => CycleStepView::Failed(error@),
        }
    }
}

/// The state of a cycle.
pub struct CycleView {
    pub reason: Seq<char>,
    pub config: ConfigView,
    pub previous: Map<Seq<char>, FingerprintView>,
    pub step: CycleStepView,
}

/// A cycle that has not begun, from what is stored.
pub open spec fn cycle_start(
    reason: Seq<char>,
    config: Option<ConfigView>,
    snapshot: Option<Map<Seq<char>, FingerprintView>>,
) -> CycleView {
    CycleView {
        reason,
        config: config_or_default(config),
        previous: snapshot_or_empty(snapshot),
        step: CycleStepView::Scan(scan_start(config_or_default(config))),
    }
}

/// What a cycle has to do next.
pub open spec fn next_action(step: CycleStepView) -> CycleActionView {
    match step {
        CycleStepView::Scan(scan) => CycleActionView::Scan(next_look(scan.step)),
        CycleStepView::Emit(current, changes, emission) => CycleActionView::Emit(
            next_emit(emission),
        ),
        CycleStepView::SaveSnapshot(current, changes, tally) => CycleActionView::Save(
            WriteView::Snapshot(snapshot_of(current)),
        ),
        CycleStepView::Measure(files, changes, tally) => CycleActionView::Measure,
        CycleStepView::SaveStats(stats, report) => CycleActionView::Save(WriteView::Stats(stats)),
        CycleStepView::Done(report) => CycleActionView::Finish,
        CycleStepView::Failed(error) => CycleActionView::Finish,
    }
}

/// The step of a cycle whose emission has come this far.
pub open spec fn emission_step(
    current: Map<Seq<char>, FileView>,
    changes: nat,
    emission: EmissionView,
) -> CycleStepView {
    match emission.step {
        EmitStepView::Done => CycleStepView::SaveSnapshot(
            current,
            changes,
            tally_of(emission.changes),
        ),
        EmitStepView::Failed(error) => CycleStepView::Failed(error),
        _ => CycleStepView::Emit(current, changes, emission),
    }
}

/// What a cycle reports of the files that its scan found.
pub open spec fn cycle_changes(
    cycle: CycleView,
    current: Map<Seq<char>, FileView>,
    now: Seq<char>,
) -> Seq<ChangeView> {
    changes_between(
        cycle.config.stream_name,
        cycle.previous,
        current,
        cycle.config.emit_existing_on_start,
        now,
    )
}

/// The step of a cycle whose scan has come this far, at `now`.
pub open spec fn scan_step(cycle: CycleView, scan: ScanView, now: Seq<char>) -> CycleStepView {
    match scan.step {
        StepView::Done => {
            let changes = cycle_changes(cycle, scan.found, now);
            emission_step(
                scan.found,
                changes.len(),
                emission_start(cycle.config.stream_name, changes),
            )
        },
        StepView::Failed(error) => CycleStepView::Failed(error),
        _ => CycleStepView::Scan(scan),
    }
}

/// The state of a cycle after it was told, at `now`, how it went. What it did not
/// ask for it takes no notice of.
pub open spec fn cycle_after(cycle: CycleView, event: CycleEventView, now: Seq<char>) -> CycleView {
    let step = match (cycle.step, event) {
        (CycleStepView::Scan(scan), CycleEventView::Scan(found)) => scan_step(
            cycle,
            scan_after(scan, found),
            now,
        ),
        (
            CycleStepView::Emit(current, changes, emission),
            CycleEventView::Emit(went),
        ) => emission_step(current, changes, emission_after(emission, went)),
        (
            CycleStepView::SaveSnapshot(current, changes, tally),
            CycleEventView::Saved(saved),
        ) => match saved {
            Ok(_) => CycleStepView::Measure(current.len(), changes, tally),
            Err(error) => CycleStepView::Failed(error),
        },
        (
            CycleStepView::Measure(files, changes, tally),
            CycleEventView::Measured(ms, stored),
        ) => CycleStepView::SaveStats(
            recorded(stats_or_zero(stored), files, changes, tally.emitted, now, low_millis(ms)),
            report_of(cycle.reason, files, changes, tally, low_millis(ms)),
        ),
        (CycleStepView::SaveStats(stats, report), CycleEventView::Saved(saved)) => match saved {
            Ok(_) => CycleStepView::Done(report),
            Err(error) => CycleStepView::Failed(error),
        },
        (step, _) => step,
    };
    CycleView { step, ..cycle }
}

/// A scan from its start to its report.
pub struct ScanCycle {
    reason: String,
    config: StoredConfig,
    previous: PathMap<StoredFingerprint>,
    step: CycleStep,
}

impl View for ScanCycle {
    type V = CycleView;

    closed spec fn view(&self) -> CycleView {
        CycleView {
            reason: self.reason@,
            config: self.config@,
            previous: self.previous@,
            step: self.step@,
        }
    }
}

fn enter_emission(current: PathMap<ObservedFile>, changes: u64, emission: Emission) -> (step:
    CycleStep)
    ensures
        step@ == emission_step(current@, changes as nat, emission@),
{
    if emission.is_over() {
        match emission.outcome() {
            Some(Ok(totals)) => CycleStep::SaveSnapshot(current, changes, totals),
            Some(Err(error)) => CycleStep::Failed(error),
            None => unreached(),
        }
    } else {
        CycleStep::Emit(current, changes, emission)
    }
}

/// The time to go by: the given one, or any where the clock is to be read.
spec fn is_time(clock: Option<&str>, now: Seq<char>) -> bool {
    clock matches Some(time) ==> time@ == now
}

spec fn any_time(clock: Option<&str>) -> Seq<char> {
    match clock {
        Some(time) => time@,
        None => seq![],
    }
}

fn time_of(clock: Option<&str>) -> (now: String)
    ensures
        is_time(clock, now@),
{
    match clock {
        Some(time) => time.to_string(),
        None => now_rfc3339(),
    }
}

impl ScanCycle {
    /// A cycle that has not begun, from what is stored.
    pub fn new(
        reason: &str,
        config: Option<StoredConfig>,
        snapshot: Option<PathMap<StoredFingerprint>>,
    ) -> (cycle: Self)
        ensures
            cycle@ == cycle_start(reason@, view_of(config), view_of(snapshot)),
    {
        let config = load_config(config);
        let scan = FolderScan::new(&config);
        ScanCycle {
            reason: reason.to_string(),
            config,
            previous: load_snapshot(snapshot),
            step: CycleStep::Scan(scan),
        }
    }

    /// What to do next.
    pub fn action(&self) -> (action: CycleAction)
        ensures
            action@ == next_action(self@.step),
    {
        match &self.step {
            CycleStep::Scan(scan) => CycleAction::Scan(scan.action()),
            CycleStep::Emit(_current, _changes, emission) => CycleAction::Emit(emission.action()),
            CycleStep::SaveSnapshot(current, _changes, _totals) => CycleAction::Save(
                StateWrite::Snapshot(take_snapshot(current)),
            ),
            CycleStep::Measure(_files, _changes, _totals) => CycleAction::Measure,
            CycleStep::SaveStats(stats, _report) => CycleAction::Save(
                StateWrite::Stats(stats.clone()),
            ),
            CycleStep::Done(_report) => CycleAction::Finish,
            CycleStep::Failed(_error) => CycleAction::Finish,
        }
    }

    fn enter_scan(&self, scan: FolderScan, clock: Option<&str>) -> (step: CycleStep)
        ensures
            exists|now: Seq<char>| #[trigger]
                is_time(clock, now) && step@ == scan_step(self@, scan@, now),
    {
        if scan.is_over() {
            match scan.outcome() {
                Some(Ok(current)) => {
                    let now = time_of(clock);
                    let changes = derive_changes_at(
                        self.config.stream_name.as_str(),
                        &self.previous,
                        &current,
                        self.config.emit_existing_on_start,
                        now.as_str(),
                    );
                    let count: u64 = changes.len() as u64;
                    assert(count == change_views(changes@).len());
                    let emission = Emission::new(self.config.stream_name.as_str(), changes);
                    let step = enter_emission(current, count, emission);
                    assert(is_time(clock, now@));
                    step
                },
                Some(Err(error)) => {
                    assert(is_time(clock, any_time(clock)));
                    CycleStep::Failed(error)
                },
                None => unreached(),
            }
        } else {
            assert(is_time(clock, any_time(clock)));
            CycleStep::Scan(scan)
        }
    }

    fn go_on(&mut self, event: CycleEvent, clock: Option<&str>)
        ensures
            exists|now: Seq<char>| #[trigger]
                is_time(clock, now) && final(self)@ == cycle_after(old(self)@, event@, now),
    {
        let mut step = CycleStep::Failed(String::new());
        std::mem::swap(&mut step, &mut self.step);
        assert(is_time(clock, any_time(clock)));
        match (step, event) {
            (CycleStep::Scan(scan), CycleEvent::Scan(found)) => {
                let mut scan = scan;
                scan.advance(found);
                self.step = self.enter_scan(scan, clock);
            },
            (CycleStep::Emit(current, changes, emission), CycleEvent::Emit(went)) => {
                let mut emission = emission;
                emission.advance(went);
                self.step = enter_emission(current, changes, emission);
            },
            (CycleStep::SaveSnapshot(current, changes, totals), CycleEvent::Saved(saved)) => {
                match saved {
                    Ok(_) => {
                        let files: u64 = current.len() as u64;
                        self.step = CycleStep::Measure(files, changes, totals);
                    },
                    Err(error) => {
                        self.step = CycleStep::Failed(error);
                    },
                }
            },
            (CycleStep::Measure(files, changes, totals), CycleEvent::Measured(ms, stored)) => {
                let now = time_of(clock);
                let duration_ms: u64 = whole_millis(ms);
                let stats = record_scan(
                    load_stats(stored),
                    files,
                    changes,
                    totals.emitted,
                    now.as_str(),
                    duration_ms,
                );
                let report = report_scan(
                    self.reason.as_str(),
                    files,
                    changes,
                    totals,
                    duration_ms,
                );
                self.step = CycleStep::SaveStats(stats, report);
                assert(is_time(clock, now@));
            },
            (CycleStep::SaveStats(_stats, report), CycleEvent::Saved(saved)) => match saved {
                Ok(_) => {
                    self.step = CycleStep::Done(report);
                },
                Err(error) => {
                    self.step = CycleStep::Failed(error);
                },
            },
            (step, _event) => {
                self.step = step;
            },
        }
    }

    /// Takes how it went, at `now`, and goes on.
    pub fn advance_at(&mut self, event: CycleEvent, now: &str)
        ensures
            final(self)@ == cycle_after(old(self)@, event@, now@),
    {
        self.go_on(event, Some(now));
    }

    /// Takes how it went, and goes on. The clock is read only where the time is needed:
    /// when the changes are derived, and when the scan is recorded.
    pub fn advance(&mut self, event: CycleEvent)
        ensures
            exists|now: Seq<char>| final(self)@ == #[trigger] cycle_after(old(self)@, event@, now),
    {
        self.go_on(event, None);
    }

    /// What is said of the scan, or why the cycle failed, once it is over.
    pub fn outcome(self) -> (outcome: Option<Result<ScanReport, String>>)
        ensures
            match outcome {
                Some(Ok(report)) => self@.step == CycleStepView::Done(report@),
                Some(Err(error)) => self@.step == CycleStepView::Failed(error@),
                None => !(self@.step is Done) && !(self@.step is Failed),
            },
    {
        match self.step {
            CycleStep::Done(report) => Some(Ok(report)),
            CycleStep::Failed(error) => Some(Err(error)),
            _ => None,
        }
    }
}

/// The view of what a cycle has to do, and of how it went, is just that.
pub proof fn law_views_of_a_cycle(
    look: ScanAction,
    send: EmitAction,
    write: StateWrite,
    found: ScanEvent,
    went: EmitEvent,
    saved: Result<(), String>,
    ms: u128,
    stored: Option<StoredStats>,
)
    ensures
        CycleAction::Scan(look)@ == CycleActionView::Scan(look@),
        CycleAction::Emit(send)@ == CycleActionView::Emit(send@),
        CycleAction::Save(write)@ == CycleActionView::Save(write@),
        CycleAction::Measure@ == CycleActionView::Measure,
        CycleAction::Finish@ == CycleActionView::Finish,
        CycleEvent::Scan(found)@ == CycleEventView::Scan(found@),
        CycleEvent::Emit(went)@ == CycleEventView::Emit(went@),
        CycleEvent::Saved(saved)@ == CycleEventView::Saved(result_view(saved)),
        CycleEvent::Measured(ms, stored)@ == CycleEventView::Measured(ms, view_of(stored)),
{
}

} // verus!
