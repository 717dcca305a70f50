//! What a scan leaves in the statistics, and what is said of it.
//!
//! The counters are 64 bits wide and start over at zero when they are full.

use vstd::prelude::*;
use vstd::string::*;

use crate::emit::{EmitTotals, TallyView};
use crate::model::{StatsView, StoredStats};
use crate::state::{load_stats, result_view, stats_or_zero, view_of};
use crate::text::{decimal, push_decimal};

verus! {

/// How a scan went, as a caller sees it.
#[derive(Debug, Clone, Copy, PartialEq, Eq, Structural)]
pub struct ScanOutcome {
    pub files_seen: u64,
    pub created: u64,
    pub modified: u64,
    pub deleted: u64,
    pub emitted: u64,
    pub duration_ms: u64,
}

/// How a scan went.
pub struct OutcomeView {
    pub files_seen: nat,
    pub created: nat,
    pub modified: nat,
    pub deleted: nat,
    pub emitted: nat,
    pub duration_ms: nat,
}

impl View for ScanOutcome {
    type V = OutcomeView;

    open spec fn view(&self) -> OutcomeView {
        OutcomeView {
            files_seen: self.files_seen as nat,
            created: self.created as nat,
            modified: self.modified as nat,
            deleted: self.deleted as nat,
            emitted: self.emitted as nat,
            duration_ms: self.duration_ms as nat,
        }
    }
}

/// What is said of a scan once it is recorded: how it went, how many changes it
/// detected, and the line to log.
#[derive(Debug)]
pub struct ScanReport {
    pub outcome: ScanOutcome,
    pub changes_detected: u64,
    pub line: String,
}

/// What is said of a scan, with texts for strings.
pub struct ReportView {
    pub outcome: OutcomeView,
    pub changes_detected: nat,
    pub line: Seq<char>,
}

impl View for ScanReport {
    type V = ReportView;

    open spec fn view(&self) -> ReportView {
        ReportView {
            outcome: self.outcome@,
            changes_detected: self.changes_detected as nat,
            line: self.line@,
        }
    }
}

/// The line to log of a scan, with the reason for which it was made.
pub open spec fn scan_line(reason: Seq<char>, outcome: OutcomeView) -> Seq<char> {
    reason + " scan: seen="@ + decimal(outcome.files_seen) + " created="@ + decimal(
        outcome.created,
    ) + " modified="@ + decimal(outcome.modified) + " deleted="@ + decimal(outcome.deleted)
        + " emitted="@ + decimal(outcome.emitted) + " duration_ms="@ + decimal(outcome.duration_ms)
}

/// What is said of a scan that saw `files_seen` files, detected `changes_detected`
/// changes and emitted them as `tally` says.
pub open spec fn report_of(
    reason: Seq<char>,
    files_seen: nat,
    changes_detected: nat,
    tally: TallyView,
    duration_ms: u64,
) -> ReportView {
    let outcome = OutcomeView {
        files_seen,
        created: tally.created,
        modified: tally.modified,
        deleted: tally.deleted,
        emitted: tally.emitted,
        duration_ms: duration_ms as nat,
    };
    ReportView { outcome, changes_detected, line: scan_line(reason, outcome) }
}

/// What is said of a scan.
pub fn report_scan(
    reason: &str,
    files_seen: u64,
    changes_detected: u64,
    totals: EmitTotals,
    duration_ms: u64,
) -> (report: ScanReport)
    ensures
        report@ == report_of(
            reason@,
            files_seen as nat,
            changes_detected as nat,
            totals@,
            duration_ms,
        ),
        report.outcome.files_seen == files_seen,
        report.outcome.created == totals.created,
        report.outcome.modified == totals.modified,
        report.outcome.deleted == totals.deleted,
        report.outcome.emitted == totals.emitted,
        report.outcome.duration_ms == duration_ms,
        report.changes_detected == changes_detected,
{
    let mut line = reason.to_string();
    line.append(" scan: seen=");
    push_decimal(&mut line, files_seen);
    line.append(" created=");
    push_decimal(&mut line, totals.created);
    line.append(" modified=");
    push_decimal(&mut line, totals.modified);
    line.append(" deleted=");
    push_decimal(&mut line, totals.deleted);
    line.append(" emitted=");
    push_decimal(&mut line, totals.emitted);
    line.append(" duration_ms=");
    push_decimal(&mut line, duration_ms);
    let outcome = ScanOutcome {
        files_seen,
        created: totals.created,
        modified: totals.modified,
        deleted: totals.deleted,
        emitted: totals.emitted,
        duration_ms,
    };
    ScanReport { outcome, changes_detected, line }
}

/// A counter that was raised by `n`.
pub open spec fn raised(counter: u64, n: nat) -> u64 {
    ((counter + n) % 0x1_0000_0000_0000_0000) as u64
}

fn raise(counter: u64, n: u64) -> (more: u64)
    ensures
        more == raised(counter, n as nat),
{
    counter.wrapping_add(n)
}

/// Statistics in which a scan is recorded. Its failure, if the last one failed, is
/// forgotten.
pub open spec fn recorded(
    stats: StatsView,
    files_seen: nat,
    changes_detected: nat,
    emitted: nat,
    now: Seq<char>,
    duration_ms: u64,
) -> StatsView {
    StatsView {
        ticks: stats.ticks,
        scans: raised(stats.scans, 1),
        files_seen_total: raised(stats.files_seen_total, files_seen),
        changes_detected_total: raised(stats.changes_detected_total, changes_detected),
        events_emitted_total: raised(stats.events_emitted_total, emitted),
        last_scan_at: Some(now),
        last_error: None,
        last_scan_duration_ms: Some(duration_ms),
    }
}

/// Records a scan that ended at `now`.
pub fn record_scan(
    stats: StoredStats,
    files_seen: u64,
    changes_detected: u64,
    emitted: u64,
    now: &str,
    duration_ms: u64,
) -> (after: StoredStats)
    ensures
        after@ == recorded(
            stats@,
            files_seen as nat,
            changes_detected as nat,
            emitted as nat,
            now@,
            duration_ms,
        ),
{
    StoredStats {
        ticks: stats.ticks,
        scans: raise(stats.scans, 1),
        files_seen_total: raise(stats.files_seen_total, files_seen),
        changes_detected_total: raise(stats.changes_detected_total, changes_detected),
        events_emitted_total: raise(stats.events_emitted_total, emitted),
        last_scan_at: Some(now.to_string()),
        last_error: None,
        last_scan_duration_ms: Some(duration_ms),
    }
}

/// The statistics that a tick leaves: those that were stored before it, with one
/// tick more, and with the failure of its scan if that failed.
pub open spec fn ticked(stats: StatsView, scanned: Result<(), Seq<char>>) -> StatsView {
    StatsView {
        ticks: raised(stats.ticks, 1),
        last_error: match scanned {
            Ok(_) => stats.last_error,
            Err(error) => Some(error),
        },
        ..stats
    }
}

/// What is logged of a tick whose scan failed.
pub open spec fn tick_failure(error: Seq<char>) -> Seq<char> {
    "tick failed: "@ + error
}

/// The end of a tick, from the statistics that were stored before it and how its
/// scan went: the statistics to store, and the warning to log if the scan failed.
pub fn end_tick(stored: Option<StoredStats>, scanned: Result<(), String>) -> (end: (
    StoredStats,
    Option<String>,
))
    ensures
        end.0@ == ticked(stats_or_zero(view_of(stored)), result_view(scanned)),
        match result_view(scanned) {
            Ok(_) => end.1 is None,
            Err(error) => view_of(end.1) == Some(tick_failure(error)),
        },
{
    let mut stats = load_stats(stored);
    stats.ticks = raise(stats.ticks, 1);
    match scanned {
        Ok(_) => (stats, None),
        Err(error) => {
            let mut warning = "tick failed: ".to_string();
            warning.append(error.as_str());
            stats.last_error = Some(error);
            (stats, Some(warning))
        },
    }
}

/// A counter grows by what it is raised by, and starts over at zero where it is full.
pub proof fn law_counters_count(counter: u64, n: nat)
    ensures
        counter + n <= u64::MAX ==> raised(counter, n) == counter + n,
        raised(counter, n) as int == (counter + n) % 0x1_0000_0000_0000_0000,
{
}

/// What is said of a scan are the numbers that are given, each in its own place: in the
/// outcome, and in the line to log.
pub proof fn law_report_says_each_number(
    reason: Seq<char>,
    files_seen: nat,
    changes_detected: nat,
    tally: TallyView,
    duration_ms: u64,
)
    ensures
        ({
            let report = report_of(reason, files_seen, changes_detected, tally, duration_ms);
            &&& report.outcome.files_seen == files_seen
            &&& report.outcome.created == tally.created
            &&& report.outcome.modified == tally.modified
            &&& report.outcome.deleted == tally.deleted
            &&& report.outcome.emitted == tally.emitted
            &&& report.outcome.duration_ms == duration_ms
            &&& report.changes_detected == changes_detected
            &&& report.line == reason + " scan: seen="@ + decimal(files_seen) + " created="@
                + decimal(tally.created) + " modified="@ + decimal(tally.modified) + " deleted="@
                + decimal(tally.deleted) + " emitted="@ + decimal(tally.emitted) + " duration_ms="@
                + decimal(duration_ms as nat)
        }),
{
}

/// A scan that is recorded raises each counter by its own number, the number of scans by
/// one and the number of ticks not at all. It leaves the time at which it was recorded
/// and how long it took, and no failure.
pub proof fn law_what_a_scan_leaves_in_the_statistics(
    stats: StatsView,
    files_seen: nat,
    changes_detected: nat,
    emitted: nat,
    now: Seq<char>,
    duration_ms: u64,
)
    ensures
        ({
            let after = recorded(stats, files_seen, changes_detected, emitted, now, duration_ms);
            let full = 0x1_0000_0000_0000_0000int;
            &&& after.ticks == stats.ticks
            &&& after.scans as int == (stats.scans + 1) % full
            &&& after.files_seen_total as int == (stats.files_seen_total + files_seen) % full
            &&& after.changes_detected_total as int == (stats.changes_detected_total
                + changes_detected) % full
            &&& after.events_emitted_total as int == (stats.events_emitted_total + emitted) % full
            &&& after.last_scan_at == Some(now)
            &&& after.last_error is None
            &&& after.last_scan_duration_ms == Some(duration_ms)
        }),
{
}

/// A tick is counted, and the failure of its scan is kept and logged.
pub proof fn law_what_a_tick_leaves(stats: StatsView, error: Seq<char>)
    ensures
        ticked(stats, Ok(())).ticks as int == (stats.ticks + 1) % 0x1_0000_0000_0000_0000,
        ticked(stats, Err(error)).ticks as int == (stats.ticks + 1) % 0x1_0000_0000_0000_0000,
        ticked(stats, Ok(())).last_error == stats.last_error,
        ticked(stats, Err(error)).last_error == Some(error),
        tick_failure(error) == "tick failed: "@ + error,
{
}

/// The view of a report has each of its parts, and those of its outcome.
pub proof fn law_view_of_a_report(report: ScanReport)
    ensures
        report@.outcome.files_seen == report.outcome.files_seen,
        report@.outcome.created == report.outcome.created,
        report@.outcome.modified == report.outcome.modified,
        report@.outcome.deleted == report.outcome.deleted,
        report@.outcome.emitted == report.outcome.emitted,
        report@.outcome.duration_ms == report.outcome.duration_ms,
        report@.changes_detected == report.changes_detected,
        report@.line == report.line@,
{
}

} // verus!
