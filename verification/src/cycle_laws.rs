//! What holds of every cycle, whatever it meets on its way.

use vstd::prelude::*;

use crate::change_laws::{keyed_by_path, law_no_change_no_report};
use crate::changes::{changes_between, snapshot_of};
use crate::cycle::{
    cycle_after, cycle_changes, cycle_start, emission_step, next_action, scan_step,
    CycleActionView, CycleEventView, CycleStepView, CycleView,
};
use crate::emit::{
    count_of, emission_after, emission_start, law_topics_differ, law_totals_add_up,
    message_about, tally_of, topic_word, EmissionView, EmitActionView, EmitEventView,
    EmitStepView, MessageView, TallyView,
};
use crate::model::{
    default_config, ChangeView, ConfigView, FileView, FingerprintView, ObservedChangeKind,
    StatsView,
};
use crate::report::{raised, recorded, report_of, scan_line, ticked, ReportView};
use crate::scan::{low_millis, scan_after, scan_start, EventView, ScanView, StepView};
use crate::scan_laws::{
    law_found_files_are_keyed_by_path, law_one_end, law_scan_asks_for_what_it_goes_by,
    law_scan_is_complete, law_scan_is_sound, scan_run, Disk,
};
use crate::state::{after_writes, stats_or_zero, StoreView, WriteView};
use crate::text::lossy_utf8;

verus! {

/// A cycle that was told `events`, each at its time.
pub open spec fn cycle_run(start: CycleView, events: Seq<(CycleEventView, Seq<char>)>) -> CycleView
    decreases events.len(),
{
    if events.len() == 0 {
        start
    } else {
        cycle_after(cycle_run(start, events.drop_last()), events.last().0, events.last().1)
    }
}

/// The messages that were sent, with the one that the cycle had to send if that went
/// well.
pub open spec fn sent_after(
    sent: Seq<MessageView>,
    step: CycleStepView,
    event: CycleEventView,
) -> Seq<MessageView> {
    match (next_action(step), event) {
        (
            CycleActionView::Emit(EmitActionView::Send(message)),
            CycleEventView::Emit(EmitEventView::Sent(Ok(_))),
        ) => sent.push(message),
        _ => sent,
    }
}

/// What was stored, with what the cycle had to store if that went well.
pub open spec fn saved_after(
    saved: Seq<WriteView>,
    step: CycleStepView,
    event: CycleEventView,
) -> Seq<WriteView> {
    match (next_action(step), event) {
        (CycleActionView::Save(write), CycleEventView::Saved(Ok(_))) => saved.push(write),
        _ => saved,
    }
}

/// The messages that a cycle sent on the way.
pub open spec fn cycle_sent(start: CycleView, events: Seq<(CycleEventView, Seq<char>)>) -> Seq<
    MessageView,
>
    decreases events.len(),
{
    if events.len() == 0 {
        seq![]
    } else {
        sent_after(
            cycle_sent(start, events.drop_last()),
            cycle_run(start, events.drop_last()).step,
            events.last().0,
        )
    }
}

/// What a cycle stored on the way.
pub open spec fn cycle_saved(start: CycleView, events: Seq<(CycleEventView, Seq<char>)>) -> Seq<
    WriteView,
>
    decreases events.len(),
{
    if events.len() == 0 {
        seq![]
    } else {
        saved_after(
            cycle_saved(start, events.drop_last()),
            cycle_run(start, events.drop_last()).step,
            events.last().0,
        )
    }
}

/// The messages about changes, in their order.
pub open spec fn messages_about(stream: Seq<char>, changes: Seq<ChangeView>) -> Seq<MessageView> {
    changes.map_values(|change: ChangeView| message_about(stream, change))
}

/// What the finished scan of a cycle found, and when that was compared with the last
/// snapshot.
pub open spec fn cycle_found(start: CycleView, events: Seq<(CycleEventView, Seq<char>)>) -> Option<
    (Map<Seq<char>, FileView>, Seq<char>),
>
    decreases events.len(),
{
    if events.len() == 0 {
        None
    } else {
        match (cycle_run(start, events.drop_last()).step, events.last().0) {
            (CycleStepView::Scan(scan), CycleEventView::Scan(found)) => {
                let after = scan_after(scan, found);
                if after.step is Done {
                    Some((after.found, events.last().1))
                } else {
                    cycle_found(start, events.drop_last())
                }
            },
            _ => cycle_found(start, events.drop_last()),
        }
    }
}

/// What a cycle was told when it asked: the milliseconds since its start, the stored
/// statistics, and the time at which it was told.
pub struct Measurement {
    pub ms: u128,
    pub stored: Option<StatsView>,
    pub time: Seq<char>,
}

/// What was measured, with what the cycle is told now if it has asked.
pub open spec fn measured_after(
    measured: Option<Measurement>,
    step: CycleStepView,
    event: CycleEventView,
    time: Seq<char>,
) -> Option<Measurement> {
    match (step, event) {
        (
            CycleStepView::Measure(files, changes, tally),
            CycleEventView::Measured(ms, stored),
        ) => Some(Measurement { ms, stored, time }),
        _ => measured,
    }
}

/// What a cycle was told when it asked for the time since its start and the
/// statistics.
pub open spec fn cycle_measured(
    start: CycleView,
    events: Seq<(CycleEventView, Seq<char>)>,
) -> Option<Measurement>
    decreases events.len(),
{
    if events.len() == 0 {
        None
    } else {
        measured_after(
            cycle_measured(start, events.drop_last()),
            cycle_run(start, events.drop_last()).step,
            events.last().0,
            events.last().1,
        )
    }
}

/// The report of a cycle that found `current`, compared it at `now`, and measured
/// `told`.
pub open spec fn report_told(
    start: CycleView,
    told: Measurement,
    current: Map<Seq<char>, FileView>,
    now: Seq<char>,
) -> ReportView {
    let changes = cycle_changes(start, current, now);
    report_of(
        start.reason,
        current.len(),
        changes.len(),
        tally_of(changes),
        low_millis(told.ms),
    )
}

/// The statistics that it leaves: those that it was told, with this scan recorded.
pub open spec fn stats_told(
    start: CycleView,
    told: Measurement,
    current: Map<Seq<char>, FileView>,
    now: Seq<char>,
) -> StatsView {
    let changes = cycle_changes(start, current, now);
    recorded(
        stats_or_zero(told.stored),
        current.len(),
        changes.len(),
        changes.len(),
        told.time,
        low_millis(told.ms),
    )
}

/// What a cycle has sent and stored at each of its steps, if its scan found `current`,
/// each file under its path, the changes were derived at `now`, and it was told
/// `measured`.
pub open spec fn is_course(
    start: CycleView,
    cycle: CycleView,
    sent: Seq<MessageView>,
    saved: Seq<WriteView>,
    measured: Option<Measurement>,
    current: Map<Seq<char>, FileView>,
    now: Seq<char>,
) -> bool {
    let changes = cycle_changes(start, current, now);
    let messages = messages_about(start.config.stream_name, changes);
    let snapshot = WriteView::Snapshot(snapshot_of(current));
    &&& cycle.reason == start.reason
    &&& cycle.config == start.config
    &&& cycle.previous == start.previous
    &&& keyed_by_path(current)
    &&& current.dom().finite()
    &&& match cycle.step {
        CycleStepView::Scan(scan) => {
            &&& keyed_by_path(scan.found)
            &&& scan.found.dom().finite()
            &&& !(scan.step is Done)
            &&& !(scan.step is Failed)
            &&& sent.len() == 0
            &&& saved.len() == 0
        },
        CycleStepView::Emit(found, count, emission) => {
            &&& found == current
            &&& count == changes.len()
            &&& emission.changes == changes
            &&& emission.stream == start.config.stream_name
            &&& saved.len() == 0
            &&& match emission.step {
                EmitStepView::Connect => sent.len() == 0,
                EmitStepView::Send(i) => 0 <= i < changes.len() && sent == messages.take(i),
                _ => false,
            }
        },
        CycleStepView::SaveSnapshot(found, count, tally) => {
            &&& found == current
            &&& count == changes.len()
            &&& tally == tally_of(changes)
            &&& sent == messages
            &&& saved.len() == 0
        },
        CycleStepView::Measure(files, count, tally) => {
            &&& files == current.len()
            &&& count == changes.len()
            &&& tally == tally_of(changes)
            &&& sent == messages
            &&& saved == seq![snapshot]
        },
        CycleStepView::SaveStats(stats, report) => {
            &&& measured matches Some(told)
            &&& stats == stats_told(start, told, current, now)
            &&& report == report_told(start, told, current, now)
            &&& sent == messages
            &&& saved == seq![snapshot]
        },
        CycleStepView::Done(report) => {
            &&& measured matches Some(told)
            &&& report == report_told(start, told, current, now)
            &&& sent == messages
            &&& saved == seq![snapshot, WriteView::Stats(stats_told(start, told, current, now))]
        },
        CycleStepView::Failed(error) => {
            ||| saved.len() == 0 && sent.len() <= messages.len() && sent == messages.take(
                sent.len() as int,
            )
            ||| saved == seq![snapshot] && sent == messages
        },
    }
}

/// What a cycle has compared with the last snapshot, and when. Nothing, as long as its
/// scan is not finished.
pub open spec fn compared(start: CycleView, events: Seq<(CycleEventView, Seq<char>)>) -> (
    Map<Seq<char>, FileView>,
    Seq<char>,
) {
    match cycle_found(start, events) {
        Some(found) => found,
        None => (Map::empty(), seq![]),
    }
}

/// The account of a cycle: what it has sent and stored, by what its own scan found and
/// what it was told. Before its scan is finished it has sent and stored nothing.
pub open spec fn is_account(start: CycleView, events: Seq<(CycleEventView, Seq<char>)>) -> bool {
    let cycle = cycle_run(start, events);
    &&& is_course(
        start,
        cycle,
        cycle_sent(start, events),
        cycle_saved(start, events),
        cycle_measured(start, events),
        compared(start, events).0,
        compared(start, events).1,
    )
    &&& cycle.step is Scan ==> cycle_found(start, events) is None
    &&& cycle_found(start, events) is None ==> {
        &&& cycle.step is Scan || cycle.step is Failed
        &&& cycle_sent(start, events).len() == 0
        &&& cycle_saved(start, events).len() == 0
    }
}

proof fn lemma_emission_account(
    start: CycleView,
    cycle: CycleView,
    sent: Seq<MessageView>,
    measured: Option<Measurement>,
    current: Map<Seq<char>, FileView>,
    now: Seq<char>,
    emission: EmissionView,
)
    requires
        cycle.reason == start.reason,
        cycle.config == start.config,
        cycle.previous == start.previous,
        keyed_by_path(current),
        current.dom().finite(),
        emission.changes == cycle_changes(start, current, now),
        emission.stream == start.config.stream_name,
        cycle.step == emission_step(current, emission.changes.len(), emission),
        ({
            let messages = messages_about(emission.stream, emission.changes);
            match emission.step {
                EmitStepView::Connect => sent.len() == 0,
                EmitStepView::Send(i) => 0 <= i < messages.len() && sent == messages.take(i),
                EmitStepView::Done => sent == messages,
                EmitStepView::Failed(error) => sent.len() <= messages.len() && sent
                    == messages.take(sent.len() as int),
            }
        }),
    ensures
        is_course(start, cycle, sent, seq![], measured, current, now),
{
}

proof fn lemma_scan_account(
    start: CycleView,
    before: CycleView,
    sent: Seq<MessageView>,
    saved: Seq<WriteView>,
    measured: Option<Measurement>,
    current: Map<Seq<char>, FileView>,
    now: Seq<char>,
    event: CycleEventView,
    time: Seq<char>,
)
    requires
        before.step is Scan,
        event is Scan,
        is_course(start, before, sent, saved, measured, current, now),
    ensures
        ({
            let next = scan_after(before.step->Scan_0, event->Scan_0);
            is_course(
                start,
                cycle_after(before, event, time),
                sent_after(sent, before.step, event),
                saved_after(saved, before.step, event),
                measured_after(measured, before.step, event, time),
                if next.step is Done {
                    next.found
                } else {
                    current
                },
                if next.step is Done {
                    time
                } else {
                    now
                },
            )
        }),
{
    let next = scan_after(before.step->Scan_0, event->Scan_0);
    let after = cycle_after(before, event, time);
    law_found_files_are_keyed_by_path(before.step->Scan_0, event->Scan_0);
    assert(sent =~= seq![]);
    assert(saved =~= seq![]);
    if next.step is Done {
        let changes = cycle_changes(start, next.found, time);
        let messages = messages_about(start.config.stream_name, changes);
        let emission = emission_start(start.config.stream_name, changes);
        assert(changes.len() == 0 ==> sent =~= messages);
        lemma_emission_account(start, after, sent, measured, next.found, time, emission);
    } else {
        let messages = messages_about(
            start.config.stream_name,
            cycle_changes(start, current, now),
        );
        assert(sent =~= messages.take(0));
    }
}

proof fn lemma_emit_account(
    start: CycleView,
    before: CycleView,
    sent: Seq<MessageView>,
    saved: Seq<WriteView>,
    measured: Option<Measurement>,
    current: Map<Seq<char>, FileView>,
    now: Seq<char>,
    event: CycleEventView,
    time: Seq<char>,
)
    requires
        before.step is Emit,
        event is Emit,
        is_course(start, before, sent, saved, measured, current, now),
    ensures
        is_course(
            start,
            cycle_after(before, event, time),
            sent_after(sent, before.step, event),
            saved_after(saved, before.step, event),
            measured_after(measured, before.step, event, time),
            current,
            now,
        ),
{
    let emission = before.step->Emit_2;
    let next = emission_after(emission, event->Emit_0);
    let after = cycle_after(before, event, time);
    let messages = messages_about(start.config.stream_name, cycle_changes(start, current, now));
    assert(saved =~= seq![]);
    if let EmitStepView::Send(i) = emission.step {
        assert(sent.len() == i);
        assert(messages[i] == message_about(emission.stream, emission.changes[i]));
        assert(messages.take(i).push(messages[i]) =~= messages.take(i + 1));
        assert(messages.take(messages.len() as int) =~= messages);
    } else {
        assert(sent =~= messages.take(0));
        assert(messages.len() == 0 ==> sent =~= messages);
    }
    lemma_emission_account(
        start,
        after,
        sent_after(sent, before.step, event),
        measured,
        current,
        now,
        next,
    );
}

proof fn lemma_late_account(
    start: CycleView,
    before: CycleView,
    sent: Seq<MessageView>,
    saved: Seq<WriteView>,
    measured: Option<Measurement>,
    current: Map<Seq<char>, FileView>,
    now: Seq<char>,
    event: CycleEventView,
    time: Seq<char>,
)
    requires
        before.step is Scan ==> !(event is Scan),
        before.step is Emit ==> !(event is Emit),
        is_course(start, before, sent, saved, measured, current, now),
    ensures
        is_course(
            start,
            cycle_after(before, event, time),
            sent_after(sent, before.step, event),
            saved_after(saved, before.step, event),
            measured_after(measured, before.step, event, time),
            current,
            now,
        ),
{
    let messages = messages_about(start.config.stream_name, cycle_changes(start, current, now));
    assert(messages.take(messages.len() as int) =~= messages);
    if before.step is SaveSnapshot && saved_after(saved, before.step, event) != saved {
        assert(saved_after(saved, before.step, event) =~= seq![
            WriteView::Snapshot(snapshot_of(current)),
        ]);
    }
    if before.step is SaveStats && saved_after(saved, before.step, event) != saved {
        assert(saved_after(saved, before.step, event) =~= seq![
            WriteView::Snapshot(snapshot_of(current)),
            WriteView::Stats(before.step->SaveStats_0),
        ]);
    }
}

proof fn lemma_account(start: CycleView, events: Seq<(CycleEventView, Seq<char>)>)
    requires
        start.step == CycleStepView::Scan(scan_start(start.config)),
    ensures
        is_account(start, events),
    decreases events.len(),
{
    if events.len() > 0 {
        let earlier = events.drop_last();
        let (event, time) = events.last();
        lemma_account(start, earlier);
        let (current, now) = compared(start, earlier);
        let before = cycle_run(start, earlier);
        let sent = cycle_sent(start, earlier);
        let saved = cycle_saved(start, earlier);
        let measured = cycle_measured(start, earlier);
        if before.step is Scan && event is Scan {
            lemma_scan_account(start, before, sent, saved, measured, current, now, event, time);
        } else if before.step is Emit && event is Emit {
            lemma_emit_account(start, before, sent, saved, measured, current, now, event, time);
        } else {
            lemma_late_account(start, before, sent, saved, measured, current, now, event, time);
        }
    }
}

/// The account of a cycle, whatever it meets on its way: it sends the messages about
/// its changes in order, stores the snapshot of what its scan found once it has sent
/// them all, and stores the statistics last: those that it was told, with this scan
/// recorded. If it fails on the way, what it was about to do and all that follows is
/// not done.
pub proof fn law_account(
    reason: Seq<char>,
    config: Option<ConfigView>,
    snapshot: Option<Map<Seq<char>, FingerprintView>>,
    events: Seq<(CycleEventView, Seq<char>)>,
)
    ensures
        is_account(cycle_start(reason, config, snapshot), events),
{
    lemma_account(cycle_start(reason, config, snapshot), events);
}

/// Changes are not lost: a cycle stores nothing before it has sent a message about
/// each of them, and the snapshot that it stores is of the files that its scan found.
/// Until that is done the old snapshot stays, and the next cycle compares with it
/// again.
pub proof fn law_nothing_is_stored_before_all_is_sent(
    reason: Seq<char>,
    config: Option<ConfigView>,
    snapshot: Option<Map<Seq<char>, FingerprintView>>,
    events: Seq<(CycleEventView, Seq<char>)>,
)
    ensures
        ({
            let start = cycle_start(reason, config, snapshot);
            let saved = cycle_saved(start, events);
            saved.len() > 0 ==> {
                &&& cycle_found(start, events) matches Some((current, now))
                &&& cycle_sent(start, events) == messages_about(
                    start.config.stream_name,
                    cycle_changes(start, current, now),
                )
                &&& saved[0] == WriteView::Snapshot(snapshot_of(current))
            }
        }),
{
    lemma_account(cycle_start(reason, config, snapshot), events);
}

/// A cycle never writes a configuration, and never more than a snapshot and
/// statistics, in this order. Only a cycle that succeeds has written both.
pub proof fn law_what_a_cycle_stores(
    reason: Seq<char>,
    config: Option<ConfigView>,
    snapshot: Option<Map<Seq<char>, FingerprintView>>,
    events: Seq<(CycleEventView, Seq<char>)>,
)
    ensures
        ({
            let start = cycle_start(reason, config, snapshot);
            let saved = cycle_saved(start, events);
            &&& saved.len() <= 2
            &&& saved.len() >= 1 ==> saved[0] is Snapshot
            &&& saved.len() == 2 ==> saved[1] is Stats
            &&& saved.len() == 2 <==> cycle_run(start, events).step is Done
        }),
{
    lemma_account(cycle_start(reason, config, snapshot), events);
}

/// The report of a cycle adds up: every change that it detected was emitted, each as
/// a created, modified or deleted file. It says how many files the scan found, and how
/// long the cycle took as it was told.
pub proof fn law_report_adds_up(
    reason: Seq<char>,
    config: Option<ConfigView>,
    snapshot: Option<Map<Seq<char>, FingerprintView>>,
    events: Seq<(CycleEventView, Seq<char>)>,
)
    ensures
        ({
            let start = cycle_start(reason, config, snapshot);
            cycle_run(start, events).step matches CycleStepView::Done(report) ==> {
                &&& report.changes_detected == report.outcome.emitted
                &&& report.outcome.emitted == cycle_sent(start, events).len()
                &&& report.outcome.created + report.outcome.modified + report.outcome.deleted
                    == report.outcome.emitted
                &&& report.line == scan_line(reason, report.outcome)
                &&& cycle_found(start, events) matches Some((current, now))
                &&& report.outcome.files_seen == current.len()
                &&& cycle_measured(start, events) matches Some(told)
                &&& report.outcome.duration_ms == low_millis(told.ms)
            }
        }),
{
    let start = cycle_start(reason, config, snapshot);
    lemma_account(start, events);
    let (current, now) = compared(start, events);
    law_totals_add_up(cycle_changes(start, current, now));
}

/// A cycle that is over stays as it is.
pub proof fn law_over_is_over(cycle: CycleView, event: CycleEventView, now: Seq<char>)
    requires
        cycle.step is Done || cycle.step is Failed,
    ensures
        cycle_after(cycle, event, now) == cycle,
        next_action(cycle.step) == CycleActionView::Finish,
{
}

/// A second look at a folder in which nothing has changed reports nothing: it
/// connects to no stream, sends nothing, and stores the snapshot that is there.
pub proof fn law_nothing_new(cycle: CycleView, scan: ScanView, now: Seq<char>)
    requires
        scan.step is Done,
        scan.found.dom().finite(),
        cycle.previous == snapshot_of(scan.found),
    ensures
        scan_step(cycle, scan, now) == CycleStepView::SaveSnapshot(
            scan.found,
            0,
            (TallyView { emitted: 0, created: 0, modified: 0, deleted: 0 }),
        ),
        next_action(scan_step(cycle, scan, now)) == CycleActionView::Save(
            WriteView::Snapshot(cycle.previous),
        ),
{
    law_no_change_no_report(
        cycle.config.stream_name,
        scan.found,
        cycle.config.emit_existing_on_start,
        now,
    );
}

/// What a cycle stored is what the next one goes by: after a cycle that succeeded,
/// the next one compares with the files that this one found.
pub proof fn law_next_cycle_goes_on_from_this_one(
    store: StoreView,
    reason: Seq<char>,
    events: Seq<(CycleEventView, Seq<char>)>,
    next_reason: Seq<char>,
)
    ensures
        ({
            let start = cycle_start(reason, store.config, store.snapshot);
            let after = after_writes(store, cycle_saved(start, events));
            let next = cycle_start(next_reason, after.config, after.snapshot);
            &&& next.config == start.config
            &&& cycle_saved(start, events).len() == 0 ==> next.previous == start.previous
            &&& cycle_run(start, events).step is Done ==> {
                &&& cycle_found(start, events) matches Some((current, now))
                &&& cycle_sent(start, events) == messages_about(
                    start.config.stream_name,
                    cycle_changes(start, current, now),
                )
                &&& next.previous == snapshot_of(current)
            }
        }),
{
    let start = cycle_start(reason, store.config, store.snapshot);
    lemma_account(start, events);
    let saved = cycle_saved(start, events);
    reveal_with_fuel(after_writes, 3);
    if saved.len() == 2 {
        assert(saved.drop_last().last() == saved[0]);
    }
}

/// What a cycle is told of the file system is what `disk` has.
pub open spec fn sees(
    start: CycleView,
    events: Seq<(CycleEventView, Seq<char>)>,
    disk: Disk,
) -> bool
    decreases events.len(),
{
    events.len() > 0 ==> {
        &&& sees(start, events.drop_last(), disk)
        &&& cycle_run(start, events.drop_last()).step matches CycleStepView::Scan(scan)
            ==> events.last().0 == CycleEventView::Scan(disk.answer(scan.step))
    }
}

spec fn is_found(disk: Disk, config: ConfigView, found: Map<Seq<char>, FileView>) -> bool {
    exists|n: nat|
        {
            let scan = #[trigger] scan_run(disk, config, n);
            scan.step is Done && scan.found == found
        }
}

proof fn lemma_sees(
    start: CycleView,
    events: Seq<(CycleEventView, Seq<char>)>,
    disk: Disk,
)
    requires
        start.step == CycleStepView::Scan(scan_start(start.config)),
        sees(start, events, disk),
    ensures
        cycle_run(start, events).config == start.config,
        cycle_run(start, events).step matches CycleStepView::Scan(scan) ==> scan == scan_run(
            disk,
            start.config,
            events.len(),
        ),
        cycle_found(start, events) matches Some((current, now)) ==> is_found(
            disk,
            start.config,
            current,
        ),
    decreases events.len(),
{
    if events.len() > 0 {
        lemma_sees(start, events.drop_last(), disk);
        let before = cycle_run(start, events.drop_last());
        if let CycleStepView::Scan(scan) = before.step {
            let next = scan_run(disk, start.config, events.len());
            assert(next == scan_after(scan, disk.answer(scan.step)));
            if next.step is Done {
                assert(is_found(disk, start.config, next.found));
            }
        }
    }
}

/// The snapshot that a cycle stores is that of the disk: it has every file that the
/// watcher is to find, nothing else, and the fingerprint of each as it is there.
pub proof fn law_snapshot_is_of_the_disk(
    reason: Seq<char>,
    config: Option<ConfigView>,
    previous: Option<Map<Seq<char>, FingerprintView>>,
    events: Seq<(CycleEventView, Seq<char>)>,
    disk: Disk,
)
    requires
        sees(cycle_start(reason, config, previous), events, disk),
    ensures
        ({
            let start = cycle_start(reason, config, previous);
            next_action(cycle_run(start, events).step) matches CycleActionView::Save(
                WriteView::Snapshot(snapshot),
            ) ==> {
                &&& forall|path: Seq<u8>| #[trigger]
                    disk.is_wanted(start.config, path) ==> snapshot.contains_key(lossy_utf8(path))
                &&& forall|key: Seq<char>| #[trigger]
                    snapshot.contains_key(key) ==> exists|path: Seq<u8>| #[trigger]
                        disk.is_wanted(start.config, path) && lossy_utf8(path) == key
                            && snapshot[key] == disk.file(start.config, path).fingerprint
            }
        }),
{
    let start = cycle_start(reason, config, previous);
    lemma_sees(start, events, disk);
    lemma_account(start, events);
    if let CycleStepView::SaveSnapshot(found, count, tally) = cycle_run(start, events).step {
        let n = choose|n: nat|
            {
                let scan = #[trigger] scan_run(disk, start.config, n);
                scan.step is Done && scan.found == found
            };
        assert forall|path: Seq<u8>| #[trigger] disk.is_wanted(start.config, path) implies snapshot_of(
            found,
        ).contains_key(lossy_utf8(path)) by {
            law_scan_is_complete(disk, start.config, n, path);
        }
        assert forall|key: Seq<char>| #[trigger] snapshot_of(found).contains_key(key) implies exists|
            path: Seq<u8>,
        | #[trigger]
            disk.is_wanted(start.config, path) && lossy_utf8(path) == key && snapshot_of(found)[key]
                == disk.file(start.config, path).fingerprint by {
            law_scan_is_sound(disk, start.config, n, key);
        }
    }
}

proof fn lemma_nothing_new_run(
    start: CycleView,
    events: Seq<(CycleEventView, Seq<char>)>,
    disk: Disk,
    found: Map<Seq<char>, FileView>,
)
    requires
        start.step == CycleStepView::Scan(scan_start(start.config)),
        start.previous == snapshot_of(found),
        is_found(disk, start.config, found),
        sees(start, events, disk),
    ensures
        cycle_sent(start, events).len() == 0,
        !(cycle_run(start, events).step is Emit),
    decreases events.len(),
{
    if events.len() > 0 {
        let earlier = events.drop_last();
        let before = cycle_run(start, earlier);
        lemma_nothing_new_run(start, earlier, disk, found);
        lemma_sees(start, earlier, disk);
        lemma_account(start, earlier);
        if let CycleStepView::Scan(scan) = before.step {
            let next = scan_run(disk, start.config, events.len());
            assert(next == scan_after(scan, disk.answer(scan.step)));
            law_found_files_are_keyed_by_path(scan, disk.answer(scan.step));
            if next.step is Done {
                let n = choose|n: nat|
                    {
                        let scan = #[trigger] scan_run(disk, start.config, n);
                        scan.step is Done && scan.found == found
                    };
                law_one_end(disk, start.config, n, events.len());
                law_nothing_new(before, next, events.last().1);
            }
        }
    }
}

proof fn lemma_found_once(
    disk: Disk,
    config: ConfigView,
    a: Map<Seq<char>, FileView>,
    b: Map<Seq<char>, FileView>,
)
    requires
        is_found(disk, config, a),
        is_found(disk, config, b),
    ensures
        a == b,
{
    let n = choose|n: nat|
        {
            let scan = #[trigger] scan_run(disk, config, n);
            scan.step is Done && scan.found == a
        };
    let m = choose|m: nat|
        {
            let scan = #[trigger] scan_run(disk, config, m);
            scan.step is Done && scan.found == b
        };
    law_one_end(disk, config, n, m);
}

/// Two cycles over a disk that stays as it is: after one that succeeded, the next one
/// has nothing to report. It connects to no stream and sends nothing, and the snapshot
/// in the store stays as it is. If it succeeds too, it has seen as many files as the
/// one before, and none that was created, modified or deleted.
#[verifier::rlimit(60)]
#[verifier::spinoff_prover]
pub proof fn law_unchanged_disk_is_not_reported_again(
    store: StoreView,
    reason: Seq<char>,
    events: Seq<(CycleEventView, Seq<char>)>,
    next_reason: Seq<char>,
    next_events: Seq<(CycleEventView, Seq<char>)>,
    disk: Disk,
)
    requires
        ({
            let start = cycle_start(reason, store.config, store.snapshot);
            let after = after_writes(store, cycle_saved(start, events));
            &&& cycle_run(start, events).step is Done
            &&& sees(start, events, disk)
            &&& sees(cycle_start(next_reason, after.config, after.snapshot), next_events, disk)
        }),
    ensures
        ({
            let start = cycle_start(reason, store.config, store.snapshot);
            let after = after_writes(store, cycle_saved(start, events));
            let next = cycle_start(next_reason, after.config, after.snapshot);
            let earlier = cycle_run(start, events).step->Done_0;
            &&& cycle_sent(next, next_events).len() == 0
            &&& !(cycle_run(next, next_events).step is Emit)
            &&& after_writes(after, cycle_saved(next, next_events)).snapshot == after.snapshot
            &&& cycle_run(next, next_events).step matches CycleStepView::Done(report) ==> {
                &&& report.outcome.files_seen == earlier.outcome.files_seen
                &&& report.changes_detected == 0
                &&& report.outcome.created == 0
                &&& report.outcome.modified == 0
                &&& report.outcome.deleted == 0
                &&& report.outcome.emitted == 0
            }
        }),
{
    let start = cycle_start(reason, store.config, store.snapshot);
    let saved = cycle_saved(start, events);
    let after = after_writes(store, saved);
    let next = cycle_start(next_reason, after.config, after.snapshot);
    lemma_account(start, events);
    lemma_sees(start, events, disk);
    let (current, now) = compared(start, events);
    reveal_with_fuel(after_writes, 3);
    assert(saved.drop_last().last() == saved[0]);
    assert(after.snapshot == Some(snapshot_of(current)));
    assert(next.config == start.config);
    lemma_nothing_new_run(next, next_events, disk, current);
    law_report_adds_up(reason, store.config, store.snapshot, events);
    law_report_adds_up(next_reason, after.config, after.snapshot, next_events);
    lemma_account(next, next_events);
    lemma_sees(next, next_events, disk);
    let next_saved = cycle_saved(next, next_events);
    if let Some((found, time)) = cycle_found(next, next_events) {
        lemma_found_once(disk, start.config, current, found);
        if next_saved.len() == 2 {
            assert(next_saved.drop_last().last() == next_saved[0]);
        }
    }
}

/// A tick leaves the statistics that were stored before it, with one tick more: what
/// its own scan has recorded is written over, whatever that was. Only the failure of
/// the scan is kept.
pub proof fn law_tick_keeps_the_old_statistics(
    store: StoreView,
    saved: Seq<WriteView>,
    scanned: Result<(), Seq<char>>,
)
    ensures
        ({
            let before = stats_or_zero(store.stats);
            let end = WriteView::Stats(ticked(before, scanned));
            let after = stats_or_zero(after_writes(store, saved.push(end)).stats);
            &&& after.ticks == raised(before.ticks, 1)
            &&& after.scans == before.scans
            &&& after.files_seen_total == before.files_seen_total
            &&& after.changes_detected_total == before.changes_detected_total
            &&& after.events_emitted_total == before.events_emitted_total
            &&& after.last_scan_at == before.last_scan_at
            &&& after.last_scan_duration_ms == before.last_scan_duration_ms
            &&& scanned is Ok ==> after.last_error == before.last_error
            &&& scanned matches Err(error) ==> after.last_error == Some(error)
        }),
{
    let end = WriteView::Stats(ticked(stats_or_zero(store.stats), scanned));
    assert(saved.push(end).drop_last() =~= saved);
}

proof fn lemma_topic_count(
    stream: Seq<char>,
    changes: Seq<ChangeView>,
    kind: ObservedChangeKind,
    topic: Seq<char>,
)
    requires
        topic == topic_word(kind),
    ensures
        messages_about(stream, changes).filter(|message: MessageView| message.topic == topic).len()
            == count_of(changes, kind),
    decreases changes.len(),
{
    reveal(Seq::filter);
    let messages = messages_about(stream, changes);
    if changes.len() > 0 {
        let last = changes.last();
        lemma_topic_count(stream, changes.drop_last(), kind, topic);
        assert(messages.drop_last() =~= messages_about(stream, changes.drop_last()));
        assert(messages.last() == message_about(stream, last));
        if last.change_kind != kind && topic_word(last.change_kind) == topic {
            law_topics_differ(last.change_kind, kind);
        }
    }
}

/// The report of a cycle counts each kind on its own: as many files as there were
/// messages about created files are reported as created, and likewise for modified and
/// for deleted ones.
pub proof fn law_report_counts_each_kind(
    reason: Seq<char>,
    config: Option<ConfigView>,
    snapshot: Option<Map<Seq<char>, FingerprintView>>,
    events: Seq<(CycleEventView, Seq<char>)>,
)
    ensures
        ({
            let start = cycle_start(reason, config, snapshot);
            let sent = cycle_sent(start, events);
            cycle_run(start, events).step matches CycleStepView::Done(report) ==> {
                &&& report.outcome.created == sent.filter(
                    |message: MessageView| message.topic == "file-created"@,
                ).len()
                &&& report.outcome.modified == sent.filter(
                    |message: MessageView| message.topic == "file-modified"@,
                ).len()
                &&& report.outcome.deleted == sent.filter(
                    |message: MessageView| message.topic == "file-deleted"@,
                ).len()
                &&& report.outcome.emitted == sent.len()
            }
        }),
{
    let start = cycle_start(reason, config, snapshot);
    let stream = start.config.stream_name;
    lemma_account(start, events);
    let (current, now) = compared(start, events);
    let changes = cycle_changes(start, current, now);
    lemma_topic_count(stream, changes, ObservedChangeKind::Created, "file-created"@);
    lemma_topic_count(stream, changes, ObservedChangeKind::Modified, "file-modified"@);
    lemma_topic_count(stream, changes, ObservedChangeKind::Deleted, "file-deleted"@);
}

/// A cycle goes by what is stored: by the stored configuration, or by the default one if
/// there is none, and it compares what it finds with the stored snapshot, or with an
/// empty one. It starts with a scan that has found nothing yet.
pub proof fn law_cycle_goes_by_the_store(
    reason: Seq<char>,
    config: Option<ConfigView>,
    snapshot: Option<Map<Seq<char>, FingerprintView>>,
    current: Map<Seq<char>, FileView>,
    now: Seq<char>,
)
    ensures
        ({
            let start = cycle_start(reason, config, snapshot);
            &&& start.reason == reason
            &&& config matches Some(stored) ==> start.config == stored
            &&& config is None ==> start.config == default_config()
            &&& snapshot matches Some(stored) ==> start.previous == stored
            &&& snapshot is None ==> start.previous == Map::<Seq<char>, FingerprintView>::empty()
            &&& start.step matches CycleStepView::Scan(scan)
            &&& scan.config == start.config
            &&& scan.step is Exists
            &&& scan.pending.len() == 0
            &&& scan.found == Map::<Seq<char>, FileView>::empty()
            &&& cycle_changes(start, current, now) == changes_between(
                start.config.stream_name,
                start.previous,
                current,
                start.config.emit_existing_on_start,
                now,
            )
        }),
{
}

/// A cycle asks for just what its scan goes by, and for just what its emission has to do.
pub proof fn law_cycle_asks_for_what_it_goes_by(cycle: CycleView, disk: Disk)
    ensures
        cycle.step matches CycleStepView::Scan(scan) ==> next_action(cycle.step) matches CycleActionView::Scan(
            asked,
        ) && disk.reply(asked) == disk.answer(scan.step),
        cycle.step matches CycleStepView::Emit(found, count, emission) ==> match emission.step {
            EmitStepView::Connect => next_action(cycle.step) == CycleActionView::Emit(
                EmitActionView::Connect(emission.stream),
            ),
            EmitStepView::Send(i) => next_action(cycle.step) == CycleActionView::Emit(
                EmitActionView::Send(message_about(emission.stream, emission.changes[i])),
            ),
            _ => true,
        },
        next_action(cycle.step) is Finish <==> cycle.step is Done || cycle.step is Failed,
{
    if let CycleStepView::Scan(scan) = cycle.step {
        law_scan_asks_for_what_it_goes_by(disk, scan);
    }
}

/// A cycle fails for the reason for which its scan, its emission or one of its writes
/// failed, in just these words.
pub proof fn law_cycle_fails_for_the_reason_it_was_told(
    cycle: CycleView,
    found: EventView,
    error: Seq<char>,
    now: Seq<char>,
)
    ensures
        cycle.step matches CycleStepView::Scan(scan) ==> scan_after(scan, found).step
            == StepView::Failed(error) ==> cycle_after(cycle, CycleEventView::Scan(found), now).step
            == CycleStepView::Failed(error),
        cycle.step matches CycleStepView::Emit(files, count, emission) ==> emission.step is Connect
            ==> cycle_after(
            cycle,
            CycleEventView::Emit(EmitEventView::Connected(Err(error))),
            now,
        ).step == CycleStepView::Failed(error),
        cycle.step matches CycleStepView::Emit(files, count, emission) ==> emission.step is Send
            ==> cycle_after(
            cycle,
            CycleEventView::Emit(EmitEventView::Sent(Err(error))),
            now,
        ).step == CycleStepView::Failed(error),
        cycle.step is SaveSnapshot || cycle.step is SaveStats ==> cycle_after(
            cycle,
            CycleEventView::Saved(Err(error)),
            now,
        ).step == CycleStepView::Failed(error),
{
}

} // verus!
