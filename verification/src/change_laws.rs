//! What holds of the changes between any two scans.

use vstd::prelude::*;

use crate::changes::{
    absent_change, change_views, changes_between, kind_of, present_change, snapshot_of,
};
use crate::model::{
    ChangeView, FileView, FingerprintView, ObservedChange, ObservedChangeKind,
};
use crate::path::name_text;
use crate::path_map::{ascending, ascending_keys, lemma_keys_of_finite_map};
use crate::text::{lemma_order_irreflexive, text_before};

verus! {

/// Each file is filed under its own absolute path, as a scan files them.
pub open spec fn keyed_by_path(current: Map<Seq<char>, FileView>) -> bool {
    forall|path: Seq<char>| #[trigger]
        current.contains_key(path) ==> current[path].absolute_path == path
}

proof fn lemma_filter_ascending(paths: Seq<Seq<char>>, keep: spec_fn(Seq<char>) -> bool)
    requires
        ascending(paths),
    ensures
        ascending(paths.filter(keep)),
    decreases paths.len(),
{
    reveal(Seq::filter);
    if paths.len() > 0 {
        let front = paths.drop_last();
        assert(ascending(front)) by {
            assert forall|i: int, j: int| 0 <= i < j < front.len() implies text_before(
                #[trigger] front[i],
                #[trigger] front[j],
            ) by {
                assert(text_before(paths[i], paths[j]));
            }
        }
        lemma_filter_ascending(front, keep);
        let kept = paths.filter(keep);
        assert forall|i: int, j: int| 0 <= i < j < kept.len() implies text_before(
            #[trigger] kept[i],
            #[trigger] kept[j],
        ) by {
            let front_kept = front.filter(keep);
            if keep(paths.last()) && j == kept.len() - 1 {
                assert(front_kept.contains(front_kept[i]));
                front.lemma_filter_contains_rev(keep, front_kept[i]);
                let x = choose|x: int| 0 <= x < front.len() && front[x] == front_kept[i];
                assert(text_before(paths[x], paths[paths.len() - 1]));
            } else {
                assert(text_before(front_kept[i], front_kept[j]));
            }
        }
    }
}

spec fn kept_present(
    previous: Map<Seq<char>, FingerprintView>,
    current: Map<Seq<char>, FileView>,
    emit_existing_on_start: bool,
) -> Seq<Seq<char>> {
    ascending_keys(current).filter(
        |path: Seq<char>| kind_of(previous, current, emit_existing_on_start, path) is Some,
    )
}

spec fn kept_absent(
    previous: Map<Seq<char>, FingerprintView>,
    current: Map<Seq<char>, FileView>,
) -> Seq<Seq<char>> {
    ascending_keys(previous).filter(|path: Seq<char>| !current.contains_key(path))
}

proof fn lemma_kept(
    previous: Map<Seq<char>, FingerprintView>,
    current: Map<Seq<char>, FileView>,
    emit_existing_on_start: bool,
)
    requires
        previous.dom().finite(),
        current.dom().finite(),
    ensures
        ascending(kept_present(previous, current, emit_existing_on_start)),
        ascending(kept_absent(previous, current)),
        forall|path: Seq<char>| #[trigger]
            kept_present(previous, current, emit_existing_on_start).contains(path) <==> (
            current.contains_key(path) && kind_of(previous, current, emit_existing_on_start, path) is Some),
        forall|path: Seq<char>| #[trigger]
            kept_absent(previous, current).contains(path) <==> (previous.contains_key(path)
                && !current.contains_key(path)),
{
    let here = |path: Seq<char>| kind_of(previous, current, emit_existing_on_start, path) is Some;
    let gone = |path: Seq<char>| !current.contains_key(path);
    let (now, before) = (ascending_keys(current), ascending_keys(previous));
    lemma_keys_of_finite_map(previous);
    lemma_keys_of_finite_map(current);
    lemma_filter_ascending(now, here);
    lemma_filter_ascending(before, gone);
    assert forall|path: Seq<char>| #[trigger] now.filter(here).contains(path) <==> (
    current.contains_key(path) && here(path)) by {
        if now.filter(here).contains(path) {
            now.lemma_filter_contains_rev(here, path);
            let i = choose|i: int| 0 <= i < now.filter(here).len() && now.filter(here)[i] == path;
            now.lemma_filter_pred(here, i);
        }
        if current.contains_key(path) && here(path) {
            assert(now.to_set().contains(path));
            let i = choose|i: int| 0 <= i < now.len() && now[i] == path;
            now.lemma_filter_contains(here, i);
        }
    }
    assert forall|path: Seq<char>| #[trigger] before.filter(gone).contains(path) <==> (
    previous.contains_key(path) && gone(path)) by {
        if before.filter(gone).contains(path) {
            before.lemma_filter_contains_rev(gone, path);
            let i = choose|i: int| 0 <= i < before.filter(gone).len() && before.filter(gone)[i] == path;
            before.lemma_filter_pred(gone, i);
        }
        if previous.contains_key(path) && gone(path) {
            assert(before.to_set().contains(path));
            let i = choose|i: int| 0 <= i < before.len() && before[i] == path;
            before.lemma_filter_contains(gone, i);
        }
    }
}

/// If no file has changed since the last scan, nothing is reported.
pub proof fn law_no_change_no_report(
    stream: Seq<char>,
    current: Map<Seq<char>, FileView>,
    emit_existing_on_start: bool,
    now: Seq<char>,
)
    requires
        current.dom().finite(),
    ensures
        changes_between(stream, snapshot_of(current), current, emit_existing_on_start, now)
            == Seq::<ChangeView>::empty(),
{
    let previous = snapshot_of(current);
    assert(previous.dom() =~= current.dom());
    lemma_kept(previous, current, emit_existing_on_start);
    let here = kept_present(previous, current, emit_existing_on_start);
    let gone = kept_absent(previous, current);
    if here.len() > 0 {
        assert(here.contains(here[0]));
    }
    if gone.len() > 0 {
        assert(gone.contains(gone[0]));
    }
    assert(changes_between(stream, previous, current, emit_existing_on_start, now) =~= seq![]);
}

/// The first scan reports nothing, unless the files that are already there are to
/// be reported; then it reports each of them as created.
pub proof fn law_first_scan(
    stream: Seq<char>,
    current: Map<Seq<char>, FileView>,
    emit_existing_on_start: bool,
    now: Seq<char>,
)
    requires
        current.dom().finite(),
    ensures
        ({
            let none = Map::<Seq<char>, FingerprintView>::empty();
            let changes = changes_between(stream, none, current, emit_existing_on_start, now);
            if emit_existing_on_start {
                changes == ascending_keys(current).map_values(
                    |path: Seq<char>|
                        present_change(stream, ObservedChangeKind::Created, current[path], now),
                )
            } else {
                changes == Seq::<ChangeView>::empty()
            }
        }),
{
    let none = Map::<Seq<char>, FingerprintView>::empty();
    let changes = changes_between(stream, none, current, emit_existing_on_start, now);
    lemma_kept(none, current, emit_existing_on_start);
    lemma_keys_of_finite_map(current);
    let here = kept_present(none, current, emit_existing_on_start);
    let gone = kept_absent(none, current);
    if gone.len() > 0 {
        assert(gone.contains(gone[0]));
    }
    if emit_existing_on_start {
        let paths = ascending_keys(current);
        assert(here.to_set() =~= paths.to_set()) by {
            assert forall|path: Seq<char>| here.to_set().contains(path) <==> paths.to_set().contains(path) by {
                assert(here.contains(path) <==> current.contains_key(path));
            }
        }
        crate::path_map::lemma_ascending_unique(here, paths);
        assert(changes =~= paths.map_values(
            |path: Seq<char>|
                present_change(stream, ObservedChangeKind::Created, current[path], now),
        ));
    } else {
        if here.len() > 0 {
            assert(here.contains(here[0]));
        }
        assert(changes =~= seq![]);
    }
}

proof fn lemma_changes_at(
    stream: Seq<char>,
    previous: Map<Seq<char>, FingerprintView>,
    current: Map<Seq<char>, FileView>,
    emit_existing_on_start: bool,
    now: Seq<char>,
    i: int,
)
    requires
        0 <= i < changes_between(stream, previous, current, emit_existing_on_start, now).len(),
    ensures
        ({
            let change = changes_between(stream, previous, current, emit_existing_on_start, now)[i];
            let here = kept_present(previous, current, emit_existing_on_start);
            let gone = kept_absent(previous, current);
            &&& changes_between(stream, previous, current, emit_existing_on_start, now).len()
                == here.len() + gone.len()
            &&& i < here.len() ==> change == present_change(
                stream,
                kind_of(previous, current, emit_existing_on_start, here[i])->0,
                current[here[i]],
                now,
            )
            &&& i >= here.len() ==> change == absent_change(stream, gone[i - here.len()], now)
        }),
{
}

/// A path is reported if and only if it changed, and as what happened to it.
pub proof fn law_reported_iff_changed(
    stream: Seq<char>,
    previous: Map<Seq<char>, FingerprintView>,
    current: Map<Seq<char>, FileView>,
    emit_existing_on_start: bool,
    now: Seq<char>,
    path: Seq<char>,
    kind: ObservedChangeKind,
)
    requires
        previous.dom().finite(),
        current.dom().finite(),
        keyed_by_path(current),
    ensures
        kind_of(previous, current, emit_existing_on_start, path) == Some(kind) <==> (exists|i: int|
            0 <= i < changes_between(stream, previous, current, emit_existing_on_start, now).len() && {
                let change = #[trigger] changes_between(
                    stream,
                    previous,
                    current,
                    emit_existing_on_start,
                    now,
                )[i];
                change.absolute_path == path && change.change_kind == kind
            }),
{
    let changes = changes_between(stream, previous, current, emit_existing_on_start, now);
    let here = kept_present(previous, current, emit_existing_on_start);
    let gone = kept_absent(previous, current);
    lemma_kept(previous, current, emit_existing_on_start);
    if kind_of(previous, current, emit_existing_on_start, path) == Some(kind) {
        if current.contains_key(path) {
            assert(here.contains(path));
            let i = choose|i: int| 0 <= i < here.len() && here[i] == path;
            lemma_changes_at(stream, previous, current, emit_existing_on_start, now, i);
            assert(changes[i].absolute_path == path);
        } else {
            assert(gone.contains(path));
            let i = choose|i: int| 0 <= i < gone.len() && gone[i] == path;
            lemma_changes_at(stream, previous, current, emit_existing_on_start, now, here.len() + i);
            assert(changes[here.len() + i].absolute_path == path);
        }
    }
    if exists|i: int|
        0 <= i < changes.len() && (#[trigger] changes[i]).absolute_path == path
            && changes[i].change_kind == kind {
        let i = choose|i: int|
            0 <= i < changes.len() && (#[trigger] changes[i]).absolute_path == path
                && changes[i].change_kind == kind;
        lemma_changes_at(stream, previous, current, emit_existing_on_start, now, i);
        if i < here.len() {
            assert(here.contains(here[i]));
        } else {
            assert(gone.contains(gone[i - here.len()]));
        }
    }
}

/// Reports come in order: the files that are there, then those that are gone, each
/// in the order of their paths. No path is reported twice.
pub proof fn law_reports_in_order(
    stream: Seq<char>,
    previous: Map<Seq<char>, FingerprintView>,
    current: Map<Seq<char>, FileView>,
    emit_existing_on_start: bool,
    now: Seq<char>,
    i: int,
    j: int,
)
    requires
        previous.dom().finite(),
        current.dom().finite(),
        keyed_by_path(current),
        0 <= i < j < changes_between(stream, previous, current, emit_existing_on_start, now).len(),
    ensures
        ({
            let changes = changes_between(stream, previous, current, emit_existing_on_start, now);
            &&& changes[i].absolute_path != changes[j].absolute_path
            &&& changes[i].change_kind is Deleted ==> changes[j].change_kind is Deleted
            &&& (changes[i].change_kind is Deleted <==> changes[j].change_kind is Deleted)
                ==> text_before(changes[i].absolute_path, changes[j].absolute_path)
        }),
{
    let changes = changes_between(stream, previous, current, emit_existing_on_start, now);
    let here = kept_present(previous, current, emit_existing_on_start);
    let gone = kept_absent(previous, current);
    lemma_kept(previous, current, emit_existing_on_start);
    lemma_changes_at(stream, previous, current, emit_existing_on_start, now, i);
    lemma_changes_at(stream, previous, current, emit_existing_on_start, now, j);
    lemma_order_irreflexive(changes[i].absolute_path);
    if i < here.len() {
        assert(here.contains(here[i]));
    } else {
        assert(gone.contains(gone[i - here.len()]));
    }
    if j < here.len() {
        assert(here.contains(here[j]));
        assert(text_before(here[i], here[j]));
    } else {
        assert(gone.contains(gone[j - here.len()]));
        if i >= here.len() {
            assert(text_before(gone[i - here.len()], gone[j - here.len()]));
        }
    }
}

/// A snapshot after a reported change.
pub open spec fn apply_change(
    snapshot: Map<Seq<char>, FingerprintView>,
    change: ChangeView,
) -> Map<Seq<char>, FingerprintView> {
    if change.change_kind is Deleted {
        snapshot.remove(change.absolute_path)
    } else {
        snapshot.insert(
            change.absolute_path,
            FingerprintView {
                size_bytes: change.size_bytes->0,
                modified_unix_ms: change.modified_unix_ms->0,
                sha256: change.sha256->0,
            },
        )
    }
}

/// A snapshot after reported changes, one after the other.
pub open spec fn apply_changes(
    snapshot: Map<Seq<char>, FingerprintView>,
    changes: Seq<ChangeView>,
) -> Map<Seq<char>, FingerprintView>
    decreases changes.len(),
{
    if changes.len() == 0 {
        snapshot
    } else {
        apply_change(apply_changes(snapshot, changes.drop_last()), changes.last())
    }
}

proof fn lemma_apply_untouched(
    snapshot: Map<Seq<char>, FingerprintView>,
    changes: Seq<ChangeView>,
    path: Seq<char>,
)
    requires
        forall|i: int| 0 <= i < changes.len() ==> (#[trigger] changes[i]).absolute_path != path,
    ensures
        apply_changes(snapshot, changes).contains_key(path) == snapshot.contains_key(path),
        snapshot.contains_key(path) ==> apply_changes(snapshot, changes)[path] == snapshot[path],
    decreases changes.len(),
{
    if changes.len() > 0 {
        lemma_apply_untouched(snapshot, changes.drop_last(), path);
    }
}

proof fn lemma_apply_touched(
    snapshot: Map<Seq<char>, FingerprintView>,
    changes: Seq<ChangeView>,
    at: int,
)
    requires
        0 <= at < changes.len(),
        forall|i: int|
            0 <= i < changes.len() && i != at ==> (#[trigger] changes[i]).absolute_path
                != changes[at].absolute_path,
    ensures
        ({
            let path = changes[at].absolute_path;
            let after = apply_change(snapshot, changes[at]);
            &&& apply_changes(snapshot, changes).contains_key(path) == after.contains_key(path)
            &&& after.contains_key(path) ==> apply_changes(snapshot, changes)[path] == after[path]
        }),
    decreases changes.len(),
{
    let front = changes.drop_last();
    if at == changes.len() - 1 {
        lemma_apply_untouched(snapshot, front, changes[at].absolute_path);
    } else {
        assert(front[at] == changes[at]);
        lemma_apply_touched(snapshot, front, at);
    }
}

/// Reports are complete: whoever applies them to the last snapshot has the new one.
/// (A first scan that keeps silent about the files that it finds is not meant.)
pub proof fn law_reports_make_the_next_snapshot(
    stream: Seq<char>,
    previous: Map<Seq<char>, FingerprintView>,
    current: Map<Seq<char>, FileView>,
    emit_existing_on_start: bool,
    now: Seq<char>,
)
    requires
        previous.dom().finite(),
        current.dom().finite(),
        keyed_by_path(current),
        previous != Map::<Seq<char>, FingerprintView>::empty() || emit_existing_on_start || current
            == Map::<Seq<char>, FileView>::empty(),
    ensures
        apply_changes(
            previous,
            changes_between(stream, previous, current, emit_existing_on_start, now),
        ) == snapshot_of(current),
{
    let changes = changes_between(stream, previous, current, emit_existing_on_start, now);
    let after = apply_changes(previous, changes);
    let goal = snapshot_of(current);
    let here = kept_present(previous, current, emit_existing_on_start);
    let gone = kept_absent(previous, current);
    lemma_kept(previous, current, emit_existing_on_start);
    assert forall|path: Seq<char>|
        #![trigger after.dom().contains(path)]
        #![trigger goal.dom().contains(path)]
        after.contains_key(path) == goal.contains_key(path) && (goal.contains_key(path) ==> after[path]
            == goal[path]) by {
        if exists|i: int| 0 <= i < changes.len() && (#[trigger] changes[i]).absolute_path == path {
            let at = choose|i: int|
                0 <= i < changes.len() && (#[trigger] changes[i]).absolute_path == path;
            assert forall|i: int| 0 <= i < changes.len() && i != at implies (
            #[trigger] changes[i]).absolute_path != changes[at].absolute_path by {
                if i < at {
                    law_reports_in_order(stream, previous, current, emit_existing_on_start, now, i, at);
                } else {
                    law_reports_in_order(stream, previous, current, emit_existing_on_start, now, at, i);
                }
            }
            lemma_apply_touched(previous, changes, at);
            lemma_changes_at(stream, previous, current, emit_existing_on_start, now, at);
            if at < here.len() {
                assert(here.contains(here[at]));
            } else {
                assert(gone.contains(gone[at - here.len()]));
            }
        } else {
            lemma_apply_untouched(previous, changes, path);
            if let Some(kind) = kind_of(previous, current, emit_existing_on_start, path) {
                law_reported_iff_changed(
                    stream,
                    previous,
                    current,
                    emit_existing_on_start,
                    now,
                    path,
                    kind,
                );
            }
        }
    }
    assert(after =~= goal);
}

/// What each reported change says. A file that is reported as created is there and was
/// not in the last snapshot; one that is reported as modified is there, was in the
/// snapshot, and differs from it in size, time of change or digest; one that is reported
/// as deleted was in the snapshot and is not there. Of a file that is there all is
/// reported as it was found, and of one that is gone nothing but its path and its name.
pub proof fn law_what_each_change_says(
    stream: Seq<char>,
    previous: Map<Seq<char>, FingerprintView>,
    current: Map<Seq<char>, FileView>,
    emit_existing_on_start: bool,
    now: Seq<char>,
    i: int,
)
    requires
        previous.dom().finite(),
        current.dom().finite(),
        keyed_by_path(current),
        0 <= i < changes_between(stream, previous, current, emit_existing_on_start, now).len(),
    ensures
        ({
            let change = changes_between(stream, previous, current, emit_existing_on_start, now)[i];
            let path = change.absolute_path;
            let file = current[path];
            &&& change.watcher == "folder-watch-actor"@
            &&& change.stream_name == stream
            &&& change.detected_at == now
            &&& change.change_kind == ObservedChangeKind::Created ==> {
                &&& current.dom().contains(path)
                &&& !previous.dom().contains(path)
                &&& emit_existing_on_start || exists|other: Seq<char>|
                    #[trigger] previous.dom().contains(other)
            }
            &&& change.change_kind == ObservedChangeKind::Modified ==> {
                &&& current.dom().contains(path)
                &&& previous.dom().contains(path)
                &&& previous[path].size_bytes != file.fingerprint.size_bytes
                    || previous[path].modified_unix_ms != file.fingerprint.modified_unix_ms
                    || previous[path].sha256 != file.fingerprint.sha256
            }
            &&& change.change_kind == ObservedChangeKind::Deleted ==> {
                &&& !current.dom().contains(path)
                &&& previous.dom().contains(path)
                &&& change.relative_path == name_text(path)
                &&& change.size_bytes is None
                &&& change.modified_unix_ms is None
                &&& change.sha256 is None
            }
            &&& current.dom().contains(path) ==> {
                &&& change.relative_path == file.relative_path
                &&& change.size_bytes == Some(file.fingerprint.size_bytes)
                &&& change.modified_unix_ms == Some(file.fingerprint.modified_unix_ms)
                &&& change.sha256 == Some(file.fingerprint.sha256)
            }
        }),
{
    let changes = changes_between(stream, previous, current, emit_existing_on_start, now);
    let here = kept_present(previous, current, emit_existing_on_start);
    let gone = kept_absent(previous, current);
    lemma_kept(previous, current, emit_existing_on_start);
    lemma_changes_at(stream, previous, current, emit_existing_on_start, now, i);
    if i < here.len() {
        assert(here.contains(here[i]));
        if previous != Map::<Seq<char>, FingerprintView>::empty() {
            assert(exists|other: Seq<char>| #[trigger] previous.dom().contains(other)) by {
                if forall|other: Seq<char>| !(#[trigger] previous.dom().contains(other)) {
                    assert(previous =~= Map::<Seq<char>, FingerprintView>::empty());
                }
            }
        }
    } else {
        assert(gone.contains(gone[i - here.len()]));
    }
}

/// The changes of a kind that are reported of a path.
pub open spec fn reports(
    changes: Seq<ChangeView>,
    path: Seq<char>,
    kind: ObservedChangeKind,
) -> bool {
    exists|i: int|
        0 <= i < changes.len() && (#[trigger] changes[i]).absolute_path == path
            && changes[i].change_kind == kind
}

/// Which changes are reported, by what is in the last snapshot and what was found. A
/// file that is in both is reported as modified if and only if its size, its time of
/// change or its digest differs; one that is new is reported as created, but not by the
/// first scan unless existing files are to be reported; one that is gone is reported as
/// deleted; and no path is reported as anything else.
pub proof fn law_which_changes_are_reported(
    stream: Seq<char>,
    previous: Map<Seq<char>, FingerprintView>,
    current: Map<Seq<char>, FileView>,
    emit_existing_on_start: bool,
    now: Seq<char>,
    path: Seq<char>,
)
    requires
        previous.dom().finite(),
        current.dom().finite(),
        keyed_by_path(current),
    ensures
        ({
            let changes = changes_between(stream, previous, current, emit_existing_on_start, now);
            let was = previous.dom().contains(path);
            let is = current.dom().contains(path);
            let (old_print, print) = (previous[path], current[path].fingerprint);
            &&& reports(changes, path, ObservedChangeKind::Modified) <==> was && is && (
            old_print.size_bytes != print.size_bytes || old_print.modified_unix_ms
                != print.modified_unix_ms || old_print.sha256 != print.sha256)
            &&& reports(changes, path, ObservedChangeKind::Created) <==> !was && is && (
            emit_existing_on_start || exists|other: Seq<char>|
                #[trigger] previous.dom().contains(other))
            &&& reports(changes, path, ObservedChangeKind::Deleted) <==> was && !is
        }),
{
    let changes = changes_between(stream, previous, current, emit_existing_on_start, now);
    law_reported_iff_changed(
        stream,
        previous,
        current,
        emit_existing_on_start,
        now,
        path,
        ObservedChangeKind::Created,
    );
    law_reported_iff_changed(
        stream,
        previous,
        current,
        emit_existing_on_start,
        now,
        path,
        ObservedChangeKind::Modified,
    );
    law_reported_iff_changed(
        stream,
        previous,
        current,
        emit_existing_on_start,
        now,
        path,
        ObservedChangeKind::Deleted,
    );
    if previous != Map::<Seq<char>, FingerprintView>::empty() {
        assert(exists|other: Seq<char>| #[trigger] previous.dom().contains(other)) by {
            if forall|other: Seq<char>| !(#[trigger] previous.dom().contains(other)) {
                assert(previous =~= Map::<Seq<char>, FingerprintView>::empty());
            }
        }
    }
}

/// The snapshot that a scan leaves has each file that it found, no other, and the size,
/// the time of change and the digest of each as it was found.
pub proof fn law_snapshot_keeps_the_fingerprints(
    current: Map<Seq<char>, FileView>,
    path: Seq<char>,
)
    ensures
        snapshot_of(current).dom() == current.dom(),
        current.dom().contains(path) ==> {
            let print = snapshot_of(current)[path];
            &&& print.size_bytes == current[path].fingerprint.size_bytes
            &&& print.modified_unix_ms == current[path].fingerprint.modified_unix_ms
            &&& print.sha256 == current[path].fingerprint.sha256
        },
{
    assert(snapshot_of(current).dom() =~= current.dom());
}

/// The views of changes are those of each, in order.
pub proof fn law_views_of_changes(changes: Seq<ObservedChange>, i: int)
    requires
        0 <= i < changes.len(),
    ensures
        change_views(changes).len() == changes.len(),
        change_views(changes)[i] == changes[i]@,
{
}

} // verus!
