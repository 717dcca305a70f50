//! What changed between two scans.

use vstd::prelude::*;

use crate::clock::now_rfc3339;
use crate::model::{
    ChangeView, FileView, FingerprintView, ObservedChange, ObservedChangeKind, ObservedFile,
    StoredFingerprint, WATCHER_NAME,
};
use crate::path::{file_name_text, name_text};
use crate::path_map::{ascending_keys, lemma_keys_of_finite_map, PathMap};
use crate::text::same_text;

verus! {

/// What a scan leaves for the next one: the fingerprint of each file that it found.
pub open spec fn snapshot_of(current: Map<Seq<char>, FileView>) -> Map<
    Seq<char>,
    FingerprintView,
> {
    current.map_values(|file: FileView| file.fingerprint)
}

/// What happened to a path between the scan that left `previous` and the one that
/// found `current`. A path that is new counts as created, but for the files of the
/// first scan, unless `emit_existing_on_start`.
pub open spec fn kind_of(
    previous: Map<Seq<char>, FingerprintView>,
    current: Map<Seq<char>, FileView>,
    emit_existing_on_start: bool,
    path: Seq<char>,
) -> Option<ObservedChangeKind> {
    if current.contains_key(path) && previous.contains_key(path) {
        if previous[path] != current[path].fingerprint {
            Some(ObservedChangeKind::Modified)
        } else {
            None
        }
    } else if current.contains_key(path) {
        if previous != Map::<Seq<char>, FingerprintView>::empty() || emit_existing_on_start {
            Some(ObservedChangeKind::Created)
        } else {
            None
        }
    } else if previous.contains_key(path) {
        Some(ObservedChangeKind::Deleted)
    } else {
        None
    }
}

/// The report of a file that is there.
pub open spec fn present_change(
    stream: Seq<char>,
    kind: ObservedChangeKind,
    file: FileView,
    now: Seq<char>,
) -> ChangeView {
    ChangeView {
        watcher: WATCHER_NAME@,
        stream_name: stream,
        change_kind: kind,
        absolute_path: file.absolute_path,
        relative_path: file.relative_path,
        size_bytes: Some(file.fingerprint.size_bytes),
        modified_unix_ms: Some(file.fingerprint.modified_unix_ms),
        sha256: Some(file.fingerprint.sha256),
        detected_at: now,
    }
}

/// The report of a file that is gone: its path and its name are all that is known.
pub open spec fn absent_change(stream: Seq<char>, path: Seq<char>, now: Seq<char>) -> ChangeView {
    ChangeView {
        watcher: WATCHER_NAME@,
        stream_name: stream,
        change_kind: ObservedChangeKind::Deleted,
        absolute_path: path,
        relative_path: name_text(path),
        size_bytes: None,
        modified_unix_ms: None,
        sha256: None,
        detected_at: now,
    }
}

/// The reports of the files that are there, in the order of `paths`.
pub open spec fn present_changes(
    stream: Seq<char>,
    previous: Map<Seq<char>, FingerprintView>,
    current: Map<Seq<char>, FileView>,
    emit_existing_on_start: bool,
    now: Seq<char>,
    paths: Seq<Seq<char>>,
) -> Seq<ChangeView> {
    paths.filter(
        |path: Seq<char>| kind_of(previous, current, emit_existing_on_start, path) is Some,
    ).map_values(
        |path: Seq<char>|
            present_change(
                stream,
                kind_of(previous, current, emit_existing_on_start, path)->0,
                current[path],
                now,
            ),
    )
}

/// The reports of the files that are gone, in the order of `paths`.
pub open spec fn absent_changes(
    stream: Seq<char>,
    current: Map<Seq<char>, FileView>,
    now: Seq<char>,
    paths: Seq<Seq<char>>,
) -> Seq<ChangeView> {
    paths.filter(|path: Seq<char>| !current.contains_key(path)).map_values(
        |path: Seq<char>| absent_change(stream, path, now),
    )
}

/// All that changed between two scans: the files that are there, then those that
/// are gone, each in the order of their paths.
pub open spec fn changes_between(
    stream: Seq<char>,
    previous: Map<Seq<char>, FingerprintView>,
    current: Map<Seq<char>, FileView>,
    emit_existing_on_start: bool,
    now: Seq<char>,
) -> Seq<ChangeView> {
    present_changes(
        stream,
        previous,
        current,
        emit_existing_on_start,
        now,
        ascending_keys(current),
    ) + absent_changes(stream, current, now, ascending_keys(previous))
}

/// Changes, with texts for strings.
pub open spec fn change_views(changes: Seq<ObservedChange>) -> Seq<ChangeView> {
    changes.map_values(|change: ObservedChange| change@)
}

proof fn lemma_filter_next(paths: Seq<Seq<char>>, i: int, keep: spec_fn(Seq<char>) -> bool)
    requires
        0 <= i < paths.len(),
    ensures
        paths.take(i + 1).filter(keep) == if keep(paths[i]) {
            paths.take(i).filter(keep).push(paths[i])
        } else {
            paths.take(i).filter(keep)
        },
{
    reveal(Seq::filter);
    assert(paths.take(i + 1).drop_last() =~= paths.take(i));
    assert(paths.take(i + 1).last() == paths[i]);
}

fn same_fingerprint(a: &StoredFingerprint, b: &StoredFingerprint) -> (same: bool)
    ensures
        same == (a@ == b@),
{
    same_text(a.sha256.as_str(), b.sha256.as_str()) && a.size_bytes == b.size_bytes
        && a.modified_unix_ms == b.modified_unix_ms
}

fn report_present(stream: &str, kind: ObservedChangeKind, file: &ObservedFile, now: &str) -> (change:
    ObservedChange)
    ensures
        change@ == present_change(stream@, kind, file@, now@),
{
    ObservedChange {
        watcher: WATCHER_NAME.to_string(),
        stream_name: stream.to_string(),
        change_kind: kind,
        absolute_path: file.absolute_path.clone(),
        relative_path: file.relative_path.clone(),
        size_bytes: Some(file.fingerprint.size_bytes),
        modified_unix_ms: Some(file.fingerprint.modified_unix_ms),
        sha256: Some(file.fingerprint.sha256.clone()),
        detected_at: now.to_string(),
    }
}

fn report_absent(stream: &str, path: &String, now: &str) -> (change: ObservedChange)
    ensures
        change@ == absent_change(stream@, path@, now@),
{
    ObservedChange {
        watcher: WATCHER_NAME.to_string(),
        stream_name: stream.to_string(),
        change_kind: ObservedChangeKind::Deleted,
        absolute_path: path.clone(),
        relative_path: file_name_text(path.as_str()),
        size_bytes: None,
        modified_unix_ms: None,
        sha256: None,
        detected_at: now.to_string(),
    }
}

/// What a scan leaves for the next one: the fingerprint of each file that it found.
pub fn take_snapshot(current: &PathMap<ObservedFile>) -> (snapshot: PathMap<StoredFingerprint>)
    ensures
        snapshot@ == snapshot_of(current@),
{
    let mut snapshot: PathMap<StoredFingerprint> = PathMap::new();
    let seen: usize = current.len();
    let ghost paths = ascending_keys(current@);
    proof {
        lemma_keys_of_finite_map(current@);
        assert(snapshot@ =~= snapshot_of(current@).restrict(paths.take(0).to_set()));
    }
    let mut i: usize = 0;
    while i < seen
        invariant
            i <= seen,
            seen == paths.len(),
            paths == ascending_keys(current@),
            forall|k: int| 0 <= k < paths.len() ==> current@.contains_key(#[trigger] paths[k]),
            snapshot@ == snapshot_of(current@).restrict(paths.take(i as int).to_set()),
        decreases seen - i,
    {
        if let Some((key, file)) = current.entry(i) {
            snapshot.insert(key.clone(), file.fingerprint.clone());
        }
        proof {
            assert(paths.take(i + 1) =~= paths.take(i as int).push(paths[i as int]));
            paths.take(i as int).lemma_push_to_set_commute(paths[i as int]);
            assert(snapshot@ =~= snapshot_of(current@).restrict(paths.take(i + 1).to_set()));
        }
        i = i + 1;
    }
    assert(paths.take(i as int) =~= paths);
    assert(snapshot@ =~= snapshot_of(current@));
    snapshot
}

/// The changes between two scans, reported as detected at `now`.
pub fn derive_changes_at(
    stream: &str,
    previous: &PathMap<StoredFingerprint>,
    current: &PathMap<ObservedFile>,
    emit_existing_on_start: bool,
    now: &str,
) -> (changes: Vec<ObservedChange>)
    ensures
        change_views(changes@) == changes_between(
            stream@,
            previous@,
            current@,
            emit_existing_on_start,
            now@,
        ),
{
    let mut changes: Vec<ObservedChange> = Vec::new();
    let report_new = !previous.is_empty() || emit_existing_on_start;

    let ghost paths = ascending_keys(current@);
    let ghost keep = |path: Seq<char>|
        kind_of(previous@, current@, emit_existing_on_start, path) is Some;
    let seen: usize = current.len();
    let mut i: usize = 0;
    assert(present_changes(stream@, previous@, current@, emit_existing_on_start, now@, paths.take(0))
        =~= seq![]) by {
        reveal(Seq::filter);
    }
    assert(change_views(changes@) =~= seq![]);
    while i < seen
        invariant
            i <= seen,
            seen == paths.len(),
            paths == ascending_keys(current@),
            report_new == (previous@ != Map::<Seq<char>, FingerprintView>::empty()
                || emit_existing_on_start),
            keep == (|path: Seq<char>|
                kind_of(previous@, current@, emit_existing_on_start, path) is Some),
            change_views(changes@) == present_changes(
                stream@,
                previous@,
                current@,
                emit_existing_on_start,
                now@,
                paths.take(i as int),
            ),
        decreases seen - i,
    {
        let ghost before = change_views(changes@);
        let ghost path = paths[i as int];
        proof {
            lemma_filter_next(paths, i as int, keep);
        }
        if let Some((key, file)) = current.entry(i) {
            match previous.get(key.as_str()) {
                None => {
                    if report_new {
                        changes.push(
                            report_present(stream, ObservedChangeKind::Created, file, now),
                        );
                        assert(change_views(changes@) =~= before.push(
                            present_change(
                                stream@,
                                ObservedChangeKind::Created,
                                current@[path],
                                now@,
                            ),
                        ));
                    }
                },
                Some(old_fingerprint) => {
                    if !same_fingerprint(old_fingerprint, &file.fingerprint) {
                        changes.push(
                            report_present(stream, ObservedChangeKind::Modified, file, now),
                        );
                        assert(change_views(changes@) =~= before.push(
                            present_change(
                                stream@,
                                ObservedChangeKind::Modified,
                                current@[path],
                                now@,
                            ),
                        ));
                    }
                },
            }
        }
        i = i + 1;
        assert(change_views(changes@) =~= present_changes(
            stream@,
            previous@,
            current@,
            emit_existing_on_start,
            now@,
            paths.take(i as int),
        ));
    }
    assert(paths.take(i as int) =~= paths);

    let ghost there = change_views(changes@);
    let ghost old_paths = ascending_keys(previous@);
    let ghost gone = |path: Seq<char>| !current@.contains_key(path);
    let known: usize = previous.len();
    let mut j: usize = 0;
    assert(absent_changes(stream@, current@, now@, old_paths.take(0)) =~= seq![]) by {
        reveal(Seq::filter);
    }
    assert(there + absent_changes(stream@, current@, now@, old_paths.take(0)) =~= there);
    while j < known
        invariant
            j <= known,
            known == old_paths.len(),
            old_paths == ascending_keys(previous@),
            gone == (|path: Seq<char>| !current@.contains_key(path)),
            change_views(changes@) == there + absent_changes(
                stream@,
                current@,
                now@,
                old_paths.take(j as int),
            ),
        decreases known - j,
    {
        let ghost before = change_views(changes@);
        proof {
            lemma_filter_next(old_paths, j as int, gone);
        }
        if let Some((key, _fingerprint)) = previous.entry(j) {
            if !current.contains_key(key.as_str()) {
                changes.push(report_absent(stream, key, now));
                assert(change_views(changes@) =~= before.push(
                    absent_change(stream@, old_paths[j as int], now@),
                ));
            }
        }
        j = j + 1;
        assert(change_views(changes@) =~= there + absent_changes(
            stream@,
            current@,
            now@,
            old_paths.take(j as int),
        ));
    }
    assert(old_paths.take(j as int) =~= old_paths);
    changes
}

/// The changes between two scans, reported as detected now.
pub fn derive_changes(
    stream: &str,
    previous: &PathMap<StoredFingerprint>,
    current: &PathMap<ObservedFile>,
    emit_existing_on_start: bool,
) -> (changes: Vec<ObservedChange>)
    ensures
        exists|now: Seq<char>|
            change_views(changes@) == #[trigger] changes_between(
                stream@,
                previous@,
                current@,
                emit_existing_on_start,
                now,
            ),
{
    let now = now_rfc3339();
    derive_changes_at(stream, previous, current, emit_existing_on_start, now.as_str())
}

} // verus!
