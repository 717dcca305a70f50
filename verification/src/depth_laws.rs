//! What a scan finds below the watched folder.

use vstd::prelude::*;

use crate::filter::is_watched;
use crate::model::{ConfigView, FileView};
use crate::path::is_hidden_path;
use crate::path_laws::{
    entry_path, is_entry_name, law_entry_of_a_directory, law_slashes_of_an_entry, slashes_within,
};
use crate::scan::{
    next_entry, observed, root_of, scan_after, EntryKind, EntryView, FileStat, ScanView, StepView,
};
use crate::scan_laws::{
    law_scan_is_complete, law_scan_is_sound, lemma_reads_wanted, scan_run, Disk,
};
use crate::text::{law_slashes_stay_slashes, lossy_utf8, occurrences};

verus! {

impl Disk {
    /// A directory below the watched folder whose entries the scan looks at.
    pub open spec fn is_subdirectory(self, config: ConfigView, directory: Seq<u8>) -> bool {
        exists|depth: nat| depth > 0 && #[trigger] self.is_searched_at(config, directory, depth)
    }

    /// An entry of such a directory.
    pub open spec fn is_below(self, config: ConfigView, path: Seq<u8>) -> bool {
        exists|directory: Seq<u8>|
            self.is_subdirectory(config, directory) && #[trigger] self.lists(directory, path)
    }

    /// What a directory lists are its entries: the path of each is a name that is
    /// joined to the path of the directory, as file systems have it.
    pub open spec fn lists_its_own(self, config: ConfigView) -> bool {
        forall|directory: Seq<u8>, path: Seq<u8>|
            self.is_searched(config, directory) && #[trigger] self.lists(directory, path)
                ==> is_entry_of(directory, path)
    }
}

/// A path that is joined of the path of a directory and a name.
pub open spec fn is_entry_of(directory: Seq<u8>, path: Seq<u8>) -> bool {
    exists|name: Seq<u8>| is_entry_name(name) && path == #[trigger] entry_path(directory, name)
}

/// Of two files, one in the watched folder and one below it, the texts of the paths
/// differ.
spec fn tells_apart(disk: Disk, config: ConfigView) -> bool {
    forall|path: Seq<u8>, other: Seq<u8>|
        #![trigger disk.is_wanted(config, path), disk.is_wanted(config, other)]
        disk.is_wanted(config, path) && disk.is_wanted(config, other) && disk.lists(
            root_of(config),
            path,
        ) && disk.is_below(config, other) ==> lossy_utf8(path) != lossy_utf8(other)
}

/// The entries of a directory below the watched folder have more slashes in their
/// paths than those of the folder.
proof fn lemma_slashes_below(disk: Disk, config: ConfigView, directory: Seq<u8>, depth: nat)
    requires
        disk.lists_its_own(config),
        disk.is_searched_at(config, directory, depth),
    ensures
        slashes_within(directory) == slashes_within(root_of(config)) + depth,
    decreases depth,
{
    if depth > 0 {
        let parent = choose|parent: Seq<u8>|
            disk.is_searched_at(config, parent, (depth - 1) as nat) && #[trigger] disk.lists(
                parent,
                directory,
            );
        lemma_slashes_below(disk, config, parent, (depth - 1) as nat);
        assert(disk.is_searched(config, parent));
        let name = choose|name: Seq<u8>|
            is_entry_name(name) && directory == #[trigger] entry_path(parent, name);
        law_slashes_of_an_entry(parent, name);
    }
}

proof fn lemma_entry_slashes(disk: Disk, config: ConfigView, directory: Seq<u8>, path: Seq<u8>)
    requires
        disk.lists_its_own(config),
        disk.is_searched(config, directory),
        disk.lists(directory, path),
    ensures
        occurrences(lossy_utf8(path), '/') == slashes_within(directory),
{
    let name = choose|name: Seq<u8>|
        is_entry_name(name) && path == #[trigger] entry_path(directory, name);
    law_slashes_of_an_entry(directory, name);
    law_slashes_stay_slashes(path);
}

proof fn lemma_tells_apart(disk: Disk, config: ConfigView)
    requires
        disk.lists_its_own(config),
    ensures
        tells_apart(disk, config),
{
    let root = root_of(config);
    assert(disk.is_searched_at(config, root, 0));
    assert(disk.is_searched(config, root));
    assert forall|path: Seq<u8>, other: Seq<u8>|
        #![trigger disk.is_wanted(config, path), disk.is_wanted(config, other)]
        disk.lists(root, path) && disk.is_below(config, other) implies lossy_utf8(path)
        != lossy_utf8(other) by {
        let directory = choose|directory: Seq<u8>|
            disk.is_subdirectory(config, directory) && #[trigger] disk.lists(directory, other);
        let depth = choose|depth: nat|
            depth > 0 && #[trigger] disk.is_searched_at(config, directory, depth);
        assert(disk.is_searched(config, directory));
        lemma_entry_slashes(disk, config, root, path);
        lemma_entry_slashes(disk, config, directory, other);
        lemma_slashes_below(disk, config, directory, depth);
    }
}

/// The same configuration, with recursion or without it.
pub open spec fn with_recursion(config: ConfigView, recursive: bool) -> ConfigView {
    ConfigView { recursive, ..config }
}

/// The watched files among `entries`, the later ones in place of earlier ones with
/// the same text.
spec fn gathered(disk: Disk, config: ConfigView, entries: Seq<EntryView>) -> Map<
    Seq<char>,
    FileView,
>
    decreases entries.len(),
{
    if entries.len() == 0 {
        Map::empty()
    } else {
        let rest = gathered(disk, config, entries.drop_last());
        match entries.last() {
            EntryView::Path(path) => if is_file(disk, config, path) {
                rest.insert(lossy_utf8(path), disk.file(config, path))
            } else {
                rest
            },
            EntryView::Unreadable(error) => rest,
        }
    }
}

spec fn is_file(disk: Disk, config: ConfigView, path: Seq<u8>) -> bool {
    (disk.kind)(path) == Ok::<EntryKind, Seq<char>>(EntryKind::File) && is_watched(path, config)
}

proof fn lemma_gathered(disk: Disk, config: ConfigView, entries: Seq<EntryView>, key: Seq<char>)
    requires
        gathered(disk, config, entries).contains_key(key),
    ensures
        exists|path: Seq<u8>| #[trigger]
            entries.contains(EntryView::Path(path)) && is_file(disk, config, path) && lossy_utf8(path)
                == key && gathered(disk, config, entries)[key] == disk.file(config, path),
    decreases entries.len(),
{
    let front = entries.drop_last();
    let last = entries.last();
    assert(entries.contains(last));
    if last matches EntryView::Path(path) && is_file(disk, config, path) && lossy_utf8(path)
        == key {
    } else {
        lemma_gathered(disk, config, front, key);
        let path = choose|path: Seq<u8>| #[trigger]
            front.contains(EntryView::Path(path)) && is_file(disk, config, path) && lossy_utf8(path)
                == key && gathered(disk, config, front)[key] == disk.file(config, path);
        let i = choose|i: int| 0 <= i < front.len() && front[i] == EntryView::Path(path);
        assert(entries[i] == EntryView::Path(path));
        assert(entries.contains(EntryView::Path(path)));
    }
}

proof fn lemma_gathered_has(disk: Disk, config: ConfigView, entries: Seq<EntryView>, i: int)
    requires
        0 <= i < entries.len(),
        entries[i] matches EntryView::Path(path) && is_file(disk, config, path),
    ensures
        gathered(disk, config, entries).contains_key(lossy_utf8(entries[i]->Path_0)),
    decreases entries.len(),
{
    if i < entries.len() - 1 {
        lemma_gathered_has(disk, config, entries.drop_last(), i);
    }
}

proof fn lemma_gathered_next(disk: Disk, config: ConfigView, entries: Seq<EntryView>, j: int)
    requires
        0 < j <= entries.len(),
    ensures
        gathered(disk, config, entries.take(j)) == match entries[j - 1] {
            EntryView::Path(path) => if is_file(disk, config, path) {
                gathered(disk, config, entries.take(j - 1)).insert(
                    lossy_utf8(path),
                    disk.file(config, path),
                )
            } else {
                gathered(disk, config, entries.take(j - 1))
            },
            EntryView::Unreadable(error) => gathered(disk, config, entries.take(j - 1)),
        },
{
    assert(entries.take(j).drop_last() =~= entries.take(j - 1));
    assert(entries.take(j).last() == entries[j - 1]);
}

/// How far a scan has come in the watched folder: the entries below it that it has
/// yet to look at, the number of entries of the folder that it has come to, and
/// whether it is at the last of these.
struct Place {
    nested: Seq<EntryView>,
    reached: int,
    at_last: bool,
}

spec fn root_entries(disk: Disk, config: ConfigView) -> Seq<EntryView> {
    (disk.listing)(root_of(config))->Ok_0
}

spec fn is_ahead(
    disk: Disk,
    config: ConfigView,
    scan: ScanView,
    nested: Seq<EntryView>,
    reached: int,
) -> bool {
    let entries = root_entries(disk, config);
    &&& scan.config == config
    &&& (disk.listing)(root_of(config)) is Ok
    &&& 0 <= reached <= entries.len()
    &&& scan.pending == nested + entries.skip(reached)
    &&& forall|path: Seq<u8>| #[trigger]
        nested.contains(EntryView::Path(path)) ==> disk.is_below(config, path)
}

spec fn has_gathered(disk: Disk, config: ConfigView, scan: ScanView, reached: int) -> bool {
    gathered(disk, config, root_entries(disk, config).take(reached)).submap_of(scan.found)
}

spec fn is_place(disk: Disk, config: ConfigView, scan: ScanView, place: Place) -> bool {
    let entries = root_entries(disk, config);
    &&& is_ahead(disk, config, scan, place.nested, place.reached)
    &&& if place.at_last {
        &&& place.nested.len() == 0
        &&& place.reached > 0
        &&& has_gathered(disk, config, scan, place.reached - 1)
        &&& match scan.step {
            StepView::Inspect(path) => entries[place.reached - 1] == EntryView::Path(path),
            StepView::Stat(path) => entries[place.reached - 1] == EntryView::Path(path),
            StepView::Read(path, stat) => entries[place.reached - 1] == EntryView::Path(path),
            _ => false,
        }
    } else {
        &&& has_gathered(disk, config, scan, place.reached)
        &&& match scan.step {
            StepView::Inspect(path) => disk.is_below(config, path),
            StepView::Stat(path) => disk.is_below(config, path),
            StepView::Read(path, stat) => disk.is_below(config, path),
            StepView::List(path) => disk.is_subdirectory(config, path),
            StepView::Done => scan.pending.len() == 0,
            _ => false,
        }
    }
}

proof fn lemma_place_next(
    disk: Disk,
    config: ConfigView,
    scan: ScanView,
    nested: Seq<EntryView>,
    reached: int,
) -> (place: Place)
    requires
        is_ahead(disk, config, scan, nested, reached),
        has_gathered(disk, config, scan, reached),
    ensures
        next_entry(scan).step is Failed || is_place(disk, config, next_entry(scan), place),
{
    let entries = root_entries(disk, config);
    if nested.len() > 0 {
        let rest = nested.skip(1);
        assert(scan.pending.skip(1) =~= rest + entries.skip(reached));
        assert(scan.pending[0] == nested[0]);
        assert(nested.contains(nested[0]));
        assert forall|path: Seq<u8>| #[trigger]
            rest.contains(EntryView::Path(path)) implies disk.is_below(config, path) by {
            let i = choose|i: int| 0 <= i < rest.len() && rest[i] == EntryView::Path(path);
            assert(nested[i + 1] == EntryView::Path(path));
            assert(nested.contains(EntryView::Path(path)));
        }
        Place { nested: rest, reached, at_last: false }
    } else {
        assert(scan.pending =~= entries.skip(reached));
        if reached < entries.len() {
            assert(scan.pending.skip(1) =~= nested + entries.skip(reached + 1));
            assert(scan.pending[0] == entries[reached]);
            Place { nested, reached: reached + 1, at_last: true }
        } else {
            Place { nested, reached, at_last: false }
        }
    }
}

proof fn lemma_entry_is_subdirectory(disk: Disk, config: ConfigView, path: Seq<u8>)
    requires
        config.recursive,
        (disk.kind)(path) == Ok::<EntryKind, Seq<char>>(EntryKind::Directory),
        disk.lists(root_of(config), path) || disk.is_below(config, path),
    ensures
        disk.is_subdirectory(config, path),
{
    if disk.lists(root_of(config), path) {
        assert(disk.is_searched_at(config, root_of(config), 0));
        assert(disk.is_searched_at(config, path, 1));
    } else {
        let parent = choose|directory: Seq<u8>|
            disk.is_subdirectory(config, directory) && #[trigger] disk.lists(directory, path);
        let depth = choose|depth: nat|
            depth > 0 && #[trigger] disk.is_searched_at(config, parent, depth);
        assert(disk.is_searched_at(config, path, depth + 1));
    }
}

proof fn lemma_place_list(
    disk: Disk,
    config: ConfigView,
    scan: ScanView,
    place: Place,
) -> (next: Place)
    requires
        is_place(disk, config, scan, place),
        scan.step is List,
    ensures
        ({
            let after = scan_after(scan, disk.answer(scan.step));
            after.step is Failed || is_place(disk, config, after, next)
        }),
{
    let directory = scan.step->List_0;
    if let Ok(listed) = (disk.listing)(directory) {
        let nested = listed + place.nested;
        let wider = ScanView { pending: listed + scan.pending, ..scan };
        assert(wider.pending =~= nested + root_entries(disk, config).skip(place.reached));
        assert forall|path: Seq<u8>| #[trigger]
            nested.contains(EntryView::Path(path)) implies disk.is_below(config, path) by {
            let i = choose|i: int| 0 <= i < nested.len() && nested[i] == EntryView::Path(path);
            if i < listed.len() {
                assert(listed[i] == EntryView::Path(path));
                assert(disk.lists(directory, path));
            } else {
                assert(place.nested[i - listed.len()] == EntryView::Path(path));
                assert(place.nested.contains(EntryView::Path(path)));
            }
        }
        lemma_place_next(disk, config, wider, nested, place.reached)
    } else {
        place
    }
}

proof fn lemma_place_read(
    disk: Disk,
    config: ConfigView,
    scan: ScanView,
    place: Place,
) -> (next: Place)
    requires
        tells_apart(disk, config),
        is_place(disk, config, scan, place),
        scan.step matches StepView::Read(path, stat) && disk.is_wanted(config, path) && (
        disk.stat)(path) == Ok::<FileStat, Seq<char>>(stat),
    ensures
        ({
            let after = scan_after(scan, disk.answer(scan.step));
            after.step is Failed || is_place(disk, config, after, next)
        }),
{
    let entries = root_entries(disk, config);
    let (path, stat) = (scan.step->Read_0, scan.step->Read_1);
    if let Ok(bytes) = (disk.contents)(path) {
        let key = lossy_utf8(path);
        let wider = ScanView {
            found: scan.found.insert(key, observed(config, path, stat, bytes)),
            ..scan
        };
        assert(wider.found[key] == disk.file(config, path));
        if place.at_last {
            lemma_gathered_next(disk, config, entries, place.reached);
            assert(has_gathered(disk, config, wider, place.reached));
        } else {
            let front = entries.take(place.reached);
            let there = gathered(disk, config, front);
            if there.contains_key(key) {
                lemma_gathered(disk, config, front, key);
                let other = choose|other: Seq<u8>| #[trigger]
                    front.contains(EntryView::Path(other)) && is_file(disk, config, other)
                        && lossy_utf8(other) == key && there[key] == disk.file(config, other);
                let i = choose|i: int| 0 <= i < front.len() && front[i] == EntryView::Path(other);
                assert(entries[i] == EntryView::Path(other));
                assert(disk.lists(root_of(config), other));
                assert(disk.is_searched_at(config, root_of(config), 0));
                assert(disk.is_searched(config, root_of(config)));
                assert(disk.is_wanted(config, other));
                assert(false);
            }
            assert(has_gathered(disk, config, wider, place.reached));
        }
        lemma_place_next(disk, config, wider, place.nested, place.reached)
    } else {
        place
    }
}

proof fn lemma_place_inspect(
    disk: Disk,
    config: ConfigView,
    scan: ScanView,
    place: Place,
) -> (next: Place)
    requires
        is_place(disk, config, scan, place),
        scan.step is Inspect,
    ensures
        ({
            let after = scan_after(scan, disk.answer(scan.step));
            after.step is Failed || is_place(disk, config, after, next)
        }),
{
    let entries = root_entries(disk, config);
    let path = scan.step->Inspect_0;
    if let Ok(kind) = (disk.kind)(path) {
        if place.at_last {
            assert(entries.contains(EntryView::Path(path)));
            assert(disk.lists(root_of(config), path));
            lemma_gathered_next(disk, config, entries, place.reached);
        }
        if kind is Directory && config.recursive {
            lemma_entry_is_subdirectory(disk, config, path);
            Place { at_last: false, ..place }
        } else if kind is File && is_watched(path, config) {
            place
        } else {
            lemma_place_next(disk, config, scan, place.nested, place.reached)
        }
    } else {
        place
    }
}

proof fn lemma_place(disk: Disk, config: ConfigView, n: nat) -> (place: Place)
    requires
        tells_apart(disk, config),
        n >= 3,
    ensures
        ({
            let scan = scan_run(disk, config, n);
            scan.step is Failed || is_place(disk, config, scan, place)
        }),
    decreases n,
{
    let before = scan_run(disk, config, (n - 1) as nat);
    if n == 3 {
        let entries = root_entries(disk, config);
        let none: Seq<EntryView> = seq![];
        reveal_with_fuel(scan_run, 4);
        if before.step is Failed || (disk.listing)(root_of(config)) is Err {
            Place { nested: none, reached: 0, at_last: false }
        } else {
            let wider = ScanView { pending: entries + before.pending, ..before };
            assert(wider.pending =~= none + entries.skip(0));
            assert(entries.take(0) =~= none);
            lemma_place_next(disk, config, wider, none, 0)
        }
    } else {
        let place = lemma_place(disk, config, (n - 1) as nat);
        lemma_reads_wanted(disk, config, (n - 1) as nat);
        match before.step {
            StepView::List(directory) => lemma_place_list(disk, config, before, place),
            StepView::Inspect(path) => lemma_place_inspect(disk, config, before, place),
            StepView::Read(path, stat) => lemma_place_read(disk, config, before, place),
            _ => place,
        }
    }
}

/// A scan that is done has what is to be gathered from the watched folder itself.
proof fn lemma_done_has_gathered(disk: Disk, config: ConfigView, n: nat)
    requires
        tells_apart(disk, config),
        scan_run(disk, config, n).step is Done,
    ensures
        (disk.listing)(root_of(config)) is Ok,
        gathered(disk, config, root_entries(disk, config)).submap_of(
            scan_run(disk, config, n).found,
        ),
{
    reveal_with_fuel(scan_run, 4);
    assert(n >= 3);
    let place = lemma_place(disk, config, n);
    let entries = root_entries(disk, config);
    assert(entries.skip(place.reached).len() == 0);
    assert(entries.take(place.reached) =~= entries);
}

proof fn lemma_same_gathered(
    disk: Disk,
    a: ConfigView,
    b: ConfigView,
    entries: Seq<EntryView>,
)
    requires
        b == with_recursion(a, b.recursive),
    ensures
        gathered(disk, a, entries) == gathered(disk, b, entries),
    decreases entries.len(),
{
    if entries.len() > 0 {
        lemma_same_gathered(disk, a, b, entries.drop_last());
    }
}

proof fn lemma_flat_wants(disk: Disk, flat: ConfigView, path: Seq<u8>)
    requires
        !flat.recursive,
    ensures
        disk.is_wanted(flat, path) <==> disk.lists(root_of(flat), path) && is_file(
            disk,
            flat,
            path,
        ),
{
    assert(disk.is_searched_at(flat, root_of(flat), 0));
    assert(disk.is_searched(flat, root_of(flat)));
    if disk.is_wanted(flat, path) {
        let directory = choose|directory: Seq<u8>|
            disk.is_searched(flat, directory) && #[trigger] disk.lists(directory, path);
        let depth = choose|depth: nat| disk.is_searched_at(flat, directory, depth);
        assert(depth == 0);
    }
}

/// What a scan without recursion finds, one with recursion finds too, on the same
/// disk: each file under the same path, with the same relative path and the same
/// fingerprint.
pub proof fn law_recursion_only_adds(disk: Disk, config: ConfigView, n: nat, m: nat)
    requires
        scan_run(disk, with_recursion(config, false), n).step is Done,
        scan_run(disk, with_recursion(config, true), m).step is Done,
        disk.lists_its_own(with_recursion(config, true)),
    ensures
        scan_run(disk, with_recursion(config, false), n).found.submap_of(
            scan_run(disk, with_recursion(config, true), m).found,
        ),
{
    let flat = with_recursion(config, false);
    let deep = with_recursion(config, true);
    let few = scan_run(disk, flat, n).found;
    let many = scan_run(disk, deep, m).found;
    let entries = root_entries(disk, config);
    assert forall|key: Seq<char>| #[trigger] few.contains_key(key) implies many.contains_key(
        key,
    ) by {
        law_scan_is_sound(disk, flat, n, key);
        let path = choose|path: Seq<u8>| #[trigger]
            disk.is_wanted(flat, path) && lossy_utf8(path) == key && few[key] == disk.file(flat, path);
        lemma_flat_wants(disk, flat, path);
        assert(disk.is_searched_at(deep, root_of(deep), 0));
        assert(disk.is_searched(deep, root_of(deep)));
        assert(disk.is_wanted(deep, path));
        law_scan_is_complete(disk, deep, m, path);
    }
    lemma_tells_apart(disk, deep);
    lemma_done_has_gathered(disk, deep, m);
    lemma_same_gathered(disk, flat, deep, entries);
    assert(tells_apart(disk, flat)) by {
        assert forall|path: Seq<u8>| !disk.is_below(flat, path) by {
            if disk.is_below(flat, path) {
                let directory = choose|directory: Seq<u8>|
                    disk.is_subdirectory(flat, directory) && #[trigger] disk.lists(
                        directory,
                        path,
                    );
                let depth = choose|depth: nat|
                    depth > 0 && #[trigger] disk.is_searched_at(flat, directory, depth);
            }
        }
    }
    lemma_done_has_gathered(disk, flat, n);
    assert forall|key: Seq<char>| #[trigger] few.contains_key(key) implies few[key]
        == many[key] by {
        law_scan_is_sound(disk, flat, n, key);
        let path = choose|path: Seq<u8>| #[trigger]
            disk.is_wanted(flat, path) && lossy_utf8(path) == key && few[key] == disk.file(
                flat,
                path,
            );
        lemma_flat_wants(disk, flat, path);
        let i = choose|i: int| 0 <= i < entries.len() && entries[i] == EntryView::Path(path);
        lemma_gathered_has(disk, flat, entries, i);
        assert(gathered(disk, flat, entries).contains_key(key));
        assert(gathered(disk, deep, entries).contains_key(key));
    }
}

/// What only the scan with recursion finds lies in a directory below the watched
/// folder, and not in the folder itself.
pub proof fn law_recursion_adds_what_lies_below(
    disk: Disk,
    config: ConfigView,
    n: nat,
    m: nat,
    key: Seq<char>,
)
    requires
        scan_run(disk, with_recursion(config, false), n).step is Done,
        scan_run(disk, with_recursion(config, true), m).step is Done,
        scan_run(disk, with_recursion(config, true), m).found.contains_key(key),
        !scan_run(disk, with_recursion(config, false), n).found.contains_key(key),
    ensures
        exists|path: Seq<u8>|
            {
                &&& #[trigger] disk.is_wanted(with_recursion(config, true), path)
                &&& lossy_utf8(path) == key
                &&& disk.is_below(with_recursion(config, true), path)
                &&& !disk.lists(root_of(config), path)
            },
{
    let flat = with_recursion(config, false);
    let deep = with_recursion(config, true);
    law_scan_is_sound(disk, deep, m, key);
    let path = choose|path: Seq<u8>| #[trigger]
        disk.is_wanted(deep, path) && lossy_utf8(path) == key && scan_run(disk, deep, m).found[key]
            == disk.file(deep, path);
    lemma_flat_wants(disk, flat, path);
    if disk.lists(root_of(config), path) {
        law_scan_is_complete(disk, flat, n, path);
    }
    let directory = choose|directory: Seq<u8>|
        disk.is_searched(deep, directory) && #[trigger] disk.lists(directory, path);
    let depth = choose|depth: nat| disk.is_searched_at(deep, directory, depth);
    assert(depth > 0);
    assert(disk.is_subdirectory(deep, directory));
}

proof fn lemma_hidden_below(disk: Disk, config: ConfigView, directory: Seq<u8>, depth: nat)
    requires
        disk.lists_its_own(config),
        is_hidden_path(root_of(config)),
        disk.is_searched_at(config, directory, depth),
    ensures
        is_hidden_path(directory),
    decreases depth,
{
    if depth > 0 {
        let parent = choose|parent: Seq<u8>|
            disk.is_searched_at(config, parent, (depth - 1) as nat) && #[trigger] disk.lists(
                parent,
                directory,
            );
        lemma_hidden_below(disk, config, parent, (depth - 1) as nat);
        assert(disk.is_searched(config, parent));
        lemma_hidden_entry(parent, directory);
    }
}

proof fn lemma_hidden_entry(directory: Seq<u8>, path: Seq<u8>)
    requires
        is_hidden_path(directory),
        is_entry_of(directory, path),
    ensures
        is_hidden_path(path),
{
    let name = choose|name: Seq<u8>|
        is_entry_name(name) && path == #[trigger] entry_path(directory, name);
    law_entry_of_a_directory(directory, name);
}

/// A watched folder that is hidden itself, or lies in a hidden one, yields no files
/// unless hidden files are included.
pub proof fn law_hidden_folder_yields_nothing(disk: Disk, config: ConfigView, n: nat)
    requires
        scan_run(disk, config, n).step is Done,
        disk.lists_its_own(config),
        is_hidden_path(root_of(config)),
        !config.include_hidden,
    ensures
        scan_run(disk, config, n).found == Map::<Seq<char>, FileView>::empty(),
{
    let found = scan_run(disk, config, n).found;
    assert forall|key: Seq<char>| !found.contains_key(key) by {
        if found.contains_key(key) {
            law_scan_is_sound(disk, config, n, key);
            let path = choose|path: Seq<u8>| #[trigger]
                disk.is_wanted(config, path) && lossy_utf8(path) == key && found[key] == disk.file(
                    config,
                    path,
                );
            let directory = choose|directory: Seq<u8>|
                disk.is_searched(config, directory) && #[trigger] disk.lists(directory, path);
            let depth = choose|depth: nat| disk.is_searched_at(config, directory, depth);
            lemma_hidden_below(disk, config, directory, depth);
            lemma_hidden_entry(directory, path);
        }
    }
    assert(found =~= Map::<Seq<char>, FileView>::empty());
}

} // verus!
