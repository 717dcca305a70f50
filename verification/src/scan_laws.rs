//! What holds of every scan that comes to its end.

use vstd::prelude::*;
use vstd::utf8::*;

use crate::change_laws::keyed_by_path;
use crate::digest::{hex, law_hex_injective, sha256};
use crate::filter::is_watched;
use crate::model::{ConfigView, FileView};
use crate::path::relative_text;
use crate::scan::{
    fingerprint, next_entry, next_look, observed, root_of, scan_after, scan_start, ActionView,
    EntryKind, EntryView, EventView, FileStat, ScanView, StepView,
};
use crate::text::lossy_utf8;

verus! {

/// A file system that stays as it is: what each look at it finds.
pub struct Disk {
    pub exists: bool,
    pub directory: bool,
    pub listing: spec_fn(Seq<u8>) -> Result<Seq<EntryView>, Seq<char>>,
    pub kind: spec_fn(Seq<u8>) -> Result<EntryKind, Seq<char>>,
    pub stat: spec_fn(Seq<u8>) -> Result<FileStat, Seq<char>>,
    pub contents: spec_fn(Seq<u8>) -> Result<Seq<u8>, Seq<char>>,
}

impl Disk {
    /// What a scan finds when it looks.
    pub open spec fn answer(self, step: StepView) -> EventView {
        match step {
            StepView::Exists => EventView::Exists(self.exists),
            StepView::Directory => EventView::Directory(self.directory),
            StepView::List(path) => EventView::Listed((self.listing)(path)),
            StepView::Inspect(path) => EventView::Inspected((self.kind)(path)),
            StepView::Stat(path) => EventView::Statted((self.stat)(path)),
            StepView::Read(path, stat) => EventView::Read((self.contents)(path)),
            _ => EventView::Exists(self.exists),
        }
    }

    /// What is found by a look that a scan asks for.
    pub open spec fn reply(self, asked: ActionView) -> EventView {
        match asked {
            ActionView::CheckExists => EventView::Exists(self.exists),
            ActionView::CheckDirectory => EventView::Directory(self.directory),
            ActionView::List(path) => EventView::Listed((self.listing)(path)),
            ActionView::Inspect(path) => EventView::Inspected((self.kind)(path)),
            ActionView::Stat(path) => EventView::Statted((self.stat)(path)),
            ActionView::Read(path) => EventView::Read((self.contents)(path)),
            ActionView::Finish => EventView::Exists(self.exists),
        }
    }

    /// A directory has an entry with this path.
    pub open spec fn lists(self, directory: Seq<u8>, path: Seq<u8>) -> bool {
        (self.listing)(directory) matches Ok(entries) && entries.contains(EntryView::Path(path))
    }

    /// A directory that is `depth` levels below the watched folder, if the scan goes
    /// that deep. A symbolic link is no directory.
    pub open spec fn is_searched_at(self, config: ConfigView, directory: Seq<u8>, depth: nat) -> bool
        decreases depth,
    {
        if depth == 0 {
            directory == root_of(config)
        } else {
            &&& config.recursive
            &&& (self.kind)(directory) == Ok::<EntryKind, Seq<char>>(EntryKind::Directory)
            &&& exists|parent: Seq<u8>|
                self.is_searched_at(config, parent, (depth - 1) as nat) && #[trigger] self.lists(
                    parent,
                    directory,
                )
        }
    }

    /// A directory whose entries the scan looks at.
    pub open spec fn is_searched(self, config: ConfigView, directory: Seq<u8>) -> bool {
        exists|depth: nat| self.is_searched_at(config, directory, depth)
    }

    /// A file that the scan is to find: a watched one in a searched directory.
    pub open spec fn is_wanted(self, config: ConfigView, path: Seq<u8>) -> bool {
        &&& exists|directory: Seq<u8>|
            self.is_searched(config, directory) && #[trigger] self.lists(directory, path)
        &&& (self.kind)(path) == Ok::<EntryKind, Seq<char>>(EntryKind::File)
        &&& is_watched(path, config)
    }

    /// All that a scan looks at can be read.
    pub open spec fn is_readable(self, config: ConfigView) -> bool {
        &&& self.exists
        &&& self.directory
        &&& forall|directory: Seq<u8>| #[trigger]
            self.is_searched(config, directory) ==> (self.listing)(directory) is Ok
        &&& forall|directory: Seq<u8>, i: int| #![trigger (self.listing)(directory)->Ok_0[i]]
            self.is_searched(config, directory) && 0 <= i < (self.listing)(directory)->Ok_0.len()
                ==> (self.listing)(directory)->Ok_0[i] is Path
        &&& forall|directory: Seq<u8>, path: Seq<u8>|
            self.is_searched(config, directory) && #[trigger] self.lists(directory, path)
                ==> (self.kind)(path) is Ok
        &&& forall|path: Seq<u8>| #[trigger]
            self.is_wanted(config, path) ==> (self.stat)(path) is Ok && (self.contents)(path) is Ok
    }

    /// The directories form a tree: each entry of a searched one lies lower than the
    /// directory itself.
    pub open spec fn is_tree(self, config: ConfigView, height: spec_fn(Seq<u8>) -> nat) -> bool {
        forall|directory: Seq<u8>, path: Seq<u8>|
            self.is_searched(config, directory) && #[trigger] self.lists(directory, path)
                ==> height(path) < height(directory)
    }

    /// A file as it is on this disk.
    pub open spec fn file(self, config: ConfigView, path: Seq<u8>) -> FileView {
        observed(config, path, (self.stat)(path)->Ok_0, (self.contents)(path)->Ok_0)
    }
}

/// A scan after `n` looks at the disk.
pub open spec fn scan_run(disk: Disk, config: ConfigView, n: nat) -> ScanView
    decreases n,
{
    if n == 0 {
        scan_start(config)
    } else {
        let before = scan_run(disk, config, (n - 1) as nat);
        scan_after(before, disk.answer(before.step))
    }
}

/// The directories whose entries a scan has after `n` looks.
spec fn listed_after(disk: Disk, config: ConfigView, n: nat) -> Set<Seq<u8>>
    decreases n,
{
    if n == 0 {
        Set::empty()
    } else {
        let before = listed_after(disk, config, (n - 1) as nat);
        match scan_run(disk, config, (n - 1) as nat).step {
            StepView::List(path) => if (disk.listing)(path) is Ok {
                before.insert(path)
            } else {
                before
            },
            _ => before,
        }
    }
}

spec fn is_listed(disk: Disk, listed: Set<Seq<u8>>, path: Seq<u8>) -> bool {
    exists|directory: Seq<u8>|
        listed.contains(directory) && #[trigger] disk.lists(directory, path)
}

spec fn is_at(scan: ScanView, path: Seq<u8>) -> bool {
    match scan.step {
        StepView::List(at) => at == path,
        StepView::Inspect(at) => at == path,
        StepView::Stat(at) => at == path,
        StepView::Read(at, stat) => at == path,
        _ => false,
    }
}

spec fn is_settled(disk: Disk, scan: ScanView, listed: Set<Seq<u8>>, path: Seq<u8>) -> bool {
    match (disk.kind)(path) {
        Ok(EntryKind::Directory) => scan.config.recursive ==> listed.contains(path),
        Ok(EntryKind::File) => is_watched(path, scan.config) ==> scan.found.contains_key(
            lossy_utf8(path),
        ),
        _ => true,
    }
}

spec fn step_is_sound(disk: Disk, scan: ScanView, listed: Set<Seq<u8>>) -> bool {
    match scan.step {
        StepView::List(path) => {
            ||| path == root_of(scan.config) && listed == Set::<Seq<u8>>::empty()
            ||| {
                &&& is_listed(disk, listed, path)
                &&& scan.config.recursive
                &&& (disk.kind)(path) == Ok::<EntryKind, Seq<char>>(EntryKind::Directory)
            }
        },
        StepView::Inspect(path) => is_listed(disk, listed, path),
        StepView::Stat(path) => {
            &&& is_listed(disk, listed, path)
            &&& (disk.kind)(path) == Ok::<EntryKind, Seq<char>>(EntryKind::File)
            &&& is_watched(path, scan.config)
        },
        StepView::Read(path, stat) => {
            &&& is_listed(disk, listed, path)
            &&& (disk.kind)(path) == Ok::<EntryKind, Seq<char>>(EntryKind::File)
            &&& is_watched(path, scan.config)
            &&& (disk.stat)(path) == Ok::<FileStat, Seq<char>>(stat)
        },
        StepView::Exists => listed == Set::<Seq<u8>>::empty(),
        StepView::Directory => listed == Set::<Seq<u8>>::empty(),
        _ => true,
    }
}

spec fn is_sound_entry(disk: Disk, config: ConfigView, key: Seq<char>, file: FileView) -> bool {
    exists|path: Seq<u8>| #[trigger]
        disk.is_wanted(config, path) && lossy_utf8(path) == key && file == disk.file(config, path)
}

spec fn on_course(disk: Disk, config: ConfigView, scan: ScanView, listed: Set<Seq<u8>>) -> bool {
    &&& scan.config == config
    &&& forall|directory: Seq<u8>| #[trigger]
        listed.contains(directory) ==> disk.is_searched(config, directory)
    &&& step_is_sound(disk, scan, listed)
    &&& forall|path: Seq<u8>| #[trigger]
        scan.pending.contains(EntryView::Path(path)) ==> is_listed(disk, listed, path)
    &&& forall|path: Seq<u8>| #[trigger]
        is_listed(disk, listed, path) ==> {
            ||| is_settled(disk, scan, listed, path)
            ||| scan.pending.contains(EntryView::Path(path))
            ||| is_at(scan, path)
        }
    &&& forall|key: Seq<char>| #[trigger]
        scan.found.contains_key(key) ==> is_sound_entry(disk, config, key, scan.found[key])
    &&& {
        ||| listed.contains(root_of(config))
        ||| listed == Set::<Seq<u8>>::empty() && is_early(scan)
    }
}

spec fn is_early(scan: ScanView) -> bool {
    scan.step is Exists || scan.step is Directory || scan.step == StepView::List(
        root_of(scan.config),
    )
}

proof fn lemma_listed_is_searched(disk: Disk, config: ConfigView, listed: Set<Seq<u8>>, path: Seq<u8>)
    requires
        is_listed(disk, listed, path),
        forall|directory: Seq<u8>| #[trigger]
            listed.contains(directory) ==> disk.is_searched(config, directory),
    ensures
        config.recursive && (disk.kind)(path) == Ok::<EntryKind, Seq<char>>(EntryKind::Directory)
            ==> disk.is_searched(config, path),
        (disk.kind)(path) == Ok::<EntryKind, Seq<char>>(EntryKind::File) && is_watched(path, config)
            ==> disk.is_wanted(config, path),
{
    let parent = choose|directory: Seq<u8>|
        listed.contains(directory) && #[trigger] disk.lists(directory, path);
    let depth = choose|depth: nat| disk.is_searched_at(config, parent, depth);
    if config.recursive && (disk.kind)(path) == Ok::<EntryKind, Seq<char>>(EntryKind::Directory) {
        assert(disk.is_searched_at(config, path, depth + 1));
    }
}

/// Going on to the next entry keeps the invariant, once the entry that the scan was
/// at is settled.
proof fn lemma_next_entry(disk: Disk, config: ConfigView, scan: ScanView, listed: Set<Seq<u8>>)
    requires
        scan.config == config,
        forall|directory: Seq<u8>| #[trigger]
            listed.contains(directory) ==> disk.is_searched(config, directory),
        forall|path: Seq<u8>| #[trigger]
            scan.pending.contains(EntryView::Path(path)) ==> is_listed(disk, listed, path),
        forall|path: Seq<u8>| #[trigger]
            is_listed(disk, listed, path) ==> {
                ||| is_settled(disk, scan, listed, path)
                ||| scan.pending.contains(EntryView::Path(path))
            },
        forall|key: Seq<char>| #[trigger]
            scan.found.contains_key(key) ==> is_sound_entry(disk, config, key, scan.found[key]),
        listed.contains(root_of(config)),
    ensures
        next_entry(scan).step is Failed || on_course(disk, config, next_entry(scan), listed),
{
    let after = next_entry(scan);
    if !(after.step is Failed) {
        assert forall|path: Seq<u8>| #[trigger]
            after.pending.contains(EntryView::Path(path)) implies is_listed(disk, listed, path) by {
            let i = choose|i: int|
                0 <= i < after.pending.len() && after.pending[i] == EntryView::Path(path);
            if scan.pending.len() > 0 {
                assert(scan.pending[i + 1] == EntryView::Path(path));
            }
            assert(scan.pending.contains(EntryView::Path(path)));
        }
        assert forall|path: Seq<u8>| #[trigger] is_listed(disk, listed, path) implies {
            ||| is_settled(disk, after, listed, path)
            ||| after.pending.contains(EntryView::Path(path))
            ||| is_at(after, path)
        } by {
            if !is_settled(disk, scan, listed, path) {
                let i = choose|i: int|
                    0 <= i < scan.pending.len() && scan.pending[i] == EntryView::Path(path);
                if i > 0 {
                    assert(after.pending[i - 1] == EntryView::Path(path));
                }
            }
        }
        if scan.pending.len() > 0 {
            assert(scan.pending.contains(scan.pending[0]));
        }
        assert forall|key: Seq<char>| #[trigger] after.found.contains_key(key) implies is_sound_entry(disk, config, key, after.found[key]) by {
            assert(is_sound_entry(disk, config, key, scan.found[key]));
        }
    }
}

/// Another step about the same entry keeps the invariant.
proof fn lemma_same_entry(
    disk: Disk,
    config: ConfigView,
    scan: ScanView,
    after: ScanView,
    listed: Set<Seq<u8>>,
)
    requires
        on_course(disk, config, scan, listed),
        after == (ScanView { step: after.step, ..scan }),
        forall|path: Seq<u8>| is_at(scan, path) ==> #[trigger] is_at(after, path),
        step_is_sound(disk, after, listed),
        listed.contains(root_of(config)) || is_early(after),
    ensures
        on_course(disk, config, after, listed),
{
    assert forall|path: Seq<u8>| #[trigger] is_listed(disk, listed, path) implies {
        ||| is_settled(disk, after, listed, path)
        ||| after.pending.contains(EntryView::Path(path))
        ||| is_at(after, path)
    } by {
        assert(is_settled(disk, scan, listed, path) == is_settled(disk, after, listed, path));
    }
    assert forall|key: Seq<char>| #[trigger] after.found.contains_key(key) implies is_sound_entry(disk, config, key, after.found[key]) by {
        assert(is_sound_entry(disk, config, key, scan.found[key]));
    }
}

proof fn lemma_step(disk: Disk, config: ConfigView, scan: ScanView, listed: Set<Seq<u8>>)
    requires
        scan.step is Failed || on_course(disk, config, scan, listed),
    ensures
        ({
            let after = scan_after(scan, disk.answer(scan.step));
            let now = match scan.step {
                StepView::List(path) => if (disk.listing)(path) is Ok {
                    listed.insert(path)
                } else {
                    listed
                },
                _ => listed,
            };
            after.step is Failed || on_course(disk, config, after, now)
        }),
{
    let after = scan_after(scan, disk.answer(scan.step));
    match scan.step {
        StepView::List(path) => {
            if let Ok(entries) = (disk.listing)(path) {
                let now = listed.insert(path);
                let wider = ScanView { pending: entries + scan.pending, ..scan };
                if is_listed(disk, listed, path) {
                    lemma_listed_is_searched(disk, config, listed, path);
                } else {
                    assert(disk.is_searched_at(config, path, 0));
                }
                assert forall|p: Seq<u8>| is_listed(disk, listed, p) implies #[trigger] is_listed(
                    disk,
                    now,
                    p,
                ) by {
                    let d = choose|d: Seq<u8>| listed.contains(d) && #[trigger] disk.lists(d, p);
                    assert(now.contains(d) && disk.lists(d, p));
                }
                assert forall|p: Seq<u8>| #[trigger]
                    wider.pending.contains(EntryView::Path(p)) implies is_listed(disk, now, p) by {
                    let i = choose|i: int|
                        0 <= i < wider.pending.len() && wider.pending[i] == EntryView::Path(p);
                    if i < entries.len() {
                        assert(entries[i] == EntryView::Path(p));
                        assert(disk.lists(path, p));
                        assert(now.contains(path));
                    } else {
                        assert(scan.pending[i - entries.len()] == EntryView::Path(p));
                        assert(scan.pending.contains(EntryView::Path(p)));
                    }
                }
                assert forall|p: Seq<u8>| #[trigger] is_listed(disk, now, p) implies {
                    ||| is_settled(disk, wider, now, p)
                    ||| wider.pending.contains(EntryView::Path(p))
                } by {
                    let d = choose|d: Seq<u8>| now.contains(d) && #[trigger] disk.lists(d, p);
                    if d == path {
                        let i = choose|i: int| 0 <= i < entries.len() && entries[i] == EntryView::Path(p);
                        assert(wider.pending[i] == EntryView::Path(p));
                    } else {
                        assert(is_listed(disk, listed, p));
                        if scan.pending.contains(EntryView::Path(p)) {
                            let i = choose|i: int|
                                0 <= i < scan.pending.len() && scan.pending[i] == EntryView::Path(p);
                            assert(wider.pending[entries.len() + i] == EntryView::Path(p));
                        }
                    }
                }
                assert forall|key: Seq<char>| #[trigger]
                    wider.found.contains_key(key) implies is_sound_entry(disk, config, key, wider.found[key]) by {
                    assert(is_sound_entry(disk, config, key, scan.found[key]));
                }
                lemma_next_entry(disk, config, wider, now);
            }
        },
        StepView::Inspect(path) => {
            if let Ok(kind) = (disk.kind)(path) {
                if kind is Directory && config.recursive {
                    lemma_same_entry(disk, config, scan, after, listed);
                } else if kind is File && is_watched(path, config) {
                    lemma_same_entry(disk, config, scan, after, listed);
                } else {
                    assert(is_settled(disk, scan, listed, path));
                    lemma_next_entry(disk, config, scan, listed);
                }
            }
        },
        StepView::Stat(path) => {
            if (disk.stat)(path) is Ok {
                lemma_same_entry(disk, config, scan, after, listed);
            }
        },
        StepView::Read(path, stat) => {
            if let Ok(bytes) = (disk.contents)(path) {
                lemma_listed_is_searched(disk, config, listed, path);
                let key = lossy_utf8(path);
                let wider = ScanView {
                    found: scan.found.insert(key, observed(config, path, stat, bytes)),
                    ..scan
                };
                assert forall|k: Seq<char>| #[trigger]
                    wider.found.contains_key(k) implies is_sound_entry(disk, config, k, wider.found[k]) by {
                    if k == key {
                        assert(disk.is_wanted(config, path));
                    } else {
                        assert(is_sound_entry(disk, config, k, scan.found[k]));
                        let p = choose|p: Seq<u8>| #[trigger]
                            disk.is_wanted(config, p) && lossy_utf8(p) == k && scan.found[k]
                                == disk.file(config, p);
                        assert(disk.is_wanted(config, p) && wider.found[k] == disk.file(config, p));
                    }
                }
                assert forall|p: Seq<u8>| #[trigger] is_listed(disk, listed, p) implies {
                    ||| is_settled(disk, wider, listed, p)
                    ||| wider.pending.contains(EntryView::Path(p))
                } by {
                    assert(is_settled(disk, scan, listed, p) || scan.pending.contains(
                        EntryView::Path(p),
                    ) || is_at(scan, p));
                }
                lemma_next_entry(disk, config, wider, listed);
            }
        },
        StepView::Exists => {
            if disk.exists {
                lemma_same_entry(disk, config, scan, after, listed);
            }
        },
        StepView::Directory => {
            if disk.directory {
                lemma_same_entry(disk, config, scan, after, listed);
            }
        },
        _ => {},
    }
}

proof fn lemma_run(disk: Disk, config: ConfigView, n: nat)
    ensures
        ({
            let scan = scan_run(disk, config, n);
            scan.step is Failed || on_course(disk, config, scan, listed_after(disk, config, n))
        }),
    decreases n,
{
    if n > 0 {
        lemma_run(disk, config, (n - 1) as nat);
        lemma_step(
            disk,
            config,
            scan_run(disk, config, (n - 1) as nat),
            listed_after(disk, config, (n - 1) as nat),
        );
    }
}

/// What a scan reads is a file that it is to find.
pub proof fn lemma_reads_wanted(disk: Disk, config: ConfigView, n: nat)
    ensures
        match scan_run(disk, config, n).step {
            StepView::Stat(path) => disk.is_wanted(config, path),
            StepView::Read(path, stat) => disk.is_wanted(config, path) && (disk.stat)(path) == Ok::<
                FileStat,
                Seq<char>,
            >(stat),
            _ => true,
        },
{
    lemma_run(disk, config, n);
    match scan_run(disk, config, n).step {
        StepView::Stat(path) => {
            lemma_listed_is_searched(disk, config, listed_after(disk, config, n), path);
        },
        StepView::Read(path, stat) => {
            lemma_listed_is_searched(disk, config, listed_after(disk, config, n), path);
        },
        _ => {},
    }
}

proof fn lemma_all_searched(
    disk: Disk,
    config: ConfigView,
    n: nat,
    directory: Seq<u8>,
    depth: nat,
)
    requires
        scan_run(disk, config, n).step is Done,
        disk.is_searched_at(config, directory, depth),
    ensures
        listed_after(disk, config, n).contains(directory),
    decreases depth,
{
    let scan = scan_run(disk, config, n);
    let listed = listed_after(disk, config, n);
    lemma_run(disk, config, n);
    if depth > 0 {
        let parent = choose|parent: Seq<u8>|
            disk.is_searched_at(config, parent, (depth - 1) as nat) && #[trigger] disk.lists(
                parent,
                directory,
            );
        lemma_all_searched(disk, config, n, parent, (depth - 1) as nat);
        lemma_done(disk, config, n, directory, parent);
    }
}

proof fn lemma_done(disk: Disk, config: ConfigView, n: nat, path: Seq<u8>, parent: Seq<u8>)
    requires
        scan_run(disk, config, n).step is Done,
        listed_after(disk, config, n).contains(parent),
        disk.lists(parent, path),
    ensures
        is_settled(disk, scan_run(disk, config, n), listed_after(disk, config, n), path),
{
    lemma_run(disk, config, n);
    lemma_done_has_no_pending(disk, config, n);
    let listed = listed_after(disk, config, n);
    assert(is_listed(disk, listed, path));
}

proof fn lemma_done_has_no_pending(disk: Disk, config: ConfigView, n: nat)
    requires
        scan_run(disk, config, n).step is Done,
    ensures
        scan_run(disk, config, n).pending.len() == 0,
    decreases n,
{
    if n > 0 {
        let before = scan_run(disk, config, (n - 1) as nat);
        if before.step is Done {
            lemma_done_has_no_pending(disk, config, (n - 1) as nat);
        }
    }
}

/// A scan that comes to its end has found each watched file of each directory that
/// it was to search.
pub proof fn law_scan_is_complete(disk: Disk, config: ConfigView, n: nat, path: Seq<u8>)
    requires
        scan_run(disk, config, n).step is Done,
        disk.is_wanted(config, path),
    ensures
        scan_run(disk, config, n).found.contains_key(lossy_utf8(path)),
{
    lemma_run(disk, config, n);
    let directory = choose|directory: Seq<u8>|
        disk.is_searched(config, directory) && #[trigger] disk.lists(directory, path);
    let depth = choose|depth: nat| disk.is_searched_at(config, directory, depth);
    lemma_all_searched(disk, config, n, directory, depth);
    lemma_done(disk, config, n, path, directory);
}

/// A scan finds nothing else, and each file as it is: all that it has found is such
/// a file.
pub proof fn law_scan_is_sound(disk: Disk, config: ConfigView, n: nat, key: Seq<char>)
    requires
        scan_run(disk, config, n).step is Done,
        scan_run(disk, config, n).found.contains_key(key),
    ensures
        exists|path: Seq<u8>| #[trigger]
            disk.is_wanted(config, path) && lossy_utf8(path) == key && scan_run(
                disk,
                config,
                n,
            ).found[key] == disk.file(config, path),
{
    lemma_run(disk, config, n);
    assert(is_sound_entry(disk, config, key, scan_run(disk, config, n).found[key]));
}

proof fn lemma_readable(disk: Disk, config: ConfigView, n: nat)
    requires
        disk.is_readable(config),
    ensures
        !(scan_run(disk, config, n).step is Failed),
        forall|i: int|
            0 <= i < scan_run(disk, config, n).pending.len() ==> (#[trigger] scan_run(
                disk,
                config,
                n,
            ).pending[i]) is Path,
    decreases n,
{
    if n > 0 {
        let before = scan_run(disk, config, (n - 1) as nat);
        let listed = listed_after(disk, config, (n - 1) as nat);
        lemma_readable(disk, config, (n - 1) as nat);
        lemma_run(disk, config, (n - 1) as nat);
        match before.step {
            StepView::List(path) => {
                if is_listed(disk, listed, path) {
                    lemma_listed_is_searched(disk, config, listed, path);
                } else {
                    assert(disk.is_searched_at(config, path, 0));
                }
                assert(disk.is_searched(config, path));
            },
            StepView::Inspect(path) => {
                let parent = choose|directory: Seq<u8>|
                    listed.contains(directory) && #[trigger] disk.lists(directory, path);
                assert(disk.is_searched(config, parent));
            },
            StepView::Stat(path) => {
                lemma_listed_is_searched(disk, config, listed, path);
            },
            StepView::Read(path, stat) => {
                lemma_listed_is_searched(disk, config, listed, path);
            },
            _ => {},
        }
    }
}

/// A scan fails only if there is something that it cannot read: where all that it
/// looks at can be read, it does not fail.
pub proof fn law_readable_disk_is_scanned(disk: Disk, config: ConfigView, n: nat)
    requires
        disk.is_readable(config),
    ensures
        !(scan_run(disk, config, n).step is Failed),
{
    lemma_readable(disk, config, n);
}

/// All that a scan reads of an entry can be read.
spec fn can_be_read(disk: Disk, config: ConfigView, path: Seq<u8>) -> bool {
    &&& (disk.kind)(path) is Ok
    &&& (disk.kind)(path)->Ok_0 is File && is_watched(path, config) ==> (disk.stat)(path) is Ok && (
    disk.contents)(path) is Ok
}

spec fn has_read(disk: Disk, config: ConfigView, scan: ScanView, listed: Set<Seq<u8>>) -> bool {
    &&& forall|directory: Seq<u8>| #[trigger]
        listed.contains(directory) ==> (disk.listing)(directory) is Ok
    &&& forall|directory: Seq<u8>, i: int| #![trigger (disk.listing)(directory)->Ok_0[i]]
        listed.contains(directory) && 0 <= i < (disk.listing)(directory)->Ok_0.len() ==> {
            let entry = (disk.listing)(directory)->Ok_0[i];
            entry is Path || scan.pending.contains(entry)
        }
    &&& forall|path: Seq<u8>| #[trigger]
        is_listed(disk, listed, path) ==> {
            ||| can_be_read(disk, config, path)
            ||| scan.pending.contains(EntryView::Path(path))
            ||| is_at(scan, path)
        }
}

/// Going on to the next entry, once what the scan was at is read.
proof fn lemma_next_has_read(disk: Disk, config: ConfigView, scan: ScanView, listed: Set<Seq<u8>>)
    requires
        has_read(disk, config, scan, listed),
        forall|path: Seq<u8>| #[trigger]
            is_listed(disk, listed, path) && is_at(scan, path) ==> can_be_read(disk, config, path)
                || scan.pending.contains(EntryView::Path(path)),
    ensures
        next_entry(scan).step is Failed || has_read(disk, config, next_entry(scan), listed),
{
    let next = next_entry(scan);
    if scan.pending.len() > 0 && !(next.step is Failed) {
        let first = scan.pending[0];
        assert forall|entry: EntryView| #[trigger]
            scan.pending.contains(entry) && entry != first implies next.pending.contains(entry) by {
            let i = choose|i: int| 0 <= i < scan.pending.len() && scan.pending[i] == entry;
            assert(next.pending[i - 1] == entry);
        }
        assert forall|directory: Seq<u8>, i: int|
            #![trigger (disk.listing)(directory)->Ok_0[i]]
            listed.contains(directory) && 0 <= i < (disk.listing)(directory)->Ok_0.len() implies {
            let entry = (disk.listing)(directory)->Ok_0[i];
            entry is Path || next.pending.contains(entry)
        } by {
            let entry = (disk.listing)(directory)->Ok_0[i];
            assert(entry is Path || scan.pending.contains(entry));
        }
        assert forall|path: Seq<u8>| #[trigger] is_listed(disk, listed, path) implies {
            ||| can_be_read(disk, config, path)
            ||| next.pending.contains(EntryView::Path(path))
            ||| is_at(next, path)
        } by {
            if !can_be_read(disk, config, path) && EntryView::Path(path) != first {
                assert(scan.pending.contains(EntryView::Path(path)));
            }
        }
    }
}

proof fn lemma_list_has_read(
    disk: Disk,
    config: ConfigView,
    scan: ScanView,
    listed: Set<Seq<u8>>,
    directory: Seq<u8>,
)
    requires
        scan.step == StepView::List(directory),
        (disk.listing)(directory) is Ok,
        has_read(disk, config, scan, listed),
        can_be_read(disk, config, directory) || listed == Set::<Seq<u8>>::empty(),
    ensures
        ({
            let wider = ScanView {
                pending: (disk.listing)(directory)->Ok_0 + scan.pending,
                ..scan
            };
            &&& has_read(disk, config, wider, listed.insert(directory))
            &&& forall|path: Seq<u8>| #[trigger]
                is_listed(disk, listed.insert(directory), path) && is_at(wider, path)
                    ==> can_be_read(disk, config, path) || wider.pending.contains(
                    EntryView::Path(path),
                )
        }),
{
    let entries = (disk.listing)(directory)->Ok_0;
    let wider = ScanView { pending: entries + scan.pending, ..scan };
    let more = listed.insert(directory);
    assert forall|entry: EntryView| #[trigger] scan.pending.contains(entry) implies wider.pending.contains(
        entry,
    ) by {
        let i = choose|i: int| 0 <= i < scan.pending.len() && scan.pending[i] == entry;
        assert(wider.pending[entries.len() + i] == entry);
    }
    assert forall|entry: EntryView| #[trigger] entries.contains(entry) implies wider.pending.contains(
        entry,
    ) by {
        let i = choose|i: int| 0 <= i < entries.len() && entries[i] == entry;
        assert(wider.pending[i] == entry);
    }
    assert forall|other: Seq<u8>, i: int|
        #![trigger (disk.listing)(other)->Ok_0[i]]
        more.contains(other) && 0 <= i < (disk.listing)(other)->Ok_0.len() implies {
        let entry = (disk.listing)(other)->Ok_0[i];
        entry is Path || wider.pending.contains(entry)
    } by {
        let entry = (disk.listing)(other)->Ok_0[i];
        if other == directory {
            assert(entries.contains(entry));
        } else {
            assert(listed.contains(other));
        }
    }
    assert forall|path: Seq<u8>| #[trigger] is_listed(disk, more, path) implies {
        ||| can_be_read(disk, config, path)
        ||| wider.pending.contains(EntryView::Path(path))
    } by {
        let parent = choose|parent: Seq<u8>|
            more.contains(parent) && #[trigger] disk.lists(parent, path);
        if parent == directory {
            assert(entries.contains(EntryView::Path(path)));
        } else {
            assert(listed.contains(parent));
            assert(is_listed(disk, listed, path));
        }
    }
}

proof fn lemma_has_read(disk: Disk, config: ConfigView, n: nat)
    ensures
        ({
            let scan = scan_run(disk, config, n);
            scan.step is Failed || has_read(disk, config, scan, listed_after(disk, config, n))
        }),
    decreases n,
{
    if n > 0 {
        let before = scan_run(disk, config, (n - 1) as nat);
        let listed = listed_after(disk, config, (n - 1) as nat);
        lemma_has_read(disk, config, (n - 1) as nat);
        lemma_run(disk, config, (n - 1) as nat);
        match before.step {
            StepView::List(directory) => {
                if (disk.listing)(directory) is Ok {
                    lemma_list_has_read(disk, config, before, listed, directory);
                    let wider = ScanView {
                        pending: (disk.listing)(directory)->Ok_0 + before.pending,
                        ..before
                    };
                    lemma_next_has_read(disk, config, wider, listed.insert(directory));
                }
            },
            StepView::Inspect(path) => {
                if let Ok(kind) = (disk.kind)(path) {
                    if !(kind is Directory && config.recursive) && !(kind is File && is_watched(
                        path,
                        config,
                    )) {
                        lemma_next_has_read(disk, config, before, listed);
                    }
                }
            },
            StepView::Read(path, stat) => {
                if let Ok(bytes) = (disk.contents)(path) {
                    let wider = ScanView {
                        found: before.found.insert(
                            lossy_utf8(path),
                            observed(config, path, stat, bytes),
                        ),
                        ..before
                    };
                    lemma_next_has_read(disk, config, wider, listed);
                }
            },
            _ => {},
        }
    }
}

/// A scan that is done has read all that it looked at: it succeeds only where all of
/// that can be read.
pub proof fn law_done_scan_has_read_all(disk: Disk, config: ConfigView, n: nat)
    requires
        scan_run(disk, config, n).step is Done,
    ensures
        disk.is_readable(config),
{
    let listed = listed_after(disk, config, n);
    lemma_has_read(disk, config, n);
    lemma_done_has_no_pending(disk, config, n);
    assert forall|directory: Seq<u8>| #[trigger]
        disk.is_searched(config, directory) implies listed.contains(directory) by {
        let depth = choose|depth: nat| disk.is_searched_at(config, directory, depth);
        lemma_all_searched(disk, config, n, directory, depth);
    }
    assert forall|directory: Seq<u8>, i: int|
        #![trigger (disk.listing)(directory)->Ok_0[i]]
        disk.is_searched(config, directory) && 0 <= i < (disk.listing)(
            directory,
        )->Ok_0.len() implies (disk.listing)(directory)->Ok_0[i] is Path by {
        assert(listed.contains(directory));
    }
    assert forall|directory: Seq<u8>, path: Seq<u8>|
        disk.is_searched(config, directory) && #[trigger] disk.lists(directory, path) implies (
    disk.kind)(path) is Ok by {
        assert(listed.contains(directory));
        assert(is_listed(disk, listed, path));
    }
    assert forall|path: Seq<u8>| #[trigger] disk.is_wanted(config, path) implies (disk.stat)(path)
        is Ok && (disk.contents)(path) is Ok by {
        let directory = choose|directory: Seq<u8>|
            disk.is_searched(config, directory) && #[trigger] disk.lists(directory, path);
        assert(listed.contains(directory));
        assert(is_listed(disk, listed, path));
    }
    lemma_has_begun(disk, config, n);
}

proof fn lemma_has_begun(disk: Disk, config: ConfigView, n: nat)
    ensures
        scan_run(disk, config, n).step is Exists || scan_run(disk, config, n).step is Failed
            || disk.exists,
        scan_run(disk, config, n).step is Exists || scan_run(disk, config, n).step is Directory
            || scan_run(disk, config, n).step is Failed || disk.directory,
    decreases n,
{
    if n > 0 {
        lemma_has_begun(disk, config, (n - 1) as nat);
    }
}

/// At most how many looks it takes to go through `entries`, and through all below
/// those of them that lie lower than `h`.
spec fn looks(disk: Disk, height: spec_fn(Seq<u8>) -> nat, entries: Seq<EntryView>, h: nat) -> nat
    decreases h, entries.len(),
{
    if entries.len() == 0 {
        0
    } else {
        4 + looks(disk, height, entries.skip(1), h) + match entries[0] {
            EntryView::Path(path) => if height(path) < h {
                looks_below(disk, height, path, height(path))
            } else {
                0
            },
            EntryView::Unreadable(error) => 0,
        }
    }
}

spec fn looks_below(disk: Disk, height: spec_fn(Seq<u8>) -> nat, path: Seq<u8>, h: nat) -> nat
    decreases h, (disk.listing)(path)->Ok_0.len() + 1,
{
    if (disk.listing)(path) is Ok {
        looks(disk, height, (disk.listing)(path)->Ok_0, h)
    } else {
        0
    }
}

proof fn lemma_looks_join(
    disk: Disk,
    height: spec_fn(Seq<u8>) -> nat,
    a: Seq<EntryView>,
    b: Seq<EntryView>,
    h: nat,
)
    ensures
        looks(disk, height, a + b, h) == looks(disk, height, a, h) + looks(disk, height, b, h),
    decreases a.len(),
{
    if a.len() == 0 {
        assert(a + b =~= b);
    } else {
        assert((a + b).skip(1) =~= a.skip(1) + b);
        lemma_looks_join(disk, height, a.skip(1), b, h);
    }
}

proof fn lemma_looks_bound(
    disk: Disk,
    height: spec_fn(Seq<u8>) -> nat,
    entries: Seq<EntryView>,
    h: nat,
    top: nat,
)
    requires
        h <= top,
        forall|path: Seq<u8>| #[trigger]
            entries.contains(EntryView::Path(path)) ==> height(path) < h,
    ensures
        looks(disk, height, entries, h) == looks(disk, height, entries, top),
    decreases entries.len(),
{
    if entries.len() > 0 {
        let rest = entries.skip(1);
        assert forall|path: Seq<u8>| #[trigger] rest.contains(EntryView::Path(path)) implies height(
            path,
        ) < h by {
            let i = choose|i: int| 0 <= i < rest.len() && rest[i] == EntryView::Path(path);
            assert(entries[i + 1] == EntryView::Path(path));
            assert(entries.contains(EntryView::Path(path)));
        }
        assert(entries.contains(entries[0]));
        lemma_looks_bound(disk, height, rest, h, top);
    }
}

proof fn lemma_searched_height(
    disk: Disk,
    config: ConfigView,
    height: spec_fn(Seq<u8>) -> nat,
    directory: Seq<u8>,
    depth: nat,
)
    requires
        disk.is_tree(config, height),
        disk.is_searched_at(config, directory, depth),
    ensures
        height(directory) <= height(root_of(config)),
    decreases depth,
{
    if depth > 0 {
        let parent = choose|parent: Seq<u8>|
            disk.is_searched_at(config, parent, (depth - 1) as nat) && #[trigger] disk.lists(
                parent,
                directory,
            );
        lemma_searched_height(disk, config, height, parent, (depth - 1) as nat);
        assert(disk.is_searched(config, parent));
    }
}

/// At most how many looks are left to a scan.
spec fn looks_left(disk: Disk, height: spec_fn(Seq<u8>) -> nat, scan: ScanView) -> nat {
    let root = root_of(scan.config);
    looks(disk, height, scan.pending, height(root)) + match scan.step {
        StepView::Exists => 3 + looks_below(disk, height, root, height(root)),
        StepView::Directory => 2 + looks_below(disk, height, root, height(root)),
        StepView::List(path) => 1 + looks_below(disk, height, path, height(path)),
        StepView::Inspect(path) => 3 + looks_below(disk, height, path, height(path)),
        StepView::Stat(path) => 2nat,
        StepView::Read(path, stat) => 1nat,
        _ => 0nat,
    }
}

proof fn lemma_fewer_looks(
    disk: Disk,
    config: ConfigView,
    height: spec_fn(Seq<u8>) -> nat,
    scan: ScanView,
    listed: Set<Seq<u8>>,
)
    requires
        disk.is_tree(config, height),
        on_course(disk, config, scan, listed),
        !(scan.step is Done),
        !(scan.step is Failed),
        scan.step is Exists || scan.step is Directory ==> scan.pending.len() == 0,
    ensures
        ({
            let after = scan_after(scan, disk.answer(scan.step));
            after.step is Failed || looks_left(disk, height, after) < looks_left(
                disk,
                height,
                scan,
            )
        }),
{
    let top = height(root_of(config));
    let after = scan_after(scan, disk.answer(scan.step));
    assert forall|path: Seq<u8>| #[trigger] scan.pending.contains(EntryView::Path(path)) implies height(
        path,
    ) < top by {
        let parent = choose|directory: Seq<u8>|
            listed.contains(directory) && #[trigger] disk.lists(directory, path);
        assert(disk.is_searched(config, parent));
        let depth = choose|depth: nat| disk.is_searched_at(config, parent, depth);
        lemma_searched_height(disk, config, height, parent, depth);
    }
    if scan.pending.len() > 0 {
        assert(scan.pending.contains(scan.pending[0]));
    }
    if let StepView::List(path) = scan.step {
        if let Ok(entries) = (disk.listing)(path) {
            if is_listed(disk, listed, path) {
                lemma_listed_is_searched(disk, config, listed, path);
            } else {
                assert(disk.is_searched_at(config, path, 0));
            }
            assert(disk.is_searched(config, path));
            let depth = choose|depth: nat| disk.is_searched_at(config, path, depth);
            lemma_searched_height(disk, config, height, path, depth);
            assert forall|entry: Seq<u8>| #[trigger]
                entries.contains(EntryView::Path(entry)) implies height(entry) < height(path) by {
                assert(disk.lists(path, entry));
            }
            lemma_looks_bound(disk, height, entries, height(path), top);
            lemma_looks_join(disk, height, entries, scan.pending, top);
            let pending = entries + scan.pending;
            if pending.len() > 0 && entries.len() > 0 {
                assert(pending[0] == entries[0]);
                assert(entries.contains(entries[0]));
            }
        }
    }
}

proof fn lemma_looks_run_out(
    disk: Disk,
    config: ConfigView,
    height: spec_fn(Seq<u8>) -> nat,
    n: nat,
)
    requires
        disk.is_tree(config, height),
    ensures
        ({
            let scan = scan_run(disk, config, n);
            ||| scan.step is Done
            ||| scan.step is Failed
            ||| {
                &&& looks_left(disk, height, scan) + n <= looks_left(
                    disk,
                    height,
                    scan_start(config),
                )
                &&& scan.step is Exists || scan.step is Directory ==> scan.pending.len() == 0
            }
        }),
    decreases n,
{
    if n > 0 {
        let before = scan_run(disk, config, (n - 1) as nat);
        lemma_looks_run_out(disk, config, height, (n - 1) as nat);
        lemma_run(disk, config, (n - 1) as nat);
        if !(before.step is Done) && !(before.step is Failed) {
            lemma_fewer_looks(
                disk,
                config,
                height,
                before,
                listed_after(disk, config, (n - 1) as nat),
            );
        }
    }
}

/// A scan comes to an end where the directories form a tree. If all that it looks at
/// can be read, it succeeds.
pub proof fn law_scan_comes_to_an_end(
    disk: Disk,
    config: ConfigView,
    height: spec_fn(Seq<u8>) -> nat,
)
    requires
        disk.is_tree(config, height),
    ensures
        exists|n: nat|
            {
                let scan = #[trigger] scan_run(disk, config, n);
                scan.step is Done || scan.step is Failed
            },
        disk.is_readable(config) ==> exists|n: nat|
            (#[trigger] scan_run(disk, config, n)).step is Done,
{
    let n = looks_left(disk, height, scan_start(config)) + 1;
    lemma_looks_run_out(disk, config, height, n);
    let scan = scan_run(disk, config, n);
    if disk.is_readable(config) {
        law_readable_disk_is_scanned(disk, config, n);
    }
}

/// Whatever a scan is told, it files each file under its own absolute path, and
/// finds finitely many.
pub proof fn law_found_files_are_keyed_by_path(scan: ScanView, event: EventView)
    requires
        keyed_by_path(scan.found),
        scan.found.dom().finite(),
    ensures
        keyed_by_path(scan_after(scan, event).found),
        scan_after(scan, event).found.dom().finite(),
{
}

/// A scan that is over stays as it is, whatever it is told.
pub proof fn law_finished_scan_stays(scan: ScanView, event: EventView)
    requires
        scan.step is Done || scan.step is Failed,
    ensures
        scan_after(scan, event) == scan,
{
}

/// A scan of a disk has one end: it stays there, however often it looks.
pub proof fn law_one_end(disk: Disk, config: ConfigView, n: nat, m: nat)
    requires
        scan_run(disk, config, n).step is Done || scan_run(disk, config, n).step is Failed,
        scan_run(disk, config, m).step is Done || scan_run(disk, config, m).step is Failed,
    ensures
        scan_run(disk, config, n) == scan_run(disk, config, m),
{
    if n < m {
        lemma_stays(disk, config, n, m);
    } else {
        lemma_stays(disk, config, m, n);
    }
}

proof fn lemma_stays(disk: Disk, config: ConfigView, m: nat, n: nat)
    requires
        scan_run(disk, config, m).step is Done || scan_run(disk, config, m).step is Failed,
        m <= n,
    ensures
        scan_run(disk, config, n) == scan_run(disk, config, m),
    decreases n,
{
    if n > m {
        lemma_stays(disk, config, m, (n - 1) as nat);
    }
}

/// A scan asks for just what it goes by: what it is told of a disk is what the look that
/// it asks for finds there. It asks for nothing more if and only if it is over.
pub proof fn law_scan_asks_for_what_it_goes_by(disk: Disk, scan: ScanView)
    ensures
        disk.reply(next_look(scan.step)) == disk.answer(scan.step),
        next_look(scan.step) is Finish <==> scan.step is Done || scan.step is Failed,
{
}

/// The fingerprint of a file has its size, the time of its last change in milliseconds
/// as far as 64 bits hold it, or zero where it is not known, and the SHA-256 digest of
/// the whole contents, however long they are, in hexadecimal notation. Equal
/// fingerprints mean equal sizes, and equal digests of the whole contents.
pub proof fn law_fingerprint_is_of_the_whole_file(
    stat: FileStat,
    contents: Seq<u8>,
    other_stat: FileStat,
    other_contents: Seq<u8>,
)
    ensures
        fingerprint(stat, contents).size_bytes == stat.size_bytes,
        stat.modified_ms matches Some(ms) ==> fingerprint(stat, contents).modified_unix_ms as int
            == ms as int % 0x1_0000_0000_0000_0000,
        stat.modified_ms is None ==> fingerprint(stat, contents).modified_unix_ms == 0,
        fingerprint(stat, contents).sha256 == hex(sha256(contents)),
        fingerprint(stat, contents) == fingerprint(other_stat, other_contents) ==> stat.size_bytes
            == other_stat.size_bytes && sha256(contents) == sha256(other_contents),
{
    if fingerprint(stat, contents) == fingerprint(other_stat, other_contents) {
        law_hex_injective(sha256(contents), sha256(other_contents));
    }
}

/// A file is reported by the text of its path, by the text of its path from the watched
/// folder on, and by the fingerprint of what is on the disk.
pub proof fn law_file_is_reported_as_it_is(disk: Disk, config: ConfigView, path: Seq<u8>)
    ensures
        disk.file(config, path).absolute_path == lossy_utf8(path),
        disk.file(config, path).relative_path == relative_text(
            encode_utf8(config.watch_path),
            path,
        ),
        disk.file(config, path).fingerprint == fingerprint(
            (disk.stat)(path)->Ok_0,
            (disk.contents)(path)->Ok_0,
        ),
{
}

/// A scan starts with the watched folder. It fails if that does not exist or is no
/// directory, and if anything that it has to look at cannot be read. It says what it
/// could not read, and why.
pub proof fn law_why_a_scan_fails(scan: ScanView, path: Seq<u8>, stat: FileStat, error: Seq<char>)
    ensures
        scan.step is Exists ==> scan_after(scan, EventView::Exists(false)).step
            == StepView::Failed("watch path does not exist: "@ + scan.config.watch_path),
        scan.step is Exists ==> scan_after(scan, EventView::Exists(true)).step
            == StepView::Directory,
        scan.step is Directory ==> scan_after(scan, EventView::Directory(false)).step
            == StepView::Failed("watch path is not a directory: "@ + scan.config.watch_path),
        scan.step is Directory ==> scan_after(scan, EventView::Directory(true)).step
            == StepView::List(encode_utf8(scan.config.watch_path)),
        scan.step == StepView::List(path) ==> scan_after(scan, EventView::Listed(Err(error))).step
            == StepView::Failed("failed to read '"@ + lossy_utf8(path) + "': "@ + error),
        scan.step == StepView::Inspect(path) ==> scan_after(
            scan,
            EventView::Inspected(Err(error)),
        ).step == StepView::Failed("failed to stat '"@ + lossy_utf8(path) + "': "@ + error),
        scan.step == StepView::Stat(path) ==> scan_after(scan, EventView::Statted(Err(error))).step
            == StepView::Failed("failed to stat '"@ + lossy_utf8(path) + "': "@ + error),
        scan.step == StepView::Read(path, stat) ==> scan_after(
            scan,
            EventView::Read(Err(error)),
        ).step == StepView::Failed("failed to read '"@ + lossy_utf8(path) + "': "@ + error),
        scan.step == StepView::List(path) ==> scan_after(
            scan,
            EventView::Listed(Ok(seq![EntryView::Unreadable(error)])),
        ).step == StepView::Failed("failed reading dir entry: "@ + error),
{
    let entries = seq![EntryView::Unreadable(error)];
    assert((entries + scan.pending)[0] == entries[0]);
}

} // verus!
