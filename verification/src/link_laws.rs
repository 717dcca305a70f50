//! Symbolic links make no difference to a scan.

use vstd::prelude::*;

use crate::model::ConfigView;
use crate::scan::{next_entry, observed, scan_after, EntryKind, EntryView, ScanView, StepView};
use crate::scan_laws::{law_one_end, scan_run, Disk};
use crate::text::lossy_utf8;

verus! {

impl Disk {
    /// A symbolic link, wherever it leads.
    pub open spec fn is_link(self, path: Seq<u8>) -> bool {
        (self.kind)(path) == Ok::<EntryKind, Seq<char>>(EntryKind::Symlink)
    }

    /// Entries without the symbolic links among them.
    pub open spec fn drop_links(self, entries: Seq<EntryView>) -> Seq<EntryView> {
        entries.filter(
            |entry: EntryView| !(entry matches EntryView::Path(path) && self.is_link(path)),
        )
    }

    /// The same disk without its symbolic links: no directory has one.
    pub open spec fn without_links(self) -> Disk {
        Disk {
            listing: |path: Seq<u8>|
                match (self.listing)(path) {
                    Ok(entries) => Ok(self.drop_links(entries)),
                    Err(error) => Err(error),
                },
            ..self
        }
    }
}

/// The scan is about to pass over a symbolic link.
spec fn is_at_link(disk: Disk, scan: ScanView) -> bool {
    scan.step matches StepView::Inspect(path) && disk.is_link(path)
}

/// The scan once it has passed over the symbolic links that come next.
spec fn past_links(disk: Disk, scan: ScanView) -> ScanView
    decreases
            scan.pending.len() + if scan.step is Inspect {
                1nat
            } else {
                0nat
            },
{
    if is_at_link(disk, scan) {
        past_links(disk, next_entry(scan))
    } else {
        scan
    }
}

/// The scan without the symbolic links that it has yet to look at.
spec fn stripped(disk: Disk, scan: ScanView) -> ScanView {
    ScanView { pending: disk.drop_links(scan.pending), ..scan }
}

/// The same scan on the disk without symbolic links.
spec fn linkless(disk: Disk, scan: ScanView) -> ScanView {
    stripped(disk, past_links(disk, scan))
}

proof fn lemma_drop_links_first(disk: Disk, entries: Seq<EntryView>)
    requires
        entries.len() > 0,
    ensures
        disk.drop_links(entries) == if entries[0] matches EntryView::Path(path) && disk.is_link(
            path,
        ) {
            disk.drop_links(entries.skip(1))
        } else {
            seq![entries[0]] + disk.drop_links(entries.skip(1))
        },
{
    let keep = |entry: EntryView|
        !(entry matches EntryView::Path(path) && disk.is_link(path));
    let first = seq![entries[0]];
    assert(entries =~= first + entries.skip(1));
    Seq::filter_distributes_over_add(first, entries.skip(1), keep);
    reveal(Seq::filter);
    assert(first.drop_last() =~= seq![]);
    assert(first.drop_last().filter(keep) =~= seq![]);
    if keep(entries[0]) {
        assert(first.filter(keep) =~= first);
    } else {
        assert(first.filter(keep) =~= seq![]);
        assert(first.filter(keep) + disk.drop_links(entries.skip(1)) =~= disk.drop_links(
            entries.skip(1),
        ));
    }
}

proof fn lemma_linkless_next_entry(disk: Disk, scan: ScanView)
    ensures
        linkless(disk, next_entry(scan)) == next_entry(stripped(disk, scan)),
    decreases scan.pending.len(),
{
    if scan.pending.len() == 0 {
        assert(disk.drop_links(scan.pending) =~= seq![]) by {
            reveal(Seq::filter);
        }
    } else {
        let next = next_entry(scan);
        lemma_drop_links_first(disk, scan.pending);
        if is_at_link(disk, next) {
            lemma_linkless_next_entry(disk, next);
            assert(next_entry(stripped(disk, next)) == next_entry(stripped(disk, scan)));
        } else {
            let rest = disk.drop_links(scan.pending.skip(1));
            assert((seq![scan.pending[0]] + rest).skip(1) =~= rest);
        }
    }
}

/// A look at an entry that is no link is the same look on both disks.
proof fn lemma_linkless_step(disk: Disk, scan: ScanView)
    requires
        !is_at_link(disk, scan),
    ensures
        linkless(disk, scan_after(scan, disk.answer(scan.step))) == scan_after(
            linkless(disk, scan),
            disk.without_links().answer(linkless(disk, scan).step),
        ),
{
    let after = scan_after(scan, disk.answer(scan.step));
    match scan.step {
        StepView::List(path) => {
            if let Ok(entries) = (disk.listing)(path) {
                let wider = ScanView { pending: entries + scan.pending, ..scan };
                let keep = |entry: EntryView|
                    !(entry matches EntryView::Path(path) && disk.is_link(path));
                Seq::filter_distributes_over_add(entries, scan.pending, keep);
                lemma_linkless_next_entry(disk, wider);
            }
        },
        StepView::Inspect(path) => {
            lemma_linkless_next_entry(disk, scan);
        },
        StepView::Read(path, stat) => {
            if let Ok(bytes) = (disk.contents)(path) {
                let wider = ScanView {
                    found: scan.found.insert(
                        lossy_utf8(path),
                        observed(scan.config, path, stat, bytes),
                    ),
                    ..scan
                };
                lemma_linkless_next_entry(disk, wider);
            }
        },
        _ => {},
    }
}

/// How many of the first `n` looks were not at a symbolic link.
spec fn looks_elsewhere(disk: Disk, config: ConfigView, n: nat) -> nat
    decreases n,
{
    if n == 0 {
        0
    } else if is_at_link(disk, scan_run(disk, config, (n - 1) as nat)) {
        looks_elsewhere(disk, config, (n - 1) as nat)
    } else {
        looks_elsewhere(disk, config, (n - 1) as nat) + 1
    }
}

proof fn lemma_looks_elsewhere(disk: Disk, config: ConfigView, n: nat)
    ensures
        looks_elsewhere(disk, config, n) <= n,
    decreases n,
{
    if n > 0 {
        lemma_looks_elsewhere(disk, config, (n - 1) as nat);
    }
}

proof fn lemma_linkless_run(disk: Disk, config: ConfigView, n: nat)
    ensures
        linkless(disk, scan_run(disk, config, n)) == scan_run(
            disk.without_links(),
            config,
            looks_elsewhere(disk, config, n),
        ),
    decreases n,
{
    if n == 0 {
        assert(disk.drop_links(seq![]) =~= seq![]) by {
            reveal(Seq::filter);
        }
    } else {
        let before = scan_run(disk, config, (n - 1) as nat);
        lemma_linkless_run(disk, config, (n - 1) as nat);
        if !is_at_link(disk, before) {
            lemma_linkless_step(disk, before);
        }
    }
}

/// A scan gets past the symbolic links that come next.
proof fn lemma_gets_past_links(disk: Disk, config: ConfigView, n: nat) -> (m: nat)
    ensures
        m >= n,
        scan_run(disk, config, m) == past_links(disk, scan_run(disk, config, n)),
        looks_elsewhere(disk, config, m) == looks_elsewhere(disk, config, n),
    decreases
            scan_run(disk, config, n).pending.len() + if scan_run(disk, config, n).step is Inspect {
                1nat
            } else {
                0nat
            },
{
    let scan = scan_run(disk, config, n);
    if is_at_link(disk, scan) {
        assert(scan_run(disk, config, n + 1) == next_entry(scan));
        lemma_gets_past_links(disk, config, n + 1)
    } else {
        n
    }
}

proof fn lemma_past_links_is_past(disk: Disk, scan: ScanView)
    ensures
        !is_at_link(disk, past_links(disk, scan)),
    decreases
            scan.pending.len() + if scan.step is Inspect {
                1nat
            } else {
                0nat
            },
{
    if is_at_link(disk, scan) {
        lemma_past_links_is_past(disk, next_entry(scan));
    }
}

/// After enough looks, a scan has looked elsewhere than at symbolic links `m` times.
proof fn lemma_keeps_up(disk: Disk, config: ConfigView, m: nat) -> (n: nat)
    ensures
        looks_elsewhere(disk, config, n) == m,
        !is_at_link(disk, scan_run(disk, config, n)),
    decreases m,
{
    if m == 0 {
        lemma_past_links_is_past(disk, scan_run(disk, config, 0));
        lemma_gets_past_links(disk, config, 0)
    } else {
        let before = lemma_keeps_up(disk, config, (m - 1) as nat);
        lemma_past_links_is_past(disk, scan_run(disk, config, before + 1));
        lemma_gets_past_links(disk, config, before + 1)
    }
}

/// Two scans have come to the same end: both are done, or both have failed for the
/// same reason, and they have found the same files.
pub open spec fn same_end(a: ScanView, b: ScanView) -> bool {
    &&& a.step is Done || a.step is Failed
    &&& a.step == b.step
    &&& a.found == b.found
}

/// Symbolic links make no difference: a scan of a disk ends just as a scan of the
/// same disk without its links does. If one of them comes to an end, the other comes
/// to the same end. So a link is neither reported nor followed, it is no cause of a
/// failure, and no cycle of links keeps a scan from its end.
pub proof fn law_links_make_no_difference(disk: Disk, config: ConfigView, n: nat)
    ensures
        ({
            let scan = scan_run(disk, config, n);
            scan.step is Done || scan.step is Failed ==> exists|m: nat|
                m <= n && same_end(scan, #[trigger] scan_run(disk.without_links(), config, m))
        }),
        ({
            let scan = scan_run(disk.without_links(), config, n);
            scan.step is Done || scan.step is Failed ==> exists|m: nat|
                m >= n && same_end(scan, #[trigger] scan_run(disk, config, m))
        }),
{
    lemma_looks_elsewhere(disk, config, n);
    lemma_linkless_run(disk, config, n);
    let with_links = scan_run(disk, config, n);
    if with_links.step is Done || with_links.step is Failed {
        assert(same_end(
            with_links,
            scan_run(disk.without_links(), config, looks_elsewhere(disk, config, n)),
        ));
    }
    let m = lemma_keeps_up(disk, config, n);
    lemma_looks_elsewhere(disk, config, m);
    lemma_linkless_run(disk, config, m);
    let scan = scan_run(disk.without_links(), config, n);
    if scan.step is Done || scan.step is Failed {
        assert(same_end(scan, scan_run(disk, config, m)));
    }
}

/// Wherever two scans of one disk end, the one with its links and the other without
/// them, they have come to the same end.
pub proof fn law_links_change_no_result(disk: Disk, config: ConfigView, n: nat, m: nat)
    requires
        scan_run(disk, config, n).step is Done || scan_run(disk, config, n).step is Failed,
        scan_run(disk.without_links(), config, m).step is Done || scan_run(
            disk.without_links(),
            config,
            m,
        ).step is Failed,
    ensures
        same_end(scan_run(disk, config, n), scan_run(disk.without_links(), config, m)),
{
    law_links_make_no_difference(disk, config, n);
    let k = choose|k: nat|
        k <= n && same_end(
            scan_run(disk, config, n),
            #[trigger] scan_run(disk.without_links(), config, k),
        );
    law_one_end(disk.without_links(), config, k, m);
}

} // verus!
