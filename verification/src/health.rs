//! Link health: counting dangling symbolic links in a directory.
//!
//! Read-only and side-effect free; the caller lists the directory and
//! reports, per entry, whether it is a symbolic link and whether following
//! it reaches an existing filesystem object.

use vstd::prelude::*;

verus! {

/// One immediate entry of a scanned link directory, as the health checker
/// sees it: whether the entry itself is a symbolic link, and whether its
/// referent (for a link: the linked-to object; otherwise the entry itself)
/// exists.
#[derive(Clone)]
pub struct HealthEntry {
    pub name: String,
    pub is_link: bool,
    pub referent_exists: bool,
}

/// Ghost image of a [`HealthEntry`].
pub struct HealthEntryView {
    pub name: Seq<char>,
    pub is_link: bool,
    pub referent_exists: bool,
}

impl View for HealthEntry {
    type V = HealthEntryView;

    open spec fn view(&self) -> HealthEntryView {
        HealthEntryView {
            name: self.name@,
            is_link: self.is_link,
            referent_exists: self.referent_exists,
        }
    }
}

impl DeepView for HealthEntry {
    type V = HealthEntryView;

    open spec fn deep_view(&self) -> HealthEntryView {
        self@
    }
}

/// What one scan of a link directory observed. A directory that is missing
/// or unreadable is reported with `readable == false`.
#[derive(Clone)]
pub struct HealthScan {
    pub readable: bool,
    pub entries: Vec<HealthEntry>,
}

/// Ghost image of a [`HealthScan`].
pub struct HealthScanView {
    pub readable: bool,
    pub entries: Seq<HealthEntryView>,
}

impl View for HealthScan {
    type V = HealthScanView;

    open spec fn view(&self) -> HealthScanView {
        HealthScanView { readable: self.readable, entries: self.entries.deep_view() }
    }
}

impl DeepView for HealthScan {
    type V = HealthScanView;

    open spec fn deep_view(&self) -> HealthScanView {
        self@
    }
}

/// Whether an entry is a broken link: a symbolic link whose referent no
/// longer exists. A non-link entry is never broken, whatever exists.
pub open spec fn is_broken(e: HealthEntryView) -> bool {
    e.is_link && !e.referent_exists
}

/// How many entries of a listing are broken links.
pub open spec fn broken_count(entries: Seq<HealthEntryView>) -> nat
    decreases entries.len(),
{
    if entries.len() == 0 {
        0
    } else {
        broken_count(entries.drop_last()) + if is_broken(entries.last()) {
            1nat
        } else {
            0nat
        }
    }
}

/// How many broken links a whole scan reports: zero for an unreadable
/// directory — health reporting degrades gracefully, it never errors.
pub open spec fn scan_broken_count(scan: HealthScanView) -> nat {
    if scan.readable {
        broken_count(scan.entries)
    } else {
        0
    }
}

/// Broken-link counting: appending a dangling symbolic link to a listing
/// raises the count by one; appending anything else — in particular a
/// non-link entry whose referent is just as missing — leaves it unchanged.
pub proof fn lemma_broken_classification(entries: Seq<HealthEntryView>, e: HealthEntryView)
    ensures
        is_broken(e) ==> broken_count(entries.push(e)) == broken_count(entries) + 1,
        !is_broken(e) ==> broken_count(entries.push(e)) == broken_count(entries),
{
    assert(entries.push(e).drop_last() =~= entries);
    assert(entries.push(e).last() == e);
}

/// Counts the dangling symbolic links a directory scan observed.
pub fn count_broken_links(scan: &HealthScan) -> (n: usize)
    ensures
        n == scan_broken_count(scan@),
{
    if !scan.readable {
        return 0;
    }
    let m = scan.entries.len();
    let mut n: usize = 0;
    let mut i: usize = 0;
    while i < m
        invariant
            m == scan.entries.len(),
            0 <= i <= m,
            n <= i,
            n == broken_count(scan.entries.deep_view().take(i as int)),
        decreases m - i,
    {
        let ghost taken = scan.entries.deep_view().take(i + 1);
        proof {
            assert(taken.drop_last() =~= scan.entries.deep_view().take(i as int));
            assert(taken.last() == scan.entries.deep_view()[i as int]);
        }
        let e = &scan.entries[i];
        if e.is_link && !e.referent_exists {
            n += 1;
        }
        i += 1;
    }
    proof {
        assert(scan.entries.deep_view().take(m as int) =~= scan.entries.deep_view());
    }
    n
}

} // verus!
