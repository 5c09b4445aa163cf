use vstd::prelude::*;
use crate::commands::{executed, law_stats_counts};
use crate::cli::CommandView;
use crate::output::decimal;
use crate::model::{
    law_index_groups_by_name, copy_bytes, index_entries, law_normalized_binaries, law_normalized_keeps_every_path,
    normalized_binaries, path_seen, EntryView, ScanResult, ScanView,
};
use crate::scanner::{
    candidate_kind_of, file_name_on, join_on, joined_on, CandidateFacts, CandidateKind, EntryStatus, Platform,
};

verus! {

/// One item of a listed directory: its name in the directory and what the
/// file system says of it.
#[derive(Debug, Clone, PartialEq, Eq)]
pub struct DirectoryItem {
    pub name: Vec<u8>,
    pub facts: CandidateFacts,
}

/// What the walk of the search list found at one entry: the directory it
/// stands for, what kind of thing is there, and, for a directory that could
/// be listed, its items.
#[derive(Debug, Clone, PartialEq, Eq)]
pub struct EntryReport {
    pub entry: Vec<u8>,
    pub status: EntryStatus,
    pub items: Vec<DirectoryItem>,
}

/// A directory item, its name as bytes.
pub struct ItemView {
    pub name: Seq<u8>,
    pub facts: CandidateFacts,
}

/// What was found at one entry, its paths and names as bytes.
pub struct ReportView {
    pub entry: Seq<u8>,
    pub status: EntryStatus,
    pub items: Seq<ItemView>,
}

impl View for DirectoryItem {
    type V = ItemView;

    open spec fn view(&self) -> ItemView {
        ItemView { name: self.name@, facts: self.facts }
    }
}

impl View for EntryReport {
    type V = ReportView;

    open spec fn view(&self) -> ReportView {
        ReportView { entry: self.entry@, status: self.status, items: self.items@.map_values(|it: DirectoryItem| it@) }
    }
}

/// The views of a sequence of reports.
pub open spec fn report_views(rs: Seq<EntryReport>) -> Seq<ReportView> {
    rs.map_values(|r: EntryReport| r@)
}

/// The entries of the reports with a given status, in search-list order.
pub open spec fn entries_with(rs: Seq<ReportView>, status: EntryStatus) -> Seq<Seq<u8>>
    decreases rs.len(),
{
    if rs.len() == 0 {
        Seq::empty()
    } else if rs.last().status == status {
        entries_with(rs.drop_last(), status).push(rs.last().entry)
    } else {
        entries_with(rs.drop_last(), status)
    }
}

/// Whether a status is that of a directory (listed or not).
pub open spec fn is_directory(status: EntryStatus) -> bool {
    status == EntryStatus::Unreadable || status == EntryStatus::Readable
}

/// The number of entries that are directories.
pub open spec fn directory_count(rs: Seq<ReportView>) -> nat
    decreases rs.len(),
{
    if rs.len() == 0 {
        0
    } else if is_directory(rs.last().status) {
        directory_count(rs.drop_last()) + 1
    } else {
        directory_count(rs.drop_last())
    }
}

/// The path of an item of a directory: the directory's path with the item's
/// name appended.
pub open spec fn item_path(platform: Platform, dir: Seq<u8>, it: ItemView) -> Seq<u8> {
    join_on(platform, dir, it.name)
}

/// The broken links among the items of one directory, in order.
pub open spec fn broken_links_in(platform: Platform, dir: Seq<u8>, items: Seq<ItemView>) -> Seq<Seq<u8>>
    decreases items.len(),
{
    if items.len() == 0 {
        Seq::empty()
    } else if candidate_kind_of(items.last().facts) == CandidateKind::BrokenSymlink {
        broken_links_in(platform, dir, items.drop_last()).push(item_path(platform, dir, items.last()))
    } else {
        broken_links_in(platform, dir, items.drop_last())
    }
}

/// The binaries among the items of one directory, in order: the executable
/// items that have a file name, named by it.
pub open spec fn binaries_in(platform: Platform, dir: Seq<u8>, items: Seq<ItemView>, index: usize) -> Seq<EntryView>
    decreases items.len(),
{
    if items.len() == 0 {
        Seq::empty()
    } else if is_binary_item(platform, dir, items.last()) {
        binaries_in(platform, dir, items.drop_last(), index).push(
            EntryView {
                name: file_name_on(platform, item_path(platform, dir, items.last()))->Some_0,
                path: item_path(platform, dir, items.last()),
                path_index: index,
            },
        )
    } else {
        binaries_in(platform, dir, items.drop_last(), index)
    }
}

/// The items of the directories that could be listed, as they count.
pub open spec fn listed_items(rs: Seq<ReportView>, index: int) -> Seq<ItemView> {
    if rs[index].status == EntryStatus::Readable {
        rs[index].items
    } else {
        Seq::empty()
    }
}

/// The broken links of all listed directories, in search-list order.
pub open spec fn found_broken_links(platform: Platform, rs: Seq<ReportView>) -> Seq<Seq<u8>>
    decreases rs.len(),
{
    if rs.len() == 0 {
        Seq::empty()
    } else {
        found_broken_links(platform, rs.drop_last()) + broken_links_in(platform, rs.last().entry, listed_items(rs, rs.len() - 1))
    }
}

/// The binaries of all listed directories, in search-list order, each with
/// the position of its directory.
pub open spec fn found_binaries(platform: Platform, rs: Seq<ReportView>) -> Seq<EntryView>
    decreases rs.len(),
{
    if rs.len() == 0 {
        Seq::empty()
    } else {
        found_binaries(platform, rs.drop_last()) + binaries_in(platform, rs.last().entry, listed_items(rs, rs.len() - 1), (rs.len() - 1) as usize)
    }
}

/// The scan of a whole search list from what was found at each entry.
pub open spec fn scanned(platform: Platform, rs: Seq<ReportView>, empty_path_entries: usize) -> ScanView {
    ScanView {
        path_entries_total: rs.len() as usize,
        existing_dirs: directory_count(rs) as usize,
        empty_path_entries,
        missing_entries: entries_with(rs, EntryStatus::Missing),
        non_dir_entries: entries_with(rs, EntryStatus::NotDirectory),
        unreadable_entries: entries_with(rs, EntryStatus::Unreadable),
        broken_symlinks: found_broken_links(platform, rs),
        binaries: normalized_binaries(found_binaries(platform, rs)),
        by_name: index_entries(Seq::empty(), normalized_binaries(found_binaries(platform, rs))),
    }
}

/// The scan before the index is built, after the first `n` reports.
pub open spec fn partly_scanned(platform: Platform, rs: Seq<ReportView>, n: int, empty_path_entries: usize) -> ScanView {
    ScanView {
        path_entries_total: rs.len() as usize,
        existing_dirs: directory_count(rs.take(n)) as usize,
        empty_path_entries,
        missing_entries: entries_with(rs.take(n), EntryStatus::Missing),
        non_dir_entries: entries_with(rs.take(n), EntryStatus::NotDirectory),
        unreadable_entries: entries_with(rs.take(n), EntryStatus::Unreadable),
        broken_symlinks: found_broken_links(platform, rs.take(n)),
        binaries: found_binaries(platform, rs.take(n)),
        by_name: Seq::empty(),
    }
}

proof fn lemma_directory_count_le(rs: Seq<ReportView>)
    ensures
        directory_count(rs) <= rs.len(),
    decreases rs.len(),
{
    if rs.len() > 0 {
        lemma_directory_count_le(rs.drop_last());
    }
}

/// Records the items of one listed directory.
fn record_items(platform: Platform, scan: &mut ScanResult, dir: &[u8], items: &Vec<DirectoryItem>, index: usize)
    ensures
        final(scan)@ == (ScanView {
            broken_symlinks: old(scan)@.broken_symlinks + broken_links_in(platform, dir@, items@.map_values(|it: DirectoryItem| it@)),
            binaries: old(scan)@.binaries + binaries_in(platform, dir@, items@.map_values(|it: DirectoryItem| it@), index),
            ..old(scan)@
        }),
{
    let ghost start = scan@;
    let ghost its = items@.map_values(|it: DirectoryItem| it@);
    let mut k: usize = 0;
    assert(its.take(0) =~= Seq::<ItemView>::empty());
    assert(start =~= (ScanView {
        broken_symlinks: start.broken_symlinks + broken_links_in(platform, dir@, its.take(0)),
        binaries: start.binaries + binaries_in(platform, dir@, its.take(0), index),
        ..start
    }));
    while k < items.len()
        invariant
            its == items@.map_values(|it: DirectoryItem| it@),
            k <= its.len(),
            scan@ == (ScanView {
                broken_symlinks: start.broken_symlinks + broken_links_in(platform, dir@, its.take(k as int)),
                binaries: start.binaries + binaries_in(platform, dir@, its.take(k as int), index),
                ..start
            }),
        decreases its.len() - k,
    {
        let item = &items[k];
        assert(its[k as int] == item@);
        assert(its.take(k + 1).drop_last() =~= its.take(k as int));
        assert(its.take(k + 1).last() == item@);
        let path = joined_on(platform, dir, item.name.as_slice());
        scan.record_candidate_on(platform, path, index, item.facts);
        k = k + 1;
        assert(scan@ =~= (ScanView {
            broken_symlinks: start.broken_symlinks + broken_links_in(platform, dir@, its.take(k as int)),
            binaries: start.binaries + binaries_in(platform, dir@, its.take(k as int), index),
            ..start
        }));
    }
    assert(its.take(k as int) =~= its);
}

/// Builds the scan of a whole search list from what the walk found at each
/// of its entries, in order, and `empty_path_entries` empty entries: every
/// entry is counted, missing and non-directory entries and unreadable
/// directories are listed, the items of each listed directory are recorded
/// under the directory's path (broken links listed, executables indexed as
/// binaries), and the index is built.
pub fn scan_reports(platform: Platform, reports: &[EntryReport], empty_path_entries: usize) -> (scan: ScanResult)
    ensures
        scan@ == scanned(platform, report_views(reports@), empty_path_entries),
        scan@.wf(),
{
    let ghost rs = report_views(reports@);
    let mut scan = ScanResult::start(reports.len(), empty_path_entries);
    let mut i: usize = 0;
    assert(rs.take(0) =~= Seq::<ReportView>::empty());
    assert(scan@ =~= partly_scanned(platform, rs, 0, empty_path_entries));
    while i < reports.len()
        invariant
            rs == report_views(reports@),
            i <= rs.len(),
            scan@ == partly_scanned(platform, rs, i as int, empty_path_entries),
        decreases rs.len() - i,
    {
        let report = &reports[i];
        assert(rs[i as int] == report@);
        let ghost prev = rs.take(i as int);
        let ghost next = rs.take(i + 1);
        assert(next.drop_last() =~= prev);
        assert(next.last() == report@);
        assert(next.len() - 1 == i);
        assert(listed_items(next, next.len() - 1) == listed_items(rs, i as int));
        proof {
            lemma_directory_count_le(prev);
        }
        let status = report.status;
        scan.record_entry(copy_bytes(&report.entry), status);
        match status {
            EntryStatus::Readable => {
                record_items(platform, &mut scan, report.entry.as_slice(), &report.items, i);
            },
            _ => {},
        }
        proof {
            let its = report@.items;
            let dir = report@.entry;
            if status == EntryStatus::Readable {
                assert(listed_items(rs, i as int) == its);
            } else {
                assert(listed_items(rs, i as int) =~= Seq::<ItemView>::empty());
                assert(broken_links_in(platform, dir, Seq::<ItemView>::empty()) =~= Seq::<Seq<u8>>::empty());
                assert(binaries_in(platform, dir, Seq::<ItemView>::empty(), i) =~= Seq::<EntryView>::empty());
                assert(found_broken_links(platform, prev) + Seq::<Seq<u8>>::empty() =~= found_broken_links(platform, prev));
                assert(found_binaries(platform, prev) + Seq::<EntryView>::empty() =~= found_binaries(platform, prev));
            }
        }
        i = i + 1;
        assert(scan@ =~= partly_scanned(platform, rs, i as int, empty_path_entries));
    }
    assert(rs.take(i as int) =~= rs);
    // The binaries are held in a vector, so their number fits a machine word.
    let _binary_count: usize = scan.binaries().len();
    scan.build_name_index();
    assert(scan@ =~= scanned(platform, rs, empty_path_entries));
    scan
}

proof fn lemma_entry_counts(rs: Seq<ReportView>)
    ensures
        rs.len() == entries_with(rs, EntryStatus::Missing).len() + entries_with(rs, EntryStatus::NotDirectory).len()
            + directory_count(rs),
        entries_with(rs, EntryStatus::Unreadable).len() <= directory_count(rs),
    decreases rs.len(),
{
    if rs.len() > 0 {
        lemma_entry_counts(rs.drop_last());
    }
}

/// Whether an item of a directory yields a binary: it is executable, and the
/// binary has the item's path in the directory and is named by that path's
/// file name.
pub open spec fn item_yields(platform: Platform, dir: Seq<u8>, it: ItemView, b: EntryView) -> bool {
    &&& b.path == item_path(platform, dir, it)
    &&& candidate_kind_of(it.facts) == CandidateKind::Executable
    &&& file_name_on(platform, b.path) == Some(b.name)
}

/// Whether some item of a directory yields a binary.
pub open spec fn comes_from(platform: Platform, dir: Seq<u8>, items: Seq<ItemView>, b: EntryView) -> bool {
    exists|m: int| 0 <= m < items.len() && #[trigger] item_yields(platform, dir, items[m], b)
}

/// Whether an item of a directory becomes a binary when the directory is
/// listed: it is executable and its path has a file name.
pub open spec fn is_binary_item(platform: Platform, dir: Seq<u8>, it: ItemView) -> bool {
    candidate_kind_of(it.facts) == CandidateKind::Executable && file_name_on(platform, item_path(platform, dir, it)) is Some
}

proof fn lemma_binaries_in_origin(platform: Platform, dir: Seq<u8>, items: Seq<ItemView>, index: usize)
    ensures
        forall|k: int| 0 <= k < binaries_in(platform, dir, items, index).len() ==> comes_from(platform, dir, items, #[trigger] binaries_in(platform, dir, items, index)[k])
            && binaries_in(platform, dir, items, index)[k].path_index == index,
        forall|m: int| 0 <= m < items.len() && is_binary_item(platform, dir, #[trigger] items[m]) ==> path_seen(binaries_in(platform, dir, items, index), item_path(platform, dir, items[m])),
    decreases items.len(),
{
    if items.len() > 0 {
        let t = items.drop_last();
        lemma_binaries_in_origin(platform, dir, t, index);
        let p = binaries_in(platform, dir, t, index);
        let b = binaries_in(platform, dir, items, index);
        assert forall|k: int| 0 <= k < b.len() implies comes_from(platform, dir, items, #[trigger] b[k]) && b[k].path_index == index by {
            if k < p.len() {
                assert(b[k] == p[k]);
                assert(comes_from(platform, dir, t, p[k]));
                let m = choose|m: int| 0 <= m < t.len() && #[trigger] item_yields(platform, dir, t[m], p[k]);
                assert(items[m] == t[m]);
                assert(item_yields(platform, dir, items[m], b[k]));
            } else {
                let m = items.len() - 1;
                assert(item_yields(platform, dir, items[m], b[k]));
            }
        }
        assert forall|m: int| 0 <= m < items.len() && is_binary_item(platform, dir, #[trigger] items[m]) implies path_seen(b, item_path(platform, dir, items[m])) by {
            if m < items.len() - 1 {
                assert(items[m] == t[m]);
                assert(is_binary_item(platform, dir, t[m]));
                let j = choose|j: int| 0 <= j < p.len() && p[j].path == item_path(platform, dir, t[m]);
                assert(b[j] == p[j]);
            } else {
                assert(b[b.len() - 1].path == item_path(platform, dir, items[m]));
            }
        }
    }
}

/// Whether a binary comes from an item of a listed directory at its own
/// position in the search list.
pub open spec fn found_in(platform: Platform, rs: Seq<ReportView>, b: EntryView) -> bool {
    &&& b.path_index < rs.len()
    &&& rs[b.path_index as int].status == EntryStatus::Readable
    &&& comes_from(platform, rs[b.path_index as int].entry, rs[b.path_index as int].items, b)
}

proof fn lemma_found_binaries_origin(platform: Platform, rs: Seq<ReportView>)
    requires
        rs.len() <= usize::MAX,
    ensures
        forall|k: int| 0 <= k < found_binaries(platform, rs).len() ==> found_in(platform, rs, #[trigger] found_binaries(platform, rs)[k]),
        forall|i: int, m: int| 0 <= i < rs.len() && rs[i].status == EntryStatus::Readable && 0 <= m < rs[i].items.len()
            && is_binary_item(platform, rs[i].entry, #[trigger] rs[i].items[m])
            ==> path_seen(found_binaries(platform, rs), item_path(platform, rs[i].entry, rs[i].items[m])),
    decreases rs.len(),
{
    if rs.len() > 0 {
        let t = rs.drop_last();
        let last = (rs.len() - 1) as int;
        lemma_found_binaries_origin(platform, t);
        let dir = rs[last].entry;
        let items = listed_items(rs, last);
        lemma_binaries_in_origin(platform, dir, items, last as usize);
        let p = found_binaries(platform, t);
        let q = binaries_in(platform, dir, items, last as usize);
        let f = found_binaries(platform, rs);
        assert(f == p + q);
        assert forall|k: int| 0 <= k < f.len() implies found_in(platform, rs, #[trigger] f[k]) by {
            if k < p.len() {
                assert(f[k] == p[k]);
                assert(found_in(platform, t, p[k]));
                assert(rs[p[k].path_index as int] == t[p[k].path_index as int]);
            } else {
                let kq = k - p.len();
                assert(f[k] == q[kq]);
                if rs[last].status != EntryStatus::Readable {
                    assert(items =~= Seq::<ItemView>::empty());
                    assert(q.len() == 0);
                }
                assert(items == rs[last].items);
                assert(comes_from(platform, dir, items, q[kq]));
                assert(q[kq].path_index == last);
            }
        }
        assert forall|i: int, m: int| 0 <= i < rs.len() && rs[i].status == EntryStatus::Readable && 0 <= m < rs[i].items.len()
            && is_binary_item(platform, rs[i].entry, #[trigger] rs[i].items[m])
            implies path_seen(f, item_path(platform, rs[i].entry, rs[i].items[m])) by {
            if i < last {
                assert(rs[i] == t[i]);
                assert(is_binary_item(platform, t[i].entry, t[i].items[m]));
                let j = choose|j: int| 0 <= j < p.len() && p[j].path == item_path(platform, t[i].entry, t[i].items[m]);
                assert(f[j] == p[j]);
            } else {
                assert(items == rs[i].items);
                assert(is_binary_item(platform, dir, items[m]));
                let j = choose|j: int| 0 <= j < q.len() && q[j].path == item_path(platform, dir, items[m]);
                assert(f[p.len() + j] == q[j]);
            }
        }
    }
}

/// What the scan of a whole search list accounts for: every entry is
/// counted once, as missing, as not a directory or as a directory (repeats
/// included); unreadable directories are among the directories; every binary
/// comes from an executable item of a directory that could be listed, at its
/// position in the search list, its path being that directory's path with
/// the item's name appended, and its name that path's file name; every such
/// item's path is among the binaries; and no two binaries share a path.
pub proof fn law_scan_accounts_for_every_entry(platform: Platform, rs: Seq<ReportView>, empty_path_entries: usize)
    requires
        rs.len() <= usize::MAX,
    ensures
        scanned(platform, rs, empty_path_entries).path_entries_total == rs.len(),
        scanned(platform, rs, empty_path_entries).path_entries_total == scanned(platform, rs, empty_path_entries).missing_entries.len()
            + scanned(platform, rs, empty_path_entries).non_dir_entries.len() + scanned(platform, rs, empty_path_entries).existing_dirs,
        scanned(platform, rs, empty_path_entries).unreadable_entries.len() <= scanned(platform, rs, empty_path_entries).existing_dirs,
        forall|k: int| 0 <= k < scanned(platform, rs, empty_path_entries).binaries.len()
            ==> found_in(platform, rs, #[trigger] scanned(platform, rs, empty_path_entries).binaries[k]),
        forall|i: int, m: int| 0 <= i < rs.len() && rs[i].status == EntryStatus::Readable && 0 <= m < rs[i].items.len()
            && is_binary_item(platform, rs[i].entry, #[trigger] rs[i].items[m])
            ==> path_seen(scanned(platform, rs, empty_path_entries).binaries, item_path(platform, rs[i].entry, rs[i].items[m])),
        forall|i: int, j: int| 0 <= i < j < scanned(platform, rs, empty_path_entries).binaries.len()
            ==> (#[trigger] scanned(platform, rs, empty_path_entries).binaries[i]).path != (#[trigger] scanned(platform, rs, empty_path_entries).binaries[j]).path,
{
    lemma_entry_counts(rs);
    lemma_directory_count_le(rs);
    lemma_found_binaries_origin(platform, rs);
    let raw = found_binaries(platform, rs);
    law_normalized_binaries(raw);
    let nb = normalized_binaries(raw);
    assert(scanned(platform, rs, empty_path_entries).binaries == nb);
    assert forall|k: int| 0 <= k < nb.len() implies found_in(platform, rs, #[trigger] nb[k]) by {
        assert(raw.contains(nb[k]));
        let j = choose|j: int| 0 <= j < raw.len() && raw[j] == nb[k];
        assert(found_in(platform, rs, raw[j]));
    }
    assert forall|i: int, m: int| 0 <= i < rs.len() && rs[i].status == EntryStatus::Readable && 0 <= m < rs[i].items.len()
        && is_binary_item(platform, rs[i].entry, #[trigger] rs[i].items[m])
        implies path_seen(nb, item_path(platform, rs[i].entry, rs[i].items[m])) by {
        assert(path_seen(raw, item_path(platform, rs[i].entry, rs[i].items[m])));
        law_normalized_keeps_every_path(raw, item_path(platform, rs[i].entry, rs[i].items[m]));
    }
}

/// In the scan of a search list every binary is in the index, so the
/// shadowed binaries that `stats` counts are the binaries less the distinct
/// command names.
pub proof fn law_stats_shadowed_are_binaries_less_names(platform: Platform, rs: Seq<ReportView>, empty_path_entries: usize)
    requires
        scanned(platform, rs, empty_path_entries).binaries.len() <= usize::MAX,
    ensures
        scanned(platform, rs, empty_path_entries).binaries.len() >= scanned(platform, rs, empty_path_entries).by_name.len(),
        executed(CommandView::Stats, scanned(platform, rs, empty_path_entries)).stdout[9] == "Shadowed binaries: "@
            + decimal((scanned(platform, rs, empty_path_entries).binaries.len() - scanned(
            platform,
            rs,
            empty_path_entries,
        ).by_name.len()) as nat),
{
    let sv = scanned(platform, rs, empty_path_entries);
    law_index_groups_by_name(sv.binaries, Seq::empty());
    law_stats_counts(sv);
}

} // verus!
