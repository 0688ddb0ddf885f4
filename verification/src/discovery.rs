//! The discovery engine: turns a filesystem snapshot into ranked
//! inventories. Four read-only operations are offered: immediate-child
//! listing, large-file search, development-artifact search, and temp-file
//! analysis. Every inventory comes back sorted by size, largest first.

use vstd::prelude::*;
use crate::{FileItem, ItemModel, cap_u64, sat_add_u64, sorted_by_size_desc};
use crate::classify::{is_artifact_name, is_artifact_dir_name, is_safe_temp_name, is_safe_temp_file};
use crate::snapshot::{FsEntry, pre_order, subtree_size, subtree_count, measure_subtree};
use crate::text::{basename, basename_of};

verus! {

broadcast use vstd::seq_lib::group_to_multiset_ensures;

/// The inventory entry describing the regular file `e`.
pub open spec fn file_item_of(e: FsEntry) -> ItemModel {
    ItemModel { path: e.path@, size: e.size, item_count: None, is_dir: false }
}

/// The inventory entry describing the directory at snapshot position `i`:
/// its recursive byte total and its descendant count.
pub open spec fn dir_item_of(s: Seq<FsEntry>, i: int) -> ItemModel {
    ItemModel {
        path: s[i].path@,
        size: subtree_size(s, i),
        item_count: Some(subtree_count(s, i) as usize),
        is_dir: true,
    }
}

/// The inventory entry for the immediate child at snapshot position `i`.
pub open spec fn child_item_of(s: Seq<FsEntry>, i: int) -> ItemModel {
    if s[i].is_dir {
        dir_item_of(s, i)
    } else {
        file_item_of(s[i])
    }
}

/// The (unsorted) immediate-child inventory drawn from the first `n`
/// snapshot entries: one item per entry at depth 1.
pub open spec fn child_items_prefix(s: Seq<FsEntry>, n: int) -> Seq<ItemModel>
    decreases n,
{
    if n <= 0 {
        Seq::empty()
    } else if s[n - 1].depth == 1 {
        child_items_prefix(s, n - 1).push(child_item_of(s, n - 1))
    } else {
        child_items_prefix(s, n - 1)
    }
}

/// The immediate-child inventory of the whole snapshot.
pub open spec fn child_items(s: Seq<FsEntry>) -> Seq<ItemModel> {
    child_items_prefix(s, s.len() as int)
}

/// The (unsorted) large-file inventory drawn from the first `n` snapshot
/// entries: every regular file of at least `min_size` bytes.
pub open spec fn large_files_prefix(s: Seq<FsEntry>, min_size: u64, n: int) -> Seq<ItemModel>
    decreases n,
{
    if n <= 0 {
        Seq::empty()
    } else if !s[n - 1].is_dir && s[n - 1].size >= min_size {
        large_files_prefix(s, min_size, n - 1).push(file_item_of(s[n - 1]))
    } else {
        large_files_prefix(s, min_size, n - 1)
    }
}

/// The large-file inventory of the whole snapshot.
pub open spec fn large_files_spec(s: Seq<FsEntry>, min_size: u64) -> Seq<ItemModel> {
    large_files_prefix(s, min_size, s.len() as int)
}

/// Whether snapshot position `i` holds a development-artifact directory:
/// a directory whose basename is on the allowlist.
pub open spec fn is_artifact_at(s: Seq<FsEntry>, i: int) -> bool {
    s[i].is_dir && is_artifact_name(basename_of(s[i].path@))
}

/// The (unsorted) artifact inventory drawn from the first `n` snapshot
/// entries. Every match found during the descent is reported, nested
/// matches included, each measured independently.
pub open spec fn artifact_items_prefix(s: Seq<FsEntry>, n: int) -> Seq<ItemModel>
    decreases n,
{
    if n <= 0 {
        Seq::empty()
    } else if is_artifact_at(s, n - 1) {
        artifact_items_prefix(s, n - 1).push(dir_item_of(s, n - 1))
    } else {
        artifact_items_prefix(s, n - 1)
    }
}

/// The artifact inventory of the whole snapshot.
pub open spec fn artifact_items(s: Seq<FsEntry>) -> Seq<ItemModel> {
    artifact_items_prefix(s, s.len() as int)
}

/// Orders an inventory by size, largest first. The result is a permutation
/// of the input; the order of equal sizes is left open.
pub fn sort_items_desc(items: Vec<FileItem>) -> (r: Vec<FileItem>)
    ensures
        r.deep_view().to_multiset() == items.deep_view().to_multiset(),
        sorted_by_size_desc(r.deep_view()),
{
    let ghost orig = items.deep_view();
    let mut rest = items;
    let mut out: Vec<FileItem> = Vec::new();
    proof {
        assert(out.deep_view() =~= Seq::<ItemModel>::empty());
        assert(out.deep_view().to_multiset().add(rest.deep_view().to_multiset())
            =~= orig.to_multiset());
    }
    while rest.len() > 0
        invariant
            out.deep_view().to_multiset().add(rest.deep_view().to_multiset())
                == orig.to_multiset(),
            sorted_by_size_desc(out.deep_view()),
            forall|a: int, b: int|
                0 <= a < out.deep_view().len() && 0 <= b < rest.deep_view().len()
                    ==> out.deep_view()[a].size >= rest.deep_view()[b].size,
        decreases rest.len(),
    {
        let mut m: usize = 0;
        let mut k: usize = 1;
        while k < rest.len()
            invariant
                m < k <= rest@.len(),
                forall|t: int| 0 <= t < k ==> rest@[t].size <= rest@[m as int].size,
            decreases rest@.len() - k,
        {
            if rest[k].size > rest[m].size {
                m = k;
            }
            k = k + 1;
        }
        let ghost old_out = out.deep_view();
        let ghost old_rest = rest.deep_view();
        let it = rest.remove(m);
        out.push(it);
        proof {
            assert(rest.deep_view() =~= old_rest.remove(m as int));
            assert(out.deep_view() =~= old_out.push(old_rest[m as int]));
            assert(old_rest.to_multiset().count(old_rest[m as int]) > 0);
            assert(out.deep_view().to_multiset().add(rest.deep_view().to_multiset())
                =~= old_out.to_multiset().add(old_rest.to_multiset()));
        }
    }
    out
}

/// Lists the immediate children of the walk root, each directory annotated
/// with its recursive size and descendant count, ranked largest first.
///
/// With `include_subdirs` false the walk stops at the root itself, so
/// nothing below it is listed and the inventory is empty, as it is for a
/// snapshot of a root that does not exist.
pub struct DirAnalyzer;

impl DirAnalyzer {
    pub fn new() -> Self {
        DirAnalyzer
    }

    pub fn analyze_directory(&self, entries: &Vec<FsEntry>, include_subdirs: bool) -> (r: Vec<
        FileItem,
    >)
        requires
            pre_order(entries@),
        ensures
            include_subdirs ==> r.deep_view().to_multiset() == child_items(
                entries@,
            ).to_multiset(),
            !include_subdirs ==> r.deep_view() == Seq::<ItemModel>::empty(),
            sorted_by_size_desc(r.deep_view()),
    {
        let mut found: Vec<FileItem> = Vec::new();
        if !include_subdirs {
            proof {
                assert(found.deep_view() =~= Seq::<ItemModel>::empty());
            }
            return found;
        }
        let ghost s = entries@;
        let n = entries.len();
        let mut j: usize = 0;
        proof {
            assert(found.deep_view() =~= child_items_prefix(s, 0));
        }
        while j < n
            invariant
                j <= n,
                n == s.len(),
                s == entries@,
                pre_order(s),
                found.deep_view() == child_items_prefix(s, j as int),
            decreases n - j,
        {
            let ghost old_found = found.deep_view();
            if entries[j].depth == 1 {
                if entries[j].is_dir {
                    let (sz, cnt) = measure_subtree(entries, j);
                    found.push(
                        FileItem {
                            path: entries[j].path.clone(),
                            size: sz,
                            item_count: Some(cnt),
                            is_dir: true,
                        },
                    );
                } else {
                    found.push(
                        FileItem {
                            path: entries[j].path.clone(),
                            size: entries[j].size,
                            item_count: None,
                            is_dir: false,
                        },
                    );
                }
                proof {
                    assert(found.deep_view() =~= old_found.push(child_item_of(s, j as int)));
                }
            }
            j = j + 1;
        }
        sort_items_desc(found)
    }
}

/// Finds every regular file of at least a threshold size anywhere under the
/// walk root.
pub struct LargeFileFinder;

impl LargeFileFinder {
    pub fn new() -> Self {
        LargeFileFinder
    }

    pub fn find_large_files(&self, entries: &Vec<FsEntry>, min_size: u64) -> (r: Vec<FileItem>)
        ensures
            r.deep_view().to_multiset() == large_files_spec(entries@, min_size).to_multiset(),
            sorted_by_size_desc(r.deep_view()),
    {
        let ghost s = entries@;
        let mut found: Vec<FileItem> = Vec::new();
        let n = entries.len();
        let mut j: usize = 0;
        proof {
            assert(found.deep_view() =~= large_files_prefix(s, min_size, 0));
        }
        while j < n
            invariant
                j <= n,
                n == s.len(),
                s == entries@,
                found.deep_view() == large_files_prefix(s, min_size, j as int),
            decreases n - j,
        {
            let ghost old_found = found.deep_view();
            if !entries[j].is_dir && entries[j].size >= min_size {
                found.push(
                    FileItem {
                        path: entries[j].path.clone(),
                        size: entries[j].size,
                        item_count: None,
                        is_dir: false,
                    },
                );
                proof {
                    assert(found.deep_view() =~= old_found.push(file_item_of(s[j as int])));
                }
            }
            j = j + 1;
        }
        sort_items_desc(found)
    }
}

/// Finds every development-artifact directory anywhere under the walk root,
/// each annotated with its own recursive size and descendant count.
pub struct DevArtifactFinder;

impl DevArtifactFinder {
    pub fn new() -> Self {
        DevArtifactFinder
    }

    pub fn find_artifacts(&self, entries: &Vec<FsEntry>) -> (r: Vec<FileItem>)
        requires
            pre_order(entries@),
        ensures
            r.deep_view().to_multiset() == artifact_items(entries@).to_multiset(),
            sorted_by_size_desc(r.deep_view()),
    {
        let ghost s = entries@;
        let mut found: Vec<FileItem> = Vec::new();
        let n = entries.len();
        let mut j: usize = 0;
        proof {
            assert(found.deep_view() =~= artifact_items_prefix(s, 0));
        }
        while j < n
            invariant
                j <= n,
                n == s.len(),
                s == entries@,
                pre_order(s),
                found.deep_view() == artifact_items_prefix(s, j as int),
            decreases n - j,
        {
            let ghost old_found = found.deep_view();
            if entries[j].is_dir && is_artifact_dir_name(basename(entries[j].path.as_str())) {
                let (sz, cnt) = measure_subtree(entries, j);
                found.push(
                    FileItem {
                        path: entries[j].path.clone(),
                        size: sz,
                        item_count: Some(cnt),
                        is_dir: true,
                    },
                );
                proof {
                    assert(found.deep_view() =~= old_found.push(dir_item_of(s, j as int)));
                }
            }
            j = j + 1;
        }
        sort_items_desc(found)
    }
}

/// Whether a snapshot entry is a deletion candidate of the temp-file
/// analysis: a regular file at most two levels below the temp location whose
/// name matches a safe pattern.
pub open spec fn is_temp_candidate(e: FsEntry) -> bool {
    !e.is_dir && e.depth <= 2 && is_safe_temp_name(basename_of(e.path@))
}

/// Bytes held by the temp candidates among the first `n` snapshot entries.
pub open spec fn temp_bytes_prefix(s: Seq<FsEntry>, n: int) -> int
    decreases n,
{
    if n <= 0 {
        0
    } else {
        temp_bytes_prefix(s, n - 1) + if is_temp_candidate(s[n - 1]) {
            s[n - 1].size as int
        } else {
            0
        }
    }
}

/// Number of temp candidates among the first `n` snapshot entries.
pub open spec fn temp_count_prefix(s: Seq<FsEntry>, n: int) -> int
    decreases n,
{
    if n <= 0 {
        0
    } else {
        temp_count_prefix(s, n - 1) + if is_temp_candidate(s[n - 1]) {
            1int
        } else {
            0int
        }
    }
}

pub proof fn lemma_temp_counts_nonneg(s: Seq<FsEntry>, n: int)
    ensures
        temp_bytes_prefix(s, n) >= 0,
        temp_count_prefix(s, n) >= 0,
    decreases n,
{
    if n > 0 {
        lemma_temp_counts_nonneg(s, n - 1);
    }
}

/// The temp candidates among the first `n` snapshot entries, in walk order.
pub open spec fn temp_candidate_items_prefix(s: Seq<FsEntry>, n: int) -> Seq<ItemModel>
    decreases n,
{
    if n <= 0 {
        Seq::empty()
    } else if is_temp_candidate(s[n - 1]) {
        temp_candidate_items_prefix(s, n - 1).push(file_item_of(s[n - 1]))
    } else {
        temp_candidate_items_prefix(s, n - 1)
    }
}

/// Sums the size and number of the safe-to-delete temp files in a temp
/// location's snapshot. A location with no matching file reports nothing
/// rather than a zero total.
pub fn analyze_temp_entries(entries: &Vec<FsEntry>) -> (r: Option<(u64, usize)>)
    ensures
        ({
            let s = entries@;
            if temp_count_prefix(s, s.len() as int) == 0 {
                r is None
            } else {
                r == Some(
                    (
                        cap_u64(temp_bytes_prefix(s, s.len() as int)),
                        temp_count_prefix(s, s.len() as int) as usize,
                    ),
                )
            }
        }),
{
    let ghost s = entries@;
    let n = entries.len();
    let mut total: u64 = 0;
    let mut count: usize = 0;
    let mut j: usize = 0;
    while j < n
        invariant
            j <= n,
            n == s.len(),
            s == entries@,
            count <= j,
            total == cap_u64(temp_bytes_prefix(s, j as int)),
            count == temp_count_prefix(s, j as int),
        decreases n - j,
    {
        proof {
            lemma_temp_counts_nonneg(s, j as int);
        }
        if !entries[j].is_dir && entries[j].depth <= 2 && is_safe_temp_file(
            basename(entries[j].path.as_str()),
        ) {
            total = sat_add_u64(total, entries[j].size);
            count = count + 1;
        }
        j = j + 1;
    }
    if count > 0 {
        Some((total, count))
    } else {
        None
    }
}

/// Collects the safe-to-delete temp files of a temp location's snapshot as
/// removal candidates, in walk order.
pub fn temp_candidates(entries: &Vec<FsEntry>) -> (r: Vec<FileItem>)
    ensures
        r.deep_view() == temp_candidate_items_prefix(entries@, entries@.len() as int),
{
    let ghost s = entries@;
    let n = entries.len();
    let mut found: Vec<FileItem> = Vec::new();
    let mut j: usize = 0;
    proof {
        assert(found.deep_view() =~= temp_candidate_items_prefix(s, 0));
    }
    while j < n
        invariant
            j <= n,
            n == s.len(),
            s == entries@,
            found.deep_view() == temp_candidate_items_prefix(s, j as int),
        decreases n - j,
    {
        let ghost old_found = found.deep_view();
        if !entries[j].is_dir && entries[j].depth <= 2 && is_safe_temp_file(
            basename(entries[j].path.as_str()),
        ) {
            found.push(
                FileItem {
                    path: entries[j].path.clone(),
                    size: entries[j].size,
                    item_count: None,
                    is_dir: false,
                },
            );
            proof {
                assert(found.deep_view() =~= old_found.push(file_item_of(s[j as int])));
            }
        }
        j = j + 1;
    }
    found
}

/// Combined bytes of an inventory's first `n` items.
pub open spec fn total_bytes_prefix(items: Seq<ItemModel>, n: int) -> int
    decreases n,
{
    if n <= 0 {
        0
    } else {
        total_bytes_prefix(items, n - 1) + items[n - 1].size as int
    }
}

/// Combined reported item counts of an inventory's first `n` items, counting
/// plain files as zero.
pub open spec fn total_count_prefix(items: Seq<ItemModel>, n: int) -> int
    decreases n,
{
    if n <= 0 {
        0
    } else {
        total_count_prefix(items, n - 1) + (match items[n - 1].item_count {
            Some(c) => c as int,
            None => 0,
        })
    }
}

pub proof fn lemma_totals_nonneg(items: Seq<ItemModel>, n: int)
    ensures
        total_bytes_prefix(items, n) >= 0,
        total_count_prefix(items, n) >= 0,
    decreases n,
{
    if n > 0 {
        lemma_totals_nonneg(items, n - 1);
    }
}

/// Sums an inventory's sizes and reported item counts, saturating at the
/// machine limits.
pub fn inventory_totals(items: &Vec<FileItem>) -> (r: (u64, usize))
    ensures
        ({
            let m = items.deep_view();
            &&& r.0 == cap_u64(total_bytes_prefix(m, m.len() as int))
            &&& r.1 as int == crate::cap_usize_spec(total_count_prefix(m, m.len() as int))
        }),
{
    let ghost m = items.deep_view();
    let n = items.len();
    let mut bytes: u64 = 0;
    let mut count: usize = 0;
    let mut j: usize = 0;
    while j < n
        invariant
            j <= n,
            n == m.len(),
            m == items.deep_view(),
            bytes == cap_u64(total_bytes_prefix(m, j as int)),
            count as int == crate::cap_usize_spec(total_count_prefix(m, j as int)),
        decreases n - j,
    {
        proof {
            lemma_totals_nonneg(m, j as int);
            assert(m[j as int] == items.deep_view()[j as int]);
        }
        bytes = sat_add_u64(bytes, items[j].size);
        count = crate::sat_add_usize(
            count,
            match items[j].item_count {
                Some(c) => c,
                None => 0,
            },
        );
        j = j + 1;
    }
    (bytes, count)
}

// ------------------------------------------------------------------
// Laws of the discovery operations.
// ------------------------------------------------------------------

proof fn lemma_child_prefix_mem(s: Seq<FsEntry>, n: int, i: int)
    requires
        0 <= i < n <= s.len(),
        s[i].depth == 1,
    ensures
        child_items_prefix(s, n).contains(child_item_of(s, i)),
    decreases n,
{
    if i < n - 1 {
        lemma_child_prefix_mem(s, n - 1, i);
        let p = child_items_prefix(s, n - 1);
        assert(p.contains(child_item_of(s, i)));
        let w = choose|w: int| 0 <= w < p.len() && (#[trigger] p[w]) == child_item_of(s, i);
        assert(child_items_prefix(s, n)[w] == child_item_of(s, i));
    } else {
        let p = child_items_prefix(s, n);
        assert(p[p.len() - 1] == child_item_of(s, i));
    }
}

/// Law: the immediate-child listing reports, for every regular file directly
/// below the root, exactly that file's byte length.
pub proof fn lemma_analyze_reports_exact_file_size(
    s: Seq<FsEntry>,
    inv: Seq<ItemModel>,
    i: int,
)
    requires
        inv.to_multiset() == child_items(s).to_multiset(),
        0 <= i < s.len(),
        s[i].depth == 1,
        !s[i].is_dir,
    ensures
        inv.contains(file_item_of(s[i])),
        file_item_of(s[i]).size == s[i].size,
{
    lemma_child_prefix_mem(s, s.len() as int, i);
    assert(child_items(s).to_multiset().count(child_item_of(s, i)) > 0);
}

proof fn lemma_child_prefix_elem(s: Seq<FsEntry>, n: int, x: ItemModel)
    requires
        n <= s.len(),
        child_items_prefix(s, n).contains(x),
    ensures
        exists|i: int| 0 <= i < n && s[i].depth == 1 && x == child_item_of(s, i),
    decreases n,
{
    let p = child_items_prefix(s, n);
    let w = choose|w: int| 0 <= w < p.len() && (#[trigger] p[w]) == x;
    if n > 0 && s[n - 1].depth == 1 {
        if w == p.len() - 1 {
            assert(x == child_item_of(s, n - 1));
        } else {
            assert(child_items_prefix(s, n - 1)[w] == x);
            lemma_child_prefix_elem(s, n - 1, x);
        }
    } else {
        lemma_child_prefix_elem(s, n - 1, x);
    }
}

/// Law (soundness): everything the immediate-child listing reports is an
/// entry directly below the root, carrying exactly that entry's own
/// measurement — a file's byte length, or a directory's recursive size and
/// descendant count.
pub proof fn lemma_analyze_sound(s: Seq<FsEntry>, inv: Seq<ItemModel>, k: int)
    requires
        inv.to_multiset() == child_items(s).to_multiset(),
        0 <= k < inv.len(),
    ensures
        inv[k].wf(),
        exists|i: int| 0 <= i < s.len() && s[i].depth == 1 && inv[k] == child_item_of(s, i),
{
    assert(inv.contains(inv[k]));
    assert(child_items(s).to_multiset().count(inv[k]) > 0);
    lemma_child_prefix_elem(s, s.len() as int, inv[k]);
}

proof fn lemma_large_prefix_mem(s: Seq<FsEntry>, min_size: u64, n: int, i: int)
    requires
        0 <= i < n <= s.len(),
        !s[i].is_dir,
        s[i].size >= min_size,
    ensures
        large_files_prefix(s, min_size, n).contains(file_item_of(s[i])),
    decreases n,
{
    if i < n - 1 {
        lemma_large_prefix_mem(s, min_size, n - 1, i);
        let p = large_files_prefix(s, min_size, n - 1);
        assert(p.contains(file_item_of(s[i])));
        let w = choose|w: int| 0 <= w < p.len() && (#[trigger] p[w]) == file_item_of(s[i]);
        assert(large_files_prefix(s, min_size, n)[w] == file_item_of(s[i]));
    } else {
        let p = large_files_prefix(s, min_size, n);
        assert(p[p.len() - 1] == file_item_of(s[i]));
    }
}

proof fn lemma_large_prefix_elem(s: Seq<FsEntry>, min_size: u64, n: int, x: ItemModel)
    requires
        n <= s.len(),
        large_files_prefix(s, min_size, n).contains(x),
    ensures
        exists|i: int|
            0 <= i < n && !s[i].is_dir && s[i].size >= min_size && x == file_item_of(s[i]),
    decreases n,
{
    let p = large_files_prefix(s, min_size, n);
    let w = choose|w: int| 0 <= w < p.len() && (#[trigger] p[w]) == x;
    if n > 0 && !s[n - 1].is_dir && s[n - 1].size >= min_size {
        if w == p.len() - 1 {
            assert(x == file_item_of(s[n - 1]));
        } else {
            assert(large_files_prefix(s, min_size, n - 1)[w] == x);
            lemma_large_prefix_elem(s, min_size, n - 1, x);
        }
    } else {
        lemma_large_prefix_elem(s, min_size, n - 1, x);
    }
}

/// Law (completeness): every regular file of at least `min_size` bytes in
/// the snapshot appears in the large-file inventory.
pub proof fn lemma_large_files_complete(
    s: Seq<FsEntry>,
    min_size: u64,
    inv: Seq<ItemModel>,
    i: int,
)
    requires
        inv.to_multiset() == large_files_spec(s, min_size).to_multiset(),
        0 <= i < s.len(),
        !s[i].is_dir,
        s[i].size >= min_size,
    ensures
        inv.contains(file_item_of(s[i])),
{
    lemma_large_prefix_mem(s, min_size, s.len() as int, i);
    assert(large_files_spec(s, min_size).to_multiset().count(file_item_of(s[i])) > 0);
}

/// Law (soundness): everything the large-file inventory reports is a regular
/// file of the snapshot, reported with its own byte length, which meets the
/// threshold; nothing below the threshold appears.
pub proof fn lemma_large_files_sound(
    s: Seq<FsEntry>,
    min_size: u64,
    inv: Seq<ItemModel>,
    k: int,
)
    requires
        inv.to_multiset() == large_files_spec(s, min_size).to_multiset(),
        0 <= k < inv.len(),
    ensures
        inv[k].size >= min_size,
        !inv[k].is_dir,
        inv[k].wf(),
        exists|i: int| 0 <= i < s.len() && !s[i].is_dir && inv[k] == file_item_of(s[i]),
{
    assert(inv.contains(inv[k]));
    assert(large_files_spec(s, min_size).to_multiset().count(inv[k]) > 0);
    lemma_large_prefix_elem(s, min_size, s.len() as int, inv[k]);
}

proof fn lemma_artifact_prefix_mem(s: Seq<FsEntry>, n: int, i: int)
    requires
        0 <= i < n <= s.len(),
        is_artifact_at(s, i),
    ensures
        artifact_items_prefix(s, n).contains(dir_item_of(s, i)),
    decreases n,
{
    if i < n - 1 {
        lemma_artifact_prefix_mem(s, n - 1, i);
        let p = artifact_items_prefix(s, n - 1);
        assert(p.contains(dir_item_of(s, i)));
        let w = choose|w: int| 0 <= w < p.len() && (#[trigger] p[w]) == dir_item_of(s, i);
        assert(artifact_items_prefix(s, n)[w] == dir_item_of(s, i));
    } else {
        let p = artifact_items_prefix(s, n);
        assert(p[p.len() - 1] == dir_item_of(s, i));
    }
}

/// Law (completeness): every directory of the snapshot whose basename is on
/// the allowlist appears in the artifact inventory — nested matches too,
/// each reported and measured independently.
pub proof fn lemma_artifacts_complete(s: Seq<FsEntry>, inv: Seq<ItemModel>, i: int)
    requires
        inv.to_multiset() == artifact_items(s).to_multiset(),
        0 <= i < s.len(),
        s[i].is_dir,
        is_artifact_name(basename_of(s[i].path@)),
    ensures
        inv.contains(dir_item_of(s, i)),
{
    lemma_artifact_prefix_mem(s, s.len() as int, i);
    assert(artifact_items(s).to_multiset().count(dir_item_of(s, i)) > 0);
}

proof fn lemma_artifact_prefix_elem(s: Seq<FsEntry>, n: int, x: ItemModel)
    requires
        n <= s.len(),
        artifact_items_prefix(s, n).contains(x),
    ensures
        exists|i: int| 0 <= i < n && is_artifact_at(s, i) && x == dir_item_of(s, i),
    decreases n,
{
    let p = artifact_items_prefix(s, n);
    let w = choose|w: int| 0 <= w < p.len() && (#[trigger] p[w]) == x;
    if n > 0 && is_artifact_at(s, n - 1) {
        if w == p.len() - 1 {
            assert(x == dir_item_of(s, n - 1));
        } else {
            assert(artifact_items_prefix(s, n - 1)[w] == x);
            lemma_artifact_prefix_elem(s, n - 1, x);
        }
    } else {
        lemma_artifact_prefix_elem(s, n - 1, x);
    }
}

/// Law (soundness): every artifact the finder reports sits at a snapshot
/// position holding a directory whose basename is on the allowlist.
pub proof fn lemma_artifacts_sound(s: Seq<FsEntry>, inv: Seq<ItemModel>, k: int)
    requires
        inv.to_multiset() == artifact_items(s).to_multiset(),
        0 <= k < inv.len(),
    ensures
        inv[k].is_dir,
        inv[k].wf(),
        is_artifact_name(basename_of(inv[k].path)),
        exists|i: int| 0 <= i < s.len() && is_artifact_at(s, i) && inv[k] == dir_item_of(s, i),
{
    assert(inv.contains(inv[k]));
    assert(artifact_items(s).to_multiset().count(inv[k]) > 0);
    lemma_artifact_prefix_elem(s, s.len() as int, inv[k]);
}

} // verus!
