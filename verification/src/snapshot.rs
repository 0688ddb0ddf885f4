//! A filesystem snapshot: the entries a tree walk produced, in depth-first
//! pre-order, each with its depth below the walk root. The library computes
//! recursive directory sizes and item counts from this value alone, so a
//! discovery run sees one consistent picture of the tree.

use vstd::prelude::*;
use crate::cap_u64;
use crate::sat_add_u64;

verus! {

/// One walked entry. `depth` is 0 for the walk root itself; `size` is the
/// file's byte length for regular files and is ignored for directories.
#[derive(Debug)]
pub struct FsEntry {
    pub path: String,
    pub depth: usize,
    pub size: u64,
    pub is_dir: bool,
}

/// The entries form a depth-first pre-order walk: the root comes first at
/// depth 0, and each later entry descends at most one level below its
/// predecessor.
pub open spec fn pre_order(s: Seq<FsEntry>) -> bool {
    &&& (s.len() > 0 ==> s[0].depth == 0)
    &&& (forall|i: int| 1 <= i < s.len() ==> 1 <= #[trigger] s[i].depth <= s[i - 1].depth + 1)
}

/// The first position at or after `j` whose entry has depth `d` or less
/// (`s.len()` if there is none): where the subtree of an entry of depth `d`
/// ends.
pub open spec fn subtree_end_from(s: Seq<FsEntry>, d: int, j: int) -> int
    decreases s.len() - j,
{
    if j < 0 || j >= s.len() {
        j
    } else if s[j].depth <= d {
        j
    } else {
        subtree_end_from(s, d, j + 1)
    }
}

/// One past the last entry inside the subtree rooted at entry `i`.
pub open spec fn subtree_end(s: Seq<FsEntry>, i: int) -> int {
    subtree_end_from(s, s[i].depth as int, i + 1)
}

pub proof fn lemma_subtree_end_from_bounds(s: Seq<FsEntry>, d: int, j: int)
    requires
        0 <= j <= s.len(),
    ensures
        j <= subtree_end_from(s, d, j) <= s.len(),
    decreases s.len() - j,
{
    if j < s.len() && s[j].depth > d {
        lemma_subtree_end_from_bounds(s, d, j + 1);
    }
}

/// Total bytes of the regular files among entries `lo..hi`.
pub open spec fn file_bytes(s: Seq<FsEntry>, lo: int, hi: int) -> int
    decreases hi - lo,
{
    if hi <= lo {
        0
    } else {
        file_bytes(s, lo, hi - 1) + if s[hi - 1].is_dir {
            0
        } else {
            s[hi - 1].size as int
        }
    }
}

pub proof fn lemma_file_bytes_nonneg(s: Seq<FsEntry>, lo: int, hi: int)
    ensures
        file_bytes(s, lo, hi) >= 0,
    decreases hi - lo,
{
    if hi > lo {
        lemma_file_bytes_nonneg(s, lo, hi - 1);
    }
}

/// The recursive byte total of the subtree rooted at entry `i`, clamped at
/// `u64::MAX`.
pub open spec fn subtree_size(s: Seq<FsEntry>, i: int) -> u64 {
    cap_u64(file_bytes(s, i + 1, subtree_end(s, i)))
}

/// The number of descendant entries of entry `i`, the entry itself excluded.
pub open spec fn subtree_count(s: Seq<FsEntry>, i: int) -> int {
    subtree_end(s, i) - (i + 1)
}

/// Sums the regular-file bytes and counts the entries below entry `i`:
/// entry `i`'s recursive size and item count.
pub fn measure_subtree(entries: &Vec<FsEntry>, i: usize) -> (r: (u64, usize))
    requires
        pre_order(entries@),
        i < entries@.len(),
    ensures
        r.0 == subtree_size(entries@, i as int),
        r.1 == subtree_count(entries@, i as int),
{
    let ghost s = entries@;
    let n = entries.len();
    let d = entries[i].depth;
    let mut j: usize = i + 1;
    let mut total: u64 = 0;
    proof {
        lemma_subtree_end_from_bounds(s, d as int, i + 1);
    }
    while j < entries.len() && entries[j].depth > d
        invariant
            i < j <= s.len(),
            s == entries@,
            d == s[i as int].depth,
            total == cap_u64(file_bytes(s, i + 1, j as int)),
            subtree_end(s, i as int) == subtree_end_from(s, d as int, j as int),
        decreases s.len() - j,
    {
        proof {
            lemma_file_bytes_nonneg(s, i + 1, j as int);
            assert(subtree_end_from(s, d as int, j as int) == subtree_end_from(
                s,
                d as int,
                j + 1,
            ));
        }
        if !entries[j].is_dir {
            total = sat_add_u64(total, entries[j].size);
        }
        j = j + 1;
    }
    proof {
        assert(subtree_end_from(s, d as int, j as int) == j);
        lemma_file_bytes_nonneg(s, i + 1, j as int);
    }
    (total, j - (i + 1))
}

} // verus!
