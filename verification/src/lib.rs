//! Safe disk-space cleanup: a verified discovery-and-classification core.
//!
//! The library analyzes a snapshot of a filesystem subtree (taken by the
//! caller with whatever walker it prefers), classifies entries (large files,
//! development-artifact directories, disposable temp files), ranks the
//! findings by size, and gates every destructive action behind a safety
//! re-check performed immediately before removal.
//!
//! The library itself never touches the filesystem: callers hand it plain
//! snapshot values and carry out the removal actions it approves.

use vstd::prelude::*;

pub mod text;
pub mod classify;
pub mod snapshot;
pub mod discovery;
pub mod gate;
pub mod removal;
pub mod utils;
pub mod menu;

verus! {

/// Mathematical model of a [`FileItem`]: the path as a character sequence,
/// plus the plain fields.
pub struct ItemModel {
    pub path: Seq<char>,
    pub size: u64,
    pub item_count: Option<usize>,
    pub is_dir: bool,
}

/// One entry of a discovery inventory.
#[derive(Debug)]
pub struct FileItem {
    pub path: String,
    pub size: u64,
    pub item_count: Option<usize>,
    pub is_dir: bool,
}

impl View for FileItem {
    type V = ItemModel;

    open spec fn view(&self) -> ItemModel {
        ItemModel {
            path: self.path@,
            size: self.size,
            item_count: self.item_count,
            is_dir: self.is_dir,
        }
    }
}

impl DeepView for FileItem {
    type V = ItemModel;

    open spec fn deep_view(&self) -> ItemModel {
        self.view()
    }
}

impl Clone for FileItem {
    fn clone(&self) -> (r: Self)
        ensures
            r@ == self@,
    {
        FileItem {
            path: self.path.clone(),
            size: self.size,
            item_count: self.item_count,
            is_dir: self.is_dir,
        }
    }
}

impl ItemModel {
    /// Directories carry an item count, plain files do not.
    pub open spec fn wf(self) -> bool {
        self.item_count is Some <==> self.is_dir
    }
}

impl FileItem {
    /// The structural invariant: directories carry an item count, files do not.
    pub open spec fn wf(self) -> bool {
        self@.wf()
    }
}

/// An inventory is ranked largest-first: sizes never increase along it.
pub open spec fn sorted_by_size_desc(items: Seq<ItemModel>) -> bool {
    forall|i: int, j: int| 0 <= i <= j < items.len() ==> items[i].size >= items[j].size
}

/// `x` clamped into the `u64` range.
pub open spec fn cap_u64(x: int) -> u64 {
    if x > u64::MAX {
        u64::MAX
    } else if x < 0 {
        0
    } else {
        x as u64
    }
}

/// Saturating 64-bit addition.
pub fn sat_add_u64(a: u64, b: u64) -> (r: u64)
    ensures
        r == cap_u64(a + b),
{
    if a > u64::MAX - b {
        u64::MAX
    } else {
        a + b
    }
}

/// `x` clamped into the `usize` range.
pub open spec fn cap_usize_spec(x: int) -> int {
    if x > usize::MAX {
        usize::MAX as int
    } else if x < 0 {
        0
    } else {
        x
    }
}

/// Saturating pointer-width addition.
pub fn sat_add_usize(a: usize, b: usize) -> (r: usize)
    ensures
        r == cap_usize_spec(a + b),
{
    if a > usize::MAX - b {
        usize::MAX
    } else {
        a + b
    }
}

} // verus!
