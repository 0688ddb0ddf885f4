//! The interactive browser's menu model: the fixed set of menu actions and
//! the wrap-around selection arithmetic the list views share. The terminal
//! rendering around this lives with the caller.

use vstd::prelude::*;

verus! {

/// One action of the main menu.
#[derive(Debug, Clone, Copy, PartialEq, Eq, Structural)]
pub enum MenuOption {
    ListDirectories,
    FindLargeFiles,
    FindDevArtifacts,
    DockerCleanup,
    TempCleanup,
    Exit,
}

impl MenuOption {
    /// The label each menu action displays.
    pub open spec fn label_spec(self) -> Seq<char> {
        match self {
            MenuOption::ListDirectories => "📁 List directories by size"@,
            MenuOption::FindLargeFiles => "🔍 Find large files"@,
            MenuOption::FindDevArtifacts => "🛠️  Find development artifacts"@,
            MenuOption::DockerCleanup => "🐳 Docker cleanup"@,
            MenuOption::TempCleanup => "🗂️  Temporary files cleanup"@,
            MenuOption::Exit => "❌ Exit"@,
        }
    }

    pub fn as_str(&self) -> (r: &'static str)
        ensures
            r@ == self.label_spec(),
    {
        match self {
            MenuOption::ListDirectories => "📁 List directories by size",
            MenuOption::FindLargeFiles => "🔍 Find large files",
            MenuOption::FindDevArtifacts => "🛠️  Find development artifacts",
            MenuOption::DockerCleanup => "🐳 Docker cleanup",
            MenuOption::TempCleanup => "🗂️  Temporary files cleanup",
            MenuOption::Exit => "❌ Exit",
        }
    }
}

/// The selection one step down a list of `len` entries, wrapping from the
/// last entry back to the first; an empty selection starts at the first.
pub fn wrap_next(selected: Option<usize>, len: usize) -> (r: usize)
    requires
        len > 0,
        selected matches Some(i) ==> i < len,
    ensures
        r == match selected {
            Some(i) => if i >= len - 1 {
                0int
            } else {
                i + 1
            },
            None => 0int,
        },
        r < len,
{
    match selected {
        Some(i) => if i >= len - 1 {
            0
        } else {
            i + 1
        },
        None => 0,
    }
}

/// The selection one step up a list of `len` entries, wrapping from the
/// first entry to the last; an empty selection starts at the first.
pub fn wrap_previous(selected: Option<usize>, len: usize) -> (r: usize)
    requires
        len > 0,
        selected matches Some(i) ==> i < len,
    ensures
        r == match selected {
            Some(i) => if i == 0 {
                len - 1
            } else {
                i - 1
            },
            None => 0int,
        },
        r < len,
{
    match selected {
        Some(i) => if i == 0 {
            len - 1
        } else {
            i - 1
        },
        None => 0,
    }
}

} // verus!
