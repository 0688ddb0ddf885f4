//! Classification rules: which directory names are known development
//! artifacts, which file names are presumed-safe temp files, and what counts
//! as a large file. All three predicates are pure.

use vstd::prelude::*;
use crate::text::{is_prefix_of, is_suffix_of, str_eq, str_starts_with, str_ends_with};

verus! {

/// The fixed allowlist of artifact directory basenames: a name matches only
/// by exact equality with one of these.
pub open spec fn is_artifact_name(name: Seq<char>) -> bool {
    ||| name == "node_modules"@
    ||| name == ".venv"@
    ||| name == "venv"@
    ||| name == "__pycache__"@
    ||| name == ".tox"@
    ||| name == "target"@
    ||| name == "build"@
    ||| name == "dist"@
}

/// Whether `name` is the basename of a known development-artifact directory.
///
/// Matching is exact: near-misses such as a `node_modules_backup` directory
/// do not match.
pub fn is_artifact_dir_name(name: &str) -> (r: bool)
    ensures
        r == is_artifact_name(name@),
{
    str_eq(name, "node_modules") || str_eq(name, ".venv") || str_eq(name, "venv") || str_eq(
        name,
        "__pycache__",
    ) || str_eq(name, ".tox") || str_eq(name, "target") || str_eq(name, "build") || str_eq(
        name,
        "dist",
    )
}

/// The filename shapes presumed safe to delete from temp locations:
/// `tmp`/`temp` prefixes, `.tmp`/`.temp`/`.cache`/`~` suffixes, or an
/// editor-lock-style `.#` prefix. Purely structural and case-sensitive.
pub open spec fn is_safe_temp_name(name: Seq<char>) -> bool {
    ||| is_prefix_of("tmp"@, name)
    ||| is_prefix_of("temp"@, name)
    ||| is_suffix_of(".tmp"@, name)
    ||| is_suffix_of(".temp"@, name)
    ||| is_suffix_of(".cache"@, name)
    ||| is_prefix_of(".#"@, name)
    ||| is_suffix_of("~"@, name)
}

/// Whether the file name matches one of the safe-to-delete temp patterns.
pub fn is_safe_temp_file(name: &str) -> (r: bool)
    ensures
        r == is_safe_temp_name(name@),
{
    str_starts_with(name, "tmp") || str_starts_with(name, "temp") || str_ends_with(name, ".tmp")
        || str_ends_with(name, ".temp") || str_ends_with(name, ".cache") || str_starts_with(
        name,
        ".#",
    ) || str_ends_with(name, "~")
}

/// Whether a regular file of `size` bytes meets the large-file threshold
/// (inclusive).
pub fn is_large_file(is_dir: bool, size: u64, threshold: u64) -> (r: bool)
    ensures
        r == (!is_dir && size >= threshold),
{
    !is_dir && size >= threshold
}

} // verus!
