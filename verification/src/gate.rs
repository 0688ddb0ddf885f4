//! The safety gate: the last check before any directory is removed. It is
//! given a freshly probed view of the candidate (does it still exist, is it
//! still a directory) and re-derives the basename from the path it is handed,
//! never trusting the discovery-time snapshot, closing the gap between
//! check time and use time.

use vstd::prelude::*;
use crate::classify::{is_artifact_name, is_artifact_dir_name};
use crate::text::{basename, basename_of, has_parent_component, path_has_parent};

verus! {

/// The verdict on one removal candidate.
#[derive(Debug, Clone, Copy, PartialEq, Eq, Structural)]
pub enum GateDecision {
    /// All checks passed: the candidate may be removed.
    Approve,
    /// The candidate no longer exists; removal is already satisfied.
    AlreadyGone,
    /// The candidate is not a directory; only directories are auto-removed.
    NotADirectory,
    /// The candidate's basename is not on the artifact allowlist.
    NotAllowlisted,
    /// The candidate has no parent component: it is a filesystem root.
    NoParent,
}

/// The safety checks, in order, short-circuiting on the first failure.
pub open spec fn gate_spec(path: Seq<char>, exists: bool, is_dir: bool) -> GateDecision {
    if !exists {
        GateDecision::AlreadyGone
    } else if !is_dir {
        GateDecision::NotADirectory
    } else if !is_artifact_name(basename_of(path)) {
        GateDecision::NotAllowlisted
    } else if !has_parent_component(path) {
        GateDecision::NoParent
    } else {
        GateDecision::Approve
    }
}

/// Decides whether the candidate at `path` may be removed, given a freshly
/// probed `exists` / `is_dir` observation of it.
pub fn check_removal(path: &str, exists: bool, is_dir: bool) -> (d: GateDecision)
    ensures
        d == gate_spec(path@, exists, is_dir),
{
    if !exists {
        GateDecision::AlreadyGone
    } else if !is_dir {
        GateDecision::NotADirectory
    } else if !is_artifact_dir_name(basename(path)) {
        GateDecision::NotAllowlisted
    } else if !path_has_parent(path) {
        GateDecision::NoParent
    } else {
        GateDecision::Approve
    }
}

/// Law: no path whose current basename is off the allowlist is ever
/// approved, whatever an earlier discovery snapshot claimed about it.
pub proof fn lemma_gate_rejects_unlisted(path: Seq<char>, exists: bool, is_dir: bool)
    requires
        !is_artifact_name(basename_of(path)),
    ensures
        gate_spec(path, exists, is_dir) != GateDecision::Approve,
{
}

/// Law: a path with no parent component is never approved.
pub proof fn lemma_gate_rejects_parentless(path: Seq<char>, exists: bool, is_dir: bool)
    requires
        !has_parent_component(path),
    ensures
        gate_spec(path, exists, is_dir) != GateDecision::Approve,
{
}

/// Law: approval implies every check held — the candidate was observed to
/// exist as a directory, its re-derived basename is allowlisted, and it lies
/// below a filesystem root.
pub proof fn lemma_gate_approves_only_vetted(path: Seq<char>, exists: bool, is_dir: bool)
    requires
        gate_spec(path, exists, is_dir) == GateDecision::Approve,
    ensures
        exists,
        is_dir,
        is_artifact_name(basename_of(path)),
        has_parent_component(path),
{
}

} // verus!
