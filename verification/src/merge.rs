//! The merge-or-forbid capability carried by every state value type.
//!
//! A value type stored in a managed cell either supports read-modify-write
//! (its fields combine meaningfully, as a sum and a count do) or forbids it
//! (a record holding at most one winning bid has no sensible combination).
//! The capability is a proof obligation, not a runtime branch: calling
//! `rmw` on a cell of a forbidding type is ruled out at verification
//! time, instead of aborting the partition on first use.

use vstd::prelude::*;

verus! {

/// Capability of a state value type to be combined by read-modify-write.
pub trait Mergeable: Sized {
    /// Whether this type supports merging at all. A type that returns
    /// `false` here can never be routed through a cell's `rmw`.
    spec fn merge_allowed() -> bool;

    /// Whether merging `delta` into `self` stays within machine limits.
    spec fn merge_ok(self, delta: Self) -> bool;

    /// The mathematical result of the merge.
    spec fn merge_spec(self, delta: Self) -> Self;

    /// Combine `delta` into `self`, producing the merged value.
    fn merge(&self, delta: Self) -> (r: Self)
        requires
            Self::merge_allowed(),
            self.merge_ok(delta),
        ensures
            r == self.merge_spec(delta),
    ;
}

} // verus!
