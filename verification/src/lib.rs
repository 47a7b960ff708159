//! Event-time windowed state management for continuous queries over an
//! auction marketplace event stream (bids, auctions, people).
//!
//! The dataflow substrate (partitioning, batch delivery, frontier tracking)
//! and the storage engines are external collaborators; this crate holds the
//! verified per-operator logic: the managed state cells, the expiry
//! scheduler, the watermark tracker, and the query state machines built on
//! them.

use vstd::prelude::*;

pub mod auction_close;
pub mod category_avg;
pub mod event;
pub mod expiry;
pub mod hot_items;
pub mod merge;
pub mod person_window;
pub mod seller_join;
pub mod state;
pub mod watermark;

verus! {

/// Relies on `fnv::FnvHasher`: folds the byte stream that `T`'s `Hash`
/// impl writes through the FNV-1a function and returns the final state.
/// The result depends on the written bytes alone; nothing further is
/// assumed of it here, and no contract can name it for every `T`.
#[verifier::external_body]
fn fnv_hash<T: core::hash::Hash>(t: &T) -> u64 {
    let mut h: fnv::FnvHasher = Default::default();
    t.hash(&mut h);
    core::hash::Hasher::finish(&h)
}

/// The hash under which the partitioning layer routes a keyed record to
/// its worker: the FNV-1a hash of the value.
pub fn calculate_hash<T: core::hash::Hash>(t: &T) -> u64 {
    fnv_hash(t)
}

} // verus!
