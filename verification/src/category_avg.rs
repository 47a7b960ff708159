//! The per-category running average over closed-auction sale prices.
//!
//! Every winning pair contributes its price to the seller category's
//! running sum and count through a read-modify-write against the state
//! cell — the one state value type here whose fields combine meaningfully.

use vstd::prelude::*;

use crate::merge::Mergeable;
use crate::state::StateCell;

verus! {

/// A running sum of prices together with how many contributed.
#[derive(Clone, Copy, PartialEq, Eq, Structural, Debug)]
pub struct SumWithCount {
    pub sum: u64,
    pub count: u64,
}

/// Sums and counts combine by componentwise addition, so this type may
/// be routed through read-modify-write.
impl Mergeable for SumWithCount {
    open spec fn merge_allowed() -> bool {
        true
    }

    open spec fn merge_ok(self, delta: Self) -> bool {
        self.sum + delta.sum <= u64::MAX && self.count + delta.count <= u64::MAX
    }

    open spec fn merge_spec(self, delta: Self) -> Self {
        SumWithCount { sum: (self.sum + delta.sum) as u64, count: (self.count + delta.count) as u64 }
    }

    fn merge(&self, delta: Self) -> Self {
        SumWithCount { sum: self.sum + delta.sum, count: self.count + delta.count }
    }
}

/// One operator instance of the category-average query.
pub struct CategoryAverage {
    totals: StateCell<SumWithCount>,
}

impl CategoryAverage {
    /// The running total stored for a category, if any.
    pub closed spec fn total_of(self, category: u64) -> Option<SumWithCount> {
        if self.totals.contents().contains_key(category) {
            Some(self.totals.contents()[category])
        } else {
            None
        }
    }

    /// Internal well-formedness: stored counts are positive, so the
    /// average is always defined.
    pub closed spec fn wf(self) -> bool {
        &&& self.totals.wf()
        &&& forall|c: u64|
            #[trigger] self.totals.contents().contains_key(c) ==> self.totals.contents()[c].count
                >= 1
    }

    /// A fresh instance over the chosen completion mode.
    pub fn new(queued_backend: bool) -> (r: Self)
        ensures
            r.wf(),
            forall|c: u64| r.total_of(c) is None,
    {
        CategoryAverage {
            totals: if queued_backend {
                StateCell::new_queued()
            } else {
                StateCell::new_direct()
            },
        }
    }

    /// Read the running total stored for a category.
    pub fn current_total(&mut self, category: u64) -> (r: Option<(u64, u64)>)
        requires
            old(self).wf(),
        ensures
            final(self).wf(),
            forall|c: u64| final(self).total_of(c) == old(self).total_of(c),
            r == match old(self).total_of(category) {
                Some(t) => Some((t.sum, t.count)),
                None => None::<(u64, u64)>,
            },
    {
        let r = match self.totals.get(category) {
            Some(t) => Some((t.sum, t.count)),
            None => None,
        };
        r
    }

    /// Fold one closed auction's price into its category and emit the
    /// category with its updated integer average.
    pub fn on_closed_auction(&mut self, category: u64, price: u64) -> (r: (u64, u64))
        requires
            old(self).wf(),
            match old(self).total_of(category) {
                Some(t) => t.sum + price <= u64::MAX && t.count < u64::MAX,
                None => true,
            },
        ensures
            final(self).wf(),
            final(self).total_of(category) == Some(
                match old(self).total_of(category) {
                    Some(t) => SumWithCount {
                        sum: (t.sum + price) as u64,
                        count: (t.count + 1) as u64,
                    },
                    None => SumWithCount { sum: price, count: 1 },
                },
            ),
            forall|c: u64| c != category ==> final(self).total_of(c) == old(self).total_of(c),
            r.0 == category,
            r.1 == final(self).total_of(category)->0.sum / final(self).total_of(category)->0.count,
    {
        self.totals.rmw(category, SumWithCount { sum: price, count: 1 });
        let entry = self.totals.get(category);
        match entry {
            Some(t) => (category, t.sum / t.count),
            None => {
                proof {
                    assert(false);
                }
                (category, 0)
            }
        }
    }
}

} // verus!
