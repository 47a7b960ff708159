//! The watermark / capability tracker.
//!
//! An operator's obligation is the earliest domain time at which it might
//! still need to emit or finalize something, held as a capability to emit
//! output no earlier than that time. The tracker also remembers the
//! completeness bound already consumed (`floor`) and the stamp of the most
//! recent emission: together these guarantee that the output timestamps of
//! a single operator instance never decrease, even though new events may
//! re-create the obligation at an earlier time than the current one.

use vstd::prelude::*;

verus! {

/// Obligation state of one operator instance.
pub struct Watermark {
    obligation: Option<u64>,
    floor: u64,
    last_emit: u64,
}

impl Watermark {
    /// The current obligation: the capability under which output is given.
    pub closed spec fn obligation(self) -> Option<u64> {
        self.obligation
    }

    /// The completeness bound consumed by the last resolution round.
    /// It never decreases, and every future event resolves at or after it.
    pub closed spec fn floor(self) -> u64 {
        self.floor
    }

    /// The timestamp of the most recent emission (zero before the first).
    pub closed spec fn last_emit(self) -> u64 {
        self.last_emit
    }

    /// The tracker's invariant: the obligation never sits before the
    /// consumed bound, and never before the latest emission stamp.
    pub open spec fn wf(self) -> bool {
        &&& (self.obligation() matches Some(c) ==> c >= self.floor())
        &&& (self.obligation() matches Some(c) ==> c >= self.last_emit())
        &&& self.last_emit() <= self.floor()
    }

    /// A fresh tracker with no obligation.
    pub fn new() -> (r: Self)
        ensures
            r.wf(),
            r.obligation() is None,
            r.floor() == 0,
            r.last_emit() == 0,
    {
        Watermark { obligation: None, floor: 0, last_emit: 0 }
    }

    /// Read the current obligation.
    pub fn obligation_time(&self) -> (r: Option<u64>)
        ensures
            r == self.obligation(),
    {
        self.obligation
    }

    /// A new event will resolve at time `t`: (re)create the obligation
    /// there if it is earlier than the current one, or if none exists.
    pub fn observe(&mut self, t: u64)
        requires
            old(self).wf(),
            t >= old(self).floor(),
        ensures
            final(self).wf(),
            final(self).floor() == old(self).floor(),
            final(self).last_emit() == old(self).last_emit(),
            final(self).obligation() == match old(self).obligation() {
                None => Some(t),
                Some(c) => if t < c { Some(t) } else { Some(c) },
            },
    {
        match self.obligation {
            None => {
                self.obligation = Some(t);
            }
            Some(c) => {
                if t < c {
                    self.obligation = Some(t);
                }
            }
        }
    }

    /// Finish a resolution round that consumed completeness bound
    /// `bound`: downgrade the obligation to the new scheduler minimum
    /// `new_min` (or clear it), and record whether output was emitted
    /// under the old obligation. The emission stamp never decreases.
    pub fn retire(&mut self, bound: u64, new_min: Option<u64>, emitted: bool)
        requires
            old(self).wf(),
            bound >= old(self).floor(),
            new_min matches Some(m) ==> m >= bound,
            emitted ==> old(self).obligation() is Some,
            emitted ==> (bound == u64::MAX || (old(self).obligation() matches Some(c) && c < bound)),
        ensures
            final(self).wf(),
            final(self).floor() == bound,
            final(self).obligation() == new_min,
            final(self).last_emit() == if emitted {
                old(self).obligation()->0
            } else {
                old(self).last_emit()
            },
            final(self).last_emit() >= old(self).last_emit(),
    {
        if emitted {
            match self.obligation {
                Some(c) => {
                    self.last_emit = c;
                }
                None => {}
            }
        }
        self.floor = bound;
        self.obligation = new_min;
    }
}

} // verus!
