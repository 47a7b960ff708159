//! The expiry scheduler: a min-priority collection of (time, key)
//! obligations.
//!
//! Only time order is significant; ties are broken arbitrarily. The
//! collection may hold stale or duplicate entries — every consumer
//! re-checks the authoritative state record after popping and treats a pop
//! whose backing record is gone as a no-op. The scheduler never owns
//! records, it only indexes them by key.

use vstd::prelude::*;

verus! {

/// A time-ordered priority structure of pending (time, key) obligations.
pub struct ExpiryQueue {
    entries: Vec<(u64, u64)>,
}

impl ExpiryQueue {
    /// The held obligations, in no significant order.
    pub closed spec fn entries(self) -> Seq<(u64, u64)> {
        self.entries@
    }

    /// Whether every held obligation is at or after the given time.
    pub open spec fn all_at_or_after(self, t: u64) -> bool {
        forall|i: int| 0 <= i < self.entries().len() ==> #[trigger] self.entries()[i].0 >= t
    }

    /// An empty scheduler.
    pub fn new() -> (r: Self)
        ensures
            r.entries() == Seq::<(u64, u64)>::empty(),
    {
        ExpiryQueue { entries: Vec::new() }
    }

    /// How many obligations are held.
    pub fn len(&self) -> (r: usize)
        ensures
            r == self.entries().len(),
    {
        self.entries.len()
    }

    /// Schedule an obligation to revisit `key` at `time`.
    pub fn push(&mut self, time: u64, key: u64)
        ensures
            final(self).entries() == old(self).entries().push((time, key)),
    {
        self.entries.push((time, key));
    }

    /// The earliest obligation, if any, without removing it.
    pub fn peek_min(&self) -> (r: Option<(u64, u64)>)
        ensures
            match r {
                None => self.entries().len() == 0,
                Some((t, k)) => {
                    &&& exists|i: int|
                        0 <= i < self.entries().len() && self.entries()[i] == (t, k)
                    &&& forall|j: int|
                        0 <= j < self.entries().len() ==> t <= #[trigger] self.entries()[j].0
                },
            },
    {
        if self.entries.len() == 0 {
            return None;
        }
        let ghost es = self.entries@;
        let mut best: usize = 0;
        let mut i: usize = 1;
        while i < self.entries.len()
            invariant
                self.entries@ == es,
                0 <= best < es.len(),
                i <= es.len(),
                forall|j: int| 0 <= j < i ==> es[best as int].0 <= #[trigger] es[j].0,
            decreases es.len() - i,
        {
            if self.entries[i].0 < self.entries[best].0 {
                best = i;
            }
            i = i + 1;
        }
        let e = self.entries[best];
        proof {
            assert(self.entries()[best as int] == e);
        }
        Some(e)
    }

    /// Remove and return an earliest obligation, if any. Among equal
    /// times, which entry leaves is arbitrary.
    pub fn pop_min(&mut self) -> (r: Option<(u64, u64)>)
        ensures
            match r {
                None => {
                    &&& old(self).entries().len() == 0
                    &&& final(self).entries() == old(self).entries()
                },
                Some((t, k)) => {
                    &&& exists|i: int|
                        0 <= i < old(self).entries().len() && old(self).entries()[i] == (t, k)
                            && final(self).entries() == old(self).entries().remove(i)
                    &&& forall|j: int|
                        0 <= j < old(self).entries().len() ==> t <= #[trigger] old(self).entries()[j].0
                },
            },
    {
        if self.entries.len() == 0 {
            return None;
        }
        let ghost es = self.entries@;
        let mut best: usize = 0;
        let mut i: usize = 1;
        while i < self.entries.len()
            invariant
                self.entries@ == es,
                0 <= best < es.len(),
                i <= es.len(),
                forall|j: int| 0 <= j < i ==> es[best as int].0 <= #[trigger] es[j].0,
            decreases es.len() - i,
        {
            if self.entries[i].0 < self.entries[best].0 {
                best = i;
            }
            i = i + 1;
        }
        let e = self.entries.remove(best);
        proof {
            assert(old(self).entries()[best as int] == e);
            assert(self.entries() == old(self).entries().remove(best as int));
        }
        Some(e)
    }
}

} // verus!
