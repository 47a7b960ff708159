//! Managed state cells: the sole mutable access path to per-operator state.
//!
//! A [`StateCell`] is a keyed mapping cell, a [`ValueCell`] a single-value
//! cell for per-operator scalars. Each cell sits over a backend that
//! completes either synchronously (every call returns the final result) or
//! asynchronously (writes may park as pending work that a later call must
//! drain). The contracts below are stated over the cell's logical contents
//! — the base mapping with all pending work folded in — so the algorithms
//! above remain correct whichever completion mode the backend uses.

use vstd::prelude::*;

use crate::merge::Mergeable;
use std::collections::HashMap;

verus! {

broadcast use vstd::std_specs::hash::group_hash_axioms;

/// A write parked by an asynchronous backend, to be applied on drain.
enum Update<V> {
    /// Overwrite the key's value.
    Put(u64, V),
    /// Merge a delta into the key's value, or install the delta if the
    /// key is absent.
    Merge(u64, V),
}

/// Effect of one parked write on the logical contents.
spec fn apply_update<V: Mergeable>(m: Map<u64, V>, u: Update<V>) -> Map<u64, V> {
    match u {
        Update::Put(k, v) => m.insert(k, v),
        Update::Merge(k, d) => if m.contains_key(k) {
            m.insert(k, m[k].merge_spec(d))
        } else {
            m.insert(k, d)
        },
    }
}

/// Effect of a queue of parked writes, applied oldest first.
spec fn apply_updates<V: Mergeable>(m: Map<u64, V>, us: Seq<Update<V>>) -> Map<u64, V>
    decreases us.len(),
{
    if us.len() == 0 {
        m
    } else {
        apply_updates(apply_update(m, us[0]), us.drop_first())
    }
}

/// Whether one parked write may be applied to the given contents.
spec fn update_ok<V: Mergeable>(m: Map<u64, V>, u: Update<V>) -> bool {
    match u {
        Update::Put(_, _) => true,
        Update::Merge(k, d) => V::merge_allowed() && (m.contains_key(k) ==> m[k].merge_ok(d)),
    }
}

/// Whether a queue of parked writes may be applied in order.
spec fn updates_ok<V: Mergeable>(m: Map<u64, V>, us: Seq<Update<V>>) -> bool
    decreases us.len(),
{
    us.len() == 0 || (update_ok(m, us[0]) && updates_ok(apply_update(m, us[0]), us.drop_first()))
}

proof fn lemma_apply_updates_push<V: Mergeable>(m: Map<u64, V>, us: Seq<Update<V>>, u: Update<V>)
    ensures
        apply_updates(m, us.push(u)) == apply_update(apply_updates(m, us), u),
    decreases us.len(),
{
    if us.len() == 0 {
        assert(us.push(u)[0] == u);
        assert(us.push(u).drop_first() =~= Seq::<Update<V>>::empty());
        assert(apply_updates(m, us.push(u)) == apply_updates(
            apply_update(m, u),
            Seq::<Update<V>>::empty(),
        ));
    } else {
        assert(us.push(u)[0] == us[0]);
        assert(us.push(u).drop_first() =~= us.drop_first().push(u));
        lemma_apply_updates_push(apply_update(m, us[0]), us.drop_first(), u);
    }
}

proof fn lemma_updates_ok_push<V: Mergeable>(m: Map<u64, V>, us: Seq<Update<V>>, u: Update<V>)
    requires
        updates_ok(m, us),
        update_ok(apply_updates(m, us), u),
    ensures
        updates_ok(m, us.push(u)),
    decreases us.len(),
{
    if us.len() == 0 {
        assert(us.push(u)[0] == u);
        assert(us.push(u).drop_first() =~= Seq::<Update<V>>::empty());
        assert(updates_ok(apply_update(m, u), Seq::<Update<V>>::empty()));
    } else {
        assert(us.push(u)[0] == us[0]);
        assert(us.push(u).drop_first() =~= us.drop_first().push(u));
        lemma_updates_ok_push(apply_update(m, us[0]), us.drop_first(), u);
    }
}

/// A keyed mapping cell over a chosen backend.
///
/// `queued` selects the completion mode: a direct backend applies every
/// write at once; a queued backend parks writes until a read or an
/// explicit [`StateCell::complete_pending`] drains them.
pub struct StateCell<V: Mergeable> {
    queued: bool,
    entries: HashMap<u64, V>,
    pending: Vec<Update<V>>,
}

impl<V: Mergeable> StateCell<V> {
    /// The logical contents: the base mapping with all pending work
    /// folded in, which is what every contract below speaks of.
    pub closed spec fn contents(self) -> Map<u64, V> {
        apply_updates(self.entries@, self.pending@)
    }

    /// Internal well-formedness: pending work is applicable in order,
    /// and a direct-mode cell parks nothing.
    pub closed spec fn wf(self) -> bool {
        &&& updates_ok(self.entries@, self.pending@)
        &&& !self.queued ==> self.pending@.len() == 0
    }

    /// Whether no work is parked (always true right after a drain).
    pub closed spec fn settled(self) -> bool {
        self.pending@.len() == 0
    }

    /// Which completion mode the cell was built with.
    pub closed spec fn is_queued(self) -> bool {
        self.queued
    }

    /// An empty cell over a synchronous backend.
    pub fn new_direct() -> (r: Self)
        ensures
            r.wf(),
            r.settled(),
            !r.is_queued(),
            r.contents() == Map::<u64, V>::empty(),
    {
        StateCell { queued: false, entries: HashMap::new(), pending: Vec::new() }
    }

    /// An empty cell over an asynchronous backend that parks writes.
    pub fn new_queued() -> (r: Self)
        ensures
            r.wf(),
            r.settled(),
            r.is_queued(),
            r.contents() == Map::<u64, V>::empty(),
    {
        StateCell { queued: true, entries: HashMap::new(), pending: Vec::new() }
    }

    /// Apply all parked writes to the base mapping, oldest first.
    fn drain(&mut self)
        requires
            old(self).wf(),
        ensures
            final(self).wf(),
            final(self).settled(),
            final(self).contents() == old(self).contents(),
            final(self).is_queued() == old(self).is_queued(),
    {
        let ghost orig = apply_updates(self.entries@, self.pending@);
        let ghost q0 = self.queued;
        while self.pending.len() > 0
            invariant
                updates_ok(self.entries@, self.pending@),
                apply_updates(self.entries@, self.pending@) == orig,
                self.queued == q0,
            decreases self.pending.len(),
        {
            let ghost pend0 = self.pending@;
            let u = self.pending.remove(0);
            proof {
                assert(self.pending@ =~= pend0.drop_first());
            }
            match u {
                Update::Put(k, v) => {
                    self.entries.insert(k, v);
                }
                Update::Merge(k, d) => {
                    let ghost base = self.entries@;
                    let cur = self.entries.remove(&k);
                    match cur {
                        Some(cur) => {
                            let merged = cur.merge(d);
                            self.entries.insert(k, merged);
                            proof {
                                assert(self.entries@ =~= apply_update(base, u));
                            }
                        }
                        None => {
                            self.entries.insert(k, d);
                            proof {
                                assert(self.entries@ =~= apply_update(base, u));
                            }
                        }
                    }
                }
            }
        }
    }

    /// Read the key's value, draining any pending work first — the
    /// blocking completion step an asynchronous backend forces on reads.
    pub fn get(&mut self, k: u64) -> (r: Option<&V>)
        requires
            old(self).wf(),
        ensures
            final(self).wf(),
            final(self).settled(),
            final(self).contents() == old(self).contents(),
            final(self).is_queued() == old(self).is_queued(),
            match r {
                Some(v) => old(self).contents().contains_key(k) && *v == old(self).contents()[k],
                None => !old(self).contents().contains_key(k),
            },
    {
        self.drain();
        self.entries.get(&k)
    }

    /// Store a value for the key, replacing whatever was there.
    pub fn insert(&mut self, k: u64, v: V)
        requires
            old(self).wf(),
        ensures
            final(self).wf(),
            final(self).contents() == old(self).contents().insert(k, v),
            final(self).is_queued() == old(self).is_queued(),
    {
        if self.queued {
            let ghost us = self.pending@;
            self.pending.push(Update::Put(k, v));
            proof {
                lemma_apply_updates_push(self.entries@, us, Update::Put(k, v));
                lemma_updates_ok_push(self.entries@, us, Update::Put(k, v));
            }
        } else {
            self.entries.insert(k, v);
        }
    }

    /// Remove and return the key's value, draining pending work first.
    pub fn remove(&mut self, k: u64) -> (r: Option<V>)
        requires
            old(self).wf(),
        ensures
            final(self).wf(),
            final(self).settled(),
            final(self).contents() == old(self).contents().remove(k),
            final(self).is_queued() == old(self).is_queued(),
            match r {
                Some(v) => old(self).contents().contains_key(k) && v == old(self).contents()[k],
                None => !old(self).contents().contains_key(k),
            },
    {
        self.drain();
        self.entries.remove(&k)
    }

    /// Read-modify-write: merge the delta into the key's value, or
    /// install the delta if the key is absent. Only value types whose
    /// `Mergeable` capability allows it may ever be routed through here.
    pub fn rmw(&mut self, k: u64, delta: V)
        requires
            old(self).wf(),
            V::merge_allowed(),
            old(self).contents().contains_key(k) ==> old(self).contents()[k].merge_ok(delta),
        ensures
            final(self).wf(),
            final(self).is_queued() == old(self).is_queued(),
            final(self).contents() == if old(self).contents().contains_key(k) {
                old(self).contents().insert(k, old(self).contents()[k].merge_spec(delta))
            } else {
                old(self).contents().insert(k, delta)
            },
    {
        if self.queued {
            let ghost us = self.pending@;
            self.pending.push(Update::Merge(k, delta));
            proof {
                lemma_apply_updates_push(self.entries@, us, Update::Merge(k, delta));
                lemma_updates_ok_push(self.entries@, us, Update::Merge(k, delta));
            }
        } else {
            let cur = self.entries.remove(&k);
            match cur {
                Some(cur) => {
                    let merged = cur.merge(delta);
                    self.entries.insert(k, merged);
                    proof {
                        assert(self.entries@ =~= old(self).contents().insert(
                            k,
                            old(self).contents()[k].merge_spec(delta),
                        ));
                    }
                }
                None => {
                    self.entries.insert(k, delta);
                    proof {
                        assert(self.entries@ =~= old(self).contents().insert(k, delta));
                    }
                }
            }
        }
    }

    /// Drive all parked writes to completion, as a caller of an
    /// asynchronous backend must before consuming results.
    pub fn complete_pending(&mut self)
        requires
            old(self).wf(),
        ensures
            final(self).wf(),
            final(self).settled(),
            final(self).contents() == old(self).contents(),
            final(self).is_queued() == old(self).is_queued(),
    {
        self.drain();
    }
}

/// A single-value cell for per-operator scalars.
pub struct ValueCell<V> {
    inner: Option<V>,
}

impl<V> ValueCell<V> {
    /// The held value, if any.
    pub closed spec fn value(self) -> Option<V> {
        self.inner
    }

    /// An empty cell.
    pub fn empty() -> (r: Self)
        ensures
            r.value() is None,
    {
        ValueCell { inner: None }
    }

    /// Store a value, replacing whatever was there.
    pub fn set(&mut self, v: V)
        ensures
            final(self).value() == Some(v),
    {
        self.inner = Some(v);
    }

    /// Remove and return the held value (get-and-clear).
    pub fn take(&mut self) -> (r: Option<V>)
        ensures
            r == old(self).value(),
            final(self).value() is None,
    {
        self.inner.take()
    }

    /// Read the held value without removing it.
    pub fn get(&self) -> (r: Option<&V>)
        ensures
            match r {
                Some(v) => self.value() == Some(*v),
                None => self.value() is None,
            },
    {
        self.inner.as_ref()
    }
}

} // verus!
