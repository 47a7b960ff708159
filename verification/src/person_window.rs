//! The person-window join: sellers opening auctions inside the window in
//! which they themselves entered the marketplace.
//!
//! Both inputs are keyed by person id and bucketed into fixed windows of
//! time; at a window's notification the sellers recorded for it are
//! matched against the people who arrived in it.

use vstd::prelude::*;

use crate::auction_close::{is_due, spec_due};
use crate::expiry::ExpiryQueue;
use crate::hot_items::{slide_of, spec_slide_of};
use crate::merge::Mergeable;
use crate::state::{StateCell, ValueCell};

verus! {

broadcast use vstd::seq_lib::group_to_multiset_ensures;

/// The seller ids recorded for one window, in arrival order and with
/// duplicates kept.
pub struct IdList {
    pub items: Vec<u64>,
}

/// Stored id lists are extended by explicit fetch-append-store; merging
/// through the cell is not routed here.
impl Mergeable for IdList {
    open spec fn merge_allowed() -> bool {
        false
    }

    open spec fn merge_ok(self, delta: Self) -> bool {
        false
    }

    open spec fn merge_spec(self, delta: Self) -> Self {
        self
    }

    fn merge(&self, delta: Self) -> Self {
        IdList { items: Vec::new() }
    }
}

/// The distinct person ids that arrived in one window.
pub struct IdSet {
    items: Vec<u64>,
}

/// Id sets are likewise extended by explicit fetch-insert-store.
impl Mergeable for IdSet {
    open spec fn merge_allowed() -> bool {
        false
    }

    open spec fn merge_ok(self, delta: Self) -> bool {
        false
    }

    open spec fn merge_spec(self, delta: Self) -> Self {
        self
    }

    fn merge(&self, delta: Self) -> Self {
        IdSet { items: Vec::new() }
    }
}

impl IdSet {
    /// The held ids, distinct, in first-arrival order.
    pub closed spec fn members(self) -> Seq<u64> {
        self.items@
    }

    /// No id is held twice.
    pub closed spec fn wf(self) -> bool {
        forall|i: int, j: int| 0 <= i < j < self.items@.len() ==> self.items@[i] != self.items@[j]
    }

    /// An empty set.
    pub fn new() -> (r: Self)
        ensures
            r.wf(),
            r.members() == Seq::<u64>::empty(),
    {
        IdSet { items: Vec::new() }
    }

    /// Whether an id is held.
    pub fn contains_id(&self, x: u64) -> (r: bool)
        ensures
            r == self.members().contains(x),
    {
        let mut i: usize = 0;
        while i < self.items.len()
            invariant
                i <= self.items@.len(),
                forall|j: int| 0 <= j < i ==> self.items@[j] != x,
            decreases self.items@.len() - i,
        {
            if self.items[i] == x {
                proof {
                    assert(self.members()[i as int] == x);
                }
                return true;
            }
            i = i + 1;
        }
        proof {
            if self.members().contains(x) {
                let j = choose|j: int| 0 <= j < self.members().len() && self.members()[j] == x;
            }
        }
        false
    }

    /// Add an id; already-held ids are kept once.
    pub fn insert_id(&mut self, x: u64)
        requires
            old(self).wf(),
        ensures
            final(self).wf(),
            old(self).members().contains(x) ==> final(self).members() == old(self).members(),
            !old(self).members().contains(x) ==> final(self).members() == old(self).members().push(
                x,
            ),
    {
        if !self.contains_id(x) {
            let ghost s0 = self.items@;
            self.items.push(x);
            proof {
                assert forall|i: int, j: int| 0 <= i < j < self.items@.len() implies self.items@[i]
                    != self.items@[j] by {
                    if j < self.items@.len() - 1 {
                        assert(self.items@[i] == s0[i] && self.items@[j] == s0[j]);
                    } else {
                        assert(self.items@[i] == s0[i]);
                        assert(!s0.contains(x));
                        assert(s0[i] != x) by {
                            if s0[i] == x {
                                assert(s0.contains(x));
                            }
                        }
                    }
                }
            }
        }
    }
}

/// The membership test the window match applies: is the seller among the
/// window's arrivals?
pub open spec fn arrival_filter(people: IdSet) -> spec_fn(u64) -> bool {
    |s: u64| people.members().contains(s)
}

/// Filtering passes occurrence counts through untouched for members and
/// drops non-members entirely.
proof fn lemma_filter_count(s: Seq<u64>, pred: spec_fn(u64) -> bool, x: u64)
    ensures
        s.filter(pred).to_multiset().count(x) == if pred(x) {
            s.to_multiset().count(x)
        } else {
            0nat
        },
    decreases s.len(),
{
    reveal(Seq::<u64>::filter);
    if s.len() == 0 {
        assert(s.filter(pred) == s);
        assert(!s.contains(x));
        assert(!s.filter(pred).contains(x));
    } else {
        lemma_filter_count(s.drop_last(), pred, x);
        assert(s =~= s.drop_last().push(s.last()));
        assert(s.drop_last().push(s.last()).to_multiset() =~= s.drop_last().to_multiset().insert(
            s.last(),
        ));
        if pred(s.last()) {
            assert(s.filter(pred) == s.drop_last().filter(pred).push(s.last()));
            assert(s.drop_last().filter(pred).push(s.last()).to_multiset() =~= s.drop_last().filter(
                pred,
            ).to_multiset().insert(s.last()));
        } else {
            assert(s.filter(pred) == s.drop_last().filter(pred));
        }
    }
}

/// The sellers of `list` that are members of `people`, in list order,
/// duplicates kept: exactly the filter of the list by membership.
pub fn matched_sellers(list: &IdList, people: &IdSet) -> (out: Vec<u64>)
    ensures
        out@ == list.items@.filter(arrival_filter(*people)),
        forall|j: int|
            0 <= j < out@.len() ==> list.items@.contains(#[trigger] out@[j]) && people.members(
            ).contains(out@[j]),
        forall|x: u64|
            list.items@.contains(x) && people.members().contains(x) ==> out@.contains(x),
{
    let mut out: Vec<u64> = Vec::new();
    let mut i: usize = 0;
    proof {
        reveal(Seq::<u64>::filter);
        assert(list.items@.subrange(0, 0).filter(arrival_filter(*people)) =~= Seq::<u64>::empty());
    }
    while i < list.items.len()
        invariant
            i <= list.items@.len(),
            out@ == list.items@.subrange(0, i as int).filter(arrival_filter(*people)),
            forall|j: int|
                0 <= j < out@.len() ==> list.items@.contains(#[trigger] out@[j]) && people.members(
                ).contains(out@[j]),
            forall|j: int|
                0 <= j < i && people.members().contains(#[trigger] list.items@[j])
                    ==> out@.contains(list.items@[j]),
        decreases list.items@.len() - i,
    {
        let s = list.items[i];
        proof {
            reveal(Seq::<u64>::filter);
            assert(list.items@.subrange(0, i as int + 1).drop_last() =~= list.items@.subrange(
                0,
                i as int,
            ));
            assert(list.items@.subrange(0, i as int + 1).last() == list.items@[i as int]);
            assert(arrival_filter(*people)(list.items@[i as int]) == people.members().contains(s));
        }
        if people.contains_id(s) {
            let ghost o0 = out@;
            out.push(s);
            proof {
                assert(list.items@.contains(s)) by {
                    assert(list.items@[i as int] == s);
                }
                assert(out@ == list.items@.subrange(0, i as int + 1).filter(
                    arrival_filter(*people),
                ));
                assert forall|j: int|
                    0 <= j < i + 1 && people.members().contains(#[trigger] list.items@[j]) implies
                    out@.contains(list.items@[j]) by {
                    if j < i {
                        assert(o0.contains(list.items@[j]));
                        let w = choose|w: int| 0 <= w < o0.len() && o0[w] == list.items@[j];
                        assert(out@[w] == list.items@[j]);
                    } else {
                        assert(out@[out@.len() - 1] == s);
                    }
                }
            }
        } else {
            proof {
                assert(out@ == list.items@.subrange(0, i as int + 1).filter(
                    arrival_filter(*people),
                ));
                assert forall|j: int|
                    0 <= j < i + 1 && people.members().contains(#[trigger] list.items@[j]) implies
                    out@.contains(list.items@[j]) by {}
            }
        }
        i = i + 1;
    }
    proof {
        assert(list.items@.subrange(0, list.items@.len() as int) =~= list.items@);
        assert forall|x: u64|
            list.items@.contains(x) && people.members().contains(x) implies out@.contains(x) by {
            let j = choose|j: int| 0 <= j < list.items@.len() && list.items@[j] == x;
        }
    }
    out
}

/// The emit rule of the frontier-driven variant of this join: an auction
/// is reported when its creation falls within one window of its seller's
/// own registration time.
pub fn in_person_window(a_time: u64, p_time: u64, window_size: u64) -> (r: bool)
    ensures
        r == (a_time < p_time + window_size),
{
    if a_time < p_time {
        true
    } else {
        a_time - p_time < window_size
    }
}

/// One operator instance of the person-window join.
pub struct PersonWindow {
    window_size: u64,
    auctions: StateCell<IdList>,
    people: StateCell<IdSet>,
    pending: ExpiryQueue,
    floor: u64,
}

impl PersonWindow {
    /// The window size the instance was built with.
    pub closed spec fn width(self) -> u64 {
        self.window_size
    }

    /// The completeness bound consumed so far.
    pub closed spec fn floor_time(self) -> u64 {
        self.floor
    }

    /// The sellers recorded for a window, in arrival order.
    pub closed spec fn sellers_at(self, t: u64) -> Seq<u64> {
        if self.auctions.contents().contains_key(t) {
            self.auctions.contents()[t].items@
        } else {
            Seq::empty()
        }
    }

    /// The distinct people that arrived in a window.
    pub closed spec fn arrivals_at(self, t: u64) -> Seq<u64> {
        if self.people.contents().contains_key(t) {
            self.people.contents()[t].members()
        } else {
            Seq::empty()
        }
    }

    /// Internal well-formedness.
    pub closed spec fn wf(self) -> bool {
        &&& self.window_size >= 1
        &&& self.auctions.wf()
        &&& self.people.wf()
        &&& (forall|t: u64|
            #[trigger] self.people.contents().contains_key(t) ==> self.people.contents()[t].wf())
        &&& self.pending.all_at_or_after(self.floor)
        &&& (forall|t: u64|
            #[trigger] self.auctions.contents().contains_key(t)
                ==> self.auctions.contents()[t].items@.len() > 0)
        &&& (forall|t: u64|
            #[trigger] self.auctions.contents().contains_key(t) ==> exists|j: int|
                0 <= j < self.pending.entries().len() && (#[trigger] self.pending.entries()[j]).0
                    == t)
    }

    /// A fresh instance over the chosen completion mode.
    pub fn new(window_size: u64, queued_backend: bool) -> (r: Self)
        requires
            window_size >= 1,
        ensures
            r.wf(),
            r.width() == window_size,
            r.floor_time() == 0,
            forall|t: u64| r.sellers_at(t) == Seq::<u64>::empty(),
            forall|t: u64| r.arrivals_at(t) == Seq::<u64>::empty(),
    {
        PersonWindow {
            window_size,
            auctions: if queued_backend {
                StateCell::new_queued()
            } else {
                StateCell::new_direct()
            },
            people: if queued_backend {
                StateCell::new_queued()
            } else {
                StateCell::new_direct()
            },
            pending: ExpiryQueue::new(),
            floor: 0,
        }
    }

    /// Record one auction: its seller joins the list of the window its
    /// creation time rounds up to, and the window's notification is
    /// scheduled.
    pub fn on_auction(&mut self, seller: u64, date_time: u64)
        requires
            old(self).wf(),
            date_time >= old(self).floor_time(),
            spec_slide_of(date_time, old(self).width()) <= u64::MAX,
        ensures
            final(self).wf(),
            final(self).width() == old(self).width(),
            final(self).floor_time() == old(self).floor_time(),
            final(self).sellers_at((spec_slide_of(date_time, old(self).width()) as u64))
                == old(self).sellers_at(
                (spec_slide_of(date_time, old(self).width()) as u64),
            ).push(seller),
            forall|t: u64|
                t != spec_slide_of(date_time, old(self).width()) ==> final(self).sellers_at(t)
                    == old(self).sellers_at(t),
            forall|t: u64| final(self).arrivals_at(t) == old(self).arrivals_at(t),
    {
        let ghost pre = *self;
        let wt = slide_of(date_time, self.window_size);
        let mut list = match self.auctions.remove(wt) {
            Some(l) => l,
            None => IdList { items: Vec::new() },
        };
        list.items.push(seller);
        self.auctions.insert(wt, list);
        self.pending.push(wt, wt);
        proof {
            assert forall|t2: u64| #[trigger] self.auctions.contents().contains_key(t2) implies
                self.auctions.contents()[t2].items@.len() > 0 by {
                if t2 != wt {
                    assert(pre.auctions.contents().contains_key(t2));
                    assert(self.auctions.contents()[t2] == pre.auctions.contents()[t2]);
                }
            }
            assert forall|t2: u64| #[trigger] self.auctions.contents().contains_key(t2) implies exists|j: int|
                0 <= j < self.pending.entries().len() && (#[trigger] self.pending.entries()[j]).0
                    == t2 by {
                if t2 == wt {
                    assert(self.pending.entries()[pre.pending.entries().len() as int].0 == wt);
                } else {
                    assert(pre.auctions.contents().contains_key(t2));
                    let j = choose|j: int|
                        0 <= j < pre.pending.entries().len() && (
                        #[trigger] pre.pending.entries()[j]).0 == t2;
                    assert(self.pending.entries()[j].0 == t2);
                }
            }
            assert forall|i: int| 0 <= i < self.pending.entries().len() implies (
            #[trigger] self.pending.entries()[i]).0 >= self.floor by {
                if i < pre.pending.entries().len() {
                    assert(self.pending.entries()[i] == pre.pending.entries()[i]);
                    assert(pre.pending.entries()[i].0 >= pre.floor);
                }
            }
        }
    }

    /// Record one person: the id joins the arrival set of the window its
    /// own time rounds up to.
    pub fn on_person(&mut self, person: u64, date_time: u64)
        requires
            old(self).wf(),
            date_time >= old(self).floor_time(),
            spec_slide_of(date_time, old(self).width()) <= u64::MAX,
        ensures
            final(self).wf(),
            final(self).width() == old(self).width(),
            final(self).floor_time() == old(self).floor_time(),
            ({
                let wt = spec_slide_of(date_time, old(self).width()) as u64;
                if old(self).arrivals_at(wt).contains(person) {
                    final(self).arrivals_at(wt) == old(self).arrivals_at(wt)
                } else {
                    final(self).arrivals_at(wt) == old(self).arrivals_at(wt).push(person)
                }
            }),
            forall|t: u64|
                t != spec_slide_of(date_time, old(self).width()) ==> final(self).arrivals_at(t)
                    == old(self).arrivals_at(t),
            forall|t: u64| final(self).sellers_at(t) == old(self).sellers_at(t),
    {
        let ghost pre = *self;
        let wt = slide_of(date_time, self.window_size);
        let mut set = match self.people.remove(wt) {
            Some(s) => s,
            None => IdSet::new(),
        };
        set.insert_id(person);
        self.people.insert(wt, set);
        proof {
            assert forall|t2: u64| #[trigger] self.auctions.contents().contains_key(t2) implies exists|j: int|
                0 <= j < self.pending.entries().len() && (#[trigger] self.pending.entries()[j]).0
                    == t2 by {
                assert(pre.auctions.contents().contains_key(t2));
                let j = choose|j: int|
                    0 <= j < pre.pending.entries().len() && (#[trigger] pre.pending.entries()[j]).0
                        == t2;
                assert(self.pending.entries()[j].0 == t2);
            }
        }
    }

    /// Consume an advanced completeness bound: for every due window with
    /// recorded sellers, match them against the window's arrivals, emit
    /// the matches as `(window, seller)` pairs, and drop the window's
    /// state.
    pub fn advance(&mut self, bound: u64) -> (out: Vec<(u64, u64)>)
        requires
            old(self).wf(),
            bound >= old(self).floor_time(),
        ensures
            final(self).wf(),
            final(self).floor_time() == bound,
            final(self).width() == old(self).width(),
            // every emitted pair is a seller of its window who arrived in it
            forall|i: int|
                0 <= i < out@.len() ==> old(self).sellers_at((#[trigger] out@[i]).0).contains(
                    out@[i].1,
                ) && old(self).arrivals_at(out@[i].0).contains(out@[i].1),
            // every due match is emitted
            forall|t: u64, s: u64|
                spec_due(t, bound) && #[trigger] old(self).sellers_at(t).contains(s) && old(
                    self,
                ).arrivals_at(t).contains(s) ==> exists|i: int|
                    0 <= i < out@.len() && out@[i] == (t, s),
            // due windows are resolved
            forall|t: u64|
                spec_due(t, bound) ==> final(self).sellers_at(t) == Seq::<u64>::empty(),
            // untouched windows keep their state
            forall|t: u64|
                !spec_due(t, bound) ==> final(self).sellers_at(t) == old(self).sellers_at(t),
            forall|t: u64|
                !spec_due(t, bound) ==> final(self).arrivals_at(t) == old(self).arrivals_at(t),
            // a due window's arrivals survive exactly when it recorded no
            // sellers (a people-only window is never revisited)
            forall|t: u64|
                spec_due(t, bound) && old(self).sellers_at(t).len() == 0
                    ==> final(self).arrivals_at(t) == old(self).arrivals_at(t),
            forall|t: u64|
                spec_due(t, bound) && old(self).sellers_at(t).len() > 0
                    ==> final(self).arrivals_at(t) == Seq::<u64>::empty(),
            // each match is emitted once per auction occurrence in its window
            forall|t: u64, x: u64|
                #[trigger] out@.to_multiset().count((t, x)) == if spec_due(t, bound) && old(
                    self,
                ).arrivals_at(t).contains(x) {
                    old(self).sellers_at(t).to_multiset().count(x)
                } else {
                    0nat
                },
            // windows appear in ascending order
            forall|i: int, j: int|
                0 <= i <= j < out@.len() ==> (#[trigger] out@[i]).0 <= (#[trigger] out@[j]).0,
    {
        let ghost pre = *self;
        let mut out: Vec<(u64, u64)> = Vec::new();
        proof {
            assert(out@ =~= Seq::<(u64, u64)>::empty());
        }
        loop
            invariant
                pre.wf(),
                bound >= pre.floor,
                self.window_size == pre.window_size,
                self.floor == pre.floor,
                self.auctions.wf(),
                self.people.wf(),
                (forall|t: u64|
                    #[trigger] self.people.contents().contains_key(t) ==> self.people.contents(
                    )[t].wf()),
                self.pending.all_at_or_after(pre.floor),
                (forall|t: u64|
                    #[trigger] self.auctions.contents().contains_key(t) ==> pre.auctions.contents(
                    ).contains_key(t) && self.auctions.contents()[t] == pre.auctions.contents()[t]
                        && exists|j: int|
                        0 <= j < self.pending.entries().len() && (
                        #[trigger] self.pending.entries()[j]).0 == t),
                (forall|t: u64|
                    #[trigger] self.people.contents().contains_key(t) ==> pre.people.contents(
                    ).contains_key(t) && self.people.contents()[t] == pre.people.contents()[t]),
                (forall|i: int|
                    0 <= i < out@.len() ==> pre.sellers_at((#[trigger] out@[i]).0).contains(
                        out@[i].1,
                    ) && pre.arrivals_at(out@[i].0).contains(out@[i].1)),
                (forall|t: u64, s: u64|
                    spec_due(t, bound) && #[trigger] pre.sellers_at(t).contains(s)
                        && pre.arrivals_at(t).contains(s) ==> (
                    self.auctions.contents().contains_key(t) && self.people.contents(
                    ).contains_key(t)) || (exists|i: int| 0 <= i < out@.len() && out@[i] == (t, s))),
                (forall|t: u64|
                    #[trigger] pre.auctions.contents().contains_key(t) && !spec_due(t, bound)
                        ==> self.auctions.contents().contains_key(t)),
                (forall|t: u64|
                    #[trigger] pre.people.contents().contains_key(t) && (!spec_due(t, bound)
                        || pre.sellers_at(t).len() == 0 || self.auctions.contents().contains_key(
                        t,
                    )) ==> self.people.contents().contains_key(t)),
                (forall|t: u64|
                    spec_due(t, bound) && #[trigger] pre.auctions.contents().contains_key(t)
                        && !self.auctions.contents().contains_key(t)
                        ==> !self.people.contents().contains_key(t)),
                (forall|t: u64, x: u64|
                    #[trigger] out@.to_multiset().count((t, x)) == if spec_due(t, bound)
                        && pre.arrivals_at(t).contains(x) && pre.auctions.contents().contains_key(
                        t,
                    ) && !self.auctions.contents().contains_key(t) {
                        pre.sellers_at(t).to_multiset().count(x)
                    } else {
                        0nat
                    }),
                (forall|i: int, j: int|
                    0 <= i <= j < out@.len() ==> (#[trigger] out@[i]).0 <= (#[trigger] out@[j]).0),
                (forall|i: int, j: int|
                    0 <= i < out@.len() && 0 <= j < self.pending.entries().len() ==> (
                    #[trigger] out@[i]).0 <= (#[trigger] self.pending.entries()[j]).0),
            ensures
                self.floor == pre.floor,
                self.window_size == pre.window_size,
                forall|i: int|
                    0 <= i < self.pending.entries().len() ==> !spec_due(
                        (#[trigger] self.pending.entries()[i]).0,
                        bound,
                    ),
            decreases self.pending.entries().len(),
        {
            let ghost iter = *self;
            let due_head = match self.pending.peek_min() {
                None => false,
                Some(p) => is_due(p.0, bound),
            };
            if !due_head {
                break;
            }
            let popped = self.pending.pop_min();
            match popped {
                None => {
                    proof {
                        assert(false);
                    }
                }
                Some((t, _tk)) => {
                    let ghost idx = choose|i: int|
                        0 <= i < iter.pending.entries().len() && iter.pending.entries()[i] == (
                        t,
                        _tk,
                        ) && self.pending.entries() == iter.pending.entries().remove(i);
                    proof {
                        assert forall|j: int| 0 <= j < self.pending.entries().len() implies (
                        #[trigger] self.pending.entries()[j]).0 >= pre.floor
                            && self.pending.entries()[j].0 >= t by {
                            if j < idx {
                                assert(self.pending.entries()[j] == iter.pending.entries()[j]);
                                assert(iter.pending.entries()[j].0 >= pre.floor);
                            } else {
                                assert(self.pending.entries()[j] == iter.pending.entries()[j + 1]);
                                assert(iter.pending.entries()[j + 1].0 >= pre.floor);
                            }
                        }
                        assert forall|i2: int, j2: int|
                            0 <= i2 < out@.len() && 0 <= j2 < self.pending.entries().len() implies (
                        #[trigger] out@[i2]).0 <= (#[trigger] self.pending.entries()[j2]).0 by {
                            if j2 < idx {
                                assert(self.pending.entries()[j2] == iter.pending.entries()[j2]);
                            } else {
                                assert(self.pending.entries()[j2] == iter.pending.entries()[j2
                                    + 1]);
                            }
                        }
                        assert forall|i2: int| 0 <= i2 < out@.len() implies (
                        #[trigger] out@[i2]).0 <= t by {
                            assert(out@[i2].0 <= iter.pending.entries()[idx].0);
                        }
                    }
                    let list_opt = self.auctions.remove(t);
                    match list_opt {
                        Some(list) => {
                            let people_opt = self.people.remove(t);
                            match people_opt {
                                Some(pset) => {
                                    let m = matched_sellers(&list, &pset);
                                    let n = m.len();
                                    let mut j: usize = 0;
                                    let ghost o0 = out@;
                                    proof {
                                        assert(m@.subrange(0, 0) =~= Seq::<u64>::empty());
                                    }
                                    while j < n
                                        invariant
                                            n == m@.len(),
                                            j <= n,
                                            out@.len() == o0.len() + j,
                                            forall|x: int| 0 <= x < o0.len() ==> out@[x] == o0[x],
                                            forall|x: int|
                                                0 <= x < j ==> out@[o0.len() + x] == (t, m@[x]),
                                            forall|t2: u64, x: u64|
                                                #[trigger] out@.to_multiset().count((t2, x))
                                                    == o0.to_multiset().count((t2, x)) + (if t2
                                                    == t {
                                                    m@.subrange(0, j as int).to_multiset().count(x)
                                                } else {
                                                    0nat
                                                }),
                                        decreases n - j,
                                    {
                                        let s = m[j];
                                        let ghost ob = out@;
                                        out.push((t, s));
                                        proof {
                                            assert(out@ == ob.push((t, s)));
                                            assert(ob.push((t, s)).to_multiset()
                                                =~= ob.to_multiset().insert((t, s)));
                                            assert(m@.subrange(0, j as int + 1) =~= m@.subrange(
                                                0,
                                                j as int,
                                            ).push(m@[j as int]));
                                            assert(m@.subrange(0, j as int).push(
                                                m@[j as int],
                                            ).to_multiset() =~= m@.subrange(
                                                0,
                                                j as int,
                                            ).to_multiset().insert(m@[j as int]));
                                        }
                                        j = j + 1;
                                    }
                                    proof {
                                        assert(m@.subrange(0, n as int) =~= m@);
                                    }
                                    proof {
                                        assert(list.items@ == pre.sellers_at(t));
                                        assert(pset.members() == pre.arrivals_at(t));
                                        assert forall|x: int| 0 <= x < out@.len() implies pre.sellers_at(
                                            (#[trigger] out@[x]).0,
                                        ).contains(out@[x].1) && pre.arrivals_at(
                                            out@[x].0,
                                        ).contains(out@[x].1) by {
                                            if x < o0.len() {
                                                assert(out@[x] == o0[x]);
                                            } else {
                                                assert(out@[x] == (t, m@[x - o0.len()]));
                                            }
                                        }
                                        // occurrence counts: this window flips to
                                        // resolved, contributing its exact matches
                                        assert forall|t2: u64, x: u64| true implies #[trigger] out@.to_multiset().count(
                                            (t2, x),
                                        ) == (if spec_due(t2, bound) && pre.arrivals_at(
                                            t2,
                                        ).contains(x) && pre.auctions.contents().contains_key(t2)
                                            && !self.auctions.contents().contains_key(t2) {
                                            pre.sellers_at(t2).to_multiset().count(x)
                                        } else {
                                            0nat
                                        }) by {
                                            if t2 == t {
                                                assert(iter.auctions.contents().contains_key(t));
                                                assert(o0.to_multiset().count((t, x)) == 0);
                                                lemma_filter_count(
                                                    list.items@,
                                                    arrival_filter(pset),
                                                    x,
                                                );
                                                assert(arrival_filter(pset)(x)
                                                    == pset.members().contains(x));
                                            } else {
                                                assert(self.auctions.contents().contains_key(t2)
                                                    <==> iter.auctions.contents().contains_key(
                                                    t2,
                                                ));
                                            }
                                        }
                                        // windows stay in ascending order
                                        assert forall|i2: int, j2: int|
                                            0 <= i2 <= j2 < out@.len() implies (
                                        #[trigger] out@[i2]).0 <= (#[trigger] out@[j2]).0 by {
                                            if j2 >= o0.len() {
                                                assert(out@[o0.len() + (j2 - o0.len())] == (
                                                t,
                                                m@[j2 - o0.len()],
                                                ));
                                                assert(out@[j2].0 == t);
                                                if i2 < o0.len() {
                                                    assert(out@[i2] == o0[i2]);
                                                    assert(o0[i2].0 <= iter.pending.entries()[idx].0);
                                                } else {
                                                    assert(out@[o0.len() + (i2 - o0.len())] == (
                                                    t,
                                                    m@[i2 - o0.len()],
                                                    ));
                                                    assert(out@[i2].0 == t);
                                                }
                                            } else {
                                                assert(out@[i2] == o0[i2] && out@[j2] == o0[j2]);
                                            }
                                        }
                                        assert forall|i2: int, j2: int|
                                            0 <= i2 < out@.len() && 0 <= j2
                                                < self.pending.entries().len() implies (
                                        #[trigger] out@[i2]).0 <= (
                                        #[trigger] self.pending.entries()[j2]).0 by {
                                            if i2 < o0.len() {
                                                assert(out@[i2] == o0[i2]);
                                                assert(o0[i2].0 <= self.pending.entries()[j2].0);
                                            } else {
                                                assert(out@[o0.len() + (i2 - o0.len())] == (
                                                t,
                                                m@[i2 - o0.len()],
                                                ));
                                                assert(out@[i2].0 == t);
                                                assert(self.pending.entries()[j2].0 >= t);
                                            }
                                        }
                                        // the window's state is fully resolved
                                        assert(!self.people.contents().contains_key(t));
                                        assert forall|t2: u64|
                                            #[trigger] pre.people.contents().contains_key(t2) && (
                                            !spec_due(t2, bound) || pre.sellers_at(t2).len() == 0
                                                || self.auctions.contents().contains_key(
                                                t2,
                                            )) implies self.people.contents().contains_key(
                                            t2,
                                        ) by {
                                            assert(t2 != t);
                                            assert(iter.people.contents().contains_key(t2));
                                        }
                                        assert forall|t2: u64, s2: u64|
                                            spec_due(t2, bound) && #[trigger] pre.sellers_at(t2).contains(s2)
                                                && pre.arrivals_at(t2).contains(s2) implies (
                                        self.auctions.contents().contains_key(t2)
                                            && self.people.contents().contains_key(t2)) || (
                                        exists|i: int|
                                            0 <= i < out@.len() && out@[i] == (t2, s2)) by {
                                            if t2 == t {
                                                assert(m@.contains(s2));
                                                let w = choose|w: int|
                                                    0 <= w < m@.len() && m@[w] == s2;
                                                assert(out@[o0.len() + w] == (t, s2));
                                            } else {
                                                if !(iter.auctions.contents().contains_key(t2)
                                                    && iter.people.contents().contains_key(t2)) {
                                                    let w = choose|w: int|
                                                        0 <= w < o0.len() && o0[w] == (t2, s2);
                                                    assert(out@[w] == (t2, s2));
                                                }
                                            }
                                        }
                                    }
                                }
                                None => {
                                    proof {
                                        // no arrivals were ever recorded for this
                                        // window: nothing to match, nothing to lose
                                        assert(self.people.contents()
                                            =~= iter.people.contents().remove(t));
                                        assert(!iter.people.contents().contains_key(t));
                                        assert(!pre.people.contents().contains_key(t)) by {
                                            if pre.people.contents().contains_key(t) {
                                                assert(iter.auctions.contents().contains_key(t));
                                            }
                                        }
                                        assert(pre.arrivals_at(t) == Seq::<u64>::empty());
                                        assert forall|t2: u64, s2: u64|
                                            spec_due(t2, bound) && #[trigger] pre.sellers_at(t2).contains(s2)
                                                && pre.arrivals_at(t2).contains(s2) implies (
                                        self.auctions.contents().contains_key(t2)
                                            && self.people.contents().contains_key(t2)) || (
                                        exists|i: int|
                                            0 <= i < out@.len() && out@[i] == (t2, s2)) by {
                                            if t2 == t {
                                                assert(!iter.people.contents().contains_key(t));
                                            }
                                        }
                                        assert forall|t2: u64, x: u64| true implies #[trigger] out@.to_multiset().count(
                                            (t2, x),
                                        ) == (if spec_due(t2, bound) && pre.arrivals_at(
                                            t2,
                                        ).contains(x) && pre.auctions.contents().contains_key(t2)
                                            && !self.auctions.contents().contains_key(t2) {
                                            pre.sellers_at(t2).to_multiset().count(x)
                                        } else {
                                            0nat
                                        }) by {
                                            if t2 == t {
                                                assert(!pre.arrivals_at(t).contains(x));
                                                assert(iter.auctions.contents().contains_key(t));
                                            } else {
                                                assert(self.auctions.contents().contains_key(t2)
                                                    <==> iter.auctions.contents().contains_key(
                                                    t2,
                                                ));
                                            }
                                        }
                                    }
                                }
                            }
                        }
                        None => {
                            proof {
                                assert(self.auctions.contents()
                                    =~= iter.auctions.contents().remove(t));
                                assert forall|t2: u64, x: u64| true implies #[trigger] out@.to_multiset().count(
                                    (t2, x),
                                ) == (if spec_due(t2, bound) && pre.arrivals_at(t2).contains(x)
                                    && pre.auctions.contents().contains_key(t2)
                                    && !self.auctions.contents().contains_key(t2) {
                                    pre.sellers_at(t2).to_multiset().count(x)
                                } else {
                                    0nat
                                }) by {
                                    assert(self.auctions.contents().contains_key(t2)
                                        <==> iter.auctions.contents().contains_key(t2));
                                }
                            }
                        }
                    }
                    proof {
                        assert forall|t2: u64| #[trigger] self.auctions.contents().contains_key(
                            t2,
                        ) implies pre.auctions.contents().contains_key(t2)
                            && self.auctions.contents()[t2] == pre.auctions.contents()[t2] && exists|j: int|
                            0 <= j < self.pending.entries().len() && (
                            #[trigger] self.pending.entries()[j]).0 == t2 by {
                            assert(iter.auctions.contents().contains_key(t2));
                            assert(t2 != t);
                            let j = choose|j: int|
                                0 <= j < iter.pending.entries().len() && (
                                #[trigger] iter.pending.entries()[j]).0 == t2;
                            assert(j != idx);
                            if j < idx {
                                assert(self.pending.entries()[j].0 == t2);
                            } else {
                                assert(self.pending.entries()[j - 1].0 == t2);
                            }
                        }
                    }
                }
            }
        }
        let ghost lp = *self;
        self.floor = bound;
        proof {
            assert forall|i: int| 0 <= i < self.pending.entries().len() implies (
            #[trigger] self.pending.entries()[i]).0 >= bound by {
                assert(!spec_due(self.pending.entries()[i].0, bound));
            }
            assert forall|t: u64, s: u64|
                spec_due(t, bound) && #[trigger] pre.sellers_at(t).contains(s) && pre.arrivals_at(
                    t,
                ).contains(s) implies exists|i: int| 0 <= i < out@.len() && out@[i] == (t, s) by {
                if lp.auctions.contents().contains_key(t) {
                    let j = choose|j: int|
                        0 <= j < lp.pending.entries().len() && (#[trigger] lp.pending.entries()[j]).0
                            == t;
                    assert(!spec_due(lp.pending.entries()[j].0, bound));
                }
            }
            assert forall|t: u64| spec_due(t, bound) implies self.sellers_at(t) == Seq::<
                u64,
            >::empty() by {
                if self.auctions.contents().contains_key(t) {
                    let j = choose|j: int|
                        0 <= j < lp.pending.entries().len() && (#[trigger] lp.pending.entries()[j]).0
                            == t;
                    assert(!spec_due(lp.pending.entries()[j].0, bound));
                }
            }
            let post = *self;
            // frames: untouched windows keep their state
            assert forall|t: u64| !spec_due(t, bound) implies post.sellers_at(t) == pre.sellers_at(
                t,
            ) by {
                if pre.auctions.contents().contains_key(t) {
                    assert(lp.auctions.contents().contains_key(t));
                } else {
                    assert(!lp.auctions.contents().contains_key(t));
                }
            }
            assert forall|t: u64| !spec_due(t, bound) implies post.arrivals_at(t)
                == pre.arrivals_at(t) by {
                if pre.people.contents().contains_key(t) {
                    assert(lp.people.contents().contains_key(t));
                } else {
                    assert(!lp.people.contents().contains_key(t));
                }
            }
            assert forall|t: u64|
                spec_due(t, bound) && pre.sellers_at(t).len() == 0 implies post.arrivals_at(t)
                == pre.arrivals_at(t) by {
                assert(!pre.auctions.contents().contains_key(t)) by {
                    if pre.auctions.contents().contains_key(t) {
                        assert(pre.auctions.contents()[t].items@.len() > 0);
                    }
                }
                if pre.people.contents().contains_key(t) {
                    assert(lp.people.contents().contains_key(t));
                } else {
                    assert(!lp.people.contents().contains_key(t));
                }
            }
            assert forall|t: u64|
                spec_due(t, bound) && pre.sellers_at(t).len() > 0 implies post.arrivals_at(t)
                == Seq::<u64>::empty() by {
                assert(pre.auctions.contents().contains_key(t));
                assert(!lp.auctions.contents().contains_key(t)) by {
                    if lp.auctions.contents().contains_key(t) {
                        let j = choose|j: int|
                            0 <= j < lp.pending.entries().len() && (
                            #[trigger] lp.pending.entries()[j]).0 == t;
                        assert(!spec_due(lp.pending.entries()[j].0, bound));
                    }
                }
                assert(!lp.people.contents().contains_key(t));
            }
            // occurrence counts, with resolvedness settled
            assert forall|t: u64, x: u64| true implies #[trigger] out@.to_multiset().count((t, x))
                == (if spec_due(t, bound) && pre.arrivals_at(t).contains(x) {
                pre.sellers_at(t).to_multiset().count(x)
            } else {
                0nat
            }) by {
                if spec_due(t, bound) && pre.arrivals_at(t).contains(x) {
                    if pre.auctions.contents().contains_key(t) {
                        assert(!lp.auctions.contents().contains_key(t)) by {
                            if lp.auctions.contents().contains_key(t) {
                                let j = choose|j: int|
                                    0 <= j < lp.pending.entries().len() && (
                                    #[trigger] lp.pending.entries()[j]).0 == t;
                                assert(!spec_due(lp.pending.entries()[j].0, bound));
                            }
                        }
                    } else {
                        assert(pre.sellers_at(t) =~= Seq::<u64>::empty());
                        assert(!pre.sellers_at(t).contains(x));
                        assert(pre.sellers_at(t).to_multiset().count(x) == 0);
                    }
                }
            }
        }
        out
    }
}

/// A person's registration time, kept per person id. Re-registration
/// overwrites; two registrations cannot be combined.
pub struct Registration {
    pub time: u64,
}

impl Mergeable for Registration {
    open spec fn merge_allowed() -> bool {
        false
    }

    open spec fn merge_ok(self, delta: Self) -> bool {
        false
    }

    open spec fn merge_spec(self, delta: Self) -> Self {
        self
    }

    fn merge(&self, delta: Self) -> Self {
        Registration { time: 0 }
    }
}

/// The auctions not yet resolvable: (seller, creation time) pairs held
/// back until the completeness bound proves their time past.
pub struct AuctionBatch {
    pub items: Vec<(u64, u64)>,
}

/// The frontier-driven variant of the person-window join: sellers are
/// joined against their own registration time instead of window buckets.
///
/// People upsert their registration time into a keyed cell; auctions
/// wait in a single-value cell until the completeness bound proves their
/// creation time past, and are then emitted exactly when the creation
/// falls within one window of the seller's registration.
pub struct RegistrationWindow {
    window_size: u64,
    people: StateCell<Registration>,
    batch: ValueCell<AuctionBatch>,
    floor: u64,
}

/// The auctions of `es` a bound `bound` does not yet prove past, in order.
pub open spec fn held_back(es: Seq<(u64, u64)>, bound: u64) -> Seq<(u64, u64)>
    decreases es.len(),
{
    if es.len() == 0 {
        es
    } else {
        held_back(es.drop_last(), bound) + (if !spec_due(es.last().1, bound) {
            seq![es.last()]
        } else {
            Seq::empty()
        })
    }
}

impl RegistrationWindow {
    /// The window size the instance was built with.
    pub closed spec fn width(self) -> u64 {
        self.window_size
    }

    /// The completeness bound consumed so far.
    pub closed spec fn floor_time(self) -> u64 {
        self.floor
    }

    /// The registration time stored for a person, if any.
    pub closed spec fn registration_of(self, person: u64) -> Option<u64> {
        if self.people.contents().contains_key(person) {
            Some(self.people.contents()[person].time)
        } else {
            None
        }
    }

    /// The auctions held back, in arrival order.
    pub closed spec fn pending_auctions(self) -> Seq<(u64, u64)> {
        self.batch.value()->0.items@
    }

    /// Whether a held-back auction would be reported: its seller is
    /// registered and its creation falls within one window after the
    /// registration.
    pub open spec fn reports(self, e: (u64, u64)) -> bool {
        match self.registration_of(e.0) {
            Some(rt) => (e.1 as int) < rt + self.width(),
            None => false,
        }
    }

    /// The sellers emitted when consuming bound `bound`, in order.
    pub open spec fn due_matches(self, es: Seq<(u64, u64)>, bound: u64) -> Seq<u64>
        decreases es.len(),
    {
        if es.len() == 0 {
            Seq::empty()
        } else {
            self.due_matches(es.drop_last(), bound) + (if spec_due(es.last().1, bound)
                && self.reports(es.last()) {
                seq![es.last().0]
            } else {
                Seq::empty()
            })
        }
    }

    /// Internal well-formedness.
    pub closed spec fn wf(self) -> bool {
        &&& self.people.wf()
        &&& self.batch.value() is Some
    }

    /// A fresh instance over the chosen completion mode.
    pub fn new(window_size: u64, queued_backend: bool) -> (r: Self)
        ensures
            r.wf(),
            r.width() == window_size,
            r.floor_time() == 0,
            r.pending_auctions() == Seq::<(u64, u64)>::empty(),
            forall|p: u64| r.registration_of(p) is None,
    {
        let mut batch = ValueCell::empty();
        batch.set(AuctionBatch { items: Vec::new() });
        RegistrationWindow {
            window_size,
            people: if queued_backend {
                StateCell::new_queued()
            } else {
                StateCell::new_direct()
            },
            batch,
            floor: 0,
        }
    }

    /// Record a person: the registration time is upserted, replacing any
    /// earlier one.
    pub fn on_person(&mut self, person: u64, date_time: u64)
        requires
            old(self).wf(),
        ensures
            final(self).wf(),
            final(self).width() == old(self).width(),
            final(self).floor_time() == old(self).floor_time(),
            final(self).registration_of(person) == Some(date_time),
            forall|p: u64|
                p != person ==> final(self).registration_of(p) == old(self).registration_of(p),
            final(self).pending_auctions() == old(self).pending_auctions(),
    {
        self.people.insert(person, Registration { time: date_time });
    }

    /// Record an auction: it is held back until its creation time is
    /// provably past.
    pub fn on_auction(&mut self, seller: u64, date_time: u64)
        requires
            old(self).wf(),
            date_time >= old(self).floor_time(),
        ensures
            final(self).wf(),
            final(self).width() == old(self).width(),
            final(self).floor_time() == old(self).floor_time(),
            final(self).pending_auctions() == old(self).pending_auctions().push(
                (seller, date_time),
            ),
            forall|p: u64| final(self).registration_of(p) == old(self).registration_of(p),
    {
        let taken = self.batch.take();
        let mut b = match taken {
            Some(b) => b,
            None => AuctionBatch { items: Vec::new() },
        };
        b.items.push((seller, date_time));
        self.batch.set(b);
    }

    /// Consume an advanced completeness bound: report, for every held
    /// auction whose creation the bound proves past, its seller exactly
    /// when the creation falls within one window of the seller's
    /// registration; keep the rest held back.
    pub fn advance(&mut self, bound: u64) -> (out: Vec<u64>)
        requires
            old(self).wf(),
            bound >= old(self).floor_time(),
        ensures
            final(self).wf(),
            final(self).floor_time() == bound,
            final(self).width() == old(self).width(),
            forall|p: u64| final(self).registration_of(p) == old(self).registration_of(p),
            out@ == old(self).due_matches(old(self).pending_auctions(), bound),
            final(self).pending_auctions() == held_back(old(self).pending_auctions(), bound),
    {
        let ghost pre = *self;
        let mut out: Vec<u64> = Vec::new();
        let mut kept: Vec<(u64, u64)> = Vec::new();
        let taken = self.batch.take();
        let b = match taken {
            Some(b) => b,
            None => AuctionBatch { items: Vec::new() },
        };
        let ghost es = b.items@;
        let n = b.items.len();
        let mut i: usize = 0;
        proof {
            assert(es.subrange(0, 0) =~= Seq::<(u64, u64)>::empty());
        }
        while i < n
            invariant
                pre.wf(),
                self.people.wf(),
                self.people.contents() == pre.people.contents(),
                self.window_size == pre.window_size,
                n == es.len(),
                i <= n,
                forall|j: int| 0 <= j < n ==> b.items@[j] == es[j],
                b.items@.len() == n,
                out@ == pre.due_matches(es.subrange(0, i as int), bound),
                kept@ == held_back(es.subrange(0, i as int), bound),
            decreases n - i,
        {
            let e = b.items[i];
            proof {
                assert(es.subrange(0, i as int + 1).drop_last() =~= es.subrange(0, i as int));
                assert(es.subrange(0, i as int + 1).last() == es[i as int]);
            }
            let due_now = is_due(e.1, bound);
            if due_now {
                let reg = self.people.get(e.0);
                match reg {
                    Some(r) => {
                        let rt = r.time;
                        if in_person_window(e.1, rt, self.window_size) {
                            out.push(e.0);
                            proof {
                                assert(pre.reports(es[i as int]));
                                assert(out@ =~= pre.due_matches(
                                    es.subrange(0, i as int + 1),
                                    bound,
                                ));
                            }
                        } else {
                            proof {
                                assert(!pre.reports(es[i as int]));
                                assert(out@ =~= pre.due_matches(
                                    es.subrange(0, i as int + 1),
                                    bound,
                                ));
                            }
                        }
                    }
                    None => {
                        proof {
                            assert(!pre.reports(es[i as int]));
                            assert(out@ =~= pre.due_matches(es.subrange(0, i as int + 1), bound));
                        }
                    }
                }
                proof {
                    assert(kept@ =~= held_back(es.subrange(0, i as int + 1), bound));
                }
            } else {
                kept.push(e);
                proof {
                    assert(out@ =~= pre.due_matches(es.subrange(0, i as int + 1), bound));
                    assert(kept@ =~= held_back(es.subrange(0, i as int + 1), bound));
                }
            }
            i = i + 1;
        }
        self.batch.set(AuctionBatch { items: kept });
        self.floor = bound;
        proof {
            assert(es.subrange(0, n as int) =~= es);
        }
        out
    }
}

} // verus!
