//! The windowed join-with-expiry: bids joined against auctions, each
//! auction closed and its winner emitted exactly once.
//!
//! Bids and auctions for one auction id arrive at one operator instance in
//! arbitrary interleaving. Per-auction state lives in a managed cell; a
//! (time, key) obligation is scheduled for every event that must be
//! revisited; and the watermark tracker converts the two inputs'
//! completeness bound into safe, time-ordered winner emission and state
//! removal.

use vstd::prelude::*;

use crate::event::{spec_valid_bid, is_valid_bid, Auction, Bid};
use crate::expiry::ExpiryQueue;
use crate::merge::Mergeable;
use crate::state::StateCell;
use crate::watermark::Watermark;

verus! {

/// Per-auction state entry: the auction itself once seen, and a bid slot.
///
/// While the auction is absent the slot accumulates provisional,
/// unvalidated bids in arrival order; once the auction is present the
/// slot holds at most one bid — the highest-price valid one.
pub struct AuctionRecord {
    pub auction: Option<Auction>,
    pub bids: Vec<Bid>,
}

/// An auction record holds at most one winning bid: no sensible
/// combination of two records exists, so merging is forbidden.
impl Mergeable for AuctionRecord {
    open spec fn merge_allowed() -> bool {
        false
    }

    open spec fn merge_ok(self, delta: Self) -> bool {
        false
    }

    open spec fn merge_spec(self, delta: Self) -> Self {
        self
    }

    fn merge(&self, delta: Self) -> Self {
        AuctionRecord { auction: None, bids: Vec::new() }
    }
}

/// Whether a completeness bound `bound` proves time `t` past: every input
/// is done with times at or before `t`. An empty frontier (no more input
/// at all) is reported as `u64::MAX` and proves every time past.
pub open spec fn spec_due(t: u64, bound: u64) -> bool {
    bound == u64::MAX || t < bound
}

/// Executable form of [`spec_due`].
pub fn is_due(t: u64, bound: u64) -> (r: bool)
    ensures
        r == spec_due(t, bound),
{
    bound == u64::MAX || t < bound
}

/// Whether some bid in `bids` is valid for `a`.
pub open spec fn has_valid_bid(a: Auction, bids: Seq<Bid>) -> bool {
    exists|i: int| 0 <= i < bids.len() && spec_valid_bid(bids[i], a)
}

/// Whether `b` is a winner for `a` drawn from `bids`: a valid bid of
/// maximum price among the valid bids.
pub open spec fn is_best_valid(a: Auction, bids: Seq<Bid>, b: Bid) -> bool {
    &&& spec_valid_bid(b, a)
    &&& bids.contains(b)
    &&& forall|i: int|
        0 <= i < bids.len() && spec_valid_bid(#[trigger] bids[i], a) ==> bids[i].price <= b.price
}

/// One operator instance of the auction-close join.
///
/// The ghost fields record the full input history and output log, so that
/// the operator's guarantees can be stated over every bid ever received,
/// not only over what is still stored.
pub struct AuctionClose {
    records: StateCell<AuctionRecord>,
    opens: ExpiryQueue,
    tracker: Watermark,
    history: Ghost<Map<u64, Seq<Bid>>>,
    announced: Ghost<Map<u64, Auction>>,
    closed: Ghost<Set<u64>>,
    log: Ghost<Seq<(u64, Auction, Bid)>>,
}

impl AuctionClose {
    /// The live per-auction records.
    pub closed spec fn live_records(self) -> Map<u64, AuctionRecord> {
        self.records.contents()
    }

    /// Every bid ever received for auction id `k`, in arrival order.
    pub closed spec fn seen_bids(self, k: u64) -> Seq<Bid> {
        if self.history@.contains_key(k) {
            self.history@[k]
        } else {
            Seq::empty()
        }
    }

    /// The auction event received for id `k`, if any.
    pub closed spec fn auction_of(self, k: u64) -> Option<Auction> {
        if self.announced@.contains_key(k) {
            Some(self.announced@[k])
        } else {
            None
        }
    }

    /// The ids whose close has been processed.
    pub closed spec fn closed_keys(self) -> Set<u64> {
        self.closed@
    }

    /// Every emission ever made: (output timestamp, auction, winning bid).
    pub closed spec fn emissions(self) -> Seq<(u64, Auction, Bid)> {
        self.log@
    }

    /// The completeness bound consumed so far.
    pub closed spec fn floor(self) -> u64 {
        self.tracker.floor()
    }

    /// The current obligation under which the next emissions are stamped.
    pub closed spec fn obligation(self) -> Option<u64> {
        self.tracker.obligation()
    }

    /// Record invariant for a live record under consumed bound `fl`.
    spec fn rec_ok(self, k: u64, fl: u64) -> bool {
        let r = self.live_records()[k];
        match r.auction {
            Some(a) => {
                &&& a.id == k
                &&& self.auction_of(k) == Some(a)
                &&& !self.closed_keys().contains(k)
                &&& r.bids@.len() <= 1
                &&& (r.bids@.len() == 1 ==> is_best_valid(a, self.seen_bids(k), r.bids@[0]))
                &&& (r.bids@.len() == 0 ==> !has_valid_bid(a, self.seen_bids(k)))
                &&& exists|i: int|
                    0 <= i < self.opens.entries().len() && self.opens.entries()[i] == (a.expires, k)
            },
            None => {
                &&& (forall|i: int|
                    0 <= i < r.bids@.len() ==> self.seen_bids(k).contains(#[trigger] r.bids@[i]))
                &&& (!self.announced@.contains_key(k) ==> (forall|b: Bid|
                    self.seen_bids(k).contains(b) ==> r.bids@.contains(b) || b.date_time < fl
                        || b.date_time == u64::MAX))
            },
        }
    }

    /// Invariant for a closed id under consumed bound `fl`.
    spec fn closed_ok(self, k: u64, fl: u64) -> bool {
        &&& self.auction_of(k) is Some
        &&& self.auction_of(k)->0.expires <= fl
    }

    /// Invariant for an id with neither a live record nor a close: all of
    /// its bids were dropped as provably stale.
    spec fn gone_ok(self, k: u64, fl: u64) -> bool {
        forall|b: Bid|
            self.seen_bids(k).contains(b) ==> b.date_time < fl || b.date_time == u64::MAX
    }

    /// Invariant for one emission log entry.
    spec fn log_entry_ok(self, e: (u64, Auction, Bid)) -> bool {
        &&& self.closed_keys().contains(e.1.id)
        &&& self.auction_of(e.1.id) == Some(e.1)
        &&& is_best_valid(e.1, self.seen_bids(e.1.id), e.2)
    }

    /// The state-history part of the invariant, under consumed bound `fl`.
    spec fn state_ok(self, fl: u64) -> bool {
        &&& (forall|k: u64| #[trigger] self.live_records().contains_key(k) ==> self.rec_ok(k, fl))
        &&& (forall|k: u64| #[trigger] self.closed_keys().contains(k) ==> self.closed_ok(k, fl))
        &&& (forall|k: u64|
            !(#[trigger] self.live_records().contains_key(k)) && !self.closed_keys().contains(k)
                ==> self.gone_ok(k, fl))
        &&& (forall|k: u64| #[trigger] self.announced@.contains_key(k) ==> self.announced@[k].id == k)
        &&& (forall|k: u64|
            #[trigger] self.announced@.contains_key(k) && !self.closed_keys().contains(k)
                ==> self.live_records().contains_key(k) && self.live_records()[k].auction == Some(
                self.announced@[k],
            ))
        &&& (forall|i: int|
            0 <= i < self.emissions().len() ==> self.log_entry_ok(#[trigger] self.emissions()[i]))
        &&& (forall|i: int, j: int|
            0 <= i < self.emissions().len() && 0 <= j < self.emissions().len() && i != j
                ==> (#[trigger] self.emissions()[i]).1.id != (#[trigger] self.emissions()[j]).1.id)
    }

    /// Full well-formedness between operator callbacks.
    pub closed spec fn wf(self) -> bool {
        &&& self.records.wf()
        &&& self.tracker.wf()
        &&& self.state_ok(self.tracker.floor())
        &&& self.opens.all_at_or_after(self.tracker.floor())
        &&& (self.tracker.obligation() is None ==> self.opens.entries().len() == 0)
        &&& (self.tracker.obligation() matches Some(c) ==> {
            &&& self.opens.all_at_or_after(c)
            &&& exists|i: int|
                0 <= i < self.opens.entries().len() && (#[trigger] self.opens.entries()[i]).0 == c
        })
        &&& (forall|i: int|
            0 <= i < self.emissions().len()
                ==> (#[trigger] self.emissions()[i]).0 <= self.tracker.last_emit())
        &&& (forall|i: int, j: int|
            0 <= i <= j < self.emissions().len()
                ==> (#[trigger] self.emissions()[i]).0 <= (#[trigger] self.emissions()[j]).0)
    }

    /// A fresh operator instance over the chosen completion mode.
    pub fn new(queued_backend: bool) -> (r: Self)
        ensures
            r.wf(),
            r.live_records() == Map::<u64, AuctionRecord>::empty(),
            r.emissions() == Seq::<(u64, Auction, Bid)>::empty(),
            r.closed_keys() == Set::<u64>::empty(),
            r.floor() == 0,
            forall|k: u64| r.seen_bids(k) == Seq::<Bid>::empty(),
            forall|k: u64| r.auction_of(k) is None,
    {
        let r = AuctionClose {
            records: if queued_backend {
                StateCell::new_queued()
            } else {
                StateCell::new_direct()
            },
            opens: ExpiryQueue::new(),
            tracker: Watermark::new(),
            history: Ghost(Map::empty()),
            announced: Ghost(Map::empty()),
            closed: Ghost(Set::empty()),
            log: Ghost(Seq::empty()),
        };
        r
    }

    /// Record one bid.
    ///
    /// If the auction is already known the bid is validated at once and
    /// kept only if it beats the current best valid bid; otherwise it is
    /// buffered unvalidated and an obligation to revisit the key at the
    /// bid's own time is scheduled.
    pub fn on_bid(&mut self, bid: Bid)
        requires
            old(self).wf(),
            bid.date_time >= old(self).floor(),
        ensures
            final(self).wf(),
            final(self).floor() == old(self).floor(),
            final(self).emissions() == old(self).emissions(),
            final(self).closed_keys() == old(self).closed_keys(),
            forall|k: u64| final(self).auction_of(k) == old(self).auction_of(k),
            final(self).seen_bids(bid.auction) == old(self).seen_bids(bid.auction).push(bid),
            forall|k: u64| k != bid.auction ==> final(self).seen_bids(k) == old(self).seen_bids(k),
    {
        let k = bid.auction;
        let ghost pre = *old(self);
        let ghost seen1 = pre.seen_bids(k).push(bid);
        let entry_opt = self.records.remove(k);
        let mut entry = match entry_opt {
            Some(e) => e,
            None => AuctionRecord { auction: None, bids: Vec::new() },
        };
        match &entry.auction {
            Some(a) => {
                if is_valid_bid(&bid, a) {
                    if entry.bids.len() > 0 {
                        if entry.bids[0].price < bid.price {
                            let _ = entry.bids.pop();
                            entry.bids.push(bid);
                        }
                    } else {
                        entry.bids.push(bid);
                    }
                }
            }
            None => {
                self.opens.push(bid.date_time, k);
                self.tracker.observe(bid.date_time);
                entry.bids.push(bid);
            }
        }
        let ghost stored = entry;
        self.records.insert(k, entry);
        proof {
            self.history@ = self.history@.insert(k, seen1);
            let post = *self;
            let fl = pre.tracker.floor();
            lemma_seq_push_contains(pre.seen_bids(k), bid);
            assert(post.seen_bids(k) == seen1);
            assert forall|k2: u64| #[trigger] post.live_records().contains_key(k2) implies post.rec_ok(
                k2,
                fl,
            ) by {
                if k2 == k {
                    assert(post.live_records()[k] == stored);
                    match stored.auction {
                        Some(a) => {
                            assert(pre.live_records().contains_key(k));
                            assert(pre.rec_ok(k, fl));
                            let pre_rec = pre.live_records()[k];
                            assert(pre_rec.auction == Some(a));
                            // the close stamp stays scheduled: the queue is untouched
                            let i = choose|i: int|
                                0 <= i < pre.opens.entries().len() && pre.opens.entries()[i] == (
                                a.expires,
                                k,
                                );
                            assert(post.opens.entries()[i] == (a.expires, k));
                            // a newly-invalid bid never improves the slot; a valid one
                            // lands in the slot exactly when it beats it
                            if spec_valid_bid(bid, a) {
                                if pre_rec.bids@.len() == 0 {
                                    assert(stored.bids@ == pre_rec.bids@.push(bid));
                                    assert(is_best_valid(a, seen1, bid)) by {
                                        assert forall|i2: int|
                                            0 <= i2 < seen1.len() && spec_valid_bid(
                                                #[trigger] seen1[i2],
                                                a,
                                            ) implies seen1[i2].price <= bid.price by {
                                            if i2 < pre.seen_bids(k).len() {
                                                assert(pre.seen_bids(k)[i2] == seen1[i2]);
                                                assert(spec_valid_bid(pre.seen_bids(k)[i2], a));
                                                assert(has_valid_bid(a, pre.seen_bids(k)));
                                            }
                                        }
                                    }
                                } else {
                                    let b0 = pre_rec.bids@[0];
                                    assert(is_best_valid(a, pre.seen_bids(k), b0));
                                    if b0.price < bid.price {
                                        assert(stored.bids@ =~= seq![bid]);
                                        assert(is_best_valid(a, seen1, bid)) by {
                                            assert forall|i2: int|
                                                0 <= i2 < seen1.len() && spec_valid_bid(
                                                    #[trigger] seen1[i2],
                                                    a,
                                                ) implies seen1[i2].price <= bid.price by {
                                                if i2 < pre.seen_bids(k).len() {
                                                    assert(pre.seen_bids(k)[i2] == seen1[i2]);
                                                }
                                            }
                                        }
                                    } else {
                                        assert(stored.bids@ == pre_rec.bids@);
                                        assert(is_best_valid(a, seen1, b0)) by {
                                            assert forall|i2: int|
                                                0 <= i2 < seen1.len() && spec_valid_bid(
                                                    #[trigger] seen1[i2],
                                                    a,
                                                ) implies seen1[i2].price <= b0.price by {
                                                if i2 < pre.seen_bids(k).len() {
                                                    assert(pre.seen_bids(k)[i2] == seen1[i2]);
                                                }
                                            }
                                        }
                                    }
                                }
                            } else {
                                assert(stored.bids@ == pre_rec.bids@);
                                if stored.bids@.len() == 1 {
                                    let b0 = pre_rec.bids@[0];
                                    assert(is_best_valid(a, seen1, b0)) by {
                                        assert forall|i2: int|
                                            0 <= i2 < seen1.len() && spec_valid_bid(
                                                #[trigger] seen1[i2],
                                                a,
                                            ) implies seen1[i2].price <= b0.price by {
                                            if i2 < pre.seen_bids(k).len() {
                                                assert(pre.seen_bids(k)[i2] == seen1[i2]);
                                            }
                                        }
                                    }
                                } else {
                                    assert(!has_valid_bid(a, seen1)) by {
                                        assert forall|i2: int| 0 <= i2 < seen1.len() implies !spec_valid_bid(
                                            #[trigger] seen1[i2],
                                            a,
                                        ) by {
                                            if i2 < pre.seen_bids(k).len() {
                                                assert(pre.seen_bids(k)[i2] == seen1[i2]);
                                                assert(!has_valid_bid(a, pre.seen_bids(k)));
                                            }
                                        }
                                    }
                                }
                            }
                        }
                        None => {
                            assert forall|i2: int| 0 <= i2 < stored.bids@.len() implies seen1.contains(
                                #[trigger] stored.bids@[i2],
                            ) by {
                                if i2 < stored.bids@.len() - 1 {
                                    assert(pre.live_records().contains_key(k));
                                    assert(pre.rec_ok(k, fl));
                                    assert(pre.seen_bids(k).contains(stored.bids@[i2]));
                                } else {
                                    assert(stored.bids@[i2] == bid);
                                }
                            }
                            if !post.announced@.contains_key(k) {
                                assert forall|b: Bid| seen1.contains(b) implies stored.bids@.contains(
                                    b,
                                ) || b.date_time < fl || b.date_time == u64::MAX by {
                                    if b == bid {
                                        assert(stored.bids@[stored.bids@.len() - 1] == bid);
                                    } else {
                                        assert(pre.seen_bids(k).contains(b));
                                        if pre.live_records().contains_key(k) {
                                            assert(pre.rec_ok(k, fl));
                                            if pre.live_records()[k].bids@.contains(b) {
                                                let i2 = choose|i2: int|
                                                    0 <= i2 < pre.live_records()[k].bids@.len()
                                                        && pre.live_records()[k].bids@[i2] == b;
                                                assert(stored.bids@[i2] == b);
                                            }
                                        } else {
                                            // the key cannot be closed: a close implies an
                                            // announced auction, and this key has none
                                            assert(!pre.closed_keys().contains(k)) by {
                                                if pre.closed_keys().contains(k) {
                                                    assert(pre.closed_ok(k, fl));
                                                }
                                            }
                                            assert(pre.gone_ok(k, fl));
                                        }
                                    }
                                }
                            }
                        }
                    }
                } else {
                    assert(pre.live_records().contains_key(k2));
                    assert(pre.rec_ok(k2, fl));
                    assert(post.live_records()[k2] == pre.live_records()[k2]);
                    assert(post.seen_bids(k2) == pre.seen_bids(k2));
                    match post.live_records()[k2].auction {
                        Some(a2) => {
                            let i = choose|i: int|
                                0 <= i < pre.opens.entries().len() && pre.opens.entries()[i] == (
                                a2.expires,
                                k2,
                                );
                            assert(post.opens.entries()[i] == (a2.expires, k2));
                        }
                        None => {}
                    }
                }
            }
            assert forall|k2: u64| #[trigger] post.closed_keys().contains(k2) implies post.closed_ok(
                k2,
                fl,
            ) by {
                assert(pre.closed_ok(k2, fl));
            }
            assert forall|k2: u64|
                !(#[trigger] post.live_records().contains_key(k2)) && !post.closed_keys().contains(
                    k2,
                ) implies post.gone_ok(k2, fl) by {
                assert(post.live_records().contains_key(k));
                assert(k2 != k);
                assert(!pre.live_records().contains_key(k2));
                assert(pre.gone_ok(k2, fl));
                assert(post.seen_bids(k2) == pre.seen_bids(k2));
            }
            assert(post.emissions() == pre.emissions());
            assert forall|i: int| 0 <= i < post.emissions().len() implies post.log_entry_ok(
                #[trigger] post.emissions()[i],
            ) by {
                let e = post.emissions()[i];
                assert(e == pre.emissions()[i]);
                assert(pre.log_entry_ok(e));
                if e.1.id == k {
                    // the key is closed, so the new bid arrives at or after the
                    // expiry and cannot be valid: the winner stays the winner
                    assert(pre.closed_ok(k, fl));
                    assert(!spec_valid_bid(bid, e.1));
                    assert(is_best_valid(e.1, seen1, e.2)) by {
                        assert forall|i2: int|
                            0 <= i2 < seen1.len() && spec_valid_bid(#[trigger] seen1[i2], e.1) implies
                            seen1[i2].price <= e.2.price by {
                            if i2 < pre.seen_bids(k).len() {
                                assert(pre.seen_bids(k)[i2] == seen1[i2]);
                            }
                        }
                    }
                }
            }
            assert forall|k2: u64|
                #[trigger] post.announced@.contains_key(k2) && !post.closed_keys().contains(k2) implies
                post.live_records().contains_key(k2) && post.live_records()[k2].auction == Some(
                post.announced@[k2],
            ) by {
                assert(pre.announced@.contains_key(k2) && !pre.closed_keys().contains(k2));
                assert(pre.live_records().contains_key(k2));
                if k2 == k {
                    assert(post.live_records()[k] == stored);
                } else {
                    assert(post.live_records()[k2] == pre.live_records()[k2]);
                }
            }
            assert(post.state_ok(fl));
            // the scheduler and the obligation stay linked
            assert forall|i: int| 0 <= i < post.opens.entries().len() implies (
            #[trigger] post.opens.entries()[i]).0 >= fl by {
                if i < pre.opens.entries().len() {
                    assert(post.opens.entries()[i] == pre.opens.entries()[i]);
                    assert(pre.opens.entries()[i].0 >= fl);
                }
            }
            match post.tracker.obligation() {
                None => {
                    assert(post.opens.entries() == pre.opens.entries());
                    assert(pre.tracker.obligation() is None);
                }
                Some(c) => {
                    assert forall|i: int| 0 <= i < post.opens.entries().len() implies (
                    #[trigger] post.opens.entries()[i]).0 >= c by {
                        if i < pre.opens.entries().len() {
                            assert(post.opens.entries()[i] == pre.opens.entries()[i]);
                        }
                    }
                    if post.opens.entries().len() > pre.opens.entries().len() && c
                        == bid.date_time {
                        assert(post.opens.entries()[pre.opens.entries().len() as int].0 == c);
                    } else {
                        let w = choose|w: int|
                            0 <= w < pre.opens.entries().len() && (
                            #[trigger] pre.opens.entries()[w]).0 == c;
                        assert(post.opens.entries()[w].0 == c);
                    }
                }
            }
        }
    }
}

impl AuctionClose {
    /// Record the auction event itself.
    ///
    /// Each auction id arrives at most once. An obligation to close the
    /// auction at its expiry is scheduled, and every provisionally
    /// buffered bid is re-validated against the now-known auction: only
    /// the single highest-price valid bid is kept.
    pub fn on_auction(&mut self, auction: Auction)
        requires
            old(self).wf(),
            old(self).auction_of(auction.id) is None,
            auction.expires >= old(self).floor(),
            auction.date_time >= old(self).floor(),
        ensures
            final(self).wf(),
            final(self).floor() == old(self).floor(),
            final(self).emissions() == old(self).emissions(),
            final(self).closed_keys() == old(self).closed_keys(),
            forall|k: u64| final(self).seen_bids(k) == old(self).seen_bids(k),
            final(self).auction_of(auction.id) == Some(auction),
            forall|k: u64|
                k != auction.id ==> final(self).auction_of(k) == old(self).auction_of(k),
    {
        let k = auction.id;
        let ghost pre = *old(self);
        self.tracker.observe(auction.expires);
        self.opens.push(auction.expires, k);
        let entry_opt = self.records.remove(k);
        let mut entry = match entry_opt {
            Some(e) => e,
            None => AuctionRecord { auction: None, bids: Vec::new() },
        };
        proof {
            // were the auction already present, it would have been announced
            if pre.live_records().contains_key(k) {
                assert(pre.rec_ok(k, pre.tracker.floor()));
            }
            assert(entry.auction is None);
        }
        let ghost buf = entry.bids@;
        let mut best: Option<Bid> = None;
        let mut i: usize = 0;
        while i < entry.bids.len()
            invariant
                entry.bids@ == buf,
                i <= buf.len(),
                match best {
                    None => forall|j: int| 0 <= j < i ==> !spec_valid_bid(#[trigger] buf[j], auction),
                    Some(b) => {
                        &&& spec_valid_bid(b, auction)
                        &&& exists|j: int| 0 <= j < i && buf[j] == b
                        &&& forall|j: int|
                            0 <= j < i && spec_valid_bid(#[trigger] buf[j], auction)
                                ==> buf[j].price <= b.price
                    },
                },
            decreases buf.len() - i,
        {
            let b = entry.bids[i];
            if is_valid_bid(&b, &auction) {
                match best {
                    None => {
                        best = Some(b);
                    }
                    Some(bb) => {
                        // on a price tie the later buffered bid is kept
                        if bb.price <= b.price {
                            best = Some(b);
                        }
                    }
                }
            }
            i = i + 1;
        }
        entry.bids = Vec::new();
        match best {
            Some(b) => {
                entry.bids.push(b);
            }
            None => {}
        }
        entry.auction = Some(auction);
        let ghost stored = entry;
        self.records.insert(k, entry);
        proof {
            self.announced@ = self.announced@.insert(k, auction);
            let post = *self;
            let fl = pre.tracker.floor();
            assert forall|k2: u64| #[trigger] post.live_records().contains_key(k2) implies post.rec_ok(
                k2,
                fl,
            ) by {
                if k2 == k {
                    assert(post.live_records()[k] == stored);
                    assert(post.auction_of(k) == Some(auction));
                    // a closed key is an announced key, and this one was not announced
                    assert(!post.closed_keys().contains(k)) by {
                        if pre.closed_keys().contains(k) {
                            assert(pre.closed_ok(k, fl));
                        }
                    }
                    // pre-state buffered bids stand for every bid that could
                    // still be valid: dropped ones are before the floor, hence
                    // before this auction's creation
                    let seen = pre.seen_bids(k);
                    assert(post.seen_bids(k) == seen);
                    match stored.bids@.len() == 1 {
                        true => {
                            let b = stored.bids@[0];
                            assert(best == Some(b));
                            assert(seen.contains(b)) by {
                                let j = choose|j: int| 0 <= j < buf.len() && buf[j] == b;
                                if pre.live_records().contains_key(k) {
                                    assert(pre.rec_ok(k, fl));
                                    assert(pre.live_records()[k].bids@ == buf);
                                    assert(seen.contains(buf[j]));
                                }
                            }
                            assert forall|i2: int|
                                0 <= i2 < seen.len() && spec_valid_bid(#[trigger] seen[i2], auction) implies
                                seen[i2].price <= b.price by {
                                lemma_buffered_covers_valid(pre, k, fl, auction, seen[i2]);
                                let b2 = seen[i2];
                                assert(buf.contains(b2));
                                let j2 = choose|j2: int| 0 <= j2 < buf.len() && buf[j2] == b2;
                                assert(buf[j2].price <= b.price);
                            }
                            assert(is_best_valid(auction, seen, b));
                        }
                        false => {
                            assert(stored.bids@.len() == 0);
                            assert(best is None);
                            assert(!has_valid_bid(auction, seen)) by {
                                assert forall|i2: int| 0 <= i2 < seen.len() implies !spec_valid_bid(
                                    #[trigger] seen[i2],
                                    auction,
                                ) by {
                                    lemma_buffered_covers_valid(pre, k, fl, auction, seen[i2]);
                                    if spec_valid_bid(seen[i2], auction) {
                                        let j2 = choose|j2: int|
                                            0 <= j2 < buf.len() && buf[j2] == seen[i2];
                                        assert(!spec_valid_bid(buf[j2], auction));
                                    }
                                }
                            }
                        }
                    }
                    assert(post.opens.entries()[pre.opens.entries().len() as int] == (
                    auction.expires,
                    k,
                    ));
                } else {
                    assert(pre.live_records().contains_key(k2));
                    assert(pre.rec_ok(k2, fl));
                    assert(post.live_records()[k2] == pre.live_records()[k2]);
                    assert(post.seen_bids(k2) == pre.seen_bids(k2));
                    match post.live_records()[k2].auction {
                        Some(a2) => {
                            let w = choose|w: int|
                                0 <= w < pre.opens.entries().len() && pre.opens.entries()[w] == (
                                a2.expires,
                                k2,
                                );
                            assert(post.opens.entries()[w] == (a2.expires, k2));
                        }
                        None => {}
                    }
                }
            }
            assert forall|k2: u64| #[trigger] post.closed_keys().contains(k2) implies post.closed_ok(
                k2,
                fl,
            ) by {
                assert(pre.closed_keys().contains(k2));
                assert(pre.closed_ok(k2, fl));
                assert(k2 != k);
                assert(post.auction_of(k2) == pre.auction_of(k2));
            }
            assert forall|k2: u64|
                !(#[trigger] post.live_records().contains_key(k2)) && !post.closed_keys().contains(
                    k2,
                ) implies post.gone_ok(k2, fl) by {
                assert(post.live_records().contains_key(k));
                assert(k2 != k);
                assert(!pre.live_records().contains_key(k2));
                assert(pre.gone_ok(k2, fl));
                assert(post.seen_bids(k2) == pre.seen_bids(k2));
            }
            assert(post.emissions() == pre.emissions());
            assert forall|i2: int| 0 <= i2 < post.emissions().len() implies post.log_entry_ok(
                #[trigger] post.emissions()[i2],
            ) by {
                let e = post.emissions()[i2];
                assert(e == pre.emissions()[i2]);
                assert(pre.log_entry_ok(e));
                assert(e.1.id != k);
                assert(post.seen_bids(e.1.id) == pre.seen_bids(e.1.id));
            }
            assert forall|k2: u64|
                #[trigger] post.announced@.contains_key(k2) && !post.closed_keys().contains(k2) implies
                post.live_records().contains_key(k2) && post.live_records()[k2].auction == Some(
                post.announced@[k2],
            ) by {
                if k2 == k {
                    assert(post.live_records()[k] == stored);
                } else {
                    assert(pre.announced@.contains_key(k2) && !pre.closed_keys().contains(k2));
                    assert(post.live_records()[k2] == pre.live_records()[k2]);
                }
            }
            assert(post.state_ok(fl));
            assert forall|i2: int| 0 <= i2 < post.opens.entries().len() implies (
            #[trigger] post.opens.entries()[i2]).0 >= fl by {
                if i2 < pre.opens.entries().len() {
                    assert(post.opens.entries()[i2] == pre.opens.entries()[i2]);
                    assert(pre.opens.entries()[i2].0 >= fl);
                }
            }
            match post.tracker.obligation() {
                None => {
                    assert(false);
                }
                Some(c) => {
                    assert forall|i2: int| 0 <= i2 < post.opens.entries().len() implies (
                    #[trigger] post.opens.entries()[i2]).0 >= c by {
                        if i2 < pre.opens.entries().len() {
                            assert(post.opens.entries()[i2] == pre.opens.entries()[i2]);
                        }
                    }
                    if c == auction.expires {
                        assert(post.opens.entries()[pre.opens.entries().len() as int].0 == c);
                    } else {
                        let w = choose|w: int|
                            0 <= w < pre.opens.entries().len() && (
                            #[trigger] pre.opens.entries()[w]).0 == c;
                        assert(post.opens.entries()[w].0 == c);
                    }
                }
            }
        }
    }
}

impl AuctionClose {
    /// Invariant carried through one resolution round: `cur` is the
    /// operator mid-round, `c` the obligation held on entry, `outv` the
    /// output so far.
    spec fn advance_inv(
        pre: AuctionClose,
        cur: AuctionClose,
        bound: u64,
        c: u64,
        outv: Seq<(Auction, Bid)>,
    ) -> bool {
        &&& pre.wf()
        &&& bound >= pre.tracker.floor()
        &&& pre.tracker.obligation() == Some(c)
        &&& cur.tracker == pre.tracker
        &&& cur.history == pre.history
        &&& cur.announced == pre.announced
        &&& cur.records.wf()
        &&& cur.state_ok(bound)
        &&& cur.opens.all_at_or_after(pre.tracker.floor())
        &&& cur.opens.all_at_or_after(c)
        &&& cur.log@.len() == pre.log@.len() + outv.len()
        &&& (forall|i: int| 0 <= i < pre.log@.len() ==> #[trigger] cur.log@[i] == pre.log@[i])
        &&& (forall|i: int|
            0 <= i < outv.len() ==> cur.log@[pre.log@.len() + i] == (
            c,
            (#[trigger] outv[i]).0,
            outv[i].1,
            ))
        &&& (outv.len() > 0 ==> (bound == u64::MAX || c < bound))
        &&& (forall|k: u64|
            #[trigger] pre.closed_keys().contains(k) ==> cur.closed_keys().contains(k))
        &&& (forall|k: u64|
            (#[trigger] pre.live_records().contains_key(k)) && pre.live_records()[k].auction
                is Some ==> (cur.live_records().contains_key(k) && cur.live_records()[k]
                == pre.live_records()[k]) || (cur.closed_keys().contains(k) && (
            pre.live_records()[k].bids@.len() == 1 ==> exists|i: int|
                0 <= i < outv.len() && outv[i] == (
                pre.live_records()[k].auction->0,
                pre.live_records()[k].bids@[0],
                ))))
        &&& (forall|k: u64|
            (#[trigger] cur.live_records().contains_key(k)) ==> pre.live_records().contains_key(k)
                && cur.live_records()[k].auction == pre.live_records()[k].auction)
        &&& (forall|k: u64|
            #[trigger] cur.closed_keys().contains(k) && !pre.closed_keys().contains(k)
                ==> pre.auction_of(k) is Some && spec_due(pre.auction_of(k)->0.expires, bound))
    }

    /// Consume an advanced completeness bound `bound`: both inputs
    /// guarantee no future delivery before `bound` (`u64::MAX` means no
    /// further delivery at all). Resolves every scheduled obligation
    /// strictly before the bound in ascending time order: a due auction
    /// closes — its record is removed and, if a valid bid is held, the
    /// `(auction, winning bid)` pair is emitted exactly once, stamped
    /// with the obligation current on entry — and stale provisional
    /// entries are cleaned up. Afterwards the obligation is downgraded
    /// to the new scheduler minimum.
    pub fn advance(&mut self, bound: u64) -> (out: Vec<(Auction, Bid)>)
        requires
            old(self).wf(),
            bound >= old(self).floor(),
        ensures
            final(self).wf(),
            final(self).floor() == bound,
            forall|k: u64| final(self).seen_bids(k) == old(self).seen_bids(k),
            forall|k: u64| final(self).auction_of(k) == old(self).auction_of(k),
            forall|k: u64|
                old(self).closed_keys().contains(k) ==> final(self).closed_keys().contains(k),
            // the emission log grows by exactly this call's output, all
            // stamped with the obligation held on entry
            final(self).emissions().len() == old(self).emissions().len() + out@.len(),
            forall|i: int|
                0 <= i < old(self).emissions().len() ==> final(self).emissions()[i] == old(
                    self,
                ).emissions()[i],
            out@.len() > 0 ==> old(self).obligation() is Some,
            forall|i: int|
                0 <= i < out@.len() ==> final(self).emissions()[old(self).emissions().len() + i]
                    == (old(self).obligation()->0, out@[i].0, out@[i].1),
            // every auction whose expiry the bound proves past is closed,
            // and its winner (when one is held) is in the output
            forall|k: u64|
                (#[trigger] old(self).live_records().contains_key(k))
                    && old(self).live_records()[k].auction is Some && spec_due(
                    old(self).live_records()[k].auction->0.expires,
                    bound,
                ) ==> !final(self).live_records().contains_key(k)
                    && final(self).closed_keys().contains(k),
            forall|k: u64|
                (#[trigger] old(self).live_records().contains_key(k))
                    && old(self).live_records()[k].auction is Some && spec_due(
                    old(self).live_records()[k].auction->0.expires,
                    bound,
                ) && old(self).live_records()[k].bids@.len() == 1 ==> exists|i: int|
                    0 <= i < out@.len() && out@[i] == (
                    old(self).live_records()[k].auction->0,
                    old(self).live_records()[k].bids@[0],
                    ),
            // records never appear from nowhere, and their auction field
            // is never rewritten here
            forall|k: u64|
                (#[trigger] final(self).live_records().contains_key(k)) ==> old(
                    self,
                ).live_records().contains_key(k) && final(self).live_records()[k].auction == old(
                    self,
                ).live_records()[k].auction,
            // the closed set grows only by auctions whose expiry the bound
            // proves past: nothing closes or is emitted early
            forall|k: u64|
                #[trigger] final(self).closed_keys().contains(k) && !old(
                    self,
                ).closed_keys().contains(k) ==> old(self).auction_of(k) is Some && spec_due(
                    old(self).auction_of(k)->0.expires,
                    bound,
                ),
            // caller-visible completeness: every announced, not yet closed
            // auction whose expiry the bound proves past closes now, and
            // when a valid bid was received its best valid bid is emitted
            forall|k: u64|
                (#[trigger] old(self).auction_of(k)) is Some && !old(self).closed_keys().contains(
                    k,
                ) && spec_due(old(self).auction_of(k)->0.expires, bound)
                    ==> final(self).closed_keys().contains(k),
            forall|k: u64|
                (#[trigger] old(self).auction_of(k)) is Some && !old(self).closed_keys().contains(
                    k,
                ) && spec_due(old(self).auction_of(k)->0.expires, bound) && has_valid_bid(
                    old(self).auction_of(k)->0,
                    old(self).seen_bids(k),
                ) ==> exists|i: int|
                    0 <= i < out@.len() && (#[trigger] out@[i]).0 == old(self).auction_of(k)->0
                        && is_best_valid(
                        old(self).auction_of(k)->0,
                        old(self).seen_bids(k),
                        out@[i].1,
                    ),
    {
        let ghost pre = *old(self);
        let ghost fl = pre.tracker.floor();
        let mut out: Vec<(Auction, Bid)> = Vec::new();
        let cap_opt = self.tracker.obligation_time();
        let c: u64;
        match cap_opt {
            None => {
                proof {
                    // with no obligation nothing is scheduled, so no
                    // auction-known record can exist
                    assert(pre.opens.entries().len() == 0);
                    assert forall|k: u64|
                        (#[trigger] pre.live_records().contains_key(k))
                            && pre.live_records()[k].auction is Some implies false by {
                        assert(pre.rec_ok(k, fl));
                        let a = pre.live_records()[k].auction->0;
                        let w = choose|w: int|
                            0 <= w < pre.opens.entries().len() && pre.opens.entries()[w] == (
                            a.expires,
                            k,
                            );
                    }
                }
                self.tracker.retire(bound, None, false);
                proof {
                    lemma_state_ok_congruence(pre, *self, fl);
                    lemma_state_ok_weaken(*self, fl, bound);
                    assert forall|k: u64|
                        (#[trigger] pre.auction_of(k)) is Some && !pre.closed_keys().contains(k) implies
                        false by {
                        assert(pre.announced@.contains_key(k));
                        assert(pre.live_records().contains_key(k) && pre.live_records()[k].auction
                            == Some(pre.announced@[k]));
                    }
                }
                return out;
            }
            Some(cv) => {
                c = cv;
            }
        }
        proof {
            lemma_state_ok_weaken(*self, fl, bound);
            assert(Self::advance_inv(pre, *self, bound, c, out@));
        }
        loop
            invariant
                Self::advance_inv(pre, *self, bound, c, out@),
                fl == pre.tracker.floor(),
            ensures
                Self::advance_inv(pre, *self, bound, c, out@),
                fl == pre.tracker.floor(),
                forall|i: int|
                    0 <= i < self.opens.entries().len() ==> !spec_due(
                        (#[trigger] self.opens.entries()[i]).0,
                        bound,
                    ),
            decreases self.opens.entries().len(),
        {
            let ghost iter = *self;
            let due_head = match self.opens.peek_min() {
                None => false,
                Some(p) => is_due(p.0, bound),
            };
            if !due_head {
                break;
            }
            let popped = self.opens.pop_min();
            match popped {
                None => {
                    proof {
                        assert(false);
                    }
                }
                Some((t, k)) => {
                    let ghost idx = choose|i: int|
                        0 <= i < iter.opens.entries().len() && iter.opens.entries()[i] == (t, k)
                            && self.opens.entries() == iter.opens.entries().remove(i);
                    proof {
                        assert(spec_due(t, bound));
                        assert(iter.opens.entries()[idx].0 >= c);
                        assert(iter.opens.entries()[idx].0 >= fl);
                    }
                    let rec_opt = self.records.remove(k);
                    match rec_opt {
                        None => {
                            proof {
                                assert(!iter.live_records().contains_key(k));
                                assert(self.records.contents() =~= iter.records.contents());
                                lemma_advance_step_unchanged(
                                    pre,
                                    iter,
                                    *self,
                                    bound,
                                    c,
                                    out@,
                                    k,
                                    t,
                                    idx,
                                );
                            }
                        }
                        Some(mut rec) => {
                            let a_opt = rec.auction;
                            match a_opt {
                                Some(a) => {
                                    if t == a.expires {
                                        // the auction's close: emit at most once,
                                        // remove the record unconditionally
                                        let ghost out0 = out@;
                                        proof {
                                            assert(iter.rec_ok(k, bound));
                                        }
                                        let winner_opt = rec.bids.pop();
                                        match winner_opt {
                                            Some(winner) => {
                                                out.push((a, winner));
                                                proof {
                                                    self.log@ = self.log@.push((c, a, winner));
                                                    self.closed@ = self.closed@.insert(k);
                                                    lemma_advance_step_close(
                                                        pre,
                                                        iter,
                                                        *self,
                                                        bound,
                                                        c,
                                                        out0,
                                                        out@,
                                                        k,
                                                        t,
                                                        a,
                                                        Some(winner),
                                                        idx,
                                                    );
                                                }
                                            }
                                            None => {
                                                proof {
                                                    self.closed@ = self.closed@.insert(k);
                                                    lemma_advance_step_close(
                                                        pre,
                                                        iter,
                                                        *self,
                                                        bound,
                                                        c,
                                                        out0,
                                                        out@,
                                                        k,
                                                        t,
                                                        a,
                                                        None,
                                                        idx,
                                                    );
                                                }
                                            }
                                        }
                                    } else {
                                        self.records.insert(k, rec);
                                        proof {
                                            assert(self.records.contents()
                                                =~= iter.records.contents());
                                            lemma_advance_step_unchanged(
                                                pre,
                                                iter,
                                                *self,
                                                bound,
                                                c,
                                                out@,
                                                k,
                                                t,
                                                idx,
                                            );
                                        }
                                    }
                                }
                                None => {
                                    // a stale provisional reconsideration: drop the
                                    // bids the cutoff proves unresolvable
                                    let mut kept: Vec<Bid> = Vec::new();
                                    let mut i: usize = 0;
                                    let ghost bf = rec.bids@;
                                    while i < rec.bids.len()
                                        invariant
                                            rec.bids@ == bf,
                                            i <= bf.len(),
                                            forall|j: int|
                                                0 <= j < kept@.len() ==> bf.contains(
                                                    #[trigger] kept@[j],
                                                ) && kept@[j].date_time > t,
                                            forall|j: int|
                                                0 <= j < i && #[trigger] bf[j].date_time > t
                                                    ==> kept@.contains(bf[j]),
                                        decreases bf.len() - i,
                                    {
                                        let b = rec.bids[i];
                                        let ghost k0 = kept@;
                                        if b.date_time > t {
                                            kept.push(b);
                                            proof {
                                                assert(bf.contains(b)) by {
                                                    assert(bf[i as int] == b);
                                                }
                                                assert forall|j: int|
                                                    0 <= j < i + 1 && #[trigger] bf[j].date_time
                                                        > t implies kept@.contains(bf[j]) by {
                                                    if j < i {
                                                        assert(k0.contains(bf[j]));
                                                        let w = choose|w: int|
                                                            0 <= w < k0.len() && k0[w] == bf[j];
                                                        assert(kept@[w] == bf[j]);
                                                    } else {
                                                        assert(kept@[kept@.len() - 1] == bf[j]);
                                                    }
                                                }
                                            }
                                        } else {
                                            proof {
                                                assert forall|j: int|
                                                    0 <= j < i + 1 && #[trigger] bf[j].date_time
                                                        > t implies kept@.contains(bf[j]) by {}
                                            }
                                        }
                                        i = i + 1;
                                    }
                                    if kept.len() > 0 {
                                        rec.bids = kept;
                                        let ghost stored = rec;
                                        self.records.insert(k, rec);
                                        proof {
                                            assert(self.records.contents()
                                                =~= iter.records.contents().insert(k, stored));
                                            lemma_advance_step_prune(
                                                pre,
                                                iter,
                                                *self,
                                                bound,
                                                c,
                                                out@,
                                                k,
                                                t,
                                                Some(stored),
                                                bf,
                                                idx,
                                            );
                                        }
                                    } else {
                                        proof {
                                            lemma_advance_step_prune(
                                                pre,
                                                iter,
                                                *self,
                                                bound,
                                                c,
                                                out@,
                                                k,
                                                t,
                                                None,
                                                bf,
                                                idx,
                                            );
                                        }
                                    }
                                }
                            }
                        }
                    }
                }
            }
        }
        let new_min = match self.opens.peek_min() {
            None => None,
            Some(p) => Some(p.0),
        };
        let emitted = out.len() > 0;
        let ghost lp = *self;
        self.tracker.retire(bound, new_min, emitted);
        proof {
            let post = *self;
            lemma_state_ok_congruence(lp, post, bound);
            assert(post.state_ok(bound));
            assert forall|k: u64|
                (#[trigger] pre.live_records().contains_key(k))
                    && pre.live_records()[k].auction is Some && spec_due(
                    pre.live_records()[k].auction->0.expires,
                    bound,
                ) implies !post.live_records().contains_key(k) && post.closed_keys().contains(
                k,
            ) by {
                // were the record still live, its close stamp would still be
                // scheduled and due, contradicting the drained scheduler
                if post.live_records().contains_key(k) && post.live_records()[k]
                    == pre.live_records()[k] {
                    let a = pre.live_records()[k].auction->0;
                    assert(lp.rec_ok(k, bound));
                    let w = choose|w: int|
                        0 <= w < lp.opens.entries().len() && lp.opens.entries()[w] == (
                        a.expires,
                        k,
                        );
                    assert(!spec_due(lp.opens.entries()[w].0, bound));
                    assert(false);
                }
            }
            assert forall|i: int| 0 <= i < post.emissions().len() implies (
            #[trigger] post.emissions()[i]).0 <= post.tracker.last_emit() by {
                if i < pre.log@.len() {
                    assert(post.emissions()[i] == pre.log@[i]);
                    assert(pre.emissions()[i].0 <= pre.tracker.last_emit());
                } else {
                    assert(post.emissions()[i] == (
                    c,
                    out@[i - pre.log@.len()].0,
                    out@[i - pre.log@.len()].1,
                    ));
                }
            }
            assert forall|i: int, j: int| 0 <= i <= j < post.emissions().len() implies (
            #[trigger] post.emissions()[i]).0 <= (#[trigger] post.emissions()[j]).0 by {
                if i < pre.log@.len() {
                    assert(post.emissions()[i] == pre.log@[i]);
                    assert(pre.emissions()[i].0 <= pre.tracker.last_emit());
                } else {
                    assert(post.emissions()[i] == (
                    c,
                    out@[i - pre.log@.len()].0,
                    out@[i - pre.log@.len()].1,
                    ));
                }
                if j >= pre.log@.len() {
                    assert(post.emissions()[j] == (
                    c,
                    out@[j - pre.log@.len()].0,
                    out@[j - pre.log@.len()].1,
                    ));
                } else {
                    assert(post.emissions()[j] == pre.log@[j]);
                    assert(pre.emissions()[i].0 <= pre.emissions()[j].0);
                }
            }
            match post.tracker.obligation() {
                None => {
                    assert(post.opens.entries().len() == 0);
                }
                Some(cm) => {
                    assert(post.opens.all_at_or_after(cm));
                }
            }
            assert forall|k: u64|
                (#[trigger] pre.auction_of(k)) is Some && !pre.closed_keys().contains(k)
                    && spec_due(pre.auction_of(k)->0.expires, bound) implies post.closed_keys(
            ).contains(k) && (has_valid_bid(pre.auction_of(k)->0, pre.seen_bids(k)) ==> exists|i: int|
                0 <= i < out@.len() && (#[trigger] out@[i]).0 == pre.auction_of(k)->0
                    && is_best_valid(pre.auction_of(k)->0, pre.seen_bids(k), out@[i].1)) by {
                assert(pre.announced@.contains_key(k));
                let a = pre.announced@[k];
                assert(pre.live_records().contains_key(k) && pre.live_records()[k].auction == Some(
                    a,
                ));
                assert(pre.rec_ok(k, fl));
                assert(post.closed_keys().contains(k));
                if has_valid_bid(a, pre.seen_bids(k)) {
                    assert(pre.live_records()[k].bids@.len() == 1);
                    let w = pre.live_records()[k].bids@[0];
                    let i = choose|i: int|
                        0 <= i < out@.len() && out@[i] == (a, pre.live_records()[k].bids@[0]);
                    assert(out@[i].0 == a);
                    assert(is_best_valid(a, pre.seen_bids(k), out@[i].1));
                }
            }
        }
        out
    }
}

/// Single-winner law: for any auction id, at most one `(auction, bid)`
/// pair is ever emitted; its bid is a valid bid of maximum price among
/// every bid ever received for that auction; and when no valid bid was
/// received, nothing is emitted for it.
pub proof fn lemma_single_winner(op: AuctionClose, k: u64)
    requires
        op.wf(),
    ensures
        forall|i: int, j: int|
            0 <= i < op.emissions().len() && 0 <= j < op.emissions().len() && (
            #[trigger] op.emissions()[i]).1.id == k && (#[trigger] op.emissions()[j]).1.id == k
                ==> i == j,
        forall|i: int|
            0 <= i < op.emissions().len() && (#[trigger] op.emissions()[i]).1.id == k
                ==> op.auction_of(k) == Some(op.emissions()[i].1) && is_best_valid(
                op.emissions()[i].1,
                op.seen_bids(k),
                op.emissions()[i].2,
            ),
        forall|i: int|
            0 <= i < op.emissions().len() && (#[trigger] op.emissions()[i]).1.id == k
                ==> has_valid_bid(op.emissions()[i].1, op.seen_bids(k)),
{
    assert forall|i: int|
        0 <= i < op.emissions().len() && (#[trigger] op.emissions()[i]).1.id == k implies
        op.auction_of(k) == Some(op.emissions()[i].1) && is_best_valid(
        op.emissions()[i].1,
        op.seen_bids(k),
        op.emissions()[i].2,
    ) && has_valid_bid(op.emissions()[i].1, op.seen_bids(k)) by {
        assert(op.log_entry_ok(op.emissions()[i]));
        let b = op.emissions()[i].2;
        let w = choose|w: int| 0 <= w < op.seen_bids(k).len() && op.seen_bids(k)[w] == b;
        assert(spec_valid_bid(op.seen_bids(k)[w], op.emissions()[i].1));
    }
}

/// Late-bid immunity law: every emitted winner met the validity window —
/// its time lies in `[creation, expiry)` and its price meets the reserve —
/// so a bid at or after the expiry is never part of winner selection.
pub proof fn lemma_late_bid_immunity(op: AuctionClose, i: int)
    requires
        op.wf(),
        0 <= i < op.emissions().len(),
    ensures
        op.emissions()[i].2.date_time < op.emissions()[i].1.expires,
        op.emissions()[i].1.date_time <= op.emissions()[i].2.date_time,
        op.emissions()[i].2.price >= op.emissions()[i].1.reserve,
{
    assert(op.log_entry_ok(op.emissions()[i]));
}

/// Monotonic-output law: the emitted output timestamps of one operator
/// instance never decrease.
pub proof fn lemma_monotonic_output(op: AuctionClose, i: int, j: int)
    requires
        op.wf(),
        0 <= i <= j < op.emissions().len(),
    ensures
        op.emissions()[i].0 <= op.emissions()[j].0,
{
}

/// Order-independence law: the winner for an auction is determined by the
/// collection of bids received, not by their arrival order. Two operator
/// instances that saw the same auction and the same bids, in any
/// interleaving — buffered-then-validated or validated on arrival — emit
/// the same winning pair. Excluded are bid histories in which two valid
/// bids share a price: there, which of the equal-priced bids is kept may
/// depend on arrival order.
pub proof fn lemma_order_independence(
    op1: AuctionClose,
    op2: AuctionClose,
    k: u64,
    i1: int,
    i2: int,
)
    requires
        op1.wf(),
        op2.wf(),
        op1.auction_of(k) == op2.auction_of(k),
        op1.seen_bids(k).to_multiset() == op2.seen_bids(k).to_multiset(),
        forall|x: int, y: int|
            0 <= x < op1.seen_bids(k).len() && 0 <= y < op1.seen_bids(k).len() && x != y
                && spec_valid_bid(#[trigger] op1.seen_bids(k)[x], op1.auction_of(k)->0)
                && spec_valid_bid(#[trigger] op1.seen_bids(k)[y], op1.auction_of(k)->0)
                ==> op1.seen_bids(k)[x].price != op1.seen_bids(k)[y].price,
        0 <= i1 < op1.emissions().len(),
        op1.emissions()[i1].1.id == k,
        0 <= i2 < op2.emissions().len(),
        op2.emissions()[i2].1.id == k,
    ensures
        op1.emissions()[i1].1 == op2.emissions()[i2].1,
        op1.emissions()[i1].2 == op2.emissions()[i2].2,
{
    broadcast use vstd::seq_lib::group_to_multiset_ensures;

    let s1 = op1.seen_bids(k);
    let s2 = op2.seen_bids(k);
    assert(op1.log_entry_ok(op1.emissions()[i1]));
    assert(op2.log_entry_ok(op2.emissions()[i2]));
    let a = op1.emissions()[i1].1;
    assert(op2.emissions()[i2].1 == a);
    let b1 = op1.emissions()[i1].2;
    let b2 = op2.emissions()[i2].2;
    // membership transfers through the multiset
    assert(s2.contains(b2));
    assert(s2.to_multiset().count(b2) > 0);
    assert(s1.contains(b2));
    assert(s1.to_multiset().count(b1) > 0);
    assert(s2.contains(b1));
    // each is a maximum among the valid bids of the other's history
    let w2 = choose|w: int| 0 <= w < s1.len() && s1[w] == b2;
    assert(b2.price <= b1.price);
    let w1 = choose|w: int| 0 <= w < s2.len() && s2[w] == b1;
    assert(b1.price <= b2.price);
    // equal prices force equal bids when valid prices are distinct
    let x1 = choose|x: int| 0 <= x < s1.len() && s1[x] == b1;
    if x1 != w2 {
        assert(spec_valid_bid(s1[x1], a));
        assert(spec_valid_bid(s1[w2], a));
        assert(s1[x1].price != s1[w2].price);
    }
}

/// The state-history invariant depends only on the records, scheduler,
/// history and log, not on the tracker.
proof fn lemma_state_ok_congruence(s1: AuctionClose, s2: AuctionClose, fl: u64)
    requires
        s1.state_ok(fl),
        s2.records.contents() == s1.records.contents(),
        s2.history == s1.history,
        s2.announced == s1.announced,
        s2.closed@ == s1.closed@,
        s2.log@ == s1.log@,
        s2.opens == s1.opens,
    ensures
        s2.state_ok(fl),
{
    assert forall|k: u64| #[trigger] s2.live_records().contains_key(k) implies s2.rec_ok(k, fl) by {
        assert(s1.rec_ok(k, fl));
        assert(s2.live_records()[k] == s1.live_records()[k]);
        assert(s2.seen_bids(k) == s1.seen_bids(k));
    }
    assert forall|k: u64| #[trigger] s2.closed_keys().contains(k) implies s2.closed_ok(k, fl) by {
        assert(s1.closed_keys().contains(k));
        assert(s1.closed_ok(k, fl));
    }
    assert forall|k: u64|
        !(#[trigger] s2.live_records().contains_key(k)) && !s2.closed_keys().contains(k) implies s2.gone_ok(
        k,
        fl,
    ) by {
        assert(!s1.live_records().contains_key(k));
        assert(s1.gone_ok(k, fl));
        assert(s2.seen_bids(k) == s1.seen_bids(k));
    }
    assert forall|i: int| 0 <= i < s2.emissions().len() implies s2.log_entry_ok(
        #[trigger] s2.emissions()[i],
    ) by {
        assert(s2.emissions()[i] == s1.emissions()[i]);
        assert(s1.log_entry_ok(s1.emissions()[i]));
    }
    assert forall|k: u64| #[trigger] s2.announced@.contains_key(k) implies s2.announced@[k].id
        == k by {
        assert(s1.announced@.contains_key(k));
    }
    assert forall|k: u64|
        #[trigger] s2.announced@.contains_key(k) && !s2.closed_keys().contains(k) implies s2.live_records(
        ).contains_key(k) && s2.live_records()[k].auction == Some(s2.announced@[k]) by {
        assert(s1.live_records().contains_key(k) && s1.live_records()[k].auction == Some(
            s1.announced@[k],
        ));
    }
    assert forall|i: int, j: int|
        0 <= i < s2.emissions().len() && 0 <= j < s2.emissions().len() && i != j implies (
    #[trigger] s2.emissions()[i]).1.id != (#[trigger] s2.emissions()[j]).1.id by {
        assert(s2.emissions()[i] == s1.emissions()[i]);
        assert(s2.emissions()[j] == s1.emissions()[j]);
    }
}

/// A weaker (larger) consumed bound weakens the state invariant.
proof fn lemma_state_ok_weaken(s: AuctionClose, fl1: u64, fl2: u64)
    requires
        s.state_ok(fl1),
        fl1 <= fl2,
    ensures
        s.state_ok(fl2),
{
    assert forall|k: u64| #[trigger] s.live_records().contains_key(k) implies s.rec_ok(k, fl2) by {
        assert(s.rec_ok(k, fl1));
        match s.live_records()[k].auction {
            Some(_) => {}
            None => {
                if !s.announced@.contains_key(k) {
                    assert forall|b: Bid| s.seen_bids(k).contains(b) implies s.live_records(
                    )[k].bids@.contains(b) || b.date_time < fl2 || b.date_time == u64::MAX by {}
                }
            }
        }
    }
    assert forall|k: u64| #[trigger] s.closed_keys().contains(k) implies s.closed_ok(k, fl2) by {
        assert(s.closed_ok(k, fl1));
    }
    assert forall|k: u64|
        !(#[trigger] s.live_records().contains_key(k)) && !s.closed_keys().contains(k) implies s.gone_ok(
        k,
        fl2,
    ) by {
        assert(s.gone_ok(k, fl1));
    }
}

/// An entry other than the removed one survives the removal.
proof fn lemma_entry_survives_remove(s: Seq<(u64, u64)>, idx: int, e: (u64, u64))
    requires
        0 <= idx < s.len(),
        exists|i: int| 0 <= i < s.len() && s[i] == e,
        s[idx] != e,
    ensures
        exists|i: int| 0 <= i < s.remove(idx).len() && s.remove(idx)[i] == e,
{
    let w = choose|w: int| 0 <= w < s.len() && s[w] == e;
    if w < idx {
        assert(s.remove(idx)[w] == e);
    } else {
        assert(s.remove(idx)[w - 1] == e);
    }
}

/// The queue entries all stay at or after `t0` when one is removed.
proof fn lemma_queue_remove_bounds(q: Seq<(u64, u64)>, idx: int, t0: u64)
    requires
        0 <= idx < q.len(),
        forall|i: int| 0 <= i < q.len() ==> (#[trigger] q[i]).0 >= t0,
    ensures
        forall|i: int| 0 <= i < q.remove(idx).len() ==> (#[trigger] q.remove(idx)[i]).0 >= t0,
{
    assert forall|i: int| 0 <= i < q.remove(idx).len() implies (#[trigger] q.remove(idx)[i]).0
        >= t0 by {
        if i < idx {
            assert(q.remove(idx)[i] == q[i]);
        } else {
            assert(q.remove(idx)[i] == q[i + 1]);
        }
    }
}

/// One resolution step that leaves the state untouched: the popped key
/// has no record, or its auction's expiry is not the popped time.
proof fn lemma_advance_step_unchanged(
    pre: AuctionClose,
    iter: AuctionClose,
    post: AuctionClose,
    bound: u64,
    c: u64,
    outv: Seq<(Auction, Bid)>,
    k: u64,
    t: u64,
    idx: int,
)
    requires
        AuctionClose::advance_inv(pre, iter, bound, c, outv),
        0 <= idx < iter.opens.entries().len(),
        iter.opens.entries()[idx] == (t, k),
        spec_due(t, bound),
        !iter.live_records().contains_key(k) || (iter.live_records()[k].auction is Some
            && t != iter.live_records()[k].auction->0.expires),
        post.records.wf(),
        post.records.contents() == iter.records.contents(),
        post.opens.entries() == iter.opens.entries().remove(idx),
        post.tracker == iter.tracker,
        post.history == iter.history,
        post.announced == iter.announced,
        post.closed@ == iter.closed@,
        post.log@ == iter.log@,
    ensures
        AuctionClose::advance_inv(pre, post, bound, c, outv),
{
    let fl = pre.tracker.floor();
    lemma_queue_remove_bounds(iter.opens.entries(), idx, fl);
    lemma_queue_remove_bounds(iter.opens.entries(), idx, c);
    assert forall|k2: u64| #[trigger] post.live_records().contains_key(k2) implies post.rec_ok(
        k2,
        bound,
    ) by {
        assert(iter.live_records().contains_key(k2));
        assert(iter.rec_ok(k2, bound));
        assert(post.live_records()[k2] == iter.live_records()[k2]);
        assert(post.seen_bids(k2) == iter.seen_bids(k2));
        match post.live_records()[k2].auction {
            Some(a2) => {
                assert(iter.opens.entries()[idx] != (a2.expires, k2));
                lemma_entry_survives_remove(iter.opens.entries(), idx, (a2.expires, k2));
            }
            None => {}
        }
    }
    assert forall|k2: u64| #[trigger] post.closed_keys().contains(k2) implies post.closed_ok(
        k2,
        bound,
    ) by {
        assert(iter.closed_keys().contains(k2));
        assert(iter.closed_ok(k2, bound));
    }
    assert forall|k2: u64|
        !(#[trigger] post.live_records().contains_key(k2)) && !post.closed_keys().contains(k2) implies
        post.gone_ok(k2, bound) by {
        assert(iter.gone_ok(k2, bound));
        assert(post.seen_bids(k2) == iter.seen_bids(k2));
    }
    assert forall|i: int| 0 <= i < post.emissions().len() implies post.log_entry_ok(
        #[trigger] post.emissions()[i],
    ) by {
        assert(post.emissions()[i] == iter.emissions()[i]);
        assert(iter.log_entry_ok(iter.emissions()[i]));
    }
    assert forall|k2: u64|
        #[trigger] post.announced@.contains_key(k2) && !post.closed_keys().contains(k2) implies
        post.live_records().contains_key(k2) && post.live_records()[k2].auction == Some(
        post.announced@[k2],
    ) by {
        assert(iter.live_records().contains_key(k2) && iter.live_records()[k2].auction == Some(
            iter.announced@[k2],
        ));
    }
    assert forall|k2: u64| #[trigger] post.announced@.contains_key(k2) implies post.announced@[k2].id
        == k2 by {
        assert(iter.announced@.contains_key(k2));
    }
    assert forall|i2: int, j2: int|
        0 <= i2 < post.emissions().len() && 0 <= j2 < post.emissions().len() && i2 != j2 implies (
    #[trigger] post.emissions()[i2]).1.id != (#[trigger] post.emissions()[j2]).1.id by {
        assert(post.emissions()[i2] == iter.emissions()[i2]);
        assert(post.emissions()[j2] == iter.emissions()[j2]);
    }
    assert forall|k2: u64|
        #[trigger] post.closed_keys().contains(k2) && !pre.closed_keys().contains(k2) implies
        pre.auction_of(k2) is Some && spec_due(pre.auction_of(k2)->0.expires, bound) by {
        assert(iter.closed_keys().contains(k2));
    }
    assert(post.state_ok(bound));
}

/// One resolution step that closes a due auction: the record is removed,
/// the winner (if one is held) is appended to the output under stamp `c`.
proof fn lemma_advance_step_close(
    pre: AuctionClose,
    iter: AuctionClose,
    post: AuctionClose,
    bound: u64,
    c: u64,
    out0: Seq<(Auction, Bid)>,
    out1: Seq<(Auction, Bid)>,
    k: u64,
    t: u64,
    a: Auction,
    wopt: Option<Bid>,
    idx: int,
)
    requires
        AuctionClose::advance_inv(pre, iter, bound, c, out0),
        0 <= idx < iter.opens.entries().len(),
        iter.opens.entries()[idx] == (t, k),
        spec_due(t, bound),
        t >= c,
        iter.live_records().contains_key(k),
        iter.live_records()[k].auction == Some(a),
        t == a.expires,
        post.records.wf(),
        post.records.contents() == iter.records.contents().remove(k),
        post.opens.entries() == iter.opens.entries().remove(idx),
        post.tracker == iter.tracker,
        post.history == iter.history,
        post.announced == iter.announced,
        post.closed@ == iter.closed@.insert(k),
        match wopt {
            Some(w) => {
                &&& iter.live_records()[k].bids@.len() == 1
                &&& w == iter.live_records()[k].bids@[0]
                &&& post.log@ == iter.log@.push((c, a, w))
                &&& out1 == out0.push((a, w))
            },
            None => {
                &&& iter.live_records()[k].bids@.len() == 0
                &&& post.log@ == iter.log@
                &&& out1 == out0
            },
        },
    ensures
        AuctionClose::advance_inv(pre, post, bound, c, out1),
{
    let fl = pre.tracker.floor();
    lemma_queue_remove_bounds(iter.opens.entries(), idx, fl);
    lemma_queue_remove_bounds(iter.opens.entries(), idx, c);
    assert(iter.rec_ok(k, bound));
    assert(!iter.closed_keys().contains(k));
    assert(iter.auction_of(k) == Some(a));
    assert forall|k2: u64| #[trigger] post.live_records().contains_key(k2) implies post.rec_ok(
        k2,
        bound,
    ) by {
        assert(k2 != k);
        assert(iter.live_records().contains_key(k2));
        assert(iter.rec_ok(k2, bound));
        assert(post.live_records()[k2] == iter.live_records()[k2]);
        assert(post.seen_bids(k2) == iter.seen_bids(k2));
        match post.live_records()[k2].auction {
            Some(a2) => {
                assert(iter.opens.entries()[idx] != (a2.expires, k2));
                lemma_entry_survives_remove(iter.opens.entries(), idx, (a2.expires, k2));
                assert(!post.closed_keys().contains(k2));
            }
            None => {}
        }
    }
    assert forall|k2: u64| #[trigger] post.closed_keys().contains(k2) implies post.closed_ok(
        k2,
        bound,
    ) by {
        if k2 == k {
            assert(post.auction_of(k) == Some(a));
            assert(a.expires <= bound || bound == u64::MAX);
        } else {
            assert(iter.closed_keys().contains(k2));
            assert(iter.closed_ok(k2, bound));
        }
    }
    assert forall|k2: u64|
        !(#[trigger] post.live_records().contains_key(k2)) && !post.closed_keys().contains(k2) implies
        post.gone_ok(k2, bound) by {
        assert(k2 != k);
        assert(!iter.live_records().contains_key(k2));
        assert(iter.gone_ok(k2, bound));
        assert(post.seen_bids(k2) == iter.seen_bids(k2));
    }
    assert forall|k2: u64|
        #[trigger] post.announced@.contains_key(k2) && !post.closed_keys().contains(k2) implies
        post.live_records().contains_key(k2) && post.live_records()[k2].auction == Some(
        post.announced@[k2],
    ) by {
        assert(k2 != k);
        assert(iter.live_records().contains_key(k2) && iter.live_records()[k2].auction == Some(
            iter.announced@[k2],
        ));
    }
    assert forall|i: int| 0 <= i < post.emissions().len() implies post.log_entry_ok(
        #[trigger] post.emissions()[i],
    ) by {
        if i < iter.log@.len() {
            assert(post.emissions()[i] == iter.emissions()[i]);
            assert(iter.log_entry_ok(iter.emissions()[i]));
        } else {
            let w = wopt->0;
            assert(post.emissions()[i] == (c, a, w));
            assert(is_best_valid(a, iter.seen_bids(k), w));
            assert(post.seen_bids(k) == iter.seen_bids(k));
        }
    }
    assert forall|i: int, j: int|
        0 <= i < post.emissions().len() && 0 <= j < post.emissions().len() && i != j implies (
    #[trigger] post.emissions()[i]).1.id != (#[trigger] post.emissions()[j]).1.id by {
        if i < iter.log@.len() && j < iter.log@.len() {
            assert(post.emissions()[i] == iter.emissions()[i]);
            assert(post.emissions()[j] == iter.emissions()[j]);
        } else if i < iter.log@.len() {
            // the new entry's id was not closed before, every old one was
            assert(post.emissions()[i] == iter.emissions()[i]);
            assert(iter.log_entry_ok(iter.emissions()[i]));
            assert(iter.closed_keys().contains(post.emissions()[i].1.id));
            assert(post.emissions()[j].1.id == k);
        } else {
            assert(post.emissions()[i].1.id == k);
            assert(post.emissions()[j] == iter.emissions()[j]);
            assert(iter.log_entry_ok(iter.emissions()[j]));
            assert(iter.closed_keys().contains(post.emissions()[j].1.id));
        }
    }
    assert forall|k2: u64| #[trigger] post.announced@.contains_key(k2) implies post.announced@[k2].id
        == k2 by {
        assert(iter.announced@.contains_key(k2));
    }
    assert forall|k2: u64|
        #[trigger] post.closed_keys().contains(k2) && !pre.closed_keys().contains(k2) implies
        pre.auction_of(k2) is Some && spec_due(pre.auction_of(k2)->0.expires, bound) by {
        if k2 == k {
            assert(iter.auction_of(k) == Some(a));
        } else {
            assert(iter.closed_keys().contains(k2));
        }
    }
    assert(post.state_ok(bound));
    // the log and output extensions stay aligned
    assert forall|i: int| 0 <= i < pre.log@.len() implies #[trigger] post.log@[i] == pre.log@[i] by {
        assert(iter.log@[i] == pre.log@[i]);
        match wopt {
            Some(_) => {
                assert(post.log@[i] == iter.log@[i]);
            }
            None => {}
        }
    }
    assert forall|i: int| 0 <= i < out1.len() implies post.log@[pre.log@.len() + i] == (
    c,
    (#[trigger] out1[i]).0,
    out1[i].1,
    ) by {
        match wopt {
            Some(w) => {
                if i < out0.len() {
                    assert(out1[i] == out0[i]);
                    assert(post.log@[pre.log@.len() + i] == iter.log@[pre.log@.len() + i]);
                } else {
                    assert(out1[i] == (a, w));
                    assert(post.log@[pre.log@.len() + i] == (c, a, w));
                }
            }
            None => {}
        }
    }
    // every pre-known auction key keeps its disposition
    assert forall|k2: u64|
        (#[trigger] pre.live_records().contains_key(k2)) && pre.live_records()[k2].auction
            is Some implies (post.live_records().contains_key(k2) && post.live_records()[k2]
        == pre.live_records()[k2]) || (post.closed_keys().contains(k2) && (
    pre.live_records()[k2].bids@.len() == 1 ==> exists|i: int|
        0 <= i < out1.len() && out1[i] == (
        pre.live_records()[k2].auction->0,
        pre.live_records()[k2].bids@[0],
        ))) by {
        if k2 == k {
            // this step closes it; iter still held the pre record
            assert(iter.live_records().contains_key(k) && iter.live_records()[k]
                == pre.live_records()[k]);
            match wopt {
                Some(w) => {
                    assert(out1[out0.len() as int] == (a, w));
                }
                None => {}
            }
        } else {
            if iter.live_records().contains_key(k2) && iter.live_records()[k2]
                == pre.live_records()[k2] {
                assert(post.live_records()[k2] == iter.live_records()[k2]);
            } else {
                assert(iter.closed_keys().contains(k2));
                if pre.live_records()[k2].bids@.len() == 1 {
                    let w2 = choose|i: int|
                        0 <= i < out0.len() && out0[i] == (
                        pre.live_records()[k2].auction->0,
                        pre.live_records()[k2].bids@[0],
                        );
                    match wopt {
                        Some(_) => {
                            assert(out1[w2] == out0[w2]);
                        }
                        None => {}
                    }
                }
            }
        }
    }
    assert forall|k2: u64| (#[trigger] post.live_records().contains_key(k2)) implies pre.live_records(
    ).contains_key(k2) && post.live_records()[k2].auction == pre.live_records()[k2].auction by {
        assert(k2 != k);
        assert(iter.live_records().contains_key(k2));
    }
}

/// One resolution step on a key whose auction is still unknown: bids at
/// or before the cutoff are dropped, and the record is removed when that
/// leaves it empty.
proof fn lemma_advance_step_prune(
    pre: AuctionClose,
    iter: AuctionClose,
    post: AuctionClose,
    bound: u64,
    c: u64,
    outv: Seq<(Auction, Bid)>,
    k: u64,
    t: u64,
    stored: Option<AuctionRecord>,
    bf: Seq<Bid>,
    idx: int,
)
    requires
        AuctionClose::advance_inv(pre, iter, bound, c, outv),
        0 <= idx < iter.opens.entries().len(),
        iter.opens.entries()[idx] == (t, k),
        spec_due(t, bound),
        iter.live_records().contains_key(k),
        iter.live_records()[k].auction is None,
        bf == iter.live_records()[k].bids@,
        post.records.wf(),
        post.opens.entries() == iter.opens.entries().remove(idx),
        post.tracker == iter.tracker,
        post.history == iter.history,
        post.announced == iter.announced,
        post.closed@ == iter.closed@,
        post.log@ == iter.log@,
        match stored {
            Some(st) => {
                &&& st.auction is None
                &&& post.records.contents() == iter.records.contents().insert(k, st)
                &&& (forall|j: int|
                    0 <= j < st.bids@.len() ==> bf.contains(#[trigger] st.bids@[j])
                        && st.bids@[j].date_time > t)
                &&& (forall|j: int|
                    0 <= j < bf.len() && (#[trigger] bf[j]).date_time > t ==> st.bids@.contains(
                        bf[j],
                    ))
            },
            None => {
                &&& post.records.contents() == iter.records.contents().remove(k)
                &&& (forall|j: int| 0 <= j < bf.len() ==> (#[trigger] bf[j]).date_time <= t)
            },
        },
    ensures
        AuctionClose::advance_inv(pre, post, bound, c, outv),
{
    let fl = pre.tracker.floor();
    lemma_queue_remove_bounds(iter.opens.entries(), idx, fl);
    lemma_queue_remove_bounds(iter.opens.entries(), idx, c);
    assert(iter.rec_ok(k, bound));
    assert forall|k2: u64| #[trigger] post.live_records().contains_key(k2) implies post.rec_ok(
        k2,
        bound,
    ) by {
        assert(post.seen_bids(k2) == iter.seen_bids(k2));
        if k2 == k {
            match stored {
                Some(st) => {
                    assert(post.live_records()[k] == st);
                    assert forall|j: int| 0 <= j < st.bids@.len() implies post.seen_bids(
                        k,
                    ).contains(#[trigger] st.bids@[j]) by {
                        let w = choose|w: int| 0 <= w < bf.len() && bf[w] == st.bids@[j];
                        assert(iter.seen_bids(k).contains(bf[w]));
                    }
                    if !post.announced@.contains_key(k) {
                        assert forall|b: Bid| post.seen_bids(k).contains(b) implies st.bids@.contains(
                            b,
                        ) || b.date_time < bound || b.date_time == u64::MAX by {
                            assert(iter.seen_bids(k).contains(b));
                            if bf.contains(b) {
                                let w = choose|w: int| 0 <= w < bf.len() && bf[w] == b;
                                if bf[w].date_time > t {
                                    assert(st.bids@.contains(bf[w]));
                                } else {
                                    // at or before the resolved cutoff, which the
                                    // bound proves past
                                    if bound != u64::MAX {
                                        assert(b.date_time <= t < bound);
                                    }
                                }
                            } else {
                                assert(b.date_time < bound || b.date_time == u64::MAX);
                            }
                        }
                    }
                }
                None => {
                    assert(false);
                }
            }
        } else {
            assert(iter.live_records().contains_key(k2));
            assert(iter.rec_ok(k2, bound));
            assert(post.live_records()[k2] == iter.live_records()[k2]);
            match post.live_records()[k2].auction {
                Some(a2) => {
                    assert(iter.opens.entries()[idx] != (a2.expires, k2));
                    lemma_entry_survives_remove(iter.opens.entries(), idx, (a2.expires, k2));
                }
                None => {}
            }
        }
    }
    assert forall|k2: u64| #[trigger] post.closed_keys().contains(k2) implies post.closed_ok(
        k2,
        bound,
    ) by {
        assert(iter.closed_keys().contains(k2));
        assert(iter.closed_ok(k2, bound));
    }
    assert forall|k2: u64|
        !(#[trigger] post.live_records().contains_key(k2)) && !post.closed_keys().contains(k2) implies
        post.gone_ok(k2, bound) by {
        assert(post.seen_bids(k2) == iter.seen_bids(k2));
        if k2 == k {
            // the record was dropped empty; the key was never announced,
            // else it would be closed
            assert(stored is None);
            assert(!iter.announced@.contains_key(k)) by {
                if iter.announced@.contains_key(k) {
                    assert(iter.live_records()[k].auction == Some(iter.announced@[k]));
                }
            }
            assert forall|b: Bid| post.seen_bids(k).contains(b) implies b.date_time < bound
                || b.date_time == u64::MAX by {
                assert(iter.seen_bids(k).contains(b));
                if bf.contains(b) {
                    let w = choose|w: int| 0 <= w < bf.len() && bf[w] == b;
                    assert(bf[w].date_time <= t);
                    if bound != u64::MAX {
                        assert(b.date_time <= t < bound);
                    }
                } else {
                    assert(b.date_time < bound || b.date_time == u64::MAX);
                }
            }
        } else {
            assert(!iter.live_records().contains_key(k2));
            assert(iter.gone_ok(k2, bound));
        }
    }
    assert forall|k2: u64|
        #[trigger] post.announced@.contains_key(k2) && !post.closed_keys().contains(k2) implies
        post.live_records().contains_key(k2) && post.live_records()[k2].auction == Some(
        post.announced@[k2],
    ) by {
        assert(iter.announced@.contains_key(k2) && !iter.closed_keys().contains(k2));
        assert(iter.live_records().contains_key(k2) && iter.live_records()[k2].auction == Some(
            iter.announced@[k2],
        ));
        assert(k2 != k);
        assert(post.live_records()[k2] == iter.live_records()[k2]);
    }
    assert forall|i: int| 0 <= i < post.emissions().len() implies post.log_entry_ok(
        #[trigger] post.emissions()[i],
    ) by {
        assert(post.emissions()[i] == iter.emissions()[i]);
        assert(iter.log_entry_ok(iter.emissions()[i]));
    }
    assert forall|k2: u64| #[trigger] post.announced@.contains_key(k2) implies post.announced@[k2].id
        == k2 by {
        assert(iter.announced@.contains_key(k2));
    }
    assert forall|i2: int, j2: int|
        0 <= i2 < post.emissions().len() && 0 <= j2 < post.emissions().len() && i2 != j2 implies (
    #[trigger] post.emissions()[i2]).1.id != (#[trigger] post.emissions()[j2]).1.id by {
        assert(post.emissions()[i2] == iter.emissions()[i2]);
        assert(post.emissions()[j2] == iter.emissions()[j2]);
    }
    assert forall|k2: u64|
        #[trigger] post.closed_keys().contains(k2) && !pre.closed_keys().contains(k2) implies
        pre.auction_of(k2) is Some && spec_due(pre.auction_of(k2)->0.expires, bound) by {
        assert(iter.closed_keys().contains(k2));
    }
    assert(post.state_ok(bound));
    assert forall|k2: u64|
        (#[trigger] pre.live_records().contains_key(k2)) && pre.live_records()[k2].auction
            is Some implies (post.live_records().contains_key(k2) && post.live_records()[k2]
        == pre.live_records()[k2]) || (post.closed_keys().contains(k2) && (
    pre.live_records()[k2].bids@.len() == 1 ==> exists|i: int|
        0 <= i < outv.len() && outv[i] == (
        pre.live_records()[k2].auction->0,
        pre.live_records()[k2].bids@[0],
        ))) by {
        assert(k2 != k) by {
            if k2 == k {
                assert(iter.live_records()[k].auction == pre.live_records()[k].auction);
            }
        }
        if iter.live_records().contains_key(k2) && iter.live_records()[k2]
            == pre.live_records()[k2] {
            assert(post.live_records()[k2] == iter.live_records()[k2]);
        }
    }
    assert forall|k2: u64| (#[trigger] post.live_records().contains_key(k2)) implies pre.live_records(
    ).contains_key(k2) && post.live_records()[k2].auction == pre.live_records()[k2].auction by {
        assert(iter.live_records().contains_key(k2));
        if k2 == k {
            assert(post.live_records()[k2].auction is None);
        } else {
            assert(post.live_records()[k2] == iter.live_records()[k2]);
        }
    }
}

/// Any bid seen for a not-yet-announced key is either still buffered in
/// its record or cannot be valid for an auction created at or after the
/// floor.
proof fn lemma_buffered_covers_valid(
    pre: AuctionClose,
    k: u64,
    fl: u64,
    auction: Auction,
    b: Bid,
)
    requires
        pre.wf(),
        fl == pre.floor(),
        pre.auction_of(k) is None,
        auction.date_time >= fl,
        auction.expires <= u64::MAX,
        pre.seen_bids(k).contains(b),
    ensures
        (pre.live_records().contains_key(k) && pre.live_records()[k].bids@.contains(b))
            || !spec_valid_bid(b, auction),
{
    if pre.live_records().contains_key(k) {
        assert(pre.rec_ok(k, fl));
        if !pre.live_records()[k].bids@.contains(b) {
            assert(b.date_time < fl || b.date_time == u64::MAX);
            if b.date_time < fl {
                assert(b.date_time < auction.date_time);
            } else {
                assert(b.date_time >= auction.expires);
            }
        }
    } else {
        assert(!pre.closed_keys().contains(k)) by {
            if pre.closed_keys().contains(k) {
                assert(pre.closed_ok(k, fl));
            }
        }
        assert(pre.gone_ok(k, fl));
        assert(b.date_time < fl || b.date_time == u64::MAX);
        if b.date_time < fl {
            assert(b.date_time < auction.date_time);
        } else {
            assert(b.date_time >= auction.expires);
        }
    }
}

/// Push preserves membership and adds the new element.
proof fn lemma_seq_push_contains<T>(s: Seq<T>, x: T)
    ensures
        forall|y: T| s.contains(y) ==> #[trigger] s.push(x).contains(y),
        s.push(x).contains(x),
        forall|y: T| s.push(x).contains(y) ==> s.contains(y) || y == x,
{
    assert forall|y: T| s.contains(y) implies #[trigger] s.push(x).contains(y) by {
        let i = choose|i: int| 0 <= i < s.len() && s[i] == y;
        assert(s.push(x)[i] == y);
    }
    assert(s.push(x)[s.len() as int] == x);
    assert forall|y: T| s.push(x).contains(y) implies s.contains(y) || y == x by {
        let i = choose|i: int| 0 <= i < s.push(x).len() && s.push(x)[i] == y;
        if i < s.len() {
            assert(s[i] == y);
        }
    }
}

} // verus!
