//! The seller join: auctions of a chosen category joined, incrementally
//! and from both sides, against people of chosen regions.
//!
//! Both inputs are keyed by the selling person's id. Arrivals on either
//! side are matched against everything stored for the other side at once,
//! so every (auction, seller) pair is emitted exactly once, whichever
//! record arrives first.

use vstd::prelude::*;

use crate::event::{Auction, Person};
use crate::merge::Mergeable;
use crate::state::StateCell;

verus! {

broadcast use vstd::string::group_string_axioms;

/// The auctions stored for one seller, in arrival order.
pub struct AuctionList {
    pub items: Vec<Auction>,
}

/// Stored auction lists are extended by explicit fetch-append-store, not
/// by read-modify-write, so merging is forbidden.
impl Mergeable for AuctionList {
    open spec fn merge_allowed() -> bool {
        false
    }

    open spec fn merge_ok(self, delta: Self) -> bool {
        false
    }

    open spec fn merge_spec(self, delta: Self) -> Self {
        self
    }

    fn merge(&self, delta: Self) -> Self {
        AuctionList { items: Vec::new() }
    }
}

/// A person record holds one person; two cannot be combined.
impl Mergeable for Person {
    open spec fn merge_allowed() -> bool {
        false
    }

    open spec fn merge_ok(self, delta: Self) -> bool {
        false
    }

    open spec fn merge_spec(self, delta: Self) -> Self {
        self
    }

    fn merge(&self, delta: Self) -> Self {
        Person { id: 0, name: String::new(), city: String::new(), state: String::new(), date_time: 0 }
    }
}

/// The category of auctions this query keeps.
pub open spec fn spec_category_kept(a: Auction) -> bool {
    a.category == 10
}

/// Whether an auction passes the query's category filter.
pub fn category_kept(a: &Auction) -> (r: bool)
    ensures
        r == spec_category_kept(*a),
{
    a.category == 10
}

/// The regions of people this query keeps.
pub open spec fn spec_region_kept(p: Person) -> bool {
    p.state@ == "OR"@ || p.state@ == "ID"@ || p.state@ == "CA"@
}

/// Whether a person passes the query's region filter.
pub fn region_kept(p: &Person) -> (r: bool)
    ensures
        r == spec_region_kept(*p),
{
    p.state == "OR".to_string() || p.state == "ID".to_string() || p.state == "CA".to_string()
}

/// One operator instance of the seller join.
pub struct SellerJoin {
    auctions: StateCell<AuctionList>,
    people: StateCell<Person>,
}

impl SellerJoin {
    /// The auctions stored for a seller, in arrival order.
    pub closed spec fn auctions_of(self, seller: u64) -> Seq<Auction> {
        if self.auctions.contents().contains_key(seller) {
            self.auctions.contents()[seller].items@
        } else {
            Seq::empty()
        }
    }

    /// The person stored under an id, if any.
    pub closed spec fn person_of(self, id: u64) -> Option<Person> {
        if self.people.contents().contains_key(id) {
            Some(self.people.contents()[id])
        } else {
            None
        }
    }

    /// Internal well-formedness.
    pub closed spec fn wf(self) -> bool {
        &&& self.auctions.wf()
        &&& self.people.wf()
    }

    /// A fresh instance over the chosen completion mode.
    pub fn new(queued_backend: bool) -> (r: Self)
        ensures
            r.wf(),
            forall|s: u64| r.auctions_of(s) == Seq::<Auction>::empty(),
            forall|id: u64| r.person_of(id) is None,
    {
        SellerJoin {
            auctions: if queued_backend {
                StateCell::new_queued()
            } else {
                StateCell::new_direct()
            },
            people: if queued_backend {
                StateCell::new_queued()
            } else {
                StateCell::new_direct()
            },
        }
    }

    /// Process one auction: emit a joined row at once if its seller is
    /// already known, and store the auction for sellers yet to come.
    pub fn on_auction(&mut self, a: Auction) -> (r: Option<(String, String, String, u64)>)
        requires
            old(self).wf(),
        ensures
            final(self).wf(),
            r == match old(self).person_of(a.seller) {
                Some(p) => Some((p.name, p.city, p.state, a.id)),
                None => None::<(String, String, String, u64)>,
            },
            final(self).auctions_of(a.seller) == old(self).auctions_of(a.seller).push(a),
            forall|s: u64| s != a.seller ==> final(self).auctions_of(s) == old(self).auctions_of(s),
            forall|id: u64| final(self).person_of(id) == old(self).person_of(id),
    {
        let seller = a.seller;
        let r = match self.people.get(seller) {
            Some(p) => Some((p.name.clone(), p.city.clone(), p.state.clone(), a.id)),
            None => None,
        };
        let mut list = match self.auctions.remove(seller) {
            Some(l) => l,
            None => AuctionList { items: Vec::new() },
        };
        list.items.push(a);
        self.auctions.insert(seller, list);
        r
    }

    /// Process one person: emit a joined row for every auction already
    /// stored under the person's id, then store the person.
    pub fn on_person(&mut self, p: Person) -> (out: Vec<(String, String, String, u64)>)
        requires
            old(self).wf(),
        ensures
            final(self).wf(),
            out@.len() == old(self).auctions_of(p.id).len(),
            forall|i: int|
                0 <= i < out@.len() ==> #[trigger] out@[i] == (
                p.name,
                p.city,
                p.state,
                old(self).auctions_of(p.id)[i].id,
                ),
            final(self).person_of(p.id) == Some(p),
            forall|id: u64| id != p.id ==> final(self).person_of(id) == old(self).person_of(id),
            forall|s: u64| final(self).auctions_of(s) == old(self).auctions_of(s),
    {
        let ghost pre = *old(self);
        let mut out: Vec<(String, String, String, u64)> = Vec::new();
        let id = p.id;
        match self.auctions.get(id) {
            Some(list) => {
                let n = list.items.len();
                let mut i: usize = 0;
                while i < n
                    invariant
                        n == list.items@.len(),
                        list.items@ == pre.auctions_of(id),
                        i <= n,
                        out@.len() == i,
                        forall|j: int|
                            0 <= j < i ==> #[trigger] out@[j] == (
                            p.name,
                            p.city,
                            p.state,
                            list.items@[j].id,
                            ),
                    decreases n - i,
                {
                    let aid = list.items[i].id;
                    out.push((p.name.clone(), p.city.clone(), p.state.clone(), aid));
                    i = i + 1;
                }
            }
            None => {}
        }
        self.people.insert(id, p);
        out
    }
}

} // verus!
