//! The domain records carried by the event stream.
//!
//! Every record is immutable once created and carries its own event time,
//! a domain timestamp distinct from processing order.

use vstd::prelude::*;

verus! {

/// A bid placed on an auction.
#[derive(Clone, Copy, PartialEq, Eq, Structural, Debug)]
pub struct Bid {
    /// Id of the auction this bid is for; the stream is keyed by it.
    pub auction: u64,
    /// Id of the bidding person.
    pub bidder: u64,
    /// Price offered, in integer currency units.
    pub price: u64,
    /// Event time at which the bid was placed.
    pub date_time: u64,
}

/// An auction being opened.
#[derive(Clone, Copy, PartialEq, Eq, Structural, Debug)]
pub struct Auction {
    /// Id of the auction; the stream is keyed by it.
    pub id: u64,
    /// Id of the selling person.
    pub seller: u64,
    /// Category of the item on offer.
    pub category: u64,
    /// Reserve price: bids below it are invalid.
    pub reserve: u64,
    /// Event time of creation; bids before it are invalid.
    pub date_time: u64,
    /// Event time of expiry; bids at or after it are invalid, and the
    /// auction closes once this time is complete on every input.
    pub expires: u64,
}

/// A person entering the marketplace.
#[derive(Clone, Debug)]
pub struct Person {
    /// Id of the person; the stream is keyed by it.
    pub id: u64,
    pub name: String,
    pub city: String,
    pub state: String,
    /// Event time at which the person record was created.
    pub date_time: u64,
}

/// A bid is valid for an auction when it meets the reserve price and
/// falls inside the auction's half-open window `[creation, expiry)`.
pub open spec fn spec_valid_bid(b: Bid, a: Auction) -> bool {
    b.price >= a.reserve && a.date_time <= b.date_time && b.date_time < a.expires
}

/// Executable form of the validity rule.
pub fn is_valid_bid(b: &Bid, a: &Auction) -> (r: bool)
    ensures
        r == spec_valid_bid(*b, *a),
{
    b.price >= a.reserve && a.date_time <= b.date_time && b.date_time < a.expires
}

/// The currency-conversion mapping applied to every bid by the simplest
/// query: the price is scaled by 89/100 in integer arithmetic, all other
/// fields kept.
pub fn discounted_bid(b: &Bid) -> (r: Bid)
    requires
        b.price * 89 <= u64::MAX,
    ensures
        r.auction == b.auction,
        r.bidder == b.bidder,
        r.date_time == b.date_time,
        r.price == b.price * 89 / 100,
{
    Bid { auction: b.auction, bidder: b.bidder, price: (b.price * 89) / 100, date_time: b.date_time }
}

} // verus!
