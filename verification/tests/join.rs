use nexmark::auction_close::AuctionClose;
use nexmark::event::{Auction, Bid};

fn auction(id: u64, reserve: u64, creation: u64, expires: u64) -> Auction {
    Auction { id, seller: 500 + id, category: 10, reserve, date_time: creation, expires }
}

fn bid(auction: u64, price: u64, date_time: u64) -> Bid {
    Bid { auction, bidder: 900, price, date_time }
}

#[test]
fn single_auction_close_scenario() {
    // Auction with reserve 10 and window [0, 100); bids at 20/t=10 (valid),
    // 5/t=20 (below reserve), 30/t=150 (after expiry).
    let mut op = AuctionClose::new(false);
    op.on_auction(auction(1, 10, 0, 100));
    op.on_bid(bid(1, 20, 10));
    op.on_bid(bid(1, 5, 20));
    op.on_bid(bid(1, 30, 150));
    let early = op.advance(50);
    assert_eq!(early.len(), 0);
    let out = op.advance(101);
    assert_eq!(out.len(), 1);
    assert_eq!(out[0].0.id, 1);
    assert_eq!(out[0].1.price, 20);
    assert_eq!(out[0].1.date_time, 10);
    // the auction closed exactly once: nothing more is ever emitted for it
    let after = op.advance(200);
    assert_eq!(after.len(), 0);
}

#[test]
fn buffered_bids_agree_with_validate_on_arrival() {
    // Same auction and bids, but every bid arrives before the auction:
    // the buffered-then-validated path must pick the same winner.
    let mut op = AuctionClose::new(false);
    op.on_bid(bid(1, 20, 10));
    op.on_bid(bid(1, 5, 20));
    op.on_auction(auction(1, 10, 0, 100));
    op.on_bid(bid(1, 30, 150));
    let out = op.advance(101);
    assert_eq!(out.len(), 1);
    assert_eq!(out[0].1.price, 20);
    assert_eq!(out[0].1.date_time, 10);
}

#[test]
fn late_bid_never_selected() {
    // A very high bid at the expiry time itself is delivered well before
    // the close is processed, and still never wins.
    let mut op = AuctionClose::new(false);
    op.on_auction(auction(7, 1, 0, 100));
    op.on_bid(bid(7, 3, 10));
    op.on_bid(bid(7, 1000, 100));
    let out = op.advance(101);
    assert_eq!(out.len(), 1);
    assert_eq!(out[0].1.price, 3);
}

#[test]
fn no_valid_bid_no_pair() {
    let mut op = AuctionClose::new(false);
    op.on_auction(auction(3, 50, 0, 100));
    op.on_bid(bid(3, 49, 10));
    let out = op.advance(101);
    assert_eq!(out.len(), 0);
}

#[test]
fn higher_later_bid_replaces_slot() {
    let mut op = AuctionClose::new(false);
    op.on_auction(auction(4, 10, 0, 100));
    op.on_bid(bid(4, 20, 10));
    op.on_bid(bid(4, 40, 30));
    op.on_bid(bid(4, 30, 40));
    let out = op.advance(101);
    assert_eq!(out.len(), 1);
    assert_eq!(out[0].1.price, 40);
    assert_eq!(out[0].1.date_time, 30);
}

#[test]
fn queued_backend_same_winner() {
    let mut op = AuctionClose::new(true);
    op.on_auction(auction(1, 10, 0, 100));
    op.on_bid(bid(1, 20, 10));
    op.on_bid(bid(1, 5, 20));
    op.on_bid(bid(1, 30, 150));
    let out = op.advance(101);
    assert_eq!(out.len(), 1);
    assert_eq!(out[0].1.price, 20);
}

#[test]
fn two_auctions_close_in_time_order() {
    let mut op = AuctionClose::new(false);
    op.on_auction(auction(1, 1, 0, 50));
    op.on_auction(auction(2, 1, 0, 80));
    op.on_bid(bid(1, 10, 5));
    op.on_bid(bid(2, 11, 6));
    let out = op.advance(100);
    assert_eq!(out.len(), 2);
    assert_eq!(out[0].0.id, 1);
    assert_eq!(out[1].0.id, 2);
}

#[test]
fn provisional_bids_dropped_when_stale() {
    // Bids with no auction are revisited at their own time; once the
    // bound passes them with the auction still unknown they are dropped.
    let mut op = AuctionClose::new(false);
    op.on_bid(bid(9, 20, 10));
    op.on_bid(bid(9, 30, 20));
    let out = op.advance(40);
    assert_eq!(out.len(), 0);
    let out2 = op.advance(200);
    assert_eq!(out2.len(), 0);
}
