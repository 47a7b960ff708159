use nexmark::calculate_hash;
use nexmark::category_avg::CategoryAverage;
use nexmark::event::{discounted_bid, is_valid_bid, Auction, Bid, Person};
use nexmark::person_window::{in_person_window, matched_sellers, IdList, IdSet, PersonWindow, RegistrationWindow};
use nexmark::seller_join::{category_kept, region_kept, SellerJoin};

fn person(id: u64, state: &str) -> Person {
    Person {
        id,
        name: format!("person-{}", id),
        city: "Portland".to_string(),
        state: state.to_string(),
        date_time: 0,
    }
}

fn auction(id: u64, seller: u64, category: u64) -> Auction {
    Auction { id, seller, category, reserve: 1, date_time: 0, expires: 100 }
}

#[test]
fn validity_rule() {
    let a = Auction { id: 1, seller: 2, category: 3, reserve: 10, date_time: 5, expires: 50 };
    assert!(is_valid_bid(&Bid { auction: 1, bidder: 4, price: 10, date_time: 5 }, &a));
    assert!(!is_valid_bid(&Bid { auction: 1, bidder: 4, price: 9, date_time: 5 }, &a));
    assert!(!is_valid_bid(&Bid { auction: 1, bidder: 4, price: 10, date_time: 4 }, &a));
    assert!(!is_valid_bid(&Bid { auction: 1, bidder: 4, price: 10, date_time: 50 }, &a));
}

#[test]
fn discount_scales_price_only() {
    let b = Bid { auction: 1, bidder: 2, price: 100, date_time: 3 };
    let d = discounted_bid(&b);
    assert_eq!(d.price, 89);
    assert_eq!(d.auction, 1);
    assert_eq!(d.bidder, 2);
    assert_eq!(d.date_time, 3);
    assert_eq!(discounted_bid(&Bid { auction: 1, bidder: 2, price: 10, date_time: 3 }).price, 8);
}

#[test]
fn seller_join_person_first() {
    let mut op = SellerJoin::new(false);
    assert!(op.on_auction(auction(11, 7, 10)).is_none());
    let rows = op.on_person(person(7, "OR"));
    assert_eq!(rows.len(), 1);
    assert_eq!(rows[0].0, "person-7");
    assert_eq!(rows[0].3, 11);
    // once the person is stored, later auctions join immediately
    let row = op.on_auction(auction(12, 7, 10)).unwrap();
    assert_eq!(row.3, 12);
    assert_eq!(row.2, "OR");
}

#[test]
fn seller_join_auction_first_accumulates() {
    let mut op = SellerJoin::new(false);
    assert!(op.on_auction(auction(11, 7, 10)).is_none());
    assert!(op.on_auction(auction(12, 7, 10)).is_none());
    let rows = op.on_person(person(7, "ID"));
    assert_eq!(rows.len(), 2);
    assert_eq!(rows[0].3, 11);
    assert_eq!(rows[1].3, 12);
}

#[test]
fn seller_join_filters() {
    assert!(category_kept(&auction(1, 2, 10)));
    assert!(!category_kept(&auction(1, 2, 9)));
    assert!(region_kept(&person(1, "OR")));
    assert!(region_kept(&person(1, "ID")));
    assert!(region_kept(&person(1, "CA")));
    assert!(!region_kept(&person(1, "WA")));
}

#[test]
fn category_average_accumulates() {
    let mut op = CategoryAverage::new(false);
    assert_eq!(op.current_total(10), None);
    assert_eq!(op.on_closed_auction(10, 100), (10, 100));
    assert_eq!(op.on_closed_auction(10, 50), (10, 75));
    assert_eq!(op.on_closed_auction(10, 10), (10, 53));
    assert_eq!(op.on_closed_auction(99, 7), (99, 7));
    assert_eq!(op.current_total(10), Some((160, 3)));
}

#[test]
fn category_average_queued_backend() {
    let mut op = CategoryAverage::new(true);
    assert_eq!(op.on_closed_auction(4, 8), (4, 8));
    assert_eq!(op.on_closed_auction(4, 4), (4, 6));
}

#[test]
fn person_window_matches_same_window() {
    let mut op = PersonWindow::new(10, false);
    // both round up to window 10
    op.on_person(7, 3);
    op.on_auction(7, 5);
    op.on_auction(8, 5);
    let out = op.advance(11);
    assert_eq!(out, vec![(10, 7)]);
}

#[test]
fn person_window_misses_other_window() {
    let mut op = PersonWindow::new(10, false);
    op.on_person(7, 3);
    // the auction falls into window 20, where person 7 did not arrive
    op.on_auction(7, 15);
    let out = op.advance(21);
    assert_eq!(out.len(), 0);
}

#[test]
fn matched_sellers_keeps_order_and_duplicates() {
    let list = IdList { items: vec![5, 3, 5, 9] };
    let mut people = IdSet::new();
    people.insert_id(5);
    people.insert_id(9);
    let out = matched_sellers(&list, &people);
    assert_eq!(out, vec![5, 5, 9]);
}

#[test]
fn person_window_emit_rule() {
    assert!(in_person_window(10, 8, 5));
    assert!(!in_person_window(13, 8, 5));
    assert!(in_person_window(7, 8, 0));
    assert!(!in_person_window(8, 8, 0));
    assert!(in_person_window(0, u64::MAX, 1));
}

#[test]
fn registration_window_reports_fresh_sellers() {
    let mut op = RegistrationWindow::new(5, false);
    op.on_person(7, 8);
    op.on_auction(7, 10);
    // at the window edge: no longer fresh
    op.on_auction(7, 13);
    // an unregistered seller is never reported
    op.on_auction(9, 10);
    let out = op.advance(20);
    assert_eq!(out, vec![7]);
}

#[test]
fn registration_window_holds_undue_auctions() {
    let mut op = RegistrationWindow::new(5, false);
    op.on_person(7, 8);
    op.on_auction(7, 10);
    op.on_auction(7, 30);
    // the second auction's creation is not yet provably past
    let out = op.advance(20);
    assert_eq!(out, vec![7]);
    // a re-registration overwrites, and decides the held-back auction
    op.on_person(7, 28);
    let out2 = op.advance(40);
    assert_eq!(out2, vec![7]);
}

#[test]
fn id_set_deduplicates() {
    let mut s = IdSet::new();
    s.insert_id(4);
    s.insert_id(4);
    assert!(s.contains_id(4));
    assert!(!s.contains_id(5));
}

#[test]
fn hash_is_deterministic_and_mixing() {
    let a = calculate_hash(&5u64);
    let b = calculate_hash(&5u64);
    assert_eq!(a, b);
    assert_ne!(calculate_hash(&0u64), 0);
    assert_ne!(calculate_hash(&1u64), calculate_hash(&2u64));
}
