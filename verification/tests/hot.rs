use nexmark::hot_items::{slide_of, CountTable, HotItems, TopAll};

#[test]
fn slide_boundaries_round_up() {
    assert_eq!(slide_of(0, 10), 10);
    assert_eq!(slide_of(5, 10), 10);
    assert_eq!(slide_of(9, 10), 10);
    assert_eq!(slide_of(10, 10), 20);
    assert_eq!(slide_of(25, 10), 30);
}

#[test]
fn trailing_window_top_key_scenario() {
    // slide_width 10, three slides per window (a 30-wide trailing window);
    // bids for keys {1, 1, 2, 1} bucket into slides {10, 10, 20, 30}.
    let mut op = HotItems::new(10, 3, false);
    op.on_bid(1, 5);
    op.on_bid(1, 6);
    op.on_bid(2, 15);
    op.on_bid(1, 25);
    let out = op.advance(31);
    // after slide 30 completes, the window {10, 20, 30} yields key 1
    // with count 3 as the top key
    assert_eq!(out, vec![(10, 1, 2), (20, 1, 2), (30, 1, 3)]);
}

#[test]
fn expired_slides_leave_the_window() {
    let mut op = HotItems::new(10, 3, false);
    op.on_bid(1, 5);
    op.on_bid(1, 6);
    op.on_bid(2, 15);
    op.on_bid(1, 25);
    let _ = op.advance(31);
    // at slide 40 the bucket of slide 10 has aged out: keys 1 and 2 are
    // tied at one event each, and the tie goes to the larger key
    let out = op.advance(61);
    assert_eq!(out, vec![(40, 2, 1), (50, 1, 1)]);
}

#[test]
fn queued_backend_same_counts() {
    let mut op = HotItems::new(10, 3, true);
    op.on_bid(1, 5);
    op.on_bid(1, 6);
    op.on_bid(2, 15);
    op.on_bid(1, 25);
    let out = op.advance(31);
    assert_eq!(out, vec![(10, 1, 2), (20, 1, 2), (30, 1, 3)]);
}

#[test]
fn global_reduce_keeps_first_best() {
    let mut op = TopAll::new(false);
    op.on_candidate(10, 1, 2);
    op.on_candidate(10, 7, 5);
    // an equal count does not displace the retained candidate
    op.on_candidate(10, 3, 5);
    op.on_candidate(20, 4, 1);
    let out = op.advance(15);
    assert_eq!(out, vec![(10, 7)]);
    let out2 = op.advance(25);
    assert_eq!(out2, vec![(20, 4)]);
}

#[test]
fn count_table_tracks_adds_and_removals() {
    let mut t = CountTable::new();
    t.bump(3, 1);
    t.bump(3, 2);
    t.bump(5, 4);
    assert_eq!(t.max_entry(), Some((5, 4)));
    t.reduce(5, 4);
    assert_eq!(t.max_entry(), Some((3, 3)));
    t.reduce(3, 3);
    assert_eq!(t.max_entry(), None);
}

#[test]
fn count_table_ties_go_to_larger_key() {
    let mut t = CountTable::new();
    t.bump(3, 2);
    t.bump(9, 2);
    t.bump(6, 2);
    assert_eq!(t.max_entry(), Some((9, 2)));
}

#[test]
fn table_fold_in_and_out() {
    let mut acc = CountTable::new();
    let mut b = CountTable::new();
    b.bump(1, 2);
    b.bump(2, 1);
    acc.add_table(&b);
    acc.add_table(&b);
    assert_eq!(acc.max_entry(), Some((1, 4)));
    acc.sub_table(&b);
    assert_eq!(acc.max_entry(), Some((1, 2)));
}
