use nexmark::category_avg::SumWithCount;
use nexmark::expiry::ExpiryQueue;
use nexmark::state::{StateCell, ValueCell};
use nexmark::watermark::Watermark;

#[test]
fn direct_cell_basic_ops() {
    let mut c: StateCell<SumWithCount> = StateCell::new_direct();
    assert!(c.get(1).is_none());
    c.insert(1, SumWithCount { sum: 10, count: 1 });
    assert_eq!(c.get(1).unwrap().sum, 10);
    let removed = c.remove(1).unwrap();
    assert_eq!(removed.sum, 10);
    assert!(c.get(1).is_none());
}

#[test]
fn queued_cell_behaves_like_direct() {
    // the same operation sequence against both completion modes yields
    // the same observable reads
    let mut d: StateCell<SumWithCount> = StateCell::new_direct();
    let mut q: StateCell<SumWithCount> = StateCell::new_queued();
    for cell in [&mut d, &mut q] {
        cell.insert(1, SumWithCount { sum: 1, count: 1 });
        cell.rmw(1, SumWithCount { sum: 5, count: 1 });
        cell.insert(2, SumWithCount { sum: 7, count: 1 });
        cell.rmw(3, SumWithCount { sum: 9, count: 2 });
    }
    q.complete_pending();
    assert_eq!(d.get(1).unwrap(), q.get(1).unwrap());
    assert_eq!(d.get(1).unwrap(), &SumWithCount { sum: 6, count: 2 });
    assert_eq!(d.get(2).unwrap(), q.get(2).unwrap());
    assert_eq!(d.get(3).unwrap(), q.get(3).unwrap());
    assert_eq!(d.get(3).unwrap(), &SumWithCount { sum: 9, count: 2 });
}

#[test]
fn queued_cell_reads_drain_pending() {
    let mut q: StateCell<SumWithCount> = StateCell::new_queued();
    q.insert(4, SumWithCount { sum: 2, count: 1 });
    // the read itself forces completion of the parked write
    assert_eq!(q.get(4).unwrap().sum, 2);
    q.rmw(4, SumWithCount { sum: 3, count: 1 });
    assert_eq!(q.remove(4).unwrap(), SumWithCount { sum: 5, count: 2 });
}

#[test]
fn value_cell_get_set_take() {
    let mut v: ValueCell<u64> = ValueCell::empty();
    assert!(v.get().is_none());
    v.set(42);
    assert_eq!(v.get(), Some(&42));
    assert_eq!(v.take(), Some(42));
    assert!(v.take().is_none());
}

#[test]
fn expiry_queue_pops_in_time_order() {
    let mut q = ExpiryQueue::new();
    q.push(30, 3);
    q.push(10, 1);
    q.push(20, 2);
    assert_eq!(q.peek_min(), Some((10, 1)));
    assert_eq!(q.pop_min(), Some((10, 1)));
    assert_eq!(q.pop_min(), Some((20, 2)));
    assert_eq!(q.pop_min(), Some((30, 3)));
    assert_eq!(q.pop_min(), None);
}

#[test]
fn expiry_queue_tolerates_duplicates() {
    let mut q = ExpiryQueue::new();
    q.push(10, 1);
    q.push(10, 1);
    assert_eq!(q.len(), 2);
    assert_eq!(q.pop_min(), Some((10, 1)));
    assert_eq!(q.pop_min(), Some((10, 1)));
}

#[test]
fn watermark_obligation_and_downgrade() {
    let mut w = Watermark::new();
    assert_eq!(w.obligation_time(), None);
    w.observe(50);
    assert_eq!(w.obligation_time(), Some(50));
    // an earlier resolution time re-creates the obligation there
    w.observe(30);
    assert_eq!(w.obligation_time(), Some(30));
    // a later one does not move it back
    w.observe(40);
    assert_eq!(w.obligation_time(), Some(30));
    w.retire(45, Some(60), true);
    assert_eq!(w.obligation_time(), Some(60));
}
