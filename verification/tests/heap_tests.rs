use curve_fit_nd::min_heap::MinHeap;

#[test]
fn heap_pops_in_key_order() {
    let mut h = MinHeap::with_capacity(8);
    h.insert_or_update(3, 30);
    h.insert_or_update(1, 10);
    h.insert_or_update(5, 50);
    h.insert_or_update(7, 20);
    assert_eq!(h.len(), 4);
    assert_eq!(h.pop_min(), Some((10, 1)));
    assert_eq!(h.pop_min(), Some((20, 7)));
    assert_eq!(h.pop_min(), Some((30, 3)));
    assert_eq!(h.pop_min(), Some((50, 5)));
    assert_eq!(h.pop_min(), None);
    assert!(h.is_empty());
}

#[test]
fn heap_breaks_ties_by_id() {
    let mut h = MinHeap::with_capacity(6);
    h.insert_or_update(4, 7);
    h.insert_or_update(2, 7);
    h.insert_or_update(5, 7);
    assert_eq!(h.pop_min(), Some((7, 2)));
    assert_eq!(h.pop_min(), Some((7, 4)));
    assert_eq!(h.pop_min(), Some((7, 5)));
}

#[test]
fn heap_update_moves_entry() {
    let mut h = MinHeap::with_capacity(4);
    h.insert_or_update(0, 5);
    h.insert_or_update(1, 6);
    h.insert_or_update(2, 7);
    h.insert_or_update(2, 1);
    h.insert_or_update(0, 9);
    assert_eq!(h.len(), 3);
    assert_eq!(h.pop_min(), Some((1, 2)));
    assert_eq!(h.pop_min(), Some((6, 1)));
    assert_eq!(h.pop_min(), Some((9, 0)));
}

#[test]
fn heap_remove_withdraws_entry() {
    let mut h = MinHeap::with_capacity(4);
    h.insert_or_update(0, 5);
    h.insert_or_update(1, 6);
    h.insert_or_update(2, 7);
    h.remove(0);
    h.remove(3);
    assert!(!h.contains(0));
    assert!(h.contains(1));
    assert_eq!(h.len(), 2);
    assert_eq!(h.pop_min(), Some((6, 1)));
    assert_eq!(h.pop_min(), Some((7, 2)));
    assert_eq!(h.pop_min(), None);
}

#[test]
fn heap_sorts_many_entries() {
    let n = 50;
    let mut h = MinHeap::with_capacity(n);
    for i in 0..n {
        h.insert_or_update(i, ((i * 37) % 23) as u64);
    }
    let mut last = (0u64, 0usize);
    let mut count = 0;
    while let Some(e) = h.pop_min() {
        if count > 0 {
            assert!(last < e);
        }
        last = e;
        count += 1;
    }
    assert_eq!(count, n);
}
