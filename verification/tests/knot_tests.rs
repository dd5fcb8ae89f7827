use curve_fit_nd::knots::KnotList;
use curve_fit_nd::span::INVALID;

#[test]
fn new_open_list_links_in_order() {
    let list = KnotList::new(5, false);
    assert_eq!(list.remaining_len(), 5);
    assert_eq!(list.knot_count(), 5);
    assert_eq!(list.active_order(), vec![0, 1, 2, 3, 4]);
    let k0 = list.knot(0);
    assert_eq!(k0.prev, INVALID);
    assert_eq!(k0.next, 1);
    assert!(k0.no_remove);
    let k4 = list.knot(4);
    assert_eq!(k4.next, INVALID);
    assert!(k4.no_remove);
    let k2 = list.knot(2);
    assert_eq!((k2.prev, k2.next, k2.index), (1, 3, 2));
    assert_eq!(k2.tan, [4, 5]);
    assert!(!k2.no_remove && !k2.is_remove && !k2.is_corner);
}

#[test]
fn new_cyclic_list_closes_ring() {
    let list = KnotList::new(4, true);
    let k0 = list.knot(0);
    let k3 = list.knot(3);
    assert_eq!(k0.prev, 3);
    assert_eq!(k3.next, 0);
    assert!(!k0.no_remove && !k3.no_remove);
}

#[test]
fn single_knot_lists() {
    let open = KnotList::new(1, false);
    assert_eq!((open.knot(0).prev, open.knot(0).next), (INVALID, INVALID));
    let ring = KnotList::new(1, true);
    assert_eq!((ring.knot(0).prev, ring.knot(0).next), (0, 0));
}

#[test]
fn remove_knot_joins_neighbours() {
    let mut list = KnotList::new(5, false);
    assert_eq!(list.remove_knot(2), Some((1, 3)));
    assert_eq!(list.remaining_len(), 4);
    assert_eq!(list.knot(1).next, 3);
    assert_eq!(list.knot(3).prev, 1);
    let k2 = list.knot(2);
    assert!(k2.is_remove);
    assert_eq!((k2.prev, k2.next), (INVALID, INVALID));
    assert_eq!(list.active_order(), vec![0, 1, 3, 4]);
}

#[test]
fn remove_knot_keeps_two_knots() {
    let mut list = KnotList::new(3, true);
    assert_eq!(list.remove_knot(1), Some((0, 2)));
    assert_eq!(list.remove_knot(0), None);
    assert_eq!(list.remaining_len(), 2);
    assert_eq!(list.active_order(), vec![0, 2]);
}

#[test]
fn remove_knot_on_ring_wraps() {
    let mut list = KnotList::new(4, true);
    assert_eq!(list.remove_knot(0), Some((3, 1)));
    assert_eq!(list.knot(3).next, 1);
    assert_eq!(list.knot(1).prev, 3);
    assert_eq!(list.first_active(), 1);
    assert_eq!(list.last_active(), 3);
    assert_eq!(list.active_order(), vec![1, 2, 3]);
}

#[test]
fn refit_knot_moves_knot() {
    let mut list = KnotList::new(6, false);
    assert_eq!(list.remove_knot(2), Some((1, 3)));
    assert_eq!(list.remove_knot(3), Some((1, 4)));
    // knot 4 sits between 1 and 5; move it to 2
    assert!(list.can_refit(4, 2));
    assert!(!list.can_refit(4, 5));
    assert_eq!(list.refit_knot(4, 2), Some((1, 5)));
    assert_eq!(list.active_order(), vec![0, 1, 2, 5]);
    assert_eq!(list.knot(1).next, 2);
    assert_eq!(list.knot(5).prev, 2);
    assert_eq!((list.knot(2).prev, list.knot(2).next), (1, 5));
    assert!(list.knot(4).is_remove);
    assert_eq!(list.remaining_len(), 4);
}

#[test]
fn refit_knot_with_invalid_target_removes() {
    let mut list = KnotList::new(5, false);
    assert_eq!(list.refit_knot(2, INVALID), Some((1, 3)));
    assert_eq!(list.active_order(), vec![0, 1, 3, 4]);
}

#[test]
fn collapse_corner_brings_knot_back() {
    let mut list = KnotList::new(6, true);
    assert_eq!(list.remove_knot(2), Some((1, 3)));
    assert!(list.can_collapse_corner(2, 1, 3));
    assert!(!list.can_collapse_corner(4, 1, 3));
    list.collapse_corner(2, 1, 3);
    let k2 = list.knot(2);
    assert!(k2.is_corner && !k2.is_remove);
    assert_eq!((k2.prev, k2.next), (1, 3));
    assert_eq!(k2.tan, [3, 6]);
    assert_eq!(list.remaining_len(), 6);
    assert_eq!(list.active_order(), vec![0, 1, 2, 3, 4, 5]);
}

#[test]
fn candidates_and_corner_pairs() {
    let mut list = KnotList::new(5, false);
    assert!(!list.is_removal_candidate(0));
    assert!(list.is_removal_candidate(2));
    list.mark_corner(2);
    assert!(!list.is_removal_candidate(2));
    assert!(!list.is_recalc_candidate(2));
    assert!(list.is_recalc_candidate(3));
    assert_eq!(list.corner_pair(0), None);
    assert_eq!(list.corner_pair(1), Some(2));
    assert_eq!(list.corner_pair(3), None);
}

#[test]
fn remove_then_collapse_restores_active_knots() {
    let mut list = KnotList::new(7, false);
    let before = list.active_order();
    let (p, q) = list.remove_knot(3).unwrap();
    assert!(list.can_collapse_corner(3, p, q));
    list.collapse_corner(3, p, q);
    assert_eq!(list.active_order(), before);
    assert!(list.knot(3).is_corner);
}

#[test]
fn refit_then_back_restores_active_knots() {
    let mut list = KnotList::new(8, true);
    assert!(list.remove_knot(2).is_some());
    assert!(list.remove_knot(4).is_some());
    // active: 0 1 3 5 6 7; knot 3 sits between 1 and 5
    let before = list.active_order();
    assert_eq!(list.refit_knot(3, 4), Some((1, 5)));
    assert_eq!(list.active_order(), vec![0, 1, 4, 5, 6, 7]);
    assert!(list.can_refit(4, 3));
    assert_eq!(list.refit_knot(4, 3), Some((1, 5)));
    assert_eq!(list.active_order(), before);
}

#[test]
fn ring_traversal_starts_at_lowest_index() {
    let mut list = KnotList::new(5, true);
    assert!(list.remove_knot(0).is_some());
    assert!(list.remove_knot(1).is_some());
    assert_eq!(list.first_active(), 2);
    assert_eq!(list.active_order(), vec![2, 3, 4]);
    assert_eq!(list.knot(4).next, 2);
    assert_eq!(list.knot(2).prev, 4);
}
