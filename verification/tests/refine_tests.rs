use curve_fit_nd::knots::{KnotList, KnotNode};
use curve_fit_nd::refine::{
    curve_incremental_simplify, curve_incremental_simplify_corners, split_calc_methods,
    try_refit_candidate, RefitQueue, RemovalQuery, SplitCalcMethod,
};
use curve_fit_nd::span::INVALID;

/// Removal is allowed when the span across the knot has at most `max_span` points;
/// the key is the span itself (knot `i` of a fresh list stands at point `i`).
fn span_cost(max_span: usize) -> impl Fn(RemovalQuery) -> Option<u64> {
    move |q: RemovalQuery| {
        let span = q.next - q.prev + 1;
        if span <= max_span {
            Some(span as u64)
        } else {
            None
        }
    }
}

#[test]
fn removal_pass_takes_cheapest_first() {
    let mut list = KnotList::new(7, false);
    let (removed, _) = curve_incremental_simplify(&mut list, &span_cost(4));
    assert_eq!(removed, vec![(1, 0, 2, 3), (3, 2, 4, 3), (5, 4, 6, 3)]);
    assert_eq!(list.active_order(), vec![0, 2, 4, 6]);
    assert_eq!(list.remaining_len(), 4);
}

#[test]
fn removal_pass_follows_cost_not_index() {
    // the later a knot, the cheaper its removal; only spans of three points fit
    let mut list = KnotList::new(7, false);
    let cost = |q: RemovalQuery| {
        if q.next - q.prev + 1 <= 3 {
            Some(100 - q.curr as u64)
        } else {
            None
        }
    };
    let (removed, _) = curve_incremental_simplify(&mut list, &cost);
    assert_eq!(removed, vec![(5, 4, 6, 95), (3, 2, 4, 97), (1, 0, 2, 99)]);
    assert_eq!(list.active_order(), vec![0, 2, 4, 6]);
}

#[test]
fn removal_pass_log_names_final_links() {
    let mut list = KnotList::new(9, false);
    let (removed, _) = curve_incremental_simplify(&mut list, &span_cost(5));
    // the last removal naming a knot as `prev` names its final `next`
    for k in list.active_order() {
        if let Some(e) = removed.iter().rev().find(|e| e.1 == k) {
            assert_eq!(e.2, list.knot(k).next);
        }
    }
    assert_eq!(list.remaining_len() + removed.len(), 9);
}

#[test]
fn removal_pass_keeps_ends_and_corners() {
    let mut list = KnotList::new(6, false);
    list.mark_corner(3);
    let (removed, _) = curve_incremental_simplify(&mut list, &span_cost(100));
    assert_eq!(list.active_order(), vec![0, 3, 5]);
    assert_eq!(removed.len(), 3);
}

#[test]
fn removal_pass_stops_at_two_knots() {
    let mut list = KnotList::new(6, true);
    // on a ring `next - prev` may wrap; use a cost that always accepts
    let always = |q: RemovalQuery| Some(q.curr as u64);
    let (removed, _) = curve_incremental_simplify(&mut list, &always);
    assert_eq!(list.remaining_len(), 2);
    assert_eq!(list.active_order().len(), 2);
    assert_eq!(removed.len(), 4);
}

#[test]
fn removal_pass_refusing_everything_removes_nothing() {
    let mut list = KnotList::new(5, false);
    let (removed, _) = curve_incremental_simplify(&mut list, &|_q: RemovalQuery| None);
    assert!(removed.is_empty());
    assert_eq!(list.active_order(), vec![0, 1, 2, 3, 4]);
}

/// Proposes the middle removed knot between two active knots as a corner.
fn middle_corner(prev: KnotNode, next: KnotNode) -> Option<(usize, Option<u64>)> {
    let (prev, next) = (prev.index, next.index);
    if next > prev + 1 {
        let mid = (prev + next) / 2;
        Some((mid, Some((next - prev) as u64)))
    } else {
        None
    }
}

#[test]
fn corner_pass_inserts_corners() {
    let mut list = KnotList::new(9, false);
    assert!(list.remove_knot(2).is_some());
    assert!(list.remove_knot(3).is_some());
    assert!(list.remove_knot(6).is_some());
    // active: 0 1 4 5 7 8; pairs with a gap: (1,4) -> 2, (5,7) -> 6
    let (collapsed, _) = curve_incremental_simplify_corners(&mut list, &middle_corner);
    assert_eq!(collapsed, vec![(6, 5, 7, 2), (2, 1, 4, 3)]);
    assert_eq!(list.active_order(), vec![0, 1, 2, 4, 5, 6, 7, 8]);
    assert!(list.knot(2).is_corner && list.knot(6).is_corner);
    // the corner takes the outgoing tangent of `prev` and the incoming one of `next`
    assert_eq!(list.knot(2).tan, [3, 8]);
    assert_eq!((list.knot(2).prev, list.knot(2).next), (1, 4));
    assert_eq!((list.knot(1).next, list.knot(4).prev), (2, 2));
    assert_eq!(list.knot(6).tan, [11, 14]);
    // a knot no collapse touches is left as it was
    let k3 = list.knot(3);
    assert!(k3.is_remove && !k3.is_corner && k3.tan == [6, 7]);
    assert_eq!((list.knot(0).next, list.knot(8).prev), (1, 7));
}

#[test]
fn corner_pass_ignores_proposals_outside_the_pair() {
    let mut list = KnotList::new(9, false);
    assert!(list.remove_knot(2).is_some());
    assert!(list.remove_knot(3).is_some());
    // active: 0 1 4 5 ...; every pair proposes knot 6, which is active or outside it
    let (collapsed, _) = curve_incremental_simplify_corners(&mut list, &|_p: KnotNode, _n: KnotNode| Some((6, Some(1))));
    assert!(collapsed.is_empty());
    // a proposal beyond the threshold is never brought back
    let (collapsed, _) = curve_incremental_simplify_corners(&mut list, &|_p: KnotNode, _n: KnotNode| Some((2, None)));
    assert!(collapsed.is_empty());
    assert_eq!(list.active_order(), vec![0, 1, 4, 5, 6, 7, 8]);
}

#[test]
fn refit_candidates_are_deduplicated() {
    let mut tried = Vec::new();
    assert!(try_refit_candidate(&mut tried, 4, 2));
    assert!(!try_refit_candidate(&mut tried, 4, 2));
    assert!(!try_refit_candidate(&mut tried, 2, 2));
    assert!(!try_refit_candidate(&mut tried, INVALID, 2));
    assert!(try_refit_candidate(&mut tried, 5, 2));
    assert_eq!(tried, vec![4, 5]);
}

#[test]
fn refit_methods_order() {
    assert_eq!(
        split_calc_methods(),
        vec![
            SplitCalcMethod::MaxError,
            SplitCalcMethod::MaxDistance,
            SplitCalcMethod::Inflection,
            SplitCalcMethod::SignChange
        ]
    );
}

#[test]
fn refit_queue_moves_cheapest_first() {
    let mut list = KnotList::new(7, false);
    assert!(list.remove_knot(3).is_some());
    // active: 0 1 2 4 5 6
    let mut queue = RefitQueue::new(&list);
    queue.settle(&list, 2, Some((5, 3)));
    // a target outside the knot's neighbours is not queued
    queue.settle(&list, 4, Some((1, 1)));
    queue.settle(&list, 5, Some((2, INVALID)));
    assert_eq!(queue.pop_refit(&mut list), Some((2, 5, INVALID, 4, 6, true)));
    queue.settle(&list, 4, None);
    queue.settle(&list, 6, None);
    assert_eq!(list.active_order(), vec![0, 1, 2, 4, 6]);
    assert_eq!(queue.pop_refit(&mut list), Some((5, 2, 3, 1, 4, true)));
    queue.settle(&list, 1, None);
    queue.settle(&list, 4, None);
    assert_eq!(list.active_order(), vec![0, 1, 3, 4, 6]);
    assert_eq!(queue.pop_refit(&mut list), None);
}

#[test]
fn refit_queue_leaves_two_knots() {
    let mut list = KnotList::new(3, false);
    let mut queue = RefitQueue::new(&list);
    queue.settle(&list, 1, Some((0, INVALID)));
    assert_eq!(queue.pop_refit(&mut list), Some((0, 1, INVALID, 0, 2, true)));
    queue.settle(&list, 0, None);
    queue.settle(&list, 2, None);
    assert_eq!(list.active_order(), vec![0, 2]);
    assert_eq!(queue.pop_refit(&mut list), None);
}
