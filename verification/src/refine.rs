//! The refinement passes that decide which knots are removed or become
//! corners, driven by a priority queue of candidate knots.
//!
//! The geometry (fitting curves and measuring their error) is supplied by the
//! caller as functions that answer queries about knots.  The passes are
//! proved to keep the knot list consistent whatever those answer, and their
//! contracts say what they do with each answer.

use vstd::prelude::*;
use crate::knots::{KnotList, KnotNode};
use crate::min_heap::{MinHeap, is_least_entry};
use crate::span::INVALID;

verus! {

/// What the removal pass asks the geometry about one knot: the cost of
/// removing `curr` and fitting one curve from its neighbour `prev` (leaving
/// along tangent `tan_prev`) to its neighbour `next` (arriving along tangent
/// `tan_next`) instead.
#[derive(Clone, Copy, Debug)]
pub struct RemovalQuery {
    /// The knot before the one asked about.
    pub prev: usize,
    /// The knot asked about.
    pub curr: usize,
    /// The knot after the one asked about.
    pub next: usize,
    /// The outgoing tangent of `prev`.
    pub tan_prev: usize,
    /// The incoming tangent of `next`.
    pub tan_next: usize,
}

/// The query about knot `k` in the list as it stands.
pub open spec fn removal_query(knots: &KnotList, k: int) -> RemovalQuery {
    let kn = knots.nodes()[k];
    RemovalQuery {
        prev: kn.prev,
        curr: k as usize,
        next: kn.next,
        tan_prev: knots.nodes()[kn.prev as int].tan[1],
        tan_next: knots.nodes()[kn.next as int].tan[0],
    }
}

/// The query of a logged removal `(curr, prev, next, key)`, with the tangents
/// of the knots of `knots`.
pub open spec fn logged_query(knots: &KnotList, e: (usize, usize, usize, u64)) -> RemovalQuery {
    RemovalQuery {
        prev: e.1,
        curr: e.0,
        next: e.2,
        tan_prev: knots.nodes()[e.1 as int].tan[1],
        tan_next: knots.nodes()[e.2 as int].tan[0],
    }
}

/// Knot `id` may be taken out by the removal pass.
pub open spec fn removal_candidate(knots: &KnotList, id: int) -> bool {
    knots.is_active(id) && !knots.nodes()[id].no_remove && !knots.nodes()[id].is_corner
}

/// Every knot that the queue holds may be taken out by the removal pass.
pub open spec fn queue_holds_candidates(knots: &KnotList, heap: &MinHeap) -> bool {
    forall|id: usize| #[trigger] heap@.dom().contains(id) ==> removal_candidate(knots, id as int)
}

/// The queue `entries` records the answer `r` about knot `k`: a cost is
/// queued as its key, no cost leaves `k` out.
pub open spec fn answer_recorded(r: Option<u64>, entries: Map<usize, u64>, k: usize) -> bool {
    match r {
        Some(key) => entries.dom().contains(k) && entries[k] == key,
        None => !entries.dom().contains(k),
    }
}

/// The candidate `k` has been asked about as it now stands, and the queue
/// records that answer.
pub open spec fn removal_settled<F: Fn(RemovalQuery) -> Option<u64>>(
    cost: &F,
    knots: &KnotList,
    entries: Map<usize, u64>,
    k: usize,
) -> bool {
    exists|r: Option<u64>|
        #![trigger cost.ensures((removal_query(knots, k as int),), r)]
        cost.ensures((removal_query(knots, k as int),), r) && answer_recorded(r, entries, k)
}

/// The queue `entries` holds, for `knots`, exactly the candidates whose
/// current query was answered a cost, each keyed by that cost.
pub open spec fn queue_answers<F: Fn(RemovalQuery) -> Option<u64>>(
    cost: &F,
    knots: &KnotList,
    entries: Map<usize, u64>,
) -> bool {
    &&& forall|id: usize| #[trigger] entries.dom().contains(id) ==> removal_candidate(knots, id as int)
    &&& forall|j: usize|
        #[trigger] removal_candidate(knots, j as int) ==> removal_settled(cost, knots, entries, j)
}

/// The removal `e = (curr, prev, next, key)` made from the list and queue of
/// `step`: the queue answered every candidate of the list, `(key, curr)` was
/// its least entry, and `prev`, `next` were the neighbours of `curr`.
pub open spec fn removal_step_ok<F: Fn(RemovalQuery) -> Option<u64>>(
    cost: &F,
    step: (KnotList, Map<usize, u64>),
    e: (usize, usize, usize, u64),
) -> bool {
    &&& step.0.wf()
    &&& queue_answers(cost, &step.0, step.1)
    &&& is_least_entry(step.1, (e.3, e.0))
    &&& e.1 == step.0.nodes()[e.0 as int].prev
    &&& e.2 == step.0.nodes()[e.0 as int].next
}

/// `b` is `a` with knot `i` taken out and its neighbours `p` and `q` joined;
/// no other knot changes.
pub open spec fn knot_taken_out(a: KnotList, b: KnotList, i: int, p: int, q: int) -> bool {
    &&& b.cyclic() == a.cyclic()
    &&& b.nodes().len() == a.nodes().len()
    &&& b.remaining() + 1 == a.remaining()
    &&& b.active_set() == a.active_set().remove(i)
    &&& b.nodes()[i] == (KnotNode { is_remove: true, next: INVALID, prev: INVALID, ..a.nodes()[i] })
    &&& b.nodes()[p] == (KnotNode { next: q as usize, ..a.nodes()[p] })
    &&& b.nodes()[q] == (KnotNode { prev: p as usize, ..a.nodes()[q] })
    &&& forall|j: int|
        0 <= j < a.nodes().len() && j != i && j != p && j != q ==> #[trigger] b.nodes()[j] == a.nodes()[j]
}

/// The list that the removal `i` of a pass left: the list of the next step,
/// or `last` after the last removal.
pub open spec fn list_after(steps: Seq<(KnotList, Map<usize, u64>)>, i: int, last: KnotList) -> KnotList {
    if i + 1 < steps.len() {
        steps[i + 1].0
    } else {
        last
    }
}

/// Knot `k` is the `prev` of the removal `i` of `log`, and of none after it.
pub open spec fn last_joined_at(log: Seq<(usize, usize, usize, u64)>, k: int, i: int) -> bool {
    &&& 0 <= i < log.len()
    &&& log[i].1 == k
    &&& forall|j: int| i < j < log.len() ==> (#[trigger] log[j]).1 != k
}

/// What the removal pass asks about knot `k`: the knot with its current
/// neighbours, and the curve across them leaves `prev` along the outgoing
/// tangent of `prev` and arrives at `next` along the incoming tangent of
/// `next`.  A logged removal `(curr, prev, next, key)` is asked with the same
/// tangents of its `prev` and `next`.
pub proof fn lemma_removal_query_tangents(knots: &KnotList, k: int, e: (usize, usize, usize, u64))
    ensures
        removal_query(knots, k).curr == k as usize,
        removal_query(knots, k).prev == knots.nodes()[k].prev,
        removal_query(knots, k).next == knots.nodes()[k].next,
        removal_query(knots, k).tan_prev == knots.nodes()[knots.nodes()[k].prev as int].tan[1],
        removal_query(knots, k).tan_next == knots.nodes()[knots.nodes()[k].next as int].tan[0],
        logged_query(knots, e).curr == e.0 && logged_query(knots, e).prev == e.1
            && logged_query(knots, e).next == e.2,
        logged_query(knots, e).tan_prev == knots.nodes()[e.1 as int].tan[1],
        logged_query(knots, e).tan_next == knots.nodes()[e.2 as int].tan[0],
{
}

/// The removal pass considers every active knot that is neither fixed
/// (`no_remove`) nor a corner, on chains and rings alike, whatever its index.
pub proof fn lemma_removal_candidates(knots: &KnotList, id: int)
    ensures
        removal_candidate(knots, id) <==> knots.is_active(id) && !knots.nodes()[id].no_remove
            && !knots.nodes()[id].is_corner,
{
}

/// The numbering, tangents and the two fixed flags of every knot are those of `a`.
pub open spec fn same_identity(a: &KnotList, b: &KnotList) -> bool {
    &&& b.cyclic() == a.cyclic()
    &&& b.nodes().len() == a.nodes().len()
    &&& forall|j: int|
        0 <= j < a.nodes().len() ==> {
            &&& (#[trigger] b.nodes()[j]).no_remove == a.nodes()[j].no_remove
            &&& b.nodes()[j].is_corner == a.nodes()[j].is_corner
            &&& b.nodes()[j].index == a.nodes()[j].index
            &&& b.nodes()[j].tan == a.nodes()[j].tan
        }
}

/// (Re)calculate the cost of removing knot `k` and update its queue entry:
/// kept with the new key when the removal is within the threshold, else
/// withdrawn.  Returns the answer of the geometry.
fn knot_remove_error_recalculate<F: Fn(RemovalQuery) -> Option<u64>>(
    knots: &KnotList,
    heap: &mut MinHeap,
    cost: &F,
    k: usize,
) -> (answer: Option<u64>)
    requires
        knots.wf(),
        removal_candidate(knots, k as int),
        old(heap).wf(),
        old(heap).capacity() == knots.nodes().len(),
        queue_holds_candidates(knots, old(heap)),
        forall|q: RemovalQuery| cost.requires((q,)),
    ensures
        final(heap).wf(),
        final(heap).capacity() == old(heap).capacity(),
        queue_holds_candidates(knots, final(heap)),
        cost.ensures((removal_query(knots, k as int),), answer),
        cost.ensures(
            (RemovalQuery {
                prev: knots.nodes()[k as int].prev,
                curr: k,
                next: knots.nodes()[k as int].next,
                tan_prev: knots.nodes()[knots.nodes()[k as int].prev as int].tan[1],
                tan_next: knots.nodes()[knots.nodes()[k as int].next as int].tan[0],
            },),
            answer,
        ),
        final(heap)@ == (match answer {
            Some(key) => old(heap)@.insert(k, key),
            None => old(heap)@.remove(k),
        }),
{
    let kn = knots.knot(k);
    proof {
        assert(knots.linked(k as int));
        if !knots.cyclic() {
            assert(knots.is_active(0));
            assert(knots.is_active(knots.nodes().len() - 1));
        }
    }
    let kp = knots.knot(kn.prev);
    let kq = knots.knot(kn.next);
    let query = RemovalQuery { prev: kn.prev, curr: k, next: kn.next, tan_prev: kp.tan[1], tan_next: kq.tan[0] };
    let answer = cost(query);
    match answer {
        Some(key) => {
            heap.insert_or_update(k, key);
        },
        None => {
            heap.remove(k);
        },
    }
    answer
}

/// Iteratively remove all knots under the error threshold.
///
/// Every removable knot that is no corner is asked about (its
/// [`RemovalQuery`]); it is queued while the geometry answers a cost, i.e.
/// the curve fitted across its neighbours stays within the threshold.  The
/// knot with the smallest cost (then the smallest index) is taken out first,
/// then both neighbours are asked about again; the pass ends when the queue
/// is empty.  It never takes the list below two active knots, and never
/// removes an end of an open curve or a corner.
///
/// Returns the removals `(curr, prev, next, key)` in the order they were
/// made, each with the cost it was answered for exactly that query, and (as
/// ghost) the list and the queue from which each removal was made: at each
/// removal the queue held every candidate answered a cost, keyed by it, and
/// `(key, curr)` was its least entry.  Unless the list ended at two knots,
/// every knot that could still be removed was last answered `None` for its
/// current neighbours.  The last removal naming a knot as `prev` names its
/// final `next`.
pub fn curve_incremental_simplify<F: Fn(RemovalQuery) -> Option<u64>>(
    knots: &mut KnotList,
    cost: &F,
) -> ((removed, steps): (Vec<(usize, usize, usize, u64)>, Ghost<Seq<(KnotList, Map<usize, u64>)>>))
    requires
        old(knots).wf(),
        forall|q: RemovalQuery| cost.requires((q,)),
    ensures
        final(knots).wf(),
        same_identity(old(knots), final(knots)),
        final(knots).active_set().subset_of(old(knots).active_set()),
        old(knots).remaining() > 2 ==> final(knots).remaining() >= 2,
        old(knots).remaining() <= 2 ==> final(knots).nodes() == old(knots).nodes()
            && final(knots).remaining() == old(knots).remaining(),
        final(knots).remaining() + removed@.len() == old(knots).remaining(),
        steps@.len() == removed@.len(),
        removed@.len() > 0 ==> steps@[0].0 == *old(knots),
        forall|i: int|
            0 <= i < removed@.len() ==> {
                &&& removal_step_ok(cost, steps@[i], #[trigger] removed@[i])
                &&& knot_taken_out(
                    steps@[i].0,
                    list_after(steps@, i, *final(knots)),
                    removed@[i].0 as int,
                    removed@[i].1 as int,
                    removed@[i].2 as int,
                )
            },
        forall|i: int|
            0 <= i < removed@.len() ==> {
                &&& old(knots).is_active(#[trigger] removed@[i].0 as int)
                &&& !final(knots).is_active(removed@[i].0 as int)
                &&& cost.ensures((logged_query(old(knots), removed@[i]),), Some(removed@[i].3))
            },
        forall|j: int|
            old(knots).is_active(j) && !#[trigger] final(knots).is_active(j) ==> exists|i: int|
                0 <= i < removed@.len() && removed@[i].0 == j,
        forall|k: int|
            #[trigger] final(knots).is_active(k) && final(knots).nodes()[k].next != old(knots).nodes()[k].next
                ==> exists|i: int|
                last_joined_at(removed@, k, i) && removed@[i].2 == final(knots).nodes()[k].next,
        final(knots).remaining() > 2 ==> forall|k: usize|
            #[trigger] removal_candidate(final(knots), k as int) ==> cost.ensures(
                (removal_query(final(knots), k as int),),
                None,
            ),
        final(knots).remaining() > 2 ==> forall|k: usize|
            #![trigger final(knots).is_active(k as int)]
            final(knots).is_active(k as int) && !final(knots).nodes()[k as int].no_remove
                && !final(knots).nodes()[k as int].is_corner ==> cost.ensures(
                (RemovalQuery {
                    prev: final(knots).nodes()[k as int].prev,
                    curr: k,
                    next: final(knots).nodes()[k as int].next,
                    tan_prev: final(knots).nodes()[final(knots).nodes()[k as int].prev as int].tan[1],
                    tan_next: final(knots).nodes()[final(knots).nodes()[k as int].next as int].tan[0],
                },),
                None,
            ),
{
    let n = knots.knot_count();
    let mut heap = MinHeap::with_capacity(n);
    let mut removed: Vec<(usize, usize, usize, u64)> = Vec::new();
    let ghost mut steps: Seq<(KnotList, Map<usize, u64>)> = Seq::empty();
    let mut k: usize = 0;
    while k < n
        invariant
            knots.wf(),
            *knots == *old(knots),
            n == knots.nodes().len(),
            heap.wf(),
            heap.capacity() == n,
            queue_holds_candidates(knots, &heap),
            forall|q: RemovalQuery| cost.requires((q,)),
            forall|j: usize|
                j < k && #[trigger] removal_candidate(knots, j as int) ==> removal_settled(
                    cost,
                    knots,
                    heap@,
                    j,
                ),
        decreases n - k,
    {
        if knots.is_removal_candidate(k) {
            let ghost h0 = heap@;
            let answer = knot_remove_error_recalculate(knots, &mut heap, cost, k);
            proof {
                assert(removal_settled(cost, knots, heap@, k));
                assert forall|j: usize|
                    j < k + 1 && #[trigger] removal_candidate(knots, j as int) implies removal_settled(
                    cost,
                    knots,
                    heap@,
                    j,
                ) by {
                    if j != k {
                        lemma_settled_kept(cost, knots, knots, h0, heap@, j);
                    }
                }
            }
        }
        k += 1;
    }
    let ghost mut discarded = false;
    loop
        invariant
            knots.wf(),
            n == knots.nodes().len(),
            heap.wf(),
            heap.capacity() == n,
            queue_holds_candidates(knots, &heap),
            forall|q: RemovalQuery| cost.requires((q,)),
            same_identity(old(knots), knots),
            knots.active_set().subset_of(old(knots).active_set()),
            old(knots).remaining() > 2 ==> knots.remaining() >= 2,
            old(knots).remaining() <= 2 ==> knots.nodes() == old(knots).nodes() && knots.remaining()
                == old(knots).remaining(),
            knots.remaining() + removed@.len() == old(knots).remaining(),
            steps.len() == removed@.len(),
            removed@.len() > 0 ==> steps[0].0 == *old(knots),
            removed@.len() == 0 ==> *knots == *old(knots),
            forall|i: int|
                0 <= i < removed@.len() ==> {
                    &&& removal_step_ok(cost, steps[i], #[trigger] removed@[i])
                    &&& knot_taken_out(
                        steps[i].0,
                        list_after(steps, i, *knots),
                        removed@[i].0 as int,
                        removed@[i].1 as int,
                        removed@[i].2 as int,
                    )
                },
            forall|i: int|
                0 <= i < removed@.len() ==> {
                    &&& old(knots).is_active(#[trigger] removed@[i].0 as int)
                    &&& !knots.is_active(removed@[i].0 as int)
                    &&& cost.ensures((logged_query(old(knots), removed@[i]),), Some(removed@[i].3))
                },
            forall|j: int|
                old(knots).is_active(j) && !#[trigger] knots.is_active(j) ==> exists|i: int|
                    0 <= i < removed@.len() && removed@[i].0 == j,
            forall|kk: int|
                #[trigger] knots.is_active(kk) ==> knots.nodes()[kk].next == old(knots).nodes()[kk].next
                    || exists|i: int|
                    last_joined_at(removed@, kk, i) && removed@[i].2 == knots.nodes()[kk].next,
            !discarded ==> forall|j: usize|
                #[trigger] removal_candidate(knots, j as int) ==> removal_settled(cost, knots, heap@, j),
            discarded ==> knots.remaining() <= 2,
        ensures
            heap@ == Map::<usize, u64>::empty(),
        decreases knots.remaining(), heap@.len(),
    {
        let ghost h0 = heap@;
        proof {
            heap.lemma_entries_finite();
        }
        match heap.pop_min() {
            None => {
                break;
            },
            Some((key, idx)) => {
                proof {
                    heap.lemma_entries_finite();
                    assert(h0.dom().contains(idx));
                    assert(heap@.dom().len() < h0.dom().len());
                }
                if knots.remaining_len() <= 2 {
                    proof {
                        discarded = true;
                    }
                    continue;
                }
                let ghost k0 = *knots;
                let ghost h1 = heap@;
                proof {
                    assert(removal_candidate(&k0, idx as int));
                    assert(removal_settled(cost, &k0, h0, idx));
                    let r0 = choose|r: Option<u64>|
                        cost.ensures((removal_query(&k0, idx as int),), r) && answer_recorded(r, h0, idx);
                    assert(r0 == Some(key));
                }
                let joined = knots.remove_knot(idx);
                match joined {
                    None => {},
                    Some((p, q)) => {
                        let ghost lg0 = removed@;
                        let ghost st0 = steps;
                        removed.push((idx, p, q, key));
                        proof {
                            steps = steps.push((k0, h0));
                            lemma_removal_logged(cost, old(knots), &k0, idx, p, q, key);
                            lemma_removal_resettles(cost, &k0, knots, h0, h1, idx, p, q);
                            let lg = removed@;
                            assert(lg[lg.len() - 1] == (idx, p, q, key));
                            assert(removal_step_ok(cost, (k0, h0), (idx, p, q, key)));
                            assert forall|id: usize| #[trigger] heap@.dom().contains(id) implies removal_candidate(
                                knots,
                                id as int,
                            ) by {
                                assert(removal_candidate(&k0, id as int));
                                assert(id != idx);
                            }
                            assert forall|i: int| 0 <= i < lg.len() implies {
                                &&& removal_step_ok(cost, steps[i], #[trigger] lg[i])
                                &&& knot_taken_out(
                                    steps[i].0,
                                    list_after(steps, i, *knots),
                                    lg[i].0 as int,
                                    lg[i].1 as int,
                                    lg[i].2 as int,
                                )
                            } by {
                                if i < lg.len() - 1 {
                                    assert(lg[i] == lg0[i]);
                                    assert(steps[i] == st0[i]);
                                    if i + 1 < st0.len() {
                                        assert(list_after(steps, i, *knots) == list_after(st0, i, k0));
                                    } else {
                                        assert(list_after(steps, i, *knots) == k0);
                                    }
                                } else {
                                    assert(list_after(steps, i, *knots) == *knots);
                                }
                            }
                            assert forall|i: int| 0 <= i < lg.len() implies {
                                &&& old(knots).is_active(#[trigger] lg[i].0 as int)
                                &&& !knots.is_active(lg[i].0 as int)
                                &&& cost.ensures((logged_query(old(knots), lg[i]),), Some(lg[i].3))
                            } by {
                                if i < lg.len() - 1 {
                                    assert(lg[i] == lg0[i]);
                                    assert(!k0.is_active(lg[i].0 as int));
                                    assert(!knots.active_set().contains(lg[i].0 as int));
                                }
                            }
                            assert forall|j: int| old(knots).is_active(j) && !#[trigger] knots.is_active(j) implies exists|i: int|
                                0 <= i < lg.len() && lg[i].0 == j by {
                                if j == idx {
                                    assert(lg[lg.len() - 1].0 == j);
                                } else {
                                    assert(!k0.active_set().contains(j));
                                    assert(!k0.is_active(j));
                                    let i = choose|i: int| 0 <= i < lg0.len() && lg0[i].0 == j;
                                    assert(lg[i] == lg0[i]);
                                }
                            }
                            assert forall|kk: int| #[trigger] knots.is_active(kk) implies knots.nodes()[kk].next
                                == old(knots).nodes()[kk].next || exists|i: int|
                                last_joined_at(lg, kk, i) && lg[i].2 == knots.nodes()[kk].next by {
                                if kk == p {
                                    assert(last_joined_at(lg, kk, lg.len() - 1));
                                } else {
                                    assert(knots.active_set().contains(kk));
                                    assert(k0.active_set().contains(kk));
                                    assert(k0.is_active(kk));
                                    assert(kk != idx);
                                    assert(knots.nodes()[kk].next == k0.nodes()[kk].next);
                                    if k0.nodes()[kk].next != old(knots).nodes()[kk].next {
                                        let i = choose|i: int|
                                            last_joined_at(lg0, kk, i) && lg0[i].2 == k0.nodes()[kk].next;
                                        assert(lg[i] == lg0[i]);
                                        assert(last_joined_at(lg, kk, i));
                                    }
                                }
                            }
                        }
                        if knots.is_recalc_candidate(p) {
                            let ghost h2 = heap@;
                            knot_remove_error_recalculate(knots, &mut heap, cost, p);
                            proof {
                                assert forall|j: usize| #[trigger] removal_candidate(knots, j as int) && j != q implies removal_settled(
                                    cost,
                                    knots,
                                    heap@,
                                    j,
                                ) by {
                                    if j != p {
                                        lemma_settled_kept(cost, knots, knots, h2, heap@, j);
                                    }
                                }
                            }
                        } else {
                            proof {
                                knots.lemma_candidate_links(p as int);
                            }
                        }
                        if knots.is_recalc_candidate(q) {
                            let ghost h2 = heap@;
                            knot_remove_error_recalculate(knots, &mut heap, cost, q);
                            proof {
                                assert forall|j: usize| #[trigger] removal_candidate(knots, j as int) implies removal_settled(
                                    cost,
                                    knots,
                                    heap@,
                                    j,
                                ) by {
                                    if j != q {
                                        lemma_settled_kept(cost, knots, knots, h2, heap@, j);
                                    }
                                }
                            }
                        } else {
                            proof {
                                knots.lemma_candidate_links(q as int);
                            }
                        }
                    },
                }
            },
        }
    }
    proof {
        if knots.remaining() > 2 {
            assert(!discarded);
            assert forall|k: usize| #[trigger] removal_candidate(knots, k as int) implies cost.ensures(
                (removal_query(knots, k as int),),
                None,
            ) by {
                assert(removal_settled(cost, knots, heap@, k));
                let r = choose|r: Option<u64>|
                    cost.ensures((removal_query(knots, k as int),), r) && answer_recorded(r, heap@, k);
                assert(!heap@.dom().contains(k));
            }
            lemma_refused_by_fields(cost, knots);
        }
        assert forall|kk: int|
            #[trigger] knots.is_active(kk) && knots.nodes()[kk].next != old(knots).nodes()[kk].next
                implies exists|i: int|
                last_joined_at(removed@, kk, i) && removed@[i].2 == knots.nodes()[kk].next by {}
    }
    (removed, Ghost(steps))
}

/// Every candidate refused for its query is refused for the query written
/// out on the knot's fields.
proof fn lemma_refused_by_fields<F: Fn(RemovalQuery) -> Option<u64>>(cost: &F, knots: &KnotList)
    requires
        forall|k: usize|
            #[trigger] removal_candidate(knots, k as int) ==> cost.ensures(
                (removal_query(knots, k as int),),
                None,
            ),
    ensures
        forall|k: usize|
            #![trigger knots.is_active(k as int)]
            knots.is_active(k as int) && !knots.nodes()[k as int].no_remove
                && !knots.nodes()[k as int].is_corner ==> cost.ensures(
                (RemovalQuery {
                    prev: knots.nodes()[k as int].prev,
                    curr: k,
                    next: knots.nodes()[k as int].next,
                    tan_prev: knots.nodes()[knots.nodes()[k as int].prev as int].tan[1],
                    tan_next: knots.nodes()[knots.nodes()[k as int].next as int].tan[0],
                },),
                None,
            ),
{
    assert forall|k: usize|
        #![trigger knots.is_active(k as int)]
        knots.is_active(k as int) && !knots.nodes()[k as int].no_remove
            && !knots.nodes()[k as int].is_corner implies cost.ensures(
            (RemovalQuery {
                prev: knots.nodes()[k as int].prev,
                curr: k,
                next: knots.nodes()[k as int].next,
                tan_prev: knots.nodes()[knots.nodes()[k as int].prev as int].tan[1],
                tan_next: knots.nodes()[knots.nodes()[k as int].next as int].tan[0],
            },),
            None,
        ) by {
        assert(removal_candidate(knots, k as int));
    }
}

/// A knot stays settled when its query and its queue entry are unchanged.
proof fn lemma_settled_kept<F: Fn(RemovalQuery) -> Option<u64>>(
    cost: &F,
    a: &KnotList,
    b: &KnotList,
    ea: Map<usize, u64>,
    eb: Map<usize, u64>,
    j: usize,
)
    requires
        removal_settled(cost, a, ea, j),
        removal_query(a, j as int) == removal_query(b, j as int),
        ea.dom().contains(j) == eb.dom().contains(j),
        ea.dom().contains(j) ==> ea[j] == eb[j],
    ensures
        removal_settled(cost, b, eb, j),
{
    let r = choose|r: Option<u64>|
        cost.ensures((removal_query(a, j as int),), r) && answer_recorded(r, ea, j);
    assert(cost.ensures((removal_query(b, j as int),), r));
    assert(answer_recorded(r, eb, j));
}

/// The removal of a queued knot was answered its key for the query it is
/// logged with.
proof fn lemma_removal_logged<F: Fn(RemovalQuery) -> Option<u64>>(
    cost: &F,
    orig: &KnotList,
    k0: &KnotList,
    idx: usize,
    p: usize,
    q: usize,
    key: u64,
)
    requires
        k0.wf(),
        same_identity(orig, k0),
        removal_candidate(k0, idx as int),
        p == k0.nodes()[idx as int].prev,
        q == k0.nodes()[idx as int].next,
        cost.ensures((removal_query(k0, idx as int),), Some(key)),
    ensures
        cost.ensures((logged_query(orig, (idx, p, q, key)),), Some(key)),
{
    assert(k0.linked(idx as int));
    if !k0.cyclic() {
        assert(k0.is_active(0));
        assert(k0.is_active(k0.nodes().len() - 1));
    }
    assert(orig.nodes()[p as int].tan == k0.nodes()[p as int].tan);
    assert(orig.nodes()[q as int].tan == k0.nodes()[q as int].tan);
    assert(logged_query(orig, (idx, p, q, key)) == removal_query(k0, idx as int));
}

/// After the queued knot `idx` was popped and removed, joining `p` and `q`,
/// every candidate other than `p` and `q` is still settled.
proof fn lemma_removal_resettles<F: Fn(RemovalQuery) -> Option<u64>>(
    cost: &F,
    k0: &KnotList,
    k1: &KnotList,
    h0: Map<usize, u64>,
    h1: Map<usize, u64>,
    idx: usize,
    p: usize,
    q: usize,
)
    requires
        k0.wf(),
        k1.wf(),
        same_identity(k0, k1),
        k1.active_set() == k0.active_set().remove(idx as int),
        forall|j: int|
            0 <= j < k0.nodes().len() && j != idx && j != p && j != q
                ==> #[trigger] k1.nodes()[j] == k0.nodes()[j],
        h1 == h0.remove(idx),
        forall|j: usize|
            #[trigger] removal_candidate(k0, j as int) ==> removal_settled(cost, k0, h0, j),
    ensures
        forall|j: usize|
            #[trigger] removal_candidate(k1, j as int) && j != p && j != q ==> removal_settled(
                cost,
                k1,
                h1,
                j,
            ),
{
    assert forall|j: usize| #[trigger] removal_candidate(k1, j as int) && j != p && j != q implies removal_settled(
        cost,
        k1,
        h1,
        j,
    ) by {
        assert(k1.active_set().contains(j as int));
        assert(k0.active_set().contains(j as int));
        assert(j != idx);
        assert(k1.nodes()[j as int] == k0.nodes()[j as int]);
        assert(removal_candidate(k0, j as int));
        let kn = k0.nodes()[j as int];
        assert(k1.nodes()[kn.prev as int].tan == k0.nodes()[kn.prev as int].tan) by {
            assert(k0.linked(j as int));
            if !k0.cyclic() {
                assert(k0.is_active(0));
                assert(k0.is_active(k0.nodes().len() - 1));
            }
        }
        assert(k1.nodes()[kn.next as int].tan == k0.nodes()[kn.next as int].tan) by {
            assert(k0.linked(j as int));
            if !k0.cyclic() {
                assert(k0.is_active(0));
                assert(k0.is_active(k0.nodes().len() - 1));
            }
        }
        assert(removal_query(k1, j as int) == removal_query(k0, j as int));
        lemma_settled_kept(cost, k0, k1, h0, h1, j);
    }
}

/// The corner queue is consistent with the list: every queued split still
/// fits between the knots recorded for it, and no two queued splits share
/// their `prev` knot.
pub open spec fn corner_queue_ok(
    knots: &KnotList,
    heap: &MinHeap,
    pair_prev: Seq<usize>,
    pair_next: Seq<usize>,
) -> bool {
    &&& pair_prev.len() == knots.nodes().len()
    &&& pair_next.len() == knots.nodes().len()
    &&& forall|s: usize| #[trigger]
        heap@.dom().contains(s) ==> knots.corner_fits(s as int, pair_prev[s as int] as int, pair_next[s as int] as int)
    &&& forall|s1: usize, s2: usize|
        #[trigger] heap@.dom().contains(s1) && #[trigger] heap@.dom().contains(s2) && s1 != s2
            ==> pair_prev[s1 as int] != pair_prev[s2 as int]
}

/// What became of the answer `r` to the corner pair `(p, q)` of `orig`: a
/// proposed corner within the threshold that fits between the pair is queued
/// for that pair or has been brought back.
pub open spec fn corner_answer_kept(
    orig: &KnotList,
    now: &KnotList,
    entries: Map<usize, u64>,
    pair_prev: Seq<usize>,
    pair_next: Seq<usize>,
    r: Option<(usize, Option<u64>)>,
    p: int,
    q: int,
) -> bool {
    match r {
        Some((s, Some(_))) => !orig.corner_fits(s as int, p, q) || (entries.dom().contains(s)
            && pair_prev[s as int] == p && pair_next[s as int] == q) || now.is_active(s as int),
        _ => true,
    }
}

/// The corner pair starting at `p` in `orig` (if any) has been asked about,
/// and its answer was acted on.
pub open spec fn corner_pair_settled<G: Fn(KnotNode, KnotNode) -> Option<(usize, Option<u64>)>>(
    candidate: &G,
    orig: &KnotList,
    now: &KnotList,
    entries: Map<usize, u64>,
    pair_prev: Seq<usize>,
    pair_next: Seq<usize>,
    p: int,
) -> bool {
    orig.corner_next(p) matches Some(q) ==> exists|r: Option<(usize, Option<u64>)>|
        #![trigger candidate.ensures((orig.nodes()[p], orig.nodes()[q as int]), r)]
        candidate.ensures((orig.nodes()[p], orig.nodes()[q as int]), r) && corner_answer_kept(
            orig,
            now,
            entries,
            pair_prev,
            pair_next,
            r,
            p,
            q as int,
        )
}

/// The corner pair starting at `p` in `orig` (if any) was asked about once,
/// and if the answer proposed, within the threshold, a split that fits
/// between the pair in `orig`, that split is active in `now`.
pub open spec fn corner_pair_answered<G: Fn(KnotNode, KnotNode) -> Option<(usize, Option<u64>)>>(
    candidate: &G,
    orig: &KnotList,
    now: &KnotList,
    p: int,
) -> bool {
    orig.corner_next(p) matches Some(q) ==> exists|r: Option<(usize, Option<u64>)>|
        #![trigger candidate.ensures((orig.nodes()[p], orig.nodes()[q as int]), r)]
        candidate.ensures((orig.nodes()[p], orig.nodes()[q as int]), r) && match r {
            Some((s, Some(_))) => orig.corner_fits(s as int, p, q as int) ==> now.is_active(s as int),
            _ => true,
        }
}

/// Every queued split was proposed, within the threshold, for the corner
/// pair of `orig` that it is queued with, and fits between that pair there.
pub open spec fn corner_entries_proposed<G: Fn(KnotNode, KnotNode) -> Option<(usize, Option<u64>)>>(
    candidate: &G,
    orig: &KnotList,
    entries: Map<usize, u64>,
    pair_prev: Seq<usize>,
    pair_next: Seq<usize>,
) -> bool {
    forall|s: usize| #[trigger]
        entries.dom().contains(s) ==> corner_collapse_proposed(
            candidate,
            orig,
            (s, pair_prev[s as int], pair_next[s as int], entries[s]),
        )
}

/// The corner of the collapse `e = (split, prev, next, key)` stands in `now`
/// between the two knots of its pair, which link to it, and its tangents are
/// the outgoing one of `prev` and the incoming one of `next` in `orig`.
pub open spec fn corner_made(orig: &KnotList, now: &KnotList, e: (usize, usize, usize, u64)) -> bool {
    &&& now.nodes()[e.0 as int].tan == [orig.nodes()[e.1 as int].tan[1], orig.nodes()[e.2 as int].tan[0]]
    &&& now.nodes()[e.0 as int].prev == e.1
    &&& now.nodes()[e.0 as int].next == e.2
    &&& now.nodes()[e.1 as int].next == e.0
    &&& now.nodes()[e.2 as int].prev == e.0
}

/// Knot `j` is the corner or one side of some collapse in `log`.
pub open spec fn touched_by(log: Seq<(usize, usize, usize, u64)>, j: int) -> bool {
    exists|i: int|
        0 <= i < log.len() && ((#[trigger] log[i]).0 == j || log[i].1 == j || log[i].2 == j)
}

/// The collapse `(split, prev, next, key)` was proposed for the corner pair
/// `(prev, next)` of `orig` with the cost `key`, and fits there.
pub open spec fn corner_collapse_proposed<G: Fn(KnotNode, KnotNode) -> Option<(usize, Option<u64>)>>(
    candidate: &G,
    orig: &KnotList,
    e: (usize, usize, usize, u64),
) -> bool {
    &&& 0 <= e.1 < orig.nodes().len()
    &&& orig.corner_next(e.1 as int) == Some(e.2)
    &&& orig.corner_fits(e.0 as int, e.1 as int, e.2 as int)
    &&& candidate.ensures((orig.nodes()[e.1 as int], orig.nodes()[e.2 as int]), Some((e.0, Some(e.3))))
}

/// The queue from which the collapse `i` of a pass was made: the record of
/// the next collapse's queue, or what was left after the last one.
pub open spec fn queue_after(queues: Seq<Map<usize, u64>>, i: int, last: Map<usize, u64>) -> Map<usize, u64> {
    if i + 1 < queues.len() {
        queues[i + 1]
    } else {
        last
    }
}

/// Attempt to collapse close knots into corners.
///
/// For every pair of adjacent removable knots the geometry is asked once; it
/// may name a removed knot between them and the cost of turning it into a
/// corner that replaces the pair's shared curve.  Those within the threshold
/// that lie between the pair are queued, then brought back as corners,
/// cheapest first.  A proposal that does not lie between its pair is
/// ignored.  No knot is removed; every knot that becomes active is a corner.
///
/// Returns the collapses `(split, prev, next, key)` in the order they were
/// made, each with the cost it was proposed with, and (as ghost) the queue
/// from which each was made: `(key, split)` was its least entry, and the
/// next queue is what remained.  The knots that became active are exactly the proposed corners within the
/// threshold that lie between their pair.  Each new corner is linked between
/// the two knots of its pair, which link to it, with the outgoing tangent of
/// `prev` and the incoming tangent of `next`; a knot that is neither a new
/// corner nor one side of a collapse is left as it was.
pub fn curve_incremental_simplify_corners<G: Fn(KnotNode, KnotNode) -> Option<(usize, Option<u64>)>>(
    knots: &mut KnotList,
    candidate: &G,
) -> ((collapsed, queues): (Vec<(usize, usize, usize, u64)>, Ghost<Seq<Map<usize, u64>>>))
    requires
        old(knots).wf(),
        forall|a: KnotNode, b: KnotNode| candidate.requires((a, b)),
    ensures
        final(knots).wf(),
        final(knots).cyclic() == old(knots).cyclic(),
        final(knots).nodes().len() == old(knots).nodes().len(),
        old(knots).active_set().subset_of(final(knots).active_set()),
        final(knots).remaining() >= old(knots).remaining(),
        forall|j: int|
            #[trigger] final(knots).is_active(j) && !old(knots).is_active(j) ==> final(knots).nodes()[j].is_corner,
        forall|j: int|
            0 <= j < old(knots).nodes().len() ==> {
                &&& (#[trigger] final(knots).nodes()[j]).no_remove == old(knots).nodes()[j].no_remove
                &&& final(knots).nodes()[j].index == old(knots).nodes()[j].index
                &&& (old(knots).is_active(j) ==> final(knots).nodes()[j].is_corner == old(knots).nodes()[j].is_corner && final(knots).nodes()[j].tan == old(knots).nodes()[j].tan)
            },
        final(knots).remaining() == old(knots).remaining() + collapsed@.len(),
        forall|i: int|
            0 <= i < collapsed@.len() ==> {
                &&& corner_collapse_proposed(candidate, old(knots), #[trigger] collapsed@[i])
                &&& final(knots).is_active(collapsed@[i].0 as int)
                &&& !old(knots).is_active(collapsed@[i].0 as int)
            },
        forall|j: int|
            #[trigger] final(knots).is_active(j) && !old(knots).is_active(j) ==> exists|i: int|
                0 <= i < collapsed@.len() && collapsed@[i].0 == j,
        forall|i: int|
            0 <= i < collapsed@.len() ==> corner_made(old(knots), final(knots), #[trigger] collapsed@[i]),
        queues@.len() == collapsed@.len(),
        forall|i: int|
            0 <= i < collapsed@.len() ==> {
                &&& is_least_entry(queues@[i], ((#[trigger] collapsed@[i]).3, collapsed@[i].0))
                &&& queue_after(queues@, i, Map::<usize, u64>::empty()) == queues@[i].remove(
                    collapsed@[i].0,
                )
            },
        forall|j: int|
            0 <= j < old(knots).nodes().len() && !touched_by(collapsed@, j)
                ==> #[trigger] final(knots).nodes()[j] == old(knots).nodes()[j],
        forall|p: int|
            0 <= p < old(knots).nodes().len() ==> #[trigger] corner_pair_answered(
                candidate,
                old(knots),
                final(knots),
                p,
            ),
{
    let n = knots.knot_count();
    let mut heap = MinHeap::with_capacity(n);
    let mut pair_prev: Vec<usize> = Vec::with_capacity(n);
    let mut pair_next: Vec<usize> = Vec::with_capacity(n);
    let mut collapsed: Vec<(usize, usize, usize, u64)> = Vec::new();
    let ghost mut queues: Seq<Map<usize, u64>> = Seq::empty();
    let mut i: usize = 0;
    while i < n
        invariant
            i <= n,
            pair_prev@.len() == i,
            pair_next@.len() == i,
        decreases n - i,
    {
        pair_prev.push(INVALID);
        pair_next.push(INVALID);
        i += 1;
    }
    let mut k_prev: usize = 0;
    while k_prev < n
        invariant
            knots.wf(),
            *knots == *old(knots),
            n == knots.nodes().len(),
            heap.wf(),
            heap.capacity() == n,
            forall|a: KnotNode, b: KnotNode| candidate.requires((a, b)),
            corner_queue_ok(knots, &heap, pair_prev@, pair_next@),
            forall|s: usize| #[trigger] heap@.dom().contains(s) ==> pair_prev@[s as int] < k_prev,
            corner_entries_proposed(candidate, old(knots), heap@, pair_prev@, pair_next@),
            forall|p: int|
                0 <= p < k_prev ==> #[trigger] corner_pair_settled(
                    candidate,
                    old(knots),
                    knots,
                    heap@,
                    pair_prev@,
                    pair_next@,
                    p,
                ),
        decreases n - k_prev,
    {
        let ghost h0 = heap@;
        let ghost pp0 = pair_prev@;
        let ghost pn0 = pair_next@;
        match knots.corner_pair(k_prev) {
            Some(k_next) => {
                let answer = candidate(knots.knot(k_prev), knots.knot(k_next));
                match answer {
                    Some((split, Some(key))) => {
                        if knots.can_collapse_corner(split, k_prev, k_next) {
                            proof {
                                if heap@.dom().contains(split) {
                                    let p0 = pair_prev@[split as int] as int;
                                    assert(knots.corner_fits(split as int, p0, pair_next@[split as int] as int));
                                    knots.lemma_gap_owner(split as int, p0, k_prev as int);
                                    assert(false);
                                }
                            }
                            heap.insert_or_update(split, key);
                            pair_prev.set(split, k_prev);
                            pair_next.set(split, k_next);
                            proof {
                                assert forall|s: usize| #[trigger] heap@.dom().contains(s) implies knots.corner_fits(
                                    s as int,
                                    pair_prev@[s as int] as int,
                                    pair_next@[s as int] as int,
                                ) && pair_prev@[s as int] <= k_prev && corner_collapse_proposed(
                                    candidate,
                                    old(knots),
                                    (s, pair_prev@[s as int], pair_next@[s as int], heap@[s]),
                                ) by {
                                    if s != split {
                                        assert(h0.dom().contains(s));
                                    } else {
                                        assert(pair_prev@[s as int] == k_prev);
                                        assert(pair_next@[s as int] == k_next);
                                        assert(old(knots).corner_next(k_prev as int) == Some(k_next));
                                        assert(candidate.ensures(
                                            (old(knots).nodes()[k_prev as int], old(knots).nodes()[k_next as int]),
                                            Some((split, Some(key))),
                                        ));
                                        assert(corner_collapse_proposed(candidate, old(knots), (split, k_prev, k_next, key)));
                                    }
                                }
                                assert forall|s1: usize, s2: usize|
                                    #[trigger] heap@.dom().contains(s1) && #[trigger] heap@.dom().contains(s2)
                                        && s1 != s2 implies pair_prev@[s1 as int] != pair_prev@[s2 as int] by {
                                    if s1 != split && s2 != split {
                                        assert(h0.dom().contains(s1) && h0.dom().contains(s2));
                                    } else if s1 == split {
                                        assert(h0.dom().contains(s2));
                                    } else {
                                        assert(h0.dom().contains(s1));
                                    }
                                }
                                assert forall|p: int| 0 <= p < k_prev + 1 implies #[trigger] corner_pair_settled(
                                    candidate,
                                    old(knots),
                                    knots,
                                    heap@,
                                    pair_prev@,
                                    pair_next@,
                                    p,
                                ) by {
                                    if p == k_prev {
                                        assert(corner_answer_kept(old(knots), knots, heap@, pair_prev@, pair_next@, answer, p, k_next as int));
                                    } else {
                                        lemma_corner_settled_kept(candidate, old(knots), knots, knots, h0, heap@, pp0, pn0, pair_prev@, pair_next@, p);
                                    }
                                }
                            }
                        } else {
                            proof {
                                assert(corner_pair_settled(candidate, old(knots), knots, heap@, pair_prev@, pair_next@, k_prev as int)) by {
                                    assert(corner_answer_kept(old(knots), knots, heap@, pair_prev@, pair_next@, answer, k_prev as int, k_next as int));
                                }
                            }
                        }
                    },
                    Some((split, None)) => {
                        if knots.can_collapse_corner(split, k_prev, k_next) {
                            proof {
                                if heap@.dom().contains(split) {
                                    let p0 = pair_prev@[split as int] as int;
                                    assert(knots.corner_fits(split as int, p0, pair_next@[split as int] as int));
                                    knots.lemma_gap_owner(split as int, p0, k_prev as int);
                                    assert(false);
                                }
                            }
                            heap.remove(split);
                            proof {
                                assert(heap@ =~= h0);
                            }
                        }
                        proof {
                            assert(corner_pair_settled(candidate, old(knots), knots, heap@, pair_prev@, pair_next@, k_prev as int)) by {
                                assert(corner_answer_kept(old(knots), knots, heap@, pair_prev@, pair_next@, answer, k_prev as int, k_next as int));
                            }
                        }
                    },
                    None => {
                        proof {
                            assert(corner_pair_settled(candidate, old(knots), knots, heap@, pair_prev@, pair_next@, k_prev as int)) by {
                                assert(corner_answer_kept(old(knots), knots, heap@, pair_prev@, pair_next@, answer, k_prev as int, k_next as int));
                            }
                        }
                    },
                }
            },
            None => {},
        }
        k_prev += 1;
    }
    loop
        invariant
            knots.wf(),
            n == knots.nodes().len(),
            n == old(knots).nodes().len(),
            heap.wf(),
            heap.capacity() == n,
            corner_queue_ok(knots, &heap, pair_prev@, pair_next@),
            corner_entries_proposed(candidate, old(knots), heap@, pair_prev@, pair_next@),
            knots.cyclic() == old(knots).cyclic(),
            old(knots).active_set().subset_of(knots.active_set()),
            knots.remaining() == old(knots).remaining() + collapsed@.len(),
            forall|j: int|
                #[trigger] knots.is_active(j) && !old(knots).is_active(j) ==> knots.nodes()[j].is_corner,
            forall|j: int|
                0 <= j < n ==> {
                    &&& (#[trigger] knots.nodes()[j]).no_remove == old(knots).nodes()[j].no_remove
                    &&& knots.nodes()[j].index == old(knots).nodes()[j].index
                    &&& (old(knots).is_active(j) ==> knots.nodes()[j].is_corner == old(knots).nodes()[j].is_corner && knots.nodes()[j].tan == old(knots).nodes()[j].tan)
                },
            forall|i: int|
                0 <= i < collapsed@.len() ==> {
                    &&& corner_collapse_proposed(candidate, old(knots), #[trigger] collapsed@[i])
                    &&& knots.is_active(collapsed@[i].0 as int)
                    &&& !old(knots).is_active(collapsed@[i].0 as int)
                },
            forall|j: int|
                #[trigger] knots.is_active(j) && !old(knots).is_active(j) ==> exists|i: int|
                    0 <= i < collapsed@.len() && collapsed@[i].0 == j,
            old(knots).wf(),
            forall|i: int|
                0 <= i < collapsed@.len() ==> corner_made(old(knots), knots, #[trigger] collapsed@[i]),
            forall|j: int|
                0 <= j < n && !touched_by(collapsed@, j)
                    ==> #[trigger] knots.nodes()[j] == old(knots).nodes()[j],
            forall|s: usize, i: int|
                #[trigger] heap@.dom().contains(s) && 0 <= i < collapsed@.len() ==> pair_prev@[s as int]
                    != #[trigger] collapsed@[i].1 && pair_next@[s as int] != collapsed@[i].2,
            queues.len() == collapsed@.len(),
            forall|i: int|
                0 <= i < collapsed@.len() ==> {
                    &&& is_least_entry(queues[i], ((#[trigger] collapsed@[i]).3, collapsed@[i].0))
                    &&& queue_after(queues, i, heap@) == queues[i].remove(collapsed@[i].0)
                },
            forall|p: int|
                0 <= p < n ==> #[trigger] corner_pair_settled(
                    candidate,
                    old(knots),
                    knots,
                    heap@,
                    pair_prev@,
                    pair_next@,
                    p,
                ),
        ensures
            heap@ == Map::<usize, u64>::empty(),
        decreases heap@.len(),
    {
        let ghost h0 = heap@;
        proof {
            heap.lemma_entries_finite();
        }
        match heap.pop_min() {
            None => {
                break;
            },
            Some((key, split)) => {
                proof {
                    heap.lemma_entries_finite();
                    assert(h0.dom().contains(split));
                }
                let p = pair_prev[split];
                let q = pair_next[split];
                let ghost k0 = *knots;
                let ghost lg0 = collapsed@;
                let ghost qs0 = queues;
                knots.collapse_corner(split, p, q);
                collapsed.push((split, p, q, key));
                proof {
                    queues = queues.push(h0);
                    assert forall|i: int| 0 <= i < collapsed@.len() implies {
                        &&& is_least_entry(queues[i], ((#[trigger] collapsed@[i]).3, collapsed@[i].0))
                        &&& queue_after(queues, i, heap@) == queues[i].remove(collapsed@[i].0)
                    } by {
                        if i < collapsed@.len() - 1 {
                            assert(collapsed@[i] == lg0[i]);
                            assert(queues[i] == qs0[i]);
                            if i + 1 < qs0.len() {
                                assert(queue_after(queues, i, heap@) == queue_after(qs0, i, h0));
                            } else {
                                assert(queue_after(queues, i, heap@) == h0);
                            }
                        } else {
                            assert(collapsed@[i] == (split, p, q, key));
                            assert(queue_after(queues, i, heap@) == heap@);
                        }
                    }
                    assert(h0[split] == key);
                    assert(corner_collapse_proposed(candidate, old(knots), (split, p, q, key)));
                    lemma_proposed_sides(candidate, old(knots), (split, p, q, key));
                    assert(!old(knots).is_active(split as int)) by {
                        if old(knots).is_active(split as int) {
                            assert(old(knots).active_set().contains(split as int));
                        }
                    }
                    let lgn = collapsed@;
                    assert(lgn[lgn.len() - 1] == (split, p, q, key));
                    assert forall|i: int| 0 <= i < lgn.len() implies corner_made(old(knots), knots, #[trigger] lgn[i]) by {
                        if i < lgn.len() - 1 {
                            let e = lgn[i];
                            assert(e == lg0[i]);
                            assert(corner_made(old(knots), &k0, e));
                            lemma_proposed_sides(candidate, old(knots), e);
                            assert(h0.dom().contains(split) && 0 <= i < lg0.len());
                            assert(pair_prev@[split as int] != lg0[i].1);
                            assert(k0.is_active(e.0 as int));
                            assert(e.0 != split);
                            assert(e.1 != split && e.2 != split) by {
                                assert(old(knots).active_set().contains(e.1 as int));
                                assert(old(knots).active_set().contains(e.2 as int));
                            }
                            assert(knots.nodes()[e.0 as int].tan == k0.nodes()[e.0 as int].tan);
                            assert(knots.nodes()[e.0 as int].prev == k0.nodes()[e.0 as int].prev);
                            assert(knots.nodes()[e.0 as int].next == k0.nodes()[e.0 as int].next);
                            assert(knots.nodes()[e.1 as int].next == k0.nodes()[e.1 as int].next);
                            assert(knots.nodes()[e.2 as int].prev == k0.nodes()[e.2 as int].prev);
                        } else {
                            assert(k0.nodes()[p as int].tan == old(knots).nodes()[p as int].tan);
                            assert(k0.nodes()[q as int].tan == old(knots).nodes()[q as int].tan);
                        }
                    }
                    assert forall|j: int| 0 <= j < n && !touched_by(lgn, j)
                        implies #[trigger] knots.nodes()[j] == old(knots).nodes()[j] by {
                        if touched_by(lg0, j) {
                            let i = choose|i: int|
                                0 <= i < lg0.len() && ((#[trigger] lg0[i]).0 == j || lg0[i].1 == j || lg0[i].2 == j);
                            assert(lgn[i] == lg0[i]);
                        }
                        if j == split || j == p || j == q {
                            assert(lgn[lgn.len() - 1] == (split, p, q, key));
                        }
                        assert(k0.nodes()[j] == old(knots).nodes()[j]);
                        let a = knots.nodes()[j];
                        let b = k0.nodes()[j];
                        assert(a.next == b.next && a.prev == b.prev && a.index == b.index && a.tan == b.tan
                            && a.no_remove == b.no_remove && a.is_remove == b.is_remove && a.is_corner == b.is_corner);
                        assert(a == b);
                    }
                    assert forall|s2: usize, i: int|
                        #[trigger] heap@.dom().contains(s2) && 0 <= i < lgn.len() implies pair_prev@[s2 as int]
                            != #[trigger] lgn[i].1 && pair_next@[s2 as int] != lgn[i].2 by {
                        assert(h0.dom().contains(s2));
                        if i < lgn.len() - 1 {
                            assert(lgn[i] == lg0[i]);
                        } else {
                            assert(h0.dom().contains(split));
                            assert(k0.corner_fits(s2 as int, pair_prev@[s2 as int] as int, pair_next@[s2 as int] as int));
                            if pair_next@[s2 as int] == q {
                                k0.lemma_next_unique(pair_prev@[s2 as int] as int, p as int);
                            }
                        }
                    }
                    assert forall|s: usize| #[trigger] heap@.dom().contains(s) implies knots.corner_fits(
                        s as int,
                        pair_prev@[s as int] as int,
                        pair_next@[s as int] as int,
                    ) by {
                        assert(h0.dom().contains(s));
                        assert(k0.corner_fits(s as int, pair_prev@[s as int] as int, pair_next@[s as int] as int));
                        assert(pair_prev@[s as int] != p);
                        assert(knots.active_set().contains(pair_prev@[s as int] as int));
                    }
                    assert forall|s1: usize, s2: usize|
                        #[trigger] heap@.dom().contains(s1) && #[trigger] heap@.dom().contains(s2) && s1
                            != s2 implies pair_prev@[s1 as int] != pair_prev@[s2 as int] by {
                        assert(h0.dom().contains(s1) && h0.dom().contains(s2));
                    }
                    assert forall|s: usize| #[trigger] heap@.dom().contains(s) implies corner_collapse_proposed(
                        candidate,
                        old(knots),
                        (s, pair_prev@[s as int], pair_next@[s as int], heap@[s]),
                    ) by {
                        assert(h0.dom().contains(s));
                    }
                    assert forall|j: int| #[trigger] knots.is_active(j) && !old(knots).is_active(j) implies knots.nodes()[j].is_corner by {
                        if j != split {
                            assert(knots.active_set().contains(j));
                            assert(k0.active_set().contains(j));
                            assert(k0.is_active(j));
                            assert(k0.nodes()[j].is_corner);
                        }
                    }
                    assert(!old(knots).is_active(split as int)) by {
                        if old(knots).is_active(split as int) {
                            assert(old(knots).active_set().contains(split as int));
                        }
                    }
                    let lg = collapsed@;
                    assert forall|i: int| 0 <= i < lg.len() implies {
                        &&& corner_collapse_proposed(candidate, old(knots), #[trigger] lg[i])
                        &&& knots.is_active(lg[i].0 as int)
                        &&& !old(knots).is_active(lg[i].0 as int)
                    } by {
                        if i < lg.len() - 1 {
                            assert(lg[i] == lg0[i]);
                            assert(k0.is_active(lg0[i].0 as int));
                            assert(k0.active_set().contains(lg0[i].0 as int));
                            assert(knots.active_set().contains(lg0[i].0 as int));
                        }
                    }
                    assert forall|j: int| #[trigger] knots.is_active(j) && !old(knots).is_active(j) implies exists|i: int|
                        0 <= i < lg.len() && lg[i].0 == j by {
                        if j == split {
                            assert(lg[lg.len() - 1].0 == j);
                        } else {
                            assert(knots.active_set().contains(j));
                            assert(k0.active_set().contains(j));
                            assert(k0.is_active(j));
                            let i = choose|i: int| 0 <= i < lg0.len() && lg0[i].0 == j;
                            assert(lg[i] == lg0[i]);
                        }
                    }
                    assert forall|pi: int| 0 <= pi < n implies #[trigger] corner_pair_settled(
                        candidate,
                        old(knots),
                        knots,
                        heap@,
                        pair_prev@,
                        pair_next@,
                        pi,
                    ) by {
                        assert(corner_pair_settled(candidate, old(knots), &k0, h0, pair_prev@, pair_next@, pi));
                        match old(knots).corner_next(pi) {
                            Some(qi) => {
                                let r = choose|r: Option<(usize, Option<u64>)>|
                                    candidate.ensures((old(knots).nodes()[pi], old(knots).nodes()[qi as int]), r)
                                        && corner_answer_kept(old(knots), &k0, h0, pair_prev@, pair_next@, r, pi, qi as int);
                                match r {
                                    Some((s, Some(_))) => {
                                        if k0.is_active(s as int) {
                                            assert(k0.active_set().contains(s as int));
                                            assert(knots.active_set().contains(s as int));
                                        }
                                    },
                                    _ => {},
                                }
                                assert(corner_answer_kept(old(knots), knots, heap@, pair_prev@, pair_next@, r, pi, qi as int));
                            },
                            None => {},
                        }
                    }
                }
            },
        }
    }
    proof {
        assert forall|p: int| 0 <= p < n implies #[trigger] corner_pair_answered(
            candidate,
            old(knots),
            knots,
            p,
        ) by {
            assert(corner_pair_settled(candidate, old(knots), knots, heap@, pair_prev@, pair_next@, p));
            match old(knots).corner_next(p) {
                Some(q) => {
                    let r = choose|r: Option<(usize, Option<u64>)>|
                        candidate.ensures((old(knots).nodes()[p], old(knots).nodes()[q as int]), r)
                            && corner_answer_kept(old(knots), knots, heap@, pair_prev@, pair_next@, r, p, q as int);
                    match r {
                        Some((s, Some(_))) => {
                            assert(!heap@.dom().contains(s));
                        },
                        _ => {},
                    }
                },
                None => {},
            }
        }
    }
    (collapsed, Ghost(queues))
}

/// The two sides of a proposed collapse are active knots of `orig`, linked
/// to each other, and its corner is not.
proof fn lemma_proposed_sides<G: Fn(KnotNode, KnotNode) -> Option<(usize, Option<u64>)>>(
    candidate: &G,
    orig: &KnotList,
    e: (usize, usize, usize, u64),
)
    requires
        orig.wf(),
        corner_collapse_proposed(candidate, orig, e),
    ensures
        orig.is_active(e.1 as int),
        orig.is_active(e.2 as int),
        !orig.is_active(e.0 as int),
        orig.nodes()[e.1 as int].next == e.2,
        (e.2 as int) < orig.nodes().len(),
{
    assert(orig.linked(e.1 as int));
}

/// A corner pair stays settled while the queue entry it relies on (if any) is
/// kept with the same pair and the list is unchanged.
proof fn lemma_corner_settled_kept<G: Fn(KnotNode, KnotNode) -> Option<(usize, Option<u64>)>>(
    candidate: &G,
    orig: &KnotList,
    a: &KnotList,
    b: &KnotList,
    ea: Map<usize, u64>,
    eb: Map<usize, u64>,
    ppa: Seq<usize>,
    pna: Seq<usize>,
    ppb: Seq<usize>,
    pnb: Seq<usize>,
    p: int,
)
    requires
        corner_pair_settled(candidate, orig, a, ea, ppa, pna, p),
        forall|s: usize| #[trigger]
            ea.dom().contains(s) ==> eb.dom().contains(s) && ppb[s as int] == ppa[s as int]
                && pnb[s as int] == pna[s as int],
        forall|s: int| #[trigger] a.is_active(s) ==> b.is_active(s),
    ensures
        corner_pair_settled(candidate, orig, b, eb, ppb, pnb, p),
{
    match orig.corner_next(p) {
        Some(q) => {
            let r = choose|r: Option<(usize, Option<u64>)>|
                candidate.ensures((orig.nodes()[p], orig.nodes()[q as int]), r) && corner_answer_kept(
                    orig,
                    a,
                    ea,
                    ppa,
                    pna,
                    r,
                    p,
                    q as int,
                );
            match r {
                Some((s, Some(_))) => {
                    if ea.dom().contains(s) {
                        assert(eb.dom().contains(s));
                    }
                    if a.is_active(s as int) {
                        assert(b.is_active(s as int));
                    }
                },
                _ => {},
            }
            assert(corner_answer_kept(orig, b, eb, ppb, pnb, r, p, q as int));
        },
        None => {},
    }
}

/// `b` is `a` after `refit_knot(i, refit)` moved knot `i` to `refit` (or only
/// took it out, for `refit == INVALID`) while more than two knots were active.
pub open spec fn knot_refitted(a: KnotList, b: KnotList, i: int, refit: usize) -> bool {
    let p = a.nodes()[i].prev;
    let q = a.nodes()[i].next;
    &&& b.cyclic() == a.cyclic()
    &&& b.nodes().len() == a.nodes().len()
    &&& b.is_active(p as int) && b.is_active(q as int)
    &&& b.nodes()[i] == (KnotNode { is_remove: true, next: INVALID, prev: INVALID, ..a.nodes()[i] })
    &&& refit == INVALID ==> {
        &&& b.remaining() + 1 == a.remaining()
        &&& b.active_set() == a.active_set().remove(i)
    }
    &&& refit != INVALID ==> {
        &&& b.remaining() == a.remaining()
        &&& b.active_set() == a.active_set().remove(i).insert(refit as int)
        &&& b.nodes()[refit as int] == (KnotNode {
            is_remove: false,
            prev: p,
            next: q,
            ..a.nodes()[refit as int]
        })
    }
    &&& b.nodes()[p as int] == (KnotNode {
        next: if refit == INVALID {
            q
        } else {
            refit
        },
        ..a.nodes()[p as int]
    })
    &&& b.nodes()[q as int] == (KnotNode {
        prev: if refit == INVALID {
            p
        } else {
            refit
        },
        ..a.nodes()[q as int]
    })
    &&& forall|j: int|
        0 <= j < a.nodes().len() && j != i && j != p && j != q && j != refit
            ==> #[trigger] b.nodes()[j] == a.nodes()[j]
}

/// The queue of the refit pass: each queued knot with the position it is to
/// be moved to (`INVALID`: taken out instead).
///
/// Every queued knot may be removed, and, unless its neighbours changed since
/// it was last asked about (it is *stale*), may be moved to its target.
pub struct RefitQueue {
    heap: MinHeap,
    target: Vec<usize>,
    stale: Ghost<Set<usize>>,
}

impl RefitQueue {
    /// The queued knots with their keys.
    pub closed spec fn entries(&self) -> Map<usize, u64> {
        self.heap@
    }

    /// The target recorded for each knot.
    pub closed spec fn targets(&self) -> Seq<usize> {
        self.target@
    }

    /// The knots whose neighbours changed since they were last asked about.
    pub closed spec fn stale(&self) -> Set<usize> {
        self.stale@
    }

    closed spec fn heap_ok(&self, n: nat) -> bool {
        self.heap.wf() && self.heap.capacity() == n
    }

    /// The queue fits the knot list `knots`.
    pub open spec fn wf(&self, knots: &KnotList) -> bool {
        &&& self.queue_sized(knots.nodes().len())
        &&& self.targets().len() == knots.nodes().len()
        &&& forall|k: usize|
            #[trigger] self.entries().dom().contains(k) ==> removal_candidate(knots, k as int)
        &&& forall|k: usize|
            #[trigger] self.entries().dom().contains(k) && !self.stale().contains(k)
                ==> knots.refit_allowed(k as int, self.targets()[k as int])
    }

    /// The queue has room for the knots of a list of `n` knots.
    pub closed spec fn queue_sized(&self, n: nat) -> bool {
        self.heap_ok(n)
    }

    /// An empty queue for the knots of `knots`.
    pub fn new(knots: &KnotList) -> (queue: Self)
        requires
            knots.wf(),
        ensures
            queue.wf(knots),
            queue.entries() == Map::<usize, u64>::empty(),
            queue.stale() == Set::<usize>::empty(),
    {
        let n = knots.knot_count();
        let mut target: Vec<usize> = Vec::with_capacity(n);
        let mut i: usize = 0;
        while i < n
            invariant
                i <= n,
                target@.len() == i,
            decreases n - i,
        {
            target.push(INVALID);
            i += 1;
        }
        RefitQueue { heap: MinHeap::with_capacity(n), target, stale: Ghost(Set::empty()) }
    }

    /// Record the answer about knot `k`, asked as the list now stands: a key
    /// and a target queue `k` with them when `refit_knot(k, target)` is
    /// allowed; any other answer withdraws `k`.  `k` is no longer stale.
    pub fn settle(&mut self, knots: &KnotList, k: usize, answer: Option<(u64, usize)>)
        requires
            knots.wf(),
            old(self).wf(knots),
            k < knots.nodes().len(),
        ensures
            final(self).wf(knots),
            final(self).stale() == old(self).stale().remove(k),
            match answer {
                Some((key, t)) => if knots.refit_allowed(k as int, t) {
                    &&& final(self).entries() == old(self).entries().insert(k, key)
                    &&& final(self).targets() == old(self).targets().update(k as int, t)
                } else {
                    &&& final(self).entries() == old(self).entries().remove(k)
                    &&& final(self).targets() == old(self).targets()
                },
                None => {
                    &&& final(self).entries() == old(self).entries().remove(k)
                    &&& final(self).targets() == old(self).targets()
                },
            },
    {
        match answer {
            Some((key, t)) => {
                if knots.can_refit(k, t) {
                    self.heap.insert_or_update(k, key);
                    self.target.set(k, t);
                } else {
                    self.heap.remove(k);
                }
            },
            None => {
                self.heap.remove(k);
            },
        }
        proof {
            self.stale@ = self.stale@.remove(k);
            assert forall|j: usize| #[trigger] self.entries().dom().contains(j) implies removal_candidate(
                knots,
                j as int,
            ) && (!self.stale().contains(j) ==> knots.refit_allowed(j as int, self.targets()[j as int])) by {
                if j != k {
                    assert(old(self).entries().dom().contains(j));
                    assert(self.targets()[j as int] == old(self).targets()[j as int]);
                }
            }
        }
    }

    /// Take out the queued knot with the least `(key, index)` and move it to
    /// its target in `knots`.  Returns that key and knot, its target, its
    /// neighbours before the move, and whether the list changed (it does not
    /// while at most two knots are active).  After a move both neighbours are
    /// stale until they are settled again.
    pub fn pop_refit(&mut self, knots: &mut KnotList) -> (r: Option<(u64, usize, usize, usize, usize, bool)>)
        requires
            old(knots).wf(),
            old(self).wf(old(knots)),
            old(self).stale() == Set::<usize>::empty(),
        ensures
            final(knots).wf(),
            final(self).wf(final(knots)),
            final(self).targets() == old(self).targets(),
            match r {
                None => {
                    &&& old(self).entries() == Map::<usize, u64>::empty()
                    &&& final(self).entries() == old(self).entries()
                    &&& *final(knots) == *old(knots)
                    &&& final(self).stale() == Set::<usize>::empty()
                },
                Some((key, i, t, p, q, moved)) => {
                    &&& is_least_entry(old(self).entries(), (key, i))
                    &&& final(self).entries() == old(self).entries().remove(i)
                    &&& t == old(self).targets()[i as int]
                    &&& old(knots).refit_allowed(i as int, t)
                    &&& p == old(knots).nodes()[i as int].prev
                    &&& q == old(knots).nodes()[i as int].next
                    &&& moved == (old(knots).remaining() > 2)
                    &&& moved ==> knot_refitted(*old(knots), *final(knots), i as int, t)
                        && final(self).stale() == set![p, q]
                    &&& !moved ==> {
                        &&& final(knots).nodes() == old(knots).nodes()
                        &&& final(knots).remaining() == old(knots).remaining()
                        &&& final(knots).cyclic() == old(knots).cyclic()
                        &&& final(self).stale() == Set::<usize>::empty()
                    }
                },
            },
    {
        let ghost e0 = self.heap@;
        match self.heap.pop_min() {
            None => {
                proof {
                    assert(old(self).entries() == e0);
                    assert(self.entries() == e0);
                }
                None
            },
            Some((key, i)) => {
                proof {
                    assert(old(self).entries().dom().contains(i));
                    assert(removal_candidate(knots, i as int));
                }
                let t = self.target[i];
                proof {
                    assert(knots.refit_allowed(i as int, t));
                }
                let k = knots.knot(i);
                let ghost k0 = *knots;
                let joined = knots.refit_knot(i, t);
                match joined {
                    None => Some((key, i, t, k.prev, k.next, false)),
                    Some((p, q)) => {
                        proof {
                            self.stale@ = set![p, q];
                            assert(knot_refitted(k0, *knots, i as int, t));
                            assert forall|j: usize| #[trigger] self.heap@.dom().contains(j) implies removal_candidate(
                                knots,
                                j as int,
                            ) && (!self.stale@.contains(j) ==> knots.refit_allowed(j as int, self.target@[j as int])) by {
                                assert(old(self).entries().dom().contains(j));
                                assert(j != i);
                                assert(removal_candidate(&k0, j as int));
                                assert(k0.refit_allowed(j as int, self.target@[j as int]));
                                if t != INVALID {
                                    assert(!k0.is_active(t as int));
                                    assert(j != t);
                                }
                                if j != p && j != q {
                                    assert(knots.nodes()[j as int] == k0.nodes()[j as int]);
                                }
                            }
                        }
                        Some((key, i, t, p, q, true))
                    },
                }
            },
        }
    }
}

/// The methods that propose a refit position, in the order they are tried.
#[derive(Clone, Copy, Debug, PartialEq, Eq, Structural)]
pub enum SplitCalcMethod {
    /// The point with the largest error of the curve fitted across the knot
    /// (already known: tried first).
    MaxError,
    /// The point furthest from the line between the neighbours.
    MaxDistance,
    /// The point where the curvature changes sign (may find none).
    Inflection,
    /// The point where the curve crosses the line between the neighbours
    /// (may find none).
    SignChange,
}

/// The refit methods in the order they are tried.
pub fn split_calc_methods() -> (methods: Vec<SplitCalcMethod>)
    ensures
        methods@ == seq![
            SplitCalcMethod::MaxError,
            SplitCalcMethod::MaxDistance,
            SplitCalcMethod::Inflection,
            SplitCalcMethod::SignChange,
        ],
{
    let mut methods = Vec::new();
    methods.push(SplitCalcMethod::MaxError);
    methods.push(SplitCalcMethod::MaxDistance);
    methods.push(SplitCalcMethod::Inflection);
    methods.push(SplitCalcMethod::SignChange);
    methods
}

/// Record a proposed refit position for knot `k_curr` unless it is no
/// position (`INVALID`), the knot itself, or was tried before; returns whether
/// it is to be evaluated.
pub fn try_refit_candidate(tried: &mut Vec<usize>, candidate: usize, k_curr: usize) -> (fresh: bool)
    ensures
        fresh == (candidate != INVALID && candidate != k_curr && !old(tried)@.contains(candidate)),
        final(tried)@ == (if fresh {
            old(tried)@.push(candidate)
        } else {
            old(tried)@
        }),
{
    if candidate == INVALID || candidate == k_curr {
        return false;
    }
    let mut i: usize = 0;
    while i < tried.len()
        invariant
            i <= tried@.len(),
            tried@ == old(tried)@,
            forall|j: int| 0 <= j < i ==> tried@[j] != candidate,
        decreases tried@.len() - i,
    {
        if tried[i] == candidate {
            return false;
        }
        i += 1;
    }
    tried.push(candidate);
    true
}

} // verus!
