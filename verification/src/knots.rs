//! The knots of a curve being simplified, linked into a chain (open curves)
//! or a ring (cyclic curves).
//!
//! Every point of the input polygon starts out as an active knot.  The
//! refinement passes remove knots, move a knot to another point, or bring a
//! removed knot back as a corner.  Whatever they do, the active knots stay
//! linked in index order: the `next` of an active knot is the first active
//! knot after it, its `prev` the last active knot before it.

use vstd::prelude::*;
use vstd::set_lib::*;
use crate::span::{INVALID, cyclic_distance};

verus! {

/// `m` lies strictly inside the forward walk around a ring of `n` indices
/// from `a` to `b`; when `a == b` the walk is the whole ring.
pub open spec fn ring_between(a: int, m: int, b: int, n: int) -> bool {
    0 < cyclic_distance(a, m, n) && (cyclic_distance(a, b, n) == 0 || cyclic_distance(a, m, n)
        < cyclic_distance(a, b, n))
}

/// The integer state of one knot.
#[derive(Clone, Copy)]
pub struct KnotNode {
    /// Index of the next knot in the list (`INVALID` if none).
    pub next: usize,
    /// Index of the previous knot in the list (`INVALID` if none).
    pub prev: usize,
    /// The index of this knot in the point array.
    pub index: usize,
    /// This knot can never be removed (the ends of an open curve).
    pub no_remove: bool,
    /// This knot has been removed from the list.
    pub is_remove: bool,
    /// This knot is a corner: its two tangents are independent.
    pub is_corner: bool,
    /// Indices into the tangent array: `[incoming, outgoing]`.
    pub tan: [usize; 2],
}

/// The set of active knots of a node sequence.
pub open spec fn active_in(nodes: Seq<KnotNode>) -> Set<int> {
    Set::new(|i: int| 0 <= i < nodes.len() && !nodes[i].is_remove)
}

/// The knots of one curve.
pub struct KnotList {
    knots: Vec<KnotNode>,
    len_remaining: usize,
    is_cyclic: bool,
}

/// A set of indices below `n` is finite.
proof fn lemma_bounded_finite(s: Set<int>, n: int)
    requires
        0 <= n,
        forall|i: int| #[trigger] s.contains(i) ==> 0 <= i < n,
    ensures
        s.finite(),
        s.len() <= n,
{
    lemma_int_range(0, n);
    assert(s.subset_of(set_int_range(0, n)));
    lemma_len_subset(s, set_int_range(0, n));
}

/// Any `m` inside the walk from `a` to `c` is `b`, or inside the walk from
/// `a` to `b`, or inside the walk from `b` to `c`.
pub proof fn lemma_ring_split(a: int, b: int, c: int, m: int, n: int)
    requires
        0 <= a < n,
        0 <= b < n,
        0 <= c < n,
        0 <= m < n,
        ring_between(a, m, c, n),
    ensures
        m == b || ring_between(a, m, b, n) || ring_between(b, m, c, n),
{
}

/// Of two distinct indices `a`, `b`, both different from `c`, one lies inside
/// the walk from the other to `c`.
pub proof fn lemma_ring_order(a: int, b: int, c: int, n: int)
    requires
        0 <= a < n,
        0 <= b < n,
        0 <= c < n,
        a != b,
        a != c,
        b != c,
    ensures
        ring_between(a, b, c, n) || ring_between(b, a, c, n),
{
}

/// Of two distinct indices `a`, `b`, both different from `c`, one lies inside
/// the walk from `c` to the other.
pub proof fn lemma_ring_order_from(c: int, a: int, b: int, n: int)
    requires
        0 <= a < n,
        0 <= b < n,
        0 <= c < n,
        a != b,
        a != c,
        b != c,
    ensures
        ring_between(c, a, b, n) || ring_between(c, b, a, n),
{
}

/// A walk inside the walk from `a` to `c` that starts at `a` stays inside it.
pub proof fn lemma_ring_nested(a: int, x: int, c: int, m: int, n: int)
    requires
        0 <= a < n,
        0 <= x < n,
        0 <= c < n,
        0 <= m < n,
        ring_between(a, x, c, n),
    ensures
        ring_between(a, m, x, n) ==> ring_between(a, m, c, n),
        ring_between(x, m, c, n) ==> ring_between(a, m, c, n),
{
}

/// Two empty gaps of a ring that share an inner index start at the same knot.
pub proof fn lemma_ring_gaps_meet(j: int, nj: int, p: int, q: int, r: int, n: int)
    requires
        0 <= j < n,
        0 <= nj < n,
        0 <= p < n,
        0 <= q < n,
        0 <= r < n,
        ring_between(j, r, nj, n),
        ring_between(p, r, q, n),
        !ring_between(j, p, nj, n),
        !ring_between(p, j, q, n),
    ensures
        j == p,
{
}

/// Executable form of [`ring_between`].
pub fn ring_contains(a: usize, m: usize, b: usize, n: usize) -> (r: bool)
    requires
        a < n,
        m < n,
        b < n,
        n < usize::MAX / 2,
    ensures
        r == ring_between(a as int, m as int, b as int, n as int),
{
    let dm = if a <= m {
        m - a
    } else {
        m + n - a
    };
    let db = if a <= b {
        b - a
    } else {
        b + n - a
    };
    0 < dm && (db == 0 || dm < db)
}

impl KnotList {
    /// The knots, by index.
    pub closed spec fn nodes(&self) -> Seq<KnotNode> {
        self.knots@
    }

    /// True for a closed curve.
    pub closed spec fn cyclic(&self) -> bool {
        self.is_cyclic
    }

    /// The number of active knots, as the list counts it.
    pub closed spec fn remaining(&self) -> nat {
        self.len_remaining as nat
    }

    /// The indices of the active knots.
    pub open spec fn active_set(&self) -> Set<int> {
        active_in(self.nodes())
    }

    /// Knot `i` exists and is active.
    pub open spec fn is_active(&self, i: int) -> bool {
        0 <= i < self.nodes().len() && !self.nodes()[i].is_remove
    }

    /// The `next` link of knot `i` leads to the first active knot after `i`
    /// (wrapping around a ring; `INVALID` past the end of a chain).
    pub open spec fn next_linked(&self, i: int) -> bool {
        let n = self.nodes().len() as int;
        let nx = self.nodes()[i].next as int;
        if self.cyclic() {
            &&& 0 <= nx < n
            &&& self.is_active(nx)
            &&& forall|m: int| 0 <= m < n && ring_between(i, m, nx, n) ==> !#[trigger] self.is_active(m)
        } else if nx == INVALID {
            forall|m: int| i < m < n ==> !#[trigger] self.is_active(m)
        } else {
            &&& i < nx < n
            &&& self.is_active(nx)
            &&& forall|m: int| i < m < nx ==> !#[trigger] self.is_active(m)
        }
    }

    /// The `prev` link of knot `i` leads to the last active knot before `i`
    /// (wrapping around a ring; `INVALID` before the start of a chain).
    pub open spec fn prev_linked(&self, i: int) -> bool {
        let n = self.nodes().len() as int;
        let pv = self.nodes()[i].prev as int;
        if self.cyclic() {
            &&& 0 <= pv < n
            &&& self.is_active(pv)
            &&& forall|m: int| 0 <= m < n && ring_between(pv, m, i, n) ==> !#[trigger] self.is_active(m)
        } else if pv == INVALID {
            forall|m: int| 0 <= m < i ==> !#[trigger] self.is_active(m)
        } else {
            &&& 0 <= pv < i
            &&& self.is_active(pv)
            &&& forall|m: int| pv < m < i ==> !#[trigger] self.is_active(m)
        }
    }

    /// The list is consistent: every active knot is linked to its active
    /// neighbours in index order, the count of active knots is right, knots
    /// that may not be removed and corners are active, and the two ends of an
    /// open curve may not be removed.
    pub open spec fn wf(&self) -> bool {
        let n = self.nodes().len() as int;
        &&& 1 <= n < usize::MAX / 4
        &&& self.active_set().finite()
        &&& self.remaining() == self.active_set().len()
        &&& self.remaining() >= 1
        &&& forall|i: int| 0 <= i < n ==> (#[trigger] self.nodes()[i]).index == i
        &&& forall|i: int|
            0 <= i < n ==> (#[trigger] self.nodes()[i]).tan[0] < 2 * n && self.nodes()[i].tan[1] < 2
                * n
        &&& forall|i: int|
            0 <= i < n && (#[trigger] self.nodes()[i]).no_remove ==> !self.nodes()[i].is_remove
        &&& forall|i: int|
            0 <= i < n && (#[trigger] self.nodes()[i]).is_corner ==> !self.nodes()[i].is_remove
        &&& !self.cyclic() ==> self.nodes()[0].no_remove && self.nodes()[n - 1].no_remove
        &&& self.links_ok()
    }

    /// Every active knot is linked to its active neighbours.
    pub open spec fn links_ok(&self) -> bool {
        forall|i: int| self.is_active(i) ==> #[trigger] self.linked(i)
    }

    /// The removed knot `split` lies strictly between the active knot `prev`
    /// and its `next`, which is `next`.
    pub open spec fn corner_fits(&self, split: int, prev: int, next: int) -> bool {
        &&& self.is_active(prev)
        &&& self.nodes()[prev].next == next
        &&& 0 <= split < self.nodes().len()
        &&& !self.is_active(split)
        &&& if self.cyclic() {
            ring_between(prev, split, next, self.nodes().len() as int)
        } else {
            prev < split < next < self.nodes().len()
        }
    }

    /// Both links of knot `i` lead to its active neighbours.
    pub open spec fn linked(&self, i: int) -> bool {
        self.next_linked(i) && self.prev_linked(i)
    }

    /// Links stay valid when no link and no activity flag changes.
    proof fn lemma_links_unchanged(a: &Self, b: &Self)
        requires
            a.links_ok(),
            a.cyclic() == b.cyclic(),
            a.nodes().len() == b.nodes().len(),
            forall|i: int|
                0 <= i < a.nodes().len() ==> (#[trigger] b.nodes()[i]).next == a.nodes()[i].next
                    && b.nodes()[i].prev == a.nodes()[i].prev && b.nodes()[i].is_remove
                    == a.nodes()[i].is_remove,
        ensures
            b.links_ok(),
            b.active_set() == a.active_set(),
    {
        assert forall|m: int| b.is_active(m) == a.is_active(m) by {
            if 0 <= m < a.nodes().len() {
                assert(b.nodes()[m].is_remove == a.nodes()[m].is_remove);
            }
        }
        assert forall|i: int| b.is_active(i) implies #[trigger] b.linked(i) by {
            assert(a.is_active(i));
            assert(a.linked(i));
            assert(b.nodes()[i].next == a.nodes()[i].next);
            assert(b.nodes()[i].prev == a.nodes()[i].prev);
        }
        assert(b.active_set() =~= a.active_set());
    }

    /// A list of `knots_len` knots, all active, each at its own point, linked
    /// in index order; the two ends of an open curve may not be removed.
    pub fn new(knots_len: usize, is_cyclic: bool) -> (list: Self)
        requires
            1 <= knots_len < usize::MAX / 4,
        ensures
            list.wf(),
            list.nodes().len() == knots_len,
            list.cyclic() == is_cyclic,
            list.remaining() == knots_len,
            forall|i: int|
                0 <= i < knots_len ==> {
                    let k = #[trigger] list.nodes()[i];
                    &&& k.index == i
                    &&& !k.is_remove
                    &&& !k.is_corner
                    &&& k.tan[0] == 2 * i
                    &&& k.tan[1] == 2 * i + 1
                    &&& k.no_remove == (!is_cyclic && (i == 0 || i == knots_len - 1))
                },
    {
        let mut knots: Vec<KnotNode> = Vec::with_capacity(knots_len);
        let mut i: usize = 0;
        while i < knots_len
            invariant
                i <= knots_len < usize::MAX / 4,
                knots@.len() == i,
                forall|j: int|
                    0 <= j < i ==> {
                        let k = #[trigger] knots@[j];
                        &&& k.next == j + 1
                        &&& k.prev == (if j == 0 {
                            INVALID as int
                        } else {
                            j - 1
                        })
                        &&& k.index == j
                        &&& !k.no_remove
                        &&& !k.is_remove
                        &&& !k.is_corner
                        &&& k.tan[0] == 2 * j
                        &&& k.tan[1] == 2 * j + 1
                    },
            decreases knots_len - i,
        {
            let prev = if i == 0 {
                INVALID
            } else {
                i - 1
            };
            knots.push(
                KnotNode {
                    next: i + 1,
                    prev,
                    index: i,
                    no_remove: false,
                    is_remove: false,
                    is_corner: false,
                    tan: [i * 2, i * 2 + 1],
                },
            );
            i += 1;
        }
        let i_last = knots_len - 1;
        if is_cyclic {
            let mut k = knots[0];
            k.prev = i_last;
            knots.set(0, k);
            let mut k = knots[i_last];
            k.next = 0;
            knots.set(i_last, k);
        } else {
            let mut k = knots[0];
            k.prev = INVALID;
            k.no_remove = true;
            knots.set(0, k);
            let mut k = knots[i_last];
            k.next = INVALID;
            k.no_remove = true;
            knots.set(i_last, k);
        }
        let list = KnotList { knots, len_remaining: knots_len, is_cyclic };
        proof {
            let n = knots_len as int;
            assert(list.active_set() =~= set_int_range(0, n));
            lemma_int_range(0, n);
            assert forall|j: int| list.is_active(j) implies #[trigger] list.linked(j) by {
                if is_cyclic {
                    if j == n - 1 {
                        assert forall|m: int| 0 <= m < n && ring_between(j, m, 0, n) implies !#[trigger] list.is_active(m) by {
                        }
                    }
                    if j == 0 {
                        assert forall|m: int| 0 <= m < n && ring_between(n - 1, m, 0, n) implies !#[trigger] list.is_active(m) by {
                        }
                    }
                }
            }
        }
        list
    }

    /// Number of knots, active or not.
    pub fn knot_count(&self) -> (n: usize)
        ensures
            n == self.nodes().len(),
    {
        self.knots.len()
    }

    /// The number of active knots.
    pub fn remaining_len(&self) -> (n: usize)
        ensures
            n == self.remaining(),
    {
        self.len_remaining
    }

    /// True for a closed curve.
    pub fn is_cyclic_list(&self) -> (b: bool)
        ensures
            b == self.cyclic(),
    {
        self.is_cyclic
    }

    /// The state of knot `i`.
    pub fn knot(&self, i: usize) -> (k: KnotNode)
        requires
            i < self.nodes().len(),
        ensures
            k == self.nodes()[i as int],
    {
        self.knots[i]
    }

    /// Mark the active knot `i` as a corner.
    pub fn mark_corner(&mut self, i: usize)
        requires
            old(self).wf(),
            old(self).is_active(i as int),
        ensures
            final(self).wf(),
            final(self).cyclic() == old(self).cyclic(),
            final(self).remaining() == old(self).remaining(),
            final(self).nodes() == old(self).nodes().update(
                i as int,
                KnotNode { is_corner: true, ..old(self).nodes()[i as int] },
            ),
    {
        let mut k = self.knots[i];
        k.is_corner = true;
        self.knots.set(i, k);
        proof {
            Self::lemma_links_unchanged(old(self), self);
        }
    }

    /// The lowest active index.
    pub fn first_active(&self) -> (i: usize)
        requires
            self.wf(),
        ensures
            self.is_active(i as int),
            forall|j: int| 0 <= j < i ==> !#[trigger] self.is_active(j),
    {
        let n = self.knots.len();
        let mut i: usize = 0;
        while i < n && self.knots[i].is_remove
            invariant
                n == self.nodes().len(),
                i <= n,
                forall|j: int| 0 <= j < i ==> !#[trigger] self.is_active(j),
            decreases n - i,
        {
            i += 1;
        }
        if i == n {
            proof {
                assert forall|j: int| !self.active_set().contains(j) by {
                    if 0 <= j < n {
                        assert(!self.is_active(j));
                    }
                }
                assert(self.active_set() =~= Set::<int>::empty());
                assert(false);
            }
        }
        i
    }

    /// The flag and numbering parts of `wf` carry over to a list whose
    /// indices, tangents and flags are those of `a`, except that one knot `x`
    /// may change activity (and become a corner while turning active).
    proof fn lemma_flags_carry(a: &Self, b: &Self, x: int)
        requires
            a.wf(),
            b.cyclic() == a.cyclic(),
            b.nodes().len() == a.nodes().len(),
            0 <= x < a.nodes().len(),
            !a.nodes()[x].no_remove,
            a.nodes()[x].is_corner ==> !b.nodes()[x].is_remove,
            b.nodes()[x].is_corner ==> !b.nodes()[x].is_remove,
            b.nodes()[x].index == a.nodes()[x].index,
            b.nodes()[x].no_remove == a.nodes()[x].no_remove,
            b.nodes()[x].tan[0] < 2 * a.nodes().len(),
            b.nodes()[x].tan[1] < 2 * a.nodes().len(),
            forall|j: int|
                0 <= j < a.nodes().len() && j != x ==> {
                    &&& (#[trigger] b.nodes()[j]).is_remove == a.nodes()[j].is_remove
                    &&& b.nodes()[j].no_remove == a.nodes()[j].no_remove
                    &&& b.nodes()[j].is_corner == a.nodes()[j].is_corner
                    &&& b.nodes()[j].index == a.nodes()[j].index
                    &&& b.nodes()[j].tan == a.nodes()[j].tan
                },
        ensures
            forall|i: int| 0 <= i < b.nodes().len() ==> (#[trigger] b.nodes()[i]).index == i,
            forall|i: int|
                0 <= i < b.nodes().len() ==> (#[trigger] b.nodes()[i]).tan[0] < 2 * b.nodes().len()
                    && b.nodes()[i].tan[1] < 2 * b.nodes().len(),
            forall|i: int|
                0 <= i < b.nodes().len() && (#[trigger] b.nodes()[i]).no_remove
                    ==> !b.nodes()[i].is_remove,
            forall|i: int|
                0 <= i < b.nodes().len() && (#[trigger] b.nodes()[i]).is_corner
                    ==> !b.nodes()[i].is_remove,
            !b.cyclic() ==> b.nodes()[0].no_remove && b.nodes()[b.nodes().len() - 1].no_remove,
            b.active_set().finite(),
            b.active_set().len() <= b.nodes().len(),
    {
        let n = a.nodes().len() as int;
        assert forall|i: int| 0 <= i < n implies (#[trigger] b.nodes()[i]).index == i by {
            if i != x {
                assert(a.nodes()[i].index == i);
            } else {
                assert(a.nodes()[x].index == x);
            }
        }
        assert forall|i: int| 0 <= i < n && (#[trigger] b.nodes()[i]).is_corner implies !b.nodes()[i].is_remove by {
            if i != x {
                assert(a.nodes()[i].is_corner);
            }
        }
        if !a.cyclic() {
            assert(a.nodes()[0].no_remove && a.nodes()[n - 1].no_remove);
        }
        lemma_bounded_finite(b.active_set(), n);
    }

    /// Unlink the active knot `i`: join its neighbours and mark it removed.
    fn unlink(&mut self, i: usize)
        requires
            old(self).wf(),
            old(self).is_active(i as int),
            !old(self).nodes()[i as int].no_remove,
            !old(self).nodes()[i as int].is_corner,
            old(self).remaining() > 2,
        ensures
            final(self).wf(),
            final(self).cyclic() == old(self).cyclic(),
            final(self).nodes().len() == old(self).nodes().len(),
            final(self).remaining() == old(self).remaining() - 1,
            final(self).active_set() == old(self).active_set().remove(i as int),
            old(self).is_active(old(self).nodes()[i as int].prev as int),
            old(self).is_active(old(self).nodes()[i as int].next as int),
            ({
                let p = old(self).nodes()[i as int].prev as int;
                let q = old(self).nodes()[i as int].next as int;
                &&& p != i as int && q != i as int && p != q
                &&& !old(self).cyclic() ==> p < i < q
                &&& final(self).nodes()[i as int] == (KnotNode {
                    is_remove: true,
                    next: INVALID,
                    prev: INVALID,
                    ..old(self).nodes()[i as int]
                })
                &&& final(self).nodes()[p] == (KnotNode { next: q as usize, ..old(self).nodes()[p] })
                &&& final(self).nodes()[q] == (KnotNode { prev: p as usize, ..old(self).nodes()[q] })
                &&& forall|j: int|
                    0 <= j < old(self).nodes().len() && j != i && j != p && j != q
                        ==> #[trigger] final(self).nodes()[j] == old(self).nodes()[j]
            }),
    {
        proof {
            old(self).lemma_unlink_neighbours(i as int);
        }
        let k = self.knots[i];
        let p = k.prev;
        let q = k.next;
        let mut kp = self.knots[p];
        kp.next = q;
        self.knots.set(p, kp);
        let mut kq = self.knots[q];
        kq.prev = p;
        self.knots.set(q, kq);
        let mut ki = self.knots[i];
        ki.is_remove = true;
        ki.next = INVALID;
        ki.prev = INVALID;
        self.knots.set(i, ki);
        self.len_remaining -= 1;
        proof {
            Self::lemma_unlinked(old(self), self, i as int);
            Self::lemma_flags_carry(old(self), self, i as int);
            assert(old(self).active_set().contains(i as int));
        }
    }

    /// Link the removed knot `x` in between the active knot `p` and its `next`.
    fn link_between(&mut self, x: usize, p: usize)
        requires
            old(self).wf(),
            old(self).is_active(p as int),
            x < old(self).nodes().len(),
            !old(self).is_active(x as int),
            old(self).cyclic() ==> ring_between(
                p as int,
                x as int,
                old(self).nodes()[p as int].next as int,
                old(self).nodes().len() as int,
            ),
            !old(self).cyclic() ==> p < x < old(self).nodes()[p as int].next < old(self).nodes().len(),
        ensures
            final(self).wf(),
            final(self).cyclic() == old(self).cyclic(),
            final(self).nodes().len() == old(self).nodes().len(),
            final(self).remaining() == old(self).remaining() + 1,
            final(self).active_set() == old(self).active_set().insert(x as int),
            ({
                let q = old(self).nodes()[p as int].next as int;
                &&& final(self).nodes()[x as int] == (KnotNode {
                    is_remove: false,
                    prev: p,
                    next: q as usize,
                    ..old(self).nodes()[x as int]
                })
                &&& final(self).nodes()[p as int].next == x
                &&& final(self).nodes()[q].prev == x
                &&& forall|j: int|
                    0 <= j < old(self).nodes().len() && j != x ==> {
                        &&& (#[trigger] final(self).nodes()[j]).is_remove == old(self).nodes()[j].is_remove
                        &&& final(self).nodes()[j].no_remove == old(self).nodes()[j].no_remove
                        &&& final(self).nodes()[j].is_corner == old(self).nodes()[j].is_corner
                        &&& final(self).nodes()[j].index == old(self).nodes()[j].index
                        &&& final(self).nodes()[j].tan == old(self).nodes()[j].tan
                        &&& (j != p ==> final(self).nodes()[j].next == old(self).nodes()[j].next)
                        &&& (j != q ==> final(self).nodes()[j].prev == old(self).nodes()[j].prev)
                    }
            }),
    {
        proof {
            assert(old(self).linked(p as int));
            assert(!old(self).nodes()[x as int].no_remove);
            assert(!old(self).nodes()[x as int].is_corner);
            lemma_bounded_finite(old(self).active_set(), old(self).nodes().len() as int);
        }
        let q = self.knots[p].next;
        let mut kx = self.knots[x];
        kx.is_remove = false;
        kx.prev = p;
        kx.next = q;
        self.knots.set(x, kx);
        let mut kp = self.knots[p];
        kp.next = x;
        self.knots.set(p, kp);
        let mut kq = self.knots[q];
        kq.prev = x;
        self.knots.set(q, kq);
        self.len_remaining += 1;
        proof {
            Self::lemma_linked_between(old(self), self, x as int, p as int);
            Self::lemma_flags_carry(old(self), self, x as int);
        }
    }

    /// Take the active knot `i` out of the list, joining its neighbours,
    /// unless no more than two knots are active: then nothing changes.
    /// Returns the joined neighbours `(prev, next)`.
    ///
    /// The removed knot's own links are reset to `INVALID`.
    pub fn remove_knot(&mut self, i: usize) -> (joined: Option<(usize, usize)>)
        requires
            old(self).wf(),
            old(self).is_active(i as int),
            !old(self).nodes()[i as int].no_remove,
            !old(self).nodes()[i as int].is_corner,
        ensures
            final(self).wf(),
            final(self).cyclic() == old(self).cyclic(),
            final(self).nodes().len() == old(self).nodes().len(),
            old(self).remaining() <= 2 ==> joined is None && final(self).nodes() == old(self).nodes()
                && final(self).remaining() == old(self).remaining(),
            old(self).remaining() > 2 ==> {
                let p = old(self).nodes()[i as int].prev;
                let q = old(self).nodes()[i as int].next;
                &&& joined == Some((p, q))
                &&& final(self).is_active(p as int) && final(self).is_active(q as int)
                &&& final(self).remaining() == old(self).remaining() - 1
                &&& final(self).active_set() == old(self).active_set().remove(i as int)
                &&& final(self).nodes()[i as int] == (KnotNode {
                    is_remove: true,
                    next: INVALID,
                    prev: INVALID,
                    ..old(self).nodes()[i as int]
                })
                &&& final(self).nodes()[p as int] == (KnotNode { next: q, ..old(self).nodes()[p as int] })
                &&& final(self).nodes()[q as int] == (KnotNode { prev: p, ..old(self).nodes()[q as int] })
                &&& forall|j: int|
                    0 <= j < old(self).nodes().len() && j != i && j != p && j != q
                        ==> #[trigger] final(self).nodes()[j] == old(self).nodes()[j]
            },
    {
        if self.len_remaining <= 2 {
            return None;
        }
        let k = self.knots[i];
        self.unlink(i);
        proof {
            assert(self.active_set().contains(k.prev as int));
            assert(self.active_set().contains(k.next as int));
        }
        Some((k.prev, k.next))
    }

    /// Move the active knot `i` to the removed knot `refit`, which lies
    /// strictly between the neighbours of `i`: `i` is taken out and `refit`
    /// takes its place.  With `refit == INVALID` the knot is only taken out.
    /// When no more than two knots are active nothing changes.
    /// Returns the neighbours `(prev, next)` of the knot that was moved.
    pub fn refit_knot(&mut self, i: usize, refit: usize) -> (joined: Option<(usize, usize)>)
        requires
            old(self).wf(),
            old(self).is_active(i as int),
            !old(self).nodes()[i as int].no_remove,
            !old(self).nodes()[i as int].is_corner,
            refit != INVALID ==> refit != i && refit < old(self).nodes().len(),
            refit != INVALID && old(self).cyclic() ==> ring_between(
                old(self).nodes()[i as int].prev as int,
                refit as int,
                old(self).nodes()[i as int].next as int,
                old(self).nodes().len() as int,
            ),
            refit != INVALID && !old(self).cyclic() ==> old(self).nodes()[i as int].prev < refit
                < old(self).nodes()[i as int].next,
        ensures
            final(self).wf(),
            final(self).cyclic() == old(self).cyclic(),
            final(self).nodes().len() == old(self).nodes().len(),
            old(self).remaining() <= 2 ==> joined is None && final(self).nodes() == old(self).nodes()
                && final(self).remaining() == old(self).remaining(),
            old(self).remaining() > 2 ==> {
                let p = old(self).nodes()[i as int].prev;
                let q = old(self).nodes()[i as int].next;
                &&& joined == Some((p, q))
                &&& final(self).is_active(p as int) && final(self).is_active(q as int)
                &&& final(self).nodes()[i as int] == (KnotNode {
                    is_remove: true,
                    next: INVALID,
                    prev: INVALID,
                    ..old(self).nodes()[i as int]
                })
                &&& refit == INVALID ==> {
                    &&& final(self).remaining() == old(self).remaining() - 1
                    &&& final(self).active_set() == old(self).active_set().remove(i as int)
                    &&& final(self).nodes()[p as int].next == q
                    &&& final(self).nodes()[q as int].prev == p
                }
                &&& refit != INVALID ==> {
                    &&& final(self).remaining() == old(self).remaining()
                    &&& final(self).active_set() == old(self).active_set().remove(i as int).insert(
                        refit as int,
                    )
                    &&& final(self).nodes()[refit as int] == (KnotNode {
                        is_remove: false,
                        prev: p,
                        next: q,
                        ..old(self).nodes()[refit as int]
                    })
                    &&& final(self).nodes()[p as int].next == refit
                    &&& final(self).nodes()[q as int].prev == refit
                }
                &&& final(self).nodes()[p as int] == (KnotNode {
                    next: if refit == INVALID {
                        q
                    } else {
                        refit
                    },
                    ..old(self).nodes()[p as int]
                })
                &&& final(self).nodes()[q as int] == (KnotNode {
                    prev: if refit == INVALID {
                        p
                    } else {
                        refit
                    },
                    ..old(self).nodes()[q as int]
                })
                &&& forall|j: int|
                    0 <= j < old(self).nodes().len() && j != i && j != p && j != q && j != refit
                        ==> #[trigger] final(self).nodes()[j] == old(self).nodes()[j]
            },
    {
        if self.len_remaining <= 2 {
            return None;
        }
        let k = self.knots[i];
        let p = k.prev;
        let q = k.next;
        proof {
            old(self).lemma_unlink_neighbours(i as int);
            assert(old(self).linked(i as int));
            if refit != INVALID {
                let n = old(self).nodes().len() as int;
                if old(self).cyclic() {
                    lemma_ring_split(p as int, i as int, q as int, refit as int, n);
                }
                assert(!old(self).is_active(refit as int));
            }
        }
        self.unlink(i);
        if refit != INVALID {
            self.link_between(refit, p);
        }
        proof {
            assert(self.active_set().contains(p as int));
            assert(self.active_set().contains(q as int));
        }
        Some((p, q))
    }

    /// Bring the removed knot `split`, lying strictly between the adjacent
    /// active knots `prev` and `next`, back as a corner between them: its
    /// incoming tangent becomes the outgoing tangent of `prev`, its outgoing
    /// tangent the incoming tangent of `next`.
    pub fn collapse_corner(&mut self, split: usize, prev: usize, next: usize)
        requires
            old(self).wf(),
            old(self).corner_fits(split as int, prev as int, next as int),
        ensures
            final(self).wf(),
            final(self).cyclic() == old(self).cyclic(),
            final(self).nodes().len() == old(self).nodes().len(),
            final(self).remaining() == old(self).remaining() + 1,
            final(self).active_set() == old(self).active_set().insert(split as int),
            final(self).nodes()[split as int] == (KnotNode {
                is_remove: false,
                is_corner: true,
                prev: prev,
                next: next,
                tan: [old(self).nodes()[prev as int].tan[1], old(self).nodes()[next as int].tan[0]],
                ..old(self).nodes()[split as int]
            }),
            final(self).nodes()[prev as int].next == split,
            final(self).nodes()[next as int].prev == split,
            forall|j: int|
                0 <= j < old(self).nodes().len() && j != split ==> {
                    &&& (#[trigger] final(self).nodes()[j]).no_remove == old(self).nodes()[j].no_remove
                    &&& final(self).nodes()[j].is_corner == old(self).nodes()[j].is_corner
                    &&& final(self).nodes()[j].is_remove == old(self).nodes()[j].is_remove
                    &&& final(self).nodes()[j].index == old(self).nodes()[j].index
                    &&& final(self).nodes()[j].tan == old(self).nodes()[j].tan
                    &&& (j != prev ==> final(self).nodes()[j].next == old(self).nodes()[j].next)
                    &&& (j != next ==> final(self).nodes()[j].prev == old(self).nodes()[j].prev)
                },
    {
        proof {
            assert(old(self).linked(prev as int));
        }
        let tan_prev = self.knots[prev].tan[1];
        let tan_next = self.knots[next].tan[0];
        self.link_between(split, prev);
        let ghost mid = *self;
        let mut ks = self.knots[split];
        ks.is_corner = true;
        ks.tan = [tan_prev, tan_next];
        self.knots.set(split, ks);
        proof {
            Self::lemma_links_unchanged(&mid, self);
            Self::lemma_flags_carry(&mid, self, split as int);
        }
    }

    /// An active knot that may be removed has both of its links.
    pub proof fn lemma_candidate_links(&self, i: int)
        requires
            self.wf(),
            0 <= i < self.nodes().len(),
        ensures
            self.is_active(i) && !self.nodes()[i].no_remove ==> self.nodes()[i].prev != INVALID
                && self.nodes()[i].next != INVALID,
    {
        if self.is_active(i) && !self.nodes()[i].no_remove {
            assert(self.linked(i));
            if !self.cyclic() {
                assert(self.is_active(0));
                assert(self.is_active(self.nodes().len() - 1));
            }
        }
    }

    /// Knot `i` is a candidate for removal: active, removable and no corner.
    pub fn is_removal_candidate(&self, i: usize) -> (b: bool)
        requires
            i < self.nodes().len(),
        ensures
            b == (!self.nodes()[i as int].no_remove && !self.nodes()[i as int].is_remove
                && !self.nodes()[i as int].is_corner),
    {
        let k = self.knots[i];
        !k.no_remove && !k.is_remove && !k.is_corner
    }

    /// After a neighbour changed, knot `i` is examined again when it is
    /// removable, no corner, and linked on both sides.
    pub fn is_recalc_candidate(&self, i: usize) -> (b: bool)
        requires
            i < self.nodes().len(),
        ensures
            b == (!self.nodes()[i as int].no_remove && !self.nodes()[i as int].is_corner
                && self.nodes()[i as int].prev != INVALID && self.nodes()[i as int].next != INVALID),
    {
        let k = self.knots[i];
        !k.no_remove && !k.is_corner && k.prev != INVALID && k.next != INVALID
    }

    /// The knot after `k_prev` when the two may form the sides of a corner:
    /// `k_prev` is active and removable, and it has a removable `next`.
    pub open spec fn corner_next(&self, k_prev: int) -> Option<usize> {
        if !self.nodes()[k_prev].is_remove && !self.nodes()[k_prev].no_remove
            && self.nodes()[k_prev].next != INVALID
            && !self.nodes()[self.nodes()[k_prev].next as int].no_remove {
            Some(self.nodes()[k_prev].next)
        } else {
            None
        }
    }

    /// The knot after `k_prev` when the two may form the sides of a corner:
    /// `k_prev` is active and removable, and it has a removable `next`.
    pub fn corner_pair(&self, k_prev: usize) -> (k_next: Option<usize>)
        requires
            self.wf(),
            k_prev < self.nodes().len(),
        ensures
            k_next == self.corner_next(k_prev as int),
            k_next matches Some(q) ==> self.is_active(k_prev as int) && self.is_active(q as int),
            k_next is Some <==> self.is_active(k_prev as int) && !self.nodes()[k_prev as int].no_remove
                && self.nodes()[k_prev as int].next != INVALID
                && !self.nodes()[self.nodes()[k_prev as int].next as int].no_remove,
            k_next matches Some(q) ==> q == self.nodes()[k_prev as int].next,
    {
        let k = self.knots[k_prev];
        if !k.is_remove && !k.no_remove && k.next != INVALID {
            proof {
                assert(self.linked(k_prev as int));
            }
            if !self.knots[k.next].no_remove {
                return Some(k.next);
            }
        }
        None
    }

    /// `refit_knot(i, refit)` may be called: `i` is an active removable knot
    /// that is no corner, and `refit` is `INVALID` or lies strictly between
    /// the neighbours of `i`.
    pub open spec fn refit_allowed(&self, i: int, refit: usize) -> bool {
        &&& self.is_active(i)
        &&& !self.nodes()[i].no_remove
        &&& !self.nodes()[i].is_corner
        &&& refit != INVALID ==> refit != i && refit < self.nodes().len() && (if self.cyclic() {
            ring_between(
                self.nodes()[i].prev as int,
                refit as int,
                self.nodes()[i].next as int,
                self.nodes().len() as int,
            )
        } else {
            self.nodes()[i].prev < refit < self.nodes()[i].next
        })
    }

    /// Whether `refit_knot(i, refit)` may be called.
    pub fn can_refit(&self, i: usize, refit: usize) -> (b: bool)
        requires
            self.wf(),
        ensures
            b == self.refit_allowed(i as int, refit),
            refit == INVALID ==> (b <==> self.is_active(i as int) && !self.nodes()[i as int].no_remove
                && !self.nodes()[i as int].is_corner),
            b && refit != INVALID ==> refit < self.nodes().len() && !self.is_active(refit as int),
    {
        let n = self.knots.len();
        if i >= n {
            return false;
        }
        let k = self.knots[i];
        if k.is_remove || k.no_remove || k.is_corner {
            return false;
        }
        if refit == INVALID {
            return true;
        }
        if refit == i || refit >= n {
            return false;
        }
        proof {
            assert(self.linked(i as int));
        }
        if self.is_cyclic {
            ring_contains(k.prev, refit, k.next, n)
        } else {
            k.prev < refit && refit < k.next
        }
    }

    /// Whether `collapse_corner(split, prev, next)` may be called.
    pub fn can_collapse_corner(&self, split: usize, prev: usize, next: usize) -> (b: bool)
        requires
            self.wf(),
        ensures
            b == self.corner_fits(split as int, prev as int, next as int),
    {
        let n = self.knots.len();
        if prev >= n || split >= n {
            return false;
        }
        let kp = self.knots[prev];
        if kp.is_remove || kp.next != next || !self.knots[split].is_remove {
            return false;
        }
        proof {
            assert(self.linked(prev as int));
        }
        if self.is_cyclic {
            ring_contains(prev, split, next, n)
        } else {
            prev < split && split < next && next < n
        }
    }

    /// A removed knot lies in the gap after at most one active knot.
    pub proof fn lemma_gap_owner(&self, s: int, p1: int, p2: int)
        requires
            self.wf(),
            self.is_active(p1),
            self.is_active(p2),
            0 <= s < self.nodes().len(),
            self.cyclic() ==> ring_between(
                p1,
                s,
                self.nodes()[p1].next as int,
                self.nodes().len() as int,
            ) && ring_between(p2, s, self.nodes()[p2].next as int, self.nodes().len() as int),
            !self.cyclic() ==> p1 < s < self.nodes()[p1].next && p2 < s < self.nodes()[p2].next,
        ensures
            p1 == p2,
    {
        let n = self.nodes().len() as int;
        assert(self.linked(p1));
        assert(self.linked(p2));
        let q1 = self.nodes()[p1].next as int;
        let q2 = self.nodes()[p2].next as int;
        if self.cyclic() {
            if ring_between(p1, p2, q1, n) {
                assert(!self.is_active(p2));
            }
            if ring_between(p2, p1, q2, n) {
                assert(!self.is_active(p1));
            }
            lemma_ring_gaps_meet(p1, q1, p2, q2, s, n);
        } else {
            if p1 < p2 {
                assert(p1 < p2 < q1);
                assert(!self.is_active(p2));
            } else if p2 < p1 {
                assert(p2 < p1 < q2);
                assert(!self.is_active(p1));
            }
        }
    }

    /// Two active knots with the same `next` knot are the same knot.
    pub proof fn lemma_next_unique(&self, p1: int, p2: int)
        requires
            self.wf(),
            self.is_active(p1),
            self.is_active(p2),
            self.nodes()[p1].next == self.nodes()[p2].next,
            self.nodes()[p1].next != INVALID,
        ensures
            p1 == p2,
    {
        let n = self.nodes().len() as int;
        assert(self.linked(p1));
        assert(self.linked(p2));
        let q = self.nodes()[p1].next as int;
        if p1 != p2 {
            if self.cyclic() {
                if p1 == q {
                    assert(ring_between(p1, p2, q, n));
                } else if p2 == q {
                    assert(ring_between(p2, p1, q, n));
                } else {
                    lemma_ring_order(p1, p2, q, n);
                }
            } else if p1 < p2 {
                assert(p1 < p2 < q);
            } else {
                assert(p2 < p1 < q);
            }
        }
    }

    /// Corner pairs, on chains and rings alike: an active removable knot
    /// forms a pair with its `next` exactly when that knot exists and is
    /// removable too; the pair's second knot is that `next`, and both are
    /// active.
    pub proof fn lemma_corner_pairs(&self, p: int)
        requires
            self.wf(),
            0 <= p < self.nodes().len(),
        ensures
            (self.corner_next(p) is Some) <==> self.is_active(p) && !self.nodes()[p].no_remove
                && self.nodes()[p].next != INVALID && !self.nodes()[self.nodes()[p].next as int].no_remove,
            self.corner_next(p) matches Some(q) ==> q == self.nodes()[p].next && self.is_active(q as int),
    {
        if self.is_active(p) {
            assert(self.linked(p));
        }
    }

    /// Refit targets, on chains and rings alike: taking a knot out
    /// (`INVALID`) is allowed for every active removable knot that is no
    /// corner, and any other allowed target is a removed knot of the list,
    /// not the knot itself.
    pub proof fn lemma_refit_targets(&self, i: int, refit: usize)
        requires
            self.wf(),
            0 <= i < self.nodes().len(),
        ensures
            self.refit_allowed(i, INVALID) <==> self.is_active(i) && !self.nodes()[i].no_remove
                && !self.nodes()[i].is_corner,
            self.refit_allowed(i, refit) && refit != INVALID ==> refit != i && refit < self.nodes().len()
                && !self.is_active(refit as int),
    {
        if self.refit_allowed(i, refit) && refit != INVALID {
            assert(self.linked(i));
            let n = self.nodes().len() as int;
            if self.cyclic() {
                assert(0 <= refit < n && ring_between(self.nodes()[i].prev as int, refit as int,
                    self.nodes()[i].next as int, n));
                lemma_ring_split(self.nodes()[i].prev as int, i, self.nodes()[i].next as int, refit as int, n);
            }
        }
    }

    /// An active removable knot lies strictly inside the gap between its
    /// two neighbours.
    pub proof fn lemma_between_neighbours(&self, i: int)
        requires
            self.wf(),
            self.is_active(i),
            !self.nodes()[i].no_remove,
            self.remaining() > 2,
        ensures
            self.cyclic() ==> ring_between(
                self.nodes()[i].prev as int,
                i,
                self.nodes()[i].next as int,
                self.nodes().len() as int,
            ),
            !self.cyclic() ==> self.nodes()[i].prev < i < self.nodes()[i].next,
    {
        self.lemma_unlink_neighbours(i);
        assert(self.linked(i));
        let n = self.nodes().len() as int;
        let p = self.nodes()[i].prev as int;
        let q = self.nodes()[i].next as int;
        if self.cyclic() {
            if !ring_between(p, i, q, n) {
                assert(ring_between(p, q, i, n));
                assert(self.is_active(q));
            }
        }
    }

    /// A knot taken out by `remove_knot` can be brought back by
    /// `collapse_corner` between the two neighbours it was taken from, and
    /// that restores the set of active knots.
    pub proof fn lemma_remove_then_collapse(a: &Self, b: &Self, i: int)
        requires
            a.wf(),
            a.is_active(i),
            !a.nodes()[i].no_remove,
            !a.nodes()[i].is_corner,
            a.remaining() > 2,
            b.wf(),
            b.cyclic() == a.cyclic(),
            b.nodes().len() == a.nodes().len(),
            b.active_set() == a.active_set().remove(i),
            b.nodes()[a.nodes()[i].prev as int].next == a.nodes()[i].next,
        ensures
            b.corner_fits(i, a.nodes()[i].prev as int, a.nodes()[i].next as int),
            b.active_set().insert(i) == a.active_set(),
    {
        a.lemma_unlink_neighbours(i);
        a.lemma_between_neighbours(i);
        let p = a.nodes()[i].prev as int;
        assert(a.active_set().contains(p));
        assert(b.active_set().contains(p));
        assert(!b.active_set().contains(i));
        assert(b.active_set().insert(i) =~= a.active_set());
    }

    /// A knot moved by `refit_knot` from `i` to `refit` can be moved back:
    /// `refit_knot(refit, i)` is allowed afterwards and restores the set of
    /// active knots.
    pub proof fn lemma_refit_then_back(a: &Self, b: &Self, i: int, refit: int)
        requires
            a.wf(),
            a.is_active(i),
            !a.nodes()[i].no_remove,
            !a.nodes()[i].is_corner,
            a.remaining() > 2,
            0 <= refit < a.nodes().len(),
            refit != i,
            a.cyclic() ==> ring_between(
                a.nodes()[i].prev as int,
                refit,
                a.nodes()[i].next as int,
                a.nodes().len() as int,
            ),
            !a.cyclic() ==> a.nodes()[i].prev < refit < a.nodes()[i].next,
            b.wf(),
            b.cyclic() == a.cyclic(),
            b.nodes().len() == a.nodes().len(),
            b.active_set() == a.active_set().remove(i).insert(refit),
            b.nodes()[refit].prev == a.nodes()[i].prev,
            b.nodes()[refit].next == a.nodes()[i].next,
            b.nodes()[refit].no_remove == a.nodes()[refit].no_remove,
            b.nodes()[refit].is_corner == a.nodes()[refit].is_corner,
        ensures
            b.is_active(refit),
            !b.nodes()[refit].no_remove,
            !b.nodes()[refit].is_corner,
            b.cyclic() ==> ring_between(
                b.nodes()[refit].prev as int,
                i,
                b.nodes()[refit].next as int,
                b.nodes().len() as int,
            ),
            !b.cyclic() ==> b.nodes()[refit].prev < i < b.nodes()[refit].next,
            b.active_set().remove(refit).insert(i) == a.active_set(),
    {
        a.lemma_unlink_neighbours(i);
        a.lemma_between_neighbours(i);
        assert(a.linked(i));
        let n = a.nodes().len() as int;
        let p = a.nodes()[i].prev as int;
        let q = a.nodes()[i].next as int;
        assert(!a.is_active(refit)) by {
            if a.cyclic() {
                lemma_ring_split(p, i, q, refit, n);
            }
        }
        assert(!a.nodes()[refit].no_remove);
        assert(!a.nodes()[refit].is_corner);
        assert(b.active_set().contains(refit));
        if a.cyclic() {
            assert(ring_between(p, i, q, n));
        }
        assert(b.active_set().remove(refit).insert(i) =~= a.active_set());
    }

    /// The state of a walk along the links that has visited `out` and stands at `k`.
    #[verifier::opaque]
    pub open spec fn walk_state(&self, out: Seq<usize>, k: usize) -> bool {
        let c = out.len();
        &&& c <= self.remaining()
        &&& forall|a: int, b: int| 0 <= a < b < c ==> out[a] < out[b]
        &&& forall|a: int| 0 <= a < c ==> self.is_active(#[trigger] out[a] as int)
        &&& c < self.remaining() ==> {
            &&& self.is_active(k as int)
            &&& forall|a: int| 0 <= a < c ==> #[trigger] out[a] < k
            &&& forall|m: int| 0 <= m < k && #[trigger] self.active_set().contains(m) ==> out.contains(m as usize)
        }
        &&& c == self.remaining() ==> forall|m: int| #[trigger]
            self.active_set().contains(m) ==> out.contains(m as usize)
    }

    /// One step of a walk along the links: visit `k`, move on to its `next`.
    proof fn lemma_walk_step(&self, out: Seq<usize>, k: usize)
        requires
            self.wf(),
            self.walk_state(out, k),
            out.len() < self.remaining(),
        ensures
            self.walk_state(out.push(k), self.nodes()[k as int].next),
            out.len() + 1 < self.remaining() ==> self.is_active(self.nodes()[k as int].next as int),
    {
        reveal(KnotList::walk_state);
        let o = out.push(k);
        let c = out.len() as int;
        let nx = self.nodes()[k as int].next;
        assert(self.linked(k as int));
        assert(forall|a: int| 0 <= a < c ==> o[a] == out[a]);
        assert(o[c] == k);
        let advances = if self.cyclic() {
            nx > k
        } else {
            nx != INVALID
        };
        if advances {
            assert forall|m: int| 0 <= m < nx && #[trigger] self.active_set().contains(m) implies o.contains(
                m as usize,
            ) by {
                if m < k {
                    assert(out.contains(m as usize));
                    let a = choose|a: int| 0 <= a < out.len() && out[a] == m as usize;
                    assert(o[a] == m as usize);
                } else if m == k {
                    assert(o[c] == m as usize);
                } else {
                    assert(self.is_active(m));
                    if self.cyclic() {
                        assert(ring_between(k as int, m, nx as int, self.nodes().len() as int));
                    }
                }
            }
        } else {
            assert forall|m: int| #[trigger] self.active_set().contains(m) implies o.contains(m as usize) by {
                if m < k {
                    assert(out.contains(m as usize));
                    let a = choose|a: int| 0 <= a < out.len() && out[a] == m as usize;
                    assert(o[a] == m as usize);
                } else if m == k {
                    assert(o[c] == m as usize);
                } else {
                    assert(self.is_active(m));
                    if self.cyclic() {
                        assert(ring_between(k as int, m, nx as int, self.nodes().len() as int));
                    }
                }
            }
        }
        if c + 1 == self.remaining() || !advances {
            self.lemma_covering_sequence(o);
        }
    }

    /// The active indices in list order: the first active knot, then its
    /// `next`, and so on, `remaining()` knots in all.
    pub fn active_order(&self) -> (order: Vec<usize>)
        requires
            self.wf(),
        ensures
            order@.len() == self.remaining(),
            forall|a: int, b: int| 0 <= a < b < order@.len() ==> order@[a] < order@[b],
            forall|a: int| 0 <= a < order@.len() ==> self.is_active(#[trigger] order@[a] as int),
            forall|i: int| #[trigger] self.active_set().contains(i) ==> order@.contains(i as usize),
    {
        let first = self.first_active();
        proof {
            assert forall|m: int| 0 <= m < first implies !#[trigger] self.active_set().contains(m) by {
                assert(!self.is_active(m));
            }
        }
        let mut out: Vec<usize> = Vec::new();
        let mut k = first;
        let mut c: usize = 0;
        proof {
            reveal(KnotList::walk_state);
        }
        while c < self.len_remaining
            invariant
                self.wf(),
                out@.len() == c,
                self.walk_state(out@, k),
                c < self.remaining() ==> self.is_active(k as int),
            decreases self.remaining() - c,
        {
            proof {
                self.lemma_walk_step(out@, k);
            }
            out.push(k);
            k = self.knots[k].next;
            c += 1;
        }
        proof {
            reveal(KnotList::walk_state);
        }
        out
    }

    /// The highest active index, found by walking the links: from the
    /// first active knot, follow `next` until `remaining()` knots are visited.
    pub fn last_active(&self) -> (last: usize)
        requires
            self.wf(),
        ensures
            self.is_active(last as int),
            forall|m: int| #[trigger] self.active_set().contains(m) ==> m <= last,
    {
        let first = self.first_active();
        proof {
            assert forall|m: int| 0 <= m < first implies !#[trigger] self.active_set().contains(m) by {
                assert(!self.is_active(m));
            }
        }
        let mut k_last = first;
        let mut k_idx = first;
        let mut c: usize = 0;
        let ghost mut out: Seq<usize> = Seq::empty();
        proof {
            reveal(KnotList::walk_state);
        }
        while c < self.len_remaining
            invariant
                self.wf(),
                out.len() == c,
                self.walk_state(out, k_idx),
                c < self.remaining() ==> self.is_active(k_idx as int),
                c == 0 ==> k_last == first,
                c > 0 ==> k_last == out[c - 1],
                self.is_active(k_last as int),
            decreases self.remaining() - c,
        {
            proof {
                self.lemma_walk_step(out, k_idx);
                out = out.push(k_idx);
            }
            k_last = k_idx;
            k_idx = self.knots[k_idx].next;
            c += 1;
        }
        proof {
            reveal(KnotList::walk_state);
            assert forall|m: int| #[trigger] self.active_set().contains(m) implies m <= k_last by {
                assert(out.contains(m as usize));
                let a = choose|a: int| 0 <= a < out.len() && out[a] == m as usize;
                if a < c - 1 {
                    assert(out[a] < out[c - 1]);
                }
            }
        }
        k_last
    }

    /// When every active knot is `a` or `b`, at most two knots are active.
    proof fn lemma_at_most_two(&self, a: int, b: int)
        requires
            self.wf(),
            forall|m: int| #[trigger] self.is_active(m) ==> m == a || m == b,
        ensures
            self.remaining() <= 2,
    {
        assert(self.active_set().subset_of(set![a, b])) by {
            assert forall|m: int| self.active_set().contains(m) implies set![a, b].contains(m) by {
                assert(self.is_active(m));
            }
        }
        lemma_len_subset(self.active_set(), set![a, b]);
    }

    /// The neighbours of an active knot `i` that may be unlinked, in a list
    /// of more than two active knots: they exist, are active, differ from `i`
    /// and from each other, and are not linked back to `i` from the far side.
    proof fn lemma_unlink_neighbours(&self, i: int)
        requires
            self.wf(),
            self.is_active(i),
            !self.nodes()[i].no_remove,
            self.remaining() > 2,
        ensures
            ({
                let p = self.nodes()[i].prev as int;
                let q = self.nodes()[i].next as int;
                &&& self.is_active(p)
                &&& self.is_active(q)
                &&& p != i && q != i && p != q
                &&& self.nodes()[p].next == i
                &&& self.nodes()[q].prev == i
                &&& self.nodes()[p].prev != i
                &&& self.nodes()[q].next != i
                &&& !self.cyclic() ==> p < i < q
            }),
    {
        let n = self.nodes().len() as int;
        let p = self.nodes()[i].prev as int;
        let q = self.nodes()[i].next as int;
        assert(self.linked(i));
        if !self.cyclic() {
            assert(self.nodes()[0].no_remove && self.nodes()[n - 1].no_remove);
            assert(self.is_active(0) && self.is_active(n - 1));
            assert(i != 0 && i != n - 1);
            assert(self.linked(p));
            assert(self.linked(q));
            assert(self.nodes()[p].next == i) by {
                let pn = self.nodes()[p].next as int;
                if pn != i {
                    assert(pn < i ==> self.is_active(pn));
                }
            }
            assert(self.nodes()[q].prev == i) by {
                let qp = self.nodes()[q].prev as int;
                if qp != i {
                    assert(qp > i ==> self.is_active(qp));
                }
            }
        } else {
            assert(self.linked(p));
            assert(self.linked(q));
            if p == i {
                assert forall|m: int| #[trigger] self.is_active(m) implies m == i || m == i by {
                    if m != i {
                        assert(ring_between(i, m, i, n));
                    }
                }
                self.lemma_at_most_two(i, i);
            }
            if q == i {
                assert forall|m: int| #[trigger] self.is_active(m) implies m == i || m == i by {
                    if m != i {
                        assert(ring_between(i, m, i, n));
                    }
                }
                self.lemma_at_most_two(i, i);
            }
            if p == q {
                assert forall|m: int| #[trigger] self.is_active(m) implies m == i || m == p by {
                    if m != i && m != p {
                        lemma_ring_order(m, p, i, n);
                        lemma_ring_order(m, i, p, n);
                        lemma_ring_split(p, i, p, m, n);
                    }
                }
                self.lemma_at_most_two(i, p);
            }
            assert(self.nodes()[p].next == i) by {
                let pn = self.nodes()[p].next as int;
                if pn != i {
                    lemma_ring_order(p, pn, i, n);
                    lemma_ring_split(p, pn, i, i, n);
                    assert(self.is_active(pn));
                }
            }
            assert(self.nodes()[q].prev == i) by {
                let qp = self.nodes()[q].prev as int;
                if qp != i {
                    lemma_ring_split(i, qp, q, qp, n);
                    assert(self.is_active(qp));
                    lemma_ring_order(qp, i, q, n);
                }
            }
            if self.nodes()[p].prev == i {
                assert forall|m: int| #[trigger] self.is_active(m) implies m == i || m == p by {
                    if m != i && m != p {
                        lemma_ring_split(i, p, i, m, n);
                    }
                }
                self.lemma_at_most_two(i, p);
            }
            if self.nodes()[q].next == i {
                assert forall|m: int| #[trigger] self.is_active(m) implies m == i || m == q by {
                    if m != i && m != q {
                        lemma_ring_split(i, q, i, m, n);
                    }
                }
                self.lemma_at_most_two(i, q);
            }
        }
    }

    /// Links stay valid when the active knot `i` is unlinked: its neighbours
    /// `p` and `q` are joined, `i` is marked removed, nothing else changes.
    proof fn lemma_unlinked(a: &Self, b: &Self, i: int)
        requires
            a.wf(),
            a.is_active(i),
            !a.nodes()[i].no_remove,
            a.remaining() > 2,
            b.cyclic() == a.cyclic(),
            b.nodes().len() == a.nodes().len(),
            b.nodes()[i].is_remove,
            forall|j: int|
                0 <= j < a.nodes().len() && j != i ==> (#[trigger] b.nodes()[j]).is_remove
                    == a.nodes()[j].is_remove,
            forall|j: int|
                0 <= j < a.nodes().len() && j != i && j != a.nodes()[i].prev ==> (#[trigger] b.nodes()[j]).next
                    == a.nodes()[j].next,
            forall|j: int|
                0 <= j < a.nodes().len() && j != i && j != a.nodes()[i].next ==> (#[trigger] b.nodes()[j]).prev
                    == a.nodes()[j].prev,
            b.nodes()[a.nodes()[i].prev as int].next == a.nodes()[i].next,
            b.nodes()[a.nodes()[i].next as int].prev == a.nodes()[i].prev,
        ensures
            b.links_ok(),
            b.active_set() == a.active_set().remove(i),
    {
        let n = a.nodes().len() as int;
        let p = a.nodes()[i].prev as int;
        let q = a.nodes()[i].next as int;
        a.lemma_unlink_neighbours(i);
        assert(a.linked(i));
        assert(a.linked(p));
        assert(a.linked(q));
        assert forall|m: int| #[trigger] b.is_active(m) == (a.is_active(m) && m != i) by {
            if 0 <= m < n && m != i {
                assert(b.nodes()[m].is_remove == a.nodes()[m].is_remove);
            }
        }
        assert forall|j: int| b.is_active(j) implies #[trigger] b.linked(j) by {
            assert(a.is_active(j) && j != i);
            assert(a.linked(j));
            if j == p {
                assert(b.nodes()[j].next == q);
                assert(b.nodes()[j].prev == a.nodes()[j].prev);
                if a.cyclic() {
                    assert forall|m: int| 0 <= m < n && ring_between(p, m, q, n) implies !#[trigger] b.is_active(m) by {
                        lemma_ring_split(p, i, q, m, n);
                        assert(!a.is_active(m) || m == i);
                    }
                } else {
                    assert forall|m: int| p < m < q implies !#[trigger] b.is_active(m) by {
                        if m < i {
                            assert(!a.is_active(m));
                        } else if m > i {
                            assert(!a.is_active(m));
                        }
                    }
                }
            }
            if j == q {
                assert(b.nodes()[j].prev == p);
                assert(b.nodes()[j].next == a.nodes()[j].next);
                if a.cyclic() {
                    assert forall|m: int| 0 <= m < n && ring_between(p, m, q, n) implies !#[trigger] b.is_active(m) by {
                        lemma_ring_split(p, i, q, m, n);
                        assert(!a.is_active(m) || m == i);
                    }
                } else {
                    assert forall|m: int| p < m < q implies !#[trigger] b.is_active(m) by {
                        if m < i {
                            assert(!a.is_active(m));
                        } else if m > i {
                            assert(!a.is_active(m));
                        }
                    }
                }
            }
            if j != p && j != q {
                assert(b.nodes()[j].next == a.nodes()[j].next);
                assert(b.nodes()[j].prev == a.nodes()[j].prev);
                let nx = a.nodes()[j].next as int;
                let pv = a.nodes()[j].prev as int;
                if nx == i {
                    if a.cyclic() {
                        lemma_ring_order(j, p, i, n);
                    }
                    assert(false);
                }
                if pv == i {
                    if a.cyclic() {
                        lemma_ring_order_from(i, j, q, n);
                    }
                    assert(false);
                }
            }
        }
        assert(b.active_set() =~= a.active_set().remove(i));
    }

    /// Links stay valid when the removed knot `x`, lying strictly inside the
    /// gap from the active knot `p` to its `next` `q`, is linked in between.
    proof fn lemma_linked_between(a: &Self, b: &Self, x: int, p: int)
        requires
            a.wf(),
            a.is_active(p),
            0 <= x < a.nodes().len(),
            !a.is_active(x),
            a.cyclic() ==> ring_between(p, x, a.nodes()[p].next as int, a.nodes().len() as int),
            !a.cyclic() ==> p < x < a.nodes()[p].next < a.nodes().len(),
            b.cyclic() == a.cyclic(),
            b.nodes().len() == a.nodes().len(),
            !b.nodes()[x].is_remove,
            b.nodes()[x].prev == p,
            b.nodes()[x].next == a.nodes()[p].next,
            b.nodes()[p].next == x,
            b.nodes()[a.nodes()[p].next as int].prev == x,
            forall|j: int|
                0 <= j < a.nodes().len() && j != x ==> (#[trigger] b.nodes()[j]).is_remove
                    == a.nodes()[j].is_remove,
            forall|j: int|
                0 <= j < a.nodes().len() && j != x && j != p ==> (#[trigger] b.nodes()[j]).next
                    == a.nodes()[j].next,
            forall|j: int|
                0 <= j < a.nodes().len() && j != x && j != a.nodes()[p].next ==> (#[trigger] b.nodes()[j]).prev
                    == a.nodes()[j].prev,
        ensures
            b.links_ok(),
            b.active_set() == a.active_set().insert(x),
    {
        let n = a.nodes().len() as int;
        let q = a.nodes()[p].next as int;
        assert(a.linked(p));
        assert(a.is_active(q));
        assert(a.linked(q));
        assert(a.nodes()[q].prev == p) by {
            let qp = a.nodes()[q].prev as int;
            if qp != p {
                assert(a.is_active(qp));
                if a.cyclic() {
                    if p == q {
                        assert(ring_between(p, qp, q, n));
                    } else {
                        lemma_ring_order(qp, p, q, n);
                    }
                }
            }
        }
        assert forall|m: int| #[trigger] b.is_active(m) == (a.is_active(m) || m == x) by {
            if 0 <= m < n && m != x {
                assert(b.nodes()[m].is_remove == a.nodes()[m].is_remove);
            }
        }
        assert forall|j: int| b.is_active(j) implies #[trigger] b.linked(j) by {
            if j == x {
                if a.cyclic() {
                    assert forall|m: int| 0 <= m < n && ring_between(x, m, q, n) implies !#[trigger] b.is_active(m) by {
                        lemma_ring_nested(p, x, q, m, n);
                    }
                    assert forall|m: int| 0 <= m < n && ring_between(p, m, x, n) implies !#[trigger] b.is_active(m) by {
                        lemma_ring_nested(p, x, q, m, n);
                    }
                } else {
                    assert forall|m: int| x < m < q implies !#[trigger] b.is_active(m) by {
                        assert(!a.is_active(m));
                    }
                    assert forall|m: int| p < m < x implies !#[trigger] b.is_active(m) by {
                        assert(!a.is_active(m));
                    }
                }
            } else {
                assert(a.is_active(j));
                assert(a.linked(j));
                if j == p {
                    if a.cyclic() {
                        assert forall|m: int| 0 <= m < n && ring_between(p, m, x, n) implies !#[trigger] b.is_active(m) by {
                            lemma_ring_nested(p, x, q, m, n);
                        }
                    } else {
                        assert forall|m: int| p < m < x implies !#[trigger] b.is_active(m) by {
                            assert(!a.is_active(m));
                        }
                    }
                }
                if j == q {
                    if a.cyclic() {
                        assert forall|m: int| 0 <= m < n && ring_between(x, m, q, n) implies !#[trigger] b.is_active(m) by {
                            lemma_ring_nested(p, x, q, m, n);
                        }
                    } else {
                        assert forall|m: int| x < m < q implies !#[trigger] b.is_active(m) by {
                            assert(!a.is_active(m));
                        }
                    }
                }
                if j != p {
                    let nj = a.nodes()[j].next as int;
                    assert(b.nodes()[j].next == nj);
                    if a.cyclic() {
                        assert forall|m: int| 0 <= m < n && ring_between(j, m, nj, n) implies !#[trigger] b.is_active(m) by {
                            if m == x {
                                assert(!ring_between(j, p, nj, n));
                                if ring_between(p, j, q, n) {
                                    assert(!a.is_active(j));
                                }
                                lemma_ring_gaps_meet(j, nj, p, q, x, n);
                            }
                        }
                    } else if nj != INVALID {
                        assert forall|m: int| j < m < nj implies !#[trigger] b.is_active(m) by {
                            if m == x {
                                assert(!a.is_active(p) || !(j < p < nj));
                                assert(!(p < j < q));
                            }
                        }
                    } else {
                        assert forall|m: int| j < m < n implies !#[trigger] b.is_active(m) by {
                            if m == x {
                                assert(!(p < j < q));
                                assert(a.is_active(q));
                            }
                        }
                    }
                }
                if j != q {
                    let pj = a.nodes()[j].prev as int;
                    assert(b.nodes()[j].prev == pj);
                    if a.cyclic() {
                        assert forall|m: int| 0 <= m < n && ring_between(pj, m, j, n) implies !#[trigger] b.is_active(m) by {
                            if m == x {
                                assert(a.is_active(pj));
                                assert(a.linked(pj));
                                assert(a.nodes()[pj].next == j) by {
                                    let pn = a.nodes()[pj].next as int;
                                    if pn != j {
                                        assert(a.is_active(pn));
                                        if pj == j {
                                            assert(ring_between(pj, pn, j, n));
                                        } else {
                                            lemma_ring_order(pn, pj, j, n);
                                        }
                                    }
                                }
                                if ring_between(p, pj, q, n) {
                                    assert(!a.is_active(pj));
                                }
                                if ring_between(pj, p, j, n) {
                                    assert(!a.is_active(p));
                                }
                                lemma_ring_gaps_meet(pj, j, p, q, x, n);
                            }
                        }
                    } else if pj != INVALID {
                        assert forall|m: int| pj < m < j implies !#[trigger] b.is_active(m) by {
                            if m == x {
                                assert(!(pj < p < j));
                                assert(!(p < j < q));
                            }
                        }
                    } else {
                        assert forall|m: int| 0 <= m < j implies !#[trigger] b.is_active(m) by {
                            if m == x {
                                assert(!(p < j < q));
                            }
                        }
                    }
                }
            }
        }
        assert(b.active_set() =~= a.active_set().insert(x));
    }

    /// A strictly increasing sequence of active indices that holds every
    /// active index is exactly as long as the active set is large.
    proof fn lemma_covering_sequence(&self, s: Seq<usize>)
        requires
            self.wf(),
            forall|a: int, b: int| 0 <= a < b < s.len() ==> s[a] < s[b],
            forall|a: int| 0 <= a < s.len() ==> self.is_active(#[trigger] s[a] as int),
        ensures
            s.len() <= self.remaining(),
            (forall|m: int| #[trigger] self.active_set().contains(m) ==> s.contains(m as usize))
                ==> s.len() == self.remaining(),
            s.len() == self.remaining() ==> forall|m: int| #[trigger]
                self.active_set().contains(m) ==> s.contains(m as usize),
    {
        let slots = set_int_range(0, s.len() as int);
        let f = |a: int| s[a] as int;
        let vals = slots.map(f);
        lemma_int_range(0, s.len() as int);
        assert(vstd::relations::injective_on(f, slots)) by {
            assert forall|a: int, b: int| slots.contains(a) && slots.contains(b) && f(a) == f(b) implies a
                == b by {
                if a < b {
                    assert(s[a] < s[b]);
                } else if b < a {
                    assert(s[b] < s[a]);
                }
            }
        }
        lemma_map_size(slots, vals, f);
        assert(vals.subset_of(self.active_set())) by {
            assert forall|x: int| vals.contains(x) implies self.active_set().contains(x) by {
                let a = choose|a: int| slots.contains(a) && f(a) == x;
                assert(self.is_active(s[a] as int));
            }
        }
        lemma_len_subset(vals, self.active_set());
        if forall|m: int| #[trigger] self.active_set().contains(m) ==> s.contains(m as usize) {
            assert(self.active_set().subset_of(vals)) by {
                assert forall|x: int| self.active_set().contains(x) implies vals.contains(x) by {
                    assert(s.contains(x as usize));
                    let a = choose|a: int| 0 <= a < s.len() && s[a] == x as usize;
                    assert(slots.contains(a) && f(a) == x);
                }
            }
            lemma_len_subset(self.active_set(), vals);
        }
        if s.len() == self.remaining() {
            lemma_subset_equality(vals, self.active_set());
            assert forall|m: int| #[trigger] self.active_set().contains(m) implies s.contains(m as usize) by {
                assert(vals.contains(m));
                let a = choose|a: int| slots.contains(a) && f(a) == m;
                assert(s[a] == m as usize);
            }
        }
    }
}

} // verus!
