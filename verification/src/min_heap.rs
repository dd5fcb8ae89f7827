//! An indexed binary min-heap of candidate knots.
//!
//! Every entry is identified by a knot index (`id`, below the heap's capacity)
//! and carries an integer priority key.  An id is present at most once, so an
//! entry can be inserted, re-keyed or withdrawn through its id.  Entries are
//! ordered by `(key, id)`: the id breaks ties, which makes the order in which
//! entries leave the heap fully determined by the set of entries.

use vstd::prelude::*;
use vstd::set_lib::*;
use crate::span::INVALID;

verus! {

/// The `(key, id)` order in which entries leave the heap.
pub open spec fn entry_le(a: (u64, usize), b: (u64, usize)) -> bool {
    a.0 < b.0 || (a.0 == b.0 && a.1 <= b.1)
}

/// Strict version of [`entry_le`].
pub open spec fn entry_lt(a: (u64, usize), b: (u64, usize)) -> bool {
    a.0 < b.0 || (a.0 == b.0 && a.1 < b.1)
}

/// Position of the parent of tree slot `i` (for `i > 0`).
pub open spec fn parent(i: int) -> int {
    (i - 1) / 2
}

/// The heap order holds on every edge of the tree except the edge that ends in slot `k`.
pub open spec fn edges_except_into(tree: Seq<(u64, usize)>, k: int) -> bool {
    forall|j: int| 0 < j < tree.len() && j != k ==> entry_le(tree[parent(j)], #[trigger] tree[j])
}

/// The heap order holds on every edge of the tree except the edges that start in slot `k`.
pub open spec fn edges_except_from(tree: Seq<(u64, usize)>, k: int) -> bool {
    forall|j: int| 0 < j < tree.len() && parent(j) != k ==> entry_le(tree[parent(j)], #[trigger] tree[j])
}

/// The parent of slot `k` is ordered before the children of `k`.
pub open spec fn bridged(tree: Seq<(u64, usize)>, k: int) -> bool {
    k > 0 ==> forall|j: int|
        0 < j < tree.len() && parent(j) == k ==> entry_le(tree[parent(k)], #[trigger] tree[j])
}

/// The heap order holds on every edge of the tree.
pub open spec fn heap_ordered(tree: Seq<(u64, usize)>) -> bool {
    forall|j: int| 0 < j < tree.len() ==> entry_le(tree[parent(j)], #[trigger] tree[j])
}

/// `pos` records, for every id, the slot of the tree that holds it (or `INVALID`).
pub open spec fn positions_agree(tree: Seq<(u64, usize)>, pos: Seq<usize>) -> bool {
    &&& forall|i: int|
        0 <= i < tree.len() ==> (#[trigger] tree[i]).1 < pos.len() && pos[tree[i].1 as int] == i
    &&& forall|id: int|
        0 <= id < pos.len() && #[trigger] pos[id] != INVALID ==> pos[id] < tree.len()
            && tree[pos[id] as int].1 == id
}

/// The map from id to key that a tree and its position table describe.
pub open spec fn entries_of(tree: Seq<(u64, usize)>, pos: Seq<usize>) -> Map<usize, u64> {
    Map::new(
        |id: usize| (id as int) < pos.len() && pos[id as int] != INVALID,
        |id: usize| tree[pos[id as int] as int].0,
    )
}

/// `e` is an entry of `m` that comes first in `(key, id)` order.
pub open spec fn is_least_entry(m: Map<usize, u64>, e: (u64, usize)) -> bool {
    &&& m.dom().contains(e.1)
    &&& m[e.1] == e.0
    &&& forall|other: usize| #[trigger] m.dom().contains(other) ==> entry_le(e, (m[other], other))
}

/// Which entry leaves the heap next is determined by the entries alone:
/// a map has at most one least entry.
pub proof fn lemma_least_entry_unique(m: Map<usize, u64>, a: (u64, usize), b: (u64, usize))
    requires
        is_least_entry(m, a),
        is_least_entry(m, b),
    ensures
        a == b,
{
    assert(entry_le(a, (m[b.1], b.1)));
    assert(entry_le(b, (m[a.1], a.1)));
}

/// The least entry of a queue is its numerically smallest key, the smallest
/// id among entries with that key; and any entry with that property is the
/// least entry.  Keys are compared as whole 64-bit numbers.
pub proof fn lemma_least_entry_is_numeric_min(m: Map<usize, u64>, e: (u64, usize))
    ensures
        is_least_entry(m, e) <==> {
            &&& m.dom().contains(e.1)
            &&& m[e.1] == e.0
            &&& forall|other: usize| #[trigger] m.dom().contains(other) ==> (e.0 as int) <= (m[other] as int)
            &&& forall|other: usize|
                #[trigger] m.dom().contains(other) && m[other] == e.0 ==> (e.1 as int) <= (other as int)
        },
{
    if is_least_entry(m, e) {
        assert forall|other: usize| #[trigger] m.dom().contains(other) implies (e.0 as int) <= (
        m[other] as int) by {
            assert(entry_le(e, (m[other], other)));
        }
        assert forall|other: usize| #[trigger]
            m.dom().contains(other) && m[other] == e.0 implies (e.1 as int) <= (other as int) by {
            assert(entry_le(e, (m[other], other)));
        }
    }
}

/// The strict order of entries: `a` comes before `b` exactly when its key is
/// a smaller number, or the keys are equal and its id is smaller; `entry_le`
/// is that order or equality.
pub proof fn lemma_entry_order_numeric(a: (u64, usize), b: (u64, usize))
    ensures
        entry_lt(a, b) <==> (a.0 as int) < (b.0 as int) || ((a.0 as int) == (b.0 as int) && (a.1 as int) < (b.1 as int)),
        entry_le(a, b) <==> entry_lt(a, b) || a == b,
{
}

/// Entries leave the heap in strictly increasing `(key, id)` order: the least
/// entry of what remains after taking out the least entry comes after it.
pub proof fn lemma_pop_order(m: Map<usize, u64>, first: (u64, usize), second: (u64, usize))
    requires
        is_least_entry(m, first),
        is_least_entry(m.remove(first.1), second),
    ensures
        entry_lt(first, second),
{
    assert(m.remove(first.1).dom().contains(second.1));
    assert(m.dom().contains(second.1));
    assert(entry_le(first, (m[second.1], second.1)));
}

/// Withdrawing an id that was just inserted gives back the entries that were
/// there before.
pub proof fn lemma_insert_then_remove(m: Map<usize, u64>, id: usize, key: u64)
    requires
        !m.dom().contains(id),
    ensures
        m.insert(id, key).remove(id) == m,
{
    assert(m.insert(id, key).remove(id) =~= m);
}

/// An indexed binary min-heap over the ids `0 .. capacity`.
pub struct MinHeap {
    tree: Vec<(u64, usize)>,
    pos: Vec<usize>,
}

/// In a heap-ordered tree the root precedes every slot.
proof fn lemma_root_is_least(tree: Seq<(u64, usize)>, k: int)
    requires
        heap_ordered(tree),
        0 <= k < tree.len(),
    ensures
        entry_le(tree[0], tree[k]),
    decreases k,
{
    if k > 0 {
        assert(entry_le(tree[parent(k)], tree[k]));
        lemma_root_is_least(tree, parent(k));
    }
}

/// A tree whose ids are distinct and below `pos.len()`, and which misses the id
/// `id`, has fewer slots than there are ids.
proof fn lemma_room_for_new_id(tree: Seq<(u64, usize)>, pos: Seq<usize>, id: int)
    requires
        positions_agree(tree, pos),
        0 <= id < pos.len(),
        pos[id] == INVALID,
        tree.len() <= pos.len(),
        pos.len() < usize::MAX,
    ensures
        tree.len() < pos.len(),
{
    let slots = set_int_range(0, tree.len() as int);
    let f = |i: int| tree[i].1 as int;
    let ids = slots.map(f);
    lemma_int_range(0, tree.len() as int);
    assert(vstd::relations::injective_on(f, slots)) by {
        assert forall|a: int, b: int| slots.contains(a) && slots.contains(b) && f(a) == f(b) implies a
            == b by {
            assert(pos[tree[a].1 as int] == a);
            assert(pos[tree[b].1 as int] == b);
        }
    }
    lemma_map_size(slots, ids, f);
    let others = set_int_range(0, pos.len() as int).remove(id);
    lemma_int_range(0, pos.len() as int);
    assert(ids.subset_of(others)) by {
        assert forall|x: int| ids.contains(x) implies others.contains(x) by {
            let i = choose|i: int| slots.contains(i) && f(i) == x;
            assert(tree[i].1 < pos.len());
            assert(0 <= i < tree.len());
            if x == id {
                assert(pos[tree[i].1 as int] == i);
            }
        }
    }
    lemma_len_subset(ids, others);
}

impl MinHeap {
    /// The entries of the heap: each id present, with its key.
    pub closed spec fn view(&self) -> Map<usize, u64> {
        entries_of(self.tree@, self.pos@)
    }

    /// The ids that the heap can hold are `0 .. capacity()`.
    pub closed spec fn capacity(&self) -> nat {
        self.pos@.len()
    }

    /// Internal consistency of the tree and its position table.
    pub closed spec fn wf(&self) -> bool {
        &&& positions_agree(self.tree@, self.pos@)
        &&& heap_ordered(self.tree@)
        &&& self.tree@.len() <= self.pos@.len()
        &&& self.pos@.len() < usize::MAX / 2
    }

    /// An empty heap for the ids `0 .. capacity`.
    pub fn with_capacity(capacity: usize) -> (heap: Self)
        requires
            capacity < usize::MAX / 2,
        ensures
            heap.wf(),
            heap@ == Map::<usize, u64>::empty(),
            heap.capacity() == capacity,
    {
        let mut pos: Vec<usize> = Vec::with_capacity(capacity);
        let mut i: usize = 0;
        while i < capacity
            invariant
                i <= capacity,
                pos@.len() == i,
                forall|j: int| 0 <= j < i ==> pos@[j] == INVALID,
            decreases capacity - i,
        {
            pos.push(INVALID);
            i += 1;
        }
        let heap = MinHeap { tree: Vec::new(), pos };
        assert(heap@ =~= Map::<usize, u64>::empty());
        heap
    }

    /// Number of entries.
    pub fn len(&self) -> (n: usize)
        requires
            self.wf(),
        ensures
            n == self@.len(),
    {
        proof {
            self.lemma_len();
        }
        self.tree.len()
    }

    /// True when the heap holds no entry.
    pub fn is_empty(&self) -> (b: bool)
        requires
            self.wf(),
        ensures
            b == (self@.len() == 0),
            b == (self@ == Map::<usize, u64>::empty()),
    {
        proof {
            self.lemma_len();
            if self.tree@.len() > 0 {
                let id = self.tree@[0].1;
                assert(self@.dom().contains(id));
            } else {
                assert(self@ =~= Map::<usize, u64>::empty());
            }
        }
        self.tree.len() == 0
    }

    /// True when `id` has an entry.
    pub fn contains(&self, id: usize) -> (b: bool)
        requires
            self.wf(),
        ensures
            b == self@.dom().contains(id),
    {
        id < self.pos.len() && self.pos[id] != INVALID
    }

    /// A consistent heap holds finitely many entries.
    pub proof fn lemma_entries_finite(&self)
        requires
            self.wf(),
        ensures
            self@.dom().finite(),
    {
        self.lemma_len();
    }

    /// The heap holds as many entries as its tree holds slots.
    proof fn lemma_len(&self)
        requires
            self.wf(),
        ensures
            self@.dom().finite(),
            self@.len() == self.tree@.len(),
    {
        let tree = self.tree@;
        let pos = self.pos@;
        let slots = set_int_range(0, tree.len() as int);
        let f = |i: int| tree[i].1;
        lemma_int_range(0, tree.len() as int);
        assert(vstd::relations::injective_on(f, slots)) by {
            assert forall|a: int, b: int|
                slots.contains(a) && slots.contains(b) && f(a) == f(b) implies a == b by {
                assert(pos[tree[a].1 as int] == a);
                assert(pos[tree[b].1 as int] == b);
            }
        }
        assert(slots.map(f) =~= self@.dom()) by {
            assert forall|id: usize| self@.dom().contains(id) implies slots.map(f).contains(id) by {
                let i = pos[id as int] as int;
                assert(slots.contains(i) && f(i) == id);
            }
            assert forall|id: usize| slots.map(f).contains(id) implies self@.dom().contains(id) by {
                let i = choose|i: int| slots.contains(i) && f(i) == id;
                assert(tree[i].1 < pos.len() && pos[tree[i].1 as int] == i);
            }
        }
        lemma_map_size(slots, self@.dom(), f);
    }

    /// Exchange the entries of two slots, keeping the position table in step.
    fn swap_slots(&mut self, a: usize, b: usize)
        requires
            positions_agree(old(self).tree@, old(self).pos@),
            a < old(self).tree@.len(),
            b < old(self).tree@.len(),
            old(self).tree@.len() < usize::MAX,
        ensures
            positions_agree(final(self).tree@, final(self).pos@),
            final(self).tree@ == old(self).tree@.update(a as int, old(self).tree@[b as int]).update(
                b as int,
                old(self).tree@[a as int],
            ),
            final(self).pos@.len() == old(self).pos@.len(),
            final(self)@ == old(self)@,
    {
        let ea = self.tree[a];
        let eb = self.tree[b];
        self.tree.set(a, eb);
        self.tree.set(b, ea);
        self.pos.set(ea.1, b);
        self.pos.set(eb.1, a);
        proof {
            let t0 = old(self).tree@;
            let p0 = old(self).pos@;
            let t = self.tree@;
            let p = self.pos@;
            assert forall|i: int| 0 <= i < t.len() implies (#[trigger] t[i]).1 < p.len() && p[t[i].1 as int]
                == i by {
                if i != a && i != b {
                    assert(t[i] == t0[i]);
                    assert(p0[t0[i].1 as int] == i);
                }
            }
            assert forall|id: int| 0 <= id < p.len() && #[trigger] p[id] != INVALID implies p[id] < t.len()
                && t[p[id] as int].1 == id by {
                if id != ea.1 && id != eb.1 {
                    assert(p[id] == p0[id]);
                    let s = p0[id] as int;
                    assert(s != a && s != b);
                }
            }
            assert(p0[ea.1 as int] == a);
            assert(p0[eb.1 as int] == b);
            assert forall|id: usize| #![auto] id < p.len() && id != ea.1 && id != eb.1 implies p[id as int]
                == p0[id as int] && (p0[id as int] != INVALID ==> t[p0[id as int] as int] == t0[p0[id as int] as int]) by {
                if p0[id as int] != INVALID {
                    let s = p0[id as int] as int;
                    assert(t0[s].1 == id);
                    assert(s != a && s != b);
                }
            }
            assert(p[ea.1 as int] == b || ea.1 == eb.1);
            assert(p[eb.1 as int] == a);
            assert(t[a as int] == eb);
            assert(t[b as int] == ea);
            assert(entries_of(t, p) =~= entries_of(t0, p0)) by {
                assert forall|id: usize| #![auto] entries_of(t, p).dom().contains(id) == entries_of(
                    t0,
                    p0,
                ).dom().contains(id) by {
                    if id == eb.1 {
                        assert(p[id as int] == a && p0[id as int] == b);
                    } else if id == ea.1 {
                        assert(p[id as int] == b && p0[id as int] == a);
                    }
                }
                assert forall|id: usize| #![auto] entries_of(t, p).dom().contains(id) implies entries_of(
                    t,
                    p,
                )[id] == entries_of(t0, p0)[id] by {
                    if id == ea.1 && ea.1 != eb.1 {
                        assert(p[id as int] == b);
                    }
                }
            }
        }
    }

    /// Move the entry at slot `i` towards the root until the heap is ordered.
    fn sift_up(&mut self, i: usize)
        requires
            positions_agree(old(self).tree@, old(self).pos@),
            i < old(self).tree@.len(),
            old(self).tree@.len() <= old(self).pos@.len(),
            old(self).pos@.len() < usize::MAX / 2,
            edges_except_into(old(self).tree@, i as int),
            bridged(old(self).tree@, i as int),
        ensures
            final(self).wf(),
            final(self)@ == old(self)@,
            final(self).tree@.len() == old(self).tree@.len(),
            final(self).pos@.len() == old(self).pos@.len(),
    {
        let mut cur = i;
        while cur > 0
            invariant
                positions_agree(self.tree@, self.pos@),
                cur < self.tree@.len(),
                self.tree@.len() == old(self).tree@.len(),
                self.pos@.len() == old(self).pos@.len(),
                self.tree@.len() <= self.pos@.len(),
                self.pos@.len() < usize::MAX / 2,
                edges_except_into(self.tree@, cur as int),
                bridged(self.tree@, cur as int),
                self@ == old(self)@,
            ensures
                heap_ordered(self.tree@),
            decreases cur,
        {
            let p = (cur - 1) / 2;
            if entry_lt_exec(self.tree[cur], self.tree[p]) {
                let ghost t0 = self.tree@;
                self.swap_slots(cur, p);
                proof {
                    let t = self.tree@;
                    assert(t[p as int] == t0[cur as int]);
                    assert(t[cur as int] == t0[p as int]);
                    assert forall|j: int| 0 < j < t.len() && j != p implies entry_le(
                        t[parent(j)],
                        #[trigger] t[j],
                    ) by {
                        if j == cur {
                        } else if parent(j) == cur {
                            assert(t[j] == t0[j]);
                        } else if parent(j) == p {
                            assert(t[j] == t0[j]);
                            assert(entry_le(t0[p as int], t0[j]));
                        } else if j == p {
                        } else {
                            assert(t[j] == t0[j]);
                            assert(entry_le(t0[parent(j)], t0[j]));
                            if parent(j) == cur {
                            }
                        }
                    }
                    if p > 0 {
                        assert forall|j: int| 0 < j < t.len() && parent(j) == p implies entry_le(
                            t[parent(p as int)],
                            #[trigger] t[j],
                        ) by {
                            assert(entry_le(t0[parent(p as int)], t0[p as int]));
                            if j != cur {
                                assert(t[j] == t0[j]);
                                assert(entry_le(t0[p as int], t0[j]));
                            }
                        }
                    }
                }
                cur = p;
            } else {
                proof {
                    let t = self.tree@;
                    assert forall|j: int| 0 < j < t.len() implies entry_le(t[parent(j)], #[trigger] t[j]) by {
                        if j == cur {
                            assert(parent(j) == p);
                        }
                    }
                }
                break;
            }
        }
    }

    /// Move the entry at slot `i` away from the root until the heap is ordered.
    fn sift_down(&mut self, i: usize)
        requires
            positions_agree(old(self).tree@, old(self).pos@),
            i < old(self).tree@.len(),
            old(self).tree@.len() <= old(self).pos@.len(),
            old(self).pos@.len() < usize::MAX / 2,
            edges_except_from(old(self).tree@, i as int),
            bridged(old(self).tree@, i as int),
        ensures
            final(self).wf(),
            final(self)@ == old(self)@,
            final(self).tree@.len() == old(self).tree@.len(),
            final(self).pos@.len() == old(self).pos@.len(),
    {
        let len = self.tree.len();
        let mut cur = i;
        loop
            invariant
                positions_agree(self.tree@, self.pos@),
                cur < self.tree@.len(),
                len == self.tree@.len(),
                self.tree@.len() == old(self).tree@.len(),
                self.pos@.len() == old(self).pos@.len(),
                self.tree@.len() <= self.pos@.len(),
                self.pos@.len() < usize::MAX / 2,
                edges_except_from(self.tree@, cur as int),
                bridged(self.tree@, cur as int),
                self@ == old(self)@,
            ensures
                heap_ordered(self.tree@),
            decreases len - cur,
        {
            let l = 2 * cur + 1;
            if l >= len {
                proof {
                    assert forall|j: int| 0 < j < self.tree@.len() implies entry_le(
                        self.tree@[parent(j)],
                        #[trigger] self.tree@[j],
                    ) by {
                        assert(parent(j) != cur);
                    }
                }
                break;
            }
            let r = l + 1;
            let m = if r < len && entry_lt_exec(self.tree[r], self.tree[l]) {
                r
            } else {
                l
            };
            if entry_lt_exec(self.tree[m], self.tree[cur]) {
                let ghost t0 = self.tree@;
                self.swap_slots(cur, m);
                proof {
                    let t = self.tree@;
                    assert(t[cur as int] == t0[m as int]);
                    assert(t[m as int] == t0[cur as int]);
                    assert(parent(l as int) == cur && parent(r as int) == cur);
                    assert forall|j: int| 0 < j < t.len() && parent(j) != m implies entry_le(
                        t[parent(j)],
                        #[trigger] t[j],
                    ) by {
                        if j == cur {
                            assert(entry_le(t0[parent(cur as int)], t0[m as int]));
                        } else if j == m {
                        } else if parent(j) == cur {
                            assert(j == l || j == r);
                            assert(t[j] == t0[j]);
                        } else {
                            assert(t[j] == t0[j]);
                            assert(entry_le(t0[parent(j)], t0[j]));
                            if parent(j) == m {
                            }
                        }
                    }
                    assert forall|j: int| 0 < j < t.len() && parent(j) == m implies entry_le(
                        t[parent(m as int)],
                        #[trigger] t[j],
                    ) by {
                        assert(t[j] == t0[j]);
                        assert(entry_le(t0[m as int], t0[j]));
                    }
                }
                cur = m;
            } else {
                proof {
                    let t = self.tree@;
                    assert(parent(l as int) == cur && parent(r as int) == cur);
                    assert forall|j: int| 0 < j < t.len() implies entry_le(
                        t[parent(j)],
                        #[trigger] t[j],
                    ) by {
                        if parent(j) == cur {
                            assert(j == l || j == r);
                        }
                    }
                }
                break;
            }
        }
    }

    /// Give `id` the key `key`, adding the entry when `id` has none yet.
    pub fn insert_or_update(&mut self, id: usize, key: u64)
        requires
            old(self).wf(),
            id < old(self).capacity(),
        ensures
            final(self).wf(),
            final(self).capacity() == old(self).capacity(),
            final(self)@ == old(self)@.insert(id, key),
    {
        let p = self.pos[id];
        if p == INVALID {
            proof {
                lemma_room_for_new_id(self.tree@, self.pos@, id as int);
            }
            let n = self.tree.len();
            let ghost t0 = self.tree@;
            let ghost p0 = self.pos@;
            self.tree.push((key, id));
            self.pos.set(id, n);
            proof {
                let t = self.tree@;
                let ps = self.pos@;
                assert forall|k: int| 0 <= k < t.len() implies (#[trigger] t[k]).1 < ps.len() && ps[t[k].1 as int]
                    == k by {
                    if k < n {
                        assert(t[k] == t0[k]);
                        assert(p0[t0[k].1 as int] == k);
                    }
                }
                assert forall|x: int| 0 <= x < ps.len() && #[trigger] ps[x] != INVALID implies ps[x] < t.len()
                    && t[ps[x] as int].1 == x by {
                    if x != id {
                        assert(ps[x] == p0[x]);
                    }
                }
                assert forall|j: int| 0 < j < t.len() && j != n implies entry_le(
                    t[parent(j)],
                    #[trigger] t[j],
                ) by {
                    assert(t[j] == t0[j]);
                    assert(t[parent(j)] == t0[parent(j)]);
                }
                assert(entries_of(t, ps) =~= entries_of(t0, p0).insert(id, key)) by {
                    assert forall|x: usize| #![auto] entries_of(t, ps).dom().contains(x) && x != id implies entries_of(
                        t0,
                        p0,
                    ).dom().contains(x) && t[ps[x as int] as int] == t0[p0[x as int] as int] by {
                        assert(ps[x as int] == p0[x as int]);
                    }
                    assert forall|x: usize| #![auto] entries_of(t0, p0).dom().contains(x) && x != id implies entries_of(
                        t,
                        ps,
                    ).dom().contains(x) by {
                        assert(ps[x as int] == p0[x as int]);
                    }
                }
            }
            self.sift_up(n);
        } else {
            let old_entry = self.tree[p];
            let ghost t0 = self.tree@;
            self.tree.set(p, (key, id));
            proof {
                let t = self.tree@;
                assert forall|k: int| 0 <= k < t.len() implies (#[trigger] t[k]).1 < self.pos@.len()
                    && self.pos@[t[k].1 as int] == k by {
                    if k != p {
                        assert(t[k] == t0[k]);
                    }
                }
                assert(self@ =~= old(self)@.insert(id, key)) by {
                    assert forall|x: usize| #![auto] self@.dom().contains(x) && x != id implies t[self.pos@[x as int] as int]
                        == t0[self.pos@[x as int] as int] by {
                        assert(self.pos@[x as int] != p);
                    }
                }
            }
            if entry_lt_exec((key, id), old_entry) {
                proof {
                    let t = self.tree@;
                    assert forall|j: int| 0 < j < t.len() && j != p implies entry_le(
                        t[parent(j)],
                        #[trigger] t[j],
                    ) by {
                        assert(t[j] == t0[j]);
                        assert(entry_le(t0[parent(j)], t0[j]));
                    }
                    if p > 0 {
                        assert forall|j: int| 0 < j < t.len() && parent(j) == p implies entry_le(
                            t[parent(p as int)],
                            #[trigger] t[j],
                        ) by {
                            assert(entry_le(t0[parent(p as int)], t0[p as int]));
                            assert(entry_le(t0[p as int], t0[j]));
                        }
                    }
                }
                self.sift_up(p);
            } else {
                proof {
                    let t = self.tree@;
                    assert forall|j: int| 0 < j < t.len() && parent(j) != p implies entry_le(
                        t[parent(j)],
                        #[trigger] t[j],
                    ) by {
                        if j != p {
                            assert(t[j] == t0[j]);
                        } else {
                            assert(entry_le(t0[parent(j)], t0[j]));
                        }
                        assert(entry_le(t0[parent(j)], t0[j]));
                    }
                    if p > 0 {
                        assert forall|j: int| 0 < j < t.len() && parent(j) == p implies entry_le(
                            t[parent(p as int)],
                            #[trigger] t[j],
                        ) by {
                            assert(entry_le(t0[parent(p as int)], t0[p as int]));
                            assert(entry_le(t0[p as int], t0[j]));
                        }
                    }
                }
                self.sift_down(p);
            }
        }
    }

    /// Withdraw the entry at tree slot `p`.
    fn remove_slot(&mut self, p: usize)
        requires
            old(self).wf(),
            p < old(self).tree@.len(),
        ensures
            final(self).wf(),
            final(self).capacity() == old(self).capacity(),
            final(self)@ == old(self)@.remove(old(self).tree@[p as int].1),
    {
        let ghost t0 = self.tree@;
        let ghost p0 = self.pos@;
        let removed = self.tree[p];
        let last = self.tree.pop().unwrap();
        let n = self.tree.len();
        self.pos.set(removed.1, INVALID);
        if p == n {
            proof {
                let t = self.tree@;
                let ps = self.pos@;
                assert forall|k: int| 0 <= k < t.len() implies (#[trigger] t[k]).1 < ps.len() && ps[t[k].1 as int]
                    == k by {
                    assert(t[k] == t0[k]);
                    assert(p0[t0[k].1 as int] == k);
                }
                assert forall|x: int| 0 <= x < ps.len() && #[trigger] ps[x] != INVALID implies ps[x] < t.len()
                    && t[ps[x] as int].1 == x by {
                    assert(ps[x] == p0[x]);
                }
                assert forall|j: int| 0 < j < t.len() implies entry_le(t[parent(j)], #[trigger] t[j]) by {
                    assert(t[j] == t0[j]);
                    assert(entry_le(t0[parent(j)], t0[j]));
                }
                assert(entries_of(t, ps) =~= entries_of(t0, p0).remove(removed.1)) by {
                    assert forall|x: usize| #![auto] entries_of(t0, p0).dom().contains(x) && x != removed.1 implies entries_of(
                        t,
                        ps,
                    ).dom().contains(x) && t[ps[x as int] as int] == t0[p0[x as int] as int] by {
                        assert(ps[x as int] == p0[x as int]);
                    }
                }
            }
        } else {
            self.tree.set(p, last);
            self.pos.set(last.1, p);
            proof {
                let t = self.tree@;
                let ps = self.pos@;
                assert(last == t0[n as int]);
                assert(last.1 != removed.1) by {
                    assert(p0[last.1 as int] == n);
                    assert(p0[removed.1 as int] == p);
                }
                assert forall|k: int| 0 <= k < t.len() implies (#[trigger] t[k]).1 < ps.len() && ps[t[k].1 as int]
                    == k by {
                    if k != p {
                        assert(t[k] == t0[k]);
                        assert(p0[t0[k].1 as int] == k);
                    }
                }
                assert forall|x: int| 0 <= x < ps.len() && #[trigger] ps[x] != INVALID implies ps[x] < t.len()
                    && t[ps[x] as int].1 == x by {
                    if x != last.1 && x != removed.1 {
                        assert(ps[x] == p0[x]);
                        assert(p0[x] != n && p0[x] != p);
                    }
                }
                assert(entries_of(t, ps) =~= entries_of(t0, p0).remove(removed.1)) by {
                    assert forall|x: usize| #![auto] entries_of(t0, p0).dom().contains(x) && x != removed.1 implies entries_of(
                        t,
                        ps,
                    ).dom().contains(x) && t[ps[x as int] as int] == t0[p0[x as int] as int] by {
                        if x != last.1 {
                            assert(ps[x as int] == p0[x as int]);
                        }
                    }
                    assert forall|x: usize| #![auto] entries_of(t, ps).dom().contains(x) implies entries_of(
                        t0,
                        p0,
                    ).dom().contains(x) && x != removed.1 by {
                        if x != last.1 {
                            assert(ps[x as int] == p0[x as int]);
                        }
                    }
                }
            }
            if entry_lt_exec(last, removed) {
                proof {
                    let t = self.tree@;
                    assert forall|j: int| 0 < j < t.len() && j != p implies entry_le(
                        t[parent(j)],
                        #[trigger] t[j],
                    ) by {
                        assert(t[j] == t0[j]);
                        assert(entry_le(t0[parent(j)], t0[j]));
                    }
                    if p > 0 {
                        assert forall|j: int| 0 < j < t.len() && parent(j) == p implies entry_le(
                            t[parent(p as int)],
                            #[trigger] t[j],
                        ) by {
                            assert(entry_le(t0[parent(p as int)], t0[p as int]));
                            assert(t[j] == t0[j]);
                            assert(entry_le(t0[p as int], t0[j]));
                        }
                    }
                }
                self.sift_up(p);
            } else {
                proof {
                    let t = self.tree@;
                    assert(entry_le(removed, last));
                    assert forall|j: int| 0 < j < t.len() && parent(j) != p implies entry_le(
                        t[parent(j)],
                        #[trigger] t[j],
                    ) by {
                        if j != p {
                            assert(t[j] == t0[j]);
                        }
                        assert(entry_le(t0[parent(j)], t0[j]));
                    }
                    if p > 0 {
                        assert forall|j: int| 0 < j < t.len() && parent(j) == p implies entry_le(
                            t[parent(p as int)],
                            #[trigger] t[j],
                        ) by {
                            assert(entry_le(t0[parent(p as int)], t0[p as int]));
                            assert(t[j] == t0[j]);
                            assert(entry_le(t0[p as int], t0[j]));
                        }
                    }
                }
                self.sift_down(p);
            }
        }
    }

    /// Withdraw the entry of `id`, if it has one.
    pub fn remove(&mut self, id: usize)
        requires
            old(self).wf(),
        ensures
            final(self).wf(),
            final(self).capacity() == old(self).capacity(),
            final(self)@ == old(self)@.remove(id),
    {
        if id < self.pos.len() {
            let p = self.pos[id];
            if p != INVALID {
                self.remove_slot(p);
                return;
            }
        }
        assert(self@ =~= old(self)@.remove(id));
    }

    /// Take out the entry that comes first in `(key, id)` order, if any.
    pub fn pop_min(&mut self) -> (min: Option<(u64, usize)>)
        requires
            old(self).wf(),
        ensures
            final(self).wf(),
            final(self).capacity() == old(self).capacity(),
            match min {
                None => old(self)@ == Map::<usize, u64>::empty() && final(self)@ == old(self)@,
                Some(e) => is_least_entry(old(self)@, e) && final(self)@ == old(self)@.remove(e.1),
            },
            min matches Some(e) ==> forall|other: usize| #[trigger]
                old(self)@.dom().contains(other) ==> (e.0 as int) <= (old(self)@[other] as int),
    {
        if self.tree.len() == 0 {
            assert(self@ =~= Map::<usize, u64>::empty());
            return None;
        }
        let top = self.tree[0];
        proof {
            let t = self.tree@;
            let ps = self.pos@;
            assert(ps[top.1 as int] == 0);
            assert forall|other: usize| #[trigger] self@.dom().contains(other) implies entry_le(
                top,
                (self@[other], other),
            ) by {
                let k = ps[other as int] as int;
                lemma_root_is_least(t, k);
            }
        }
        proof {
            lemma_least_entry_is_numeric_min(self@, top);
        }
        self.remove_slot(0);
        Some(top)
    }
}

/// Executable form of [`entry_lt`]: `a` leaves before `b` when its key is a
/// smaller number, or the keys are equal and its id is smaller.
fn entry_lt_exec(a: (u64, usize), b: (u64, usize)) -> (r: bool)
    ensures
        r == entry_lt(a, b),
        r <==> (a.0 as int) < (b.0 as int) || ((a.0 as int) == (b.0 as int) && (a.1 as int) < (b.1 as int)),
{
    a.0 < b.0 || (a.0 == b.0 && a.1 < b.1)
}

} // verus!
