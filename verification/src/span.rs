//! Arithmetic on index ranges of a cyclic point array.

use vstd::prelude::*;

verus! {

/// Marker for "no index" (the end of an open chain, or no split point found).
pub const INVALID: usize = usize::MAX;

/// Number of steps needed to walk from `index_l` forward to `index_r`,
/// wrapping around after `points_len - 1`.
pub open spec fn cyclic_distance(index_l: int, index_r: int, points_len: int) -> int {
    if index_l <= index_r {
        index_r - index_l
    } else {
        index_r + points_len - index_l
    }
}

/// The index that follows `i` in a ring of `len` indices.
pub open spec fn wrap_next(i: int, len: int) -> int {
    if i + 1 >= len {
        0
    } else {
        i + 1
    }
}

/// Where a walk starting at `start` stands after `steps` forward steps
/// in a ring of `len` indices.
pub open spec fn walk_forward(start: int, steps: nat, len: int) -> int
    decreases steps,
{
    if steps == 0 {
        start
    } else {
        wrap_next(walk_forward(start, (steps - 1) as nat, len), len)
    }
}

/// Advance a knot index to the next knot of the array, wrapping at the end.
///
/// `knots_end` is the index of the last knot, so the ring holds
/// `knots_end + 1` knots.
pub fn knot_step_next_wrap(k_step: &mut usize, knots_end: usize)
    requires
        *old(k_step) != knots_end ==> *old(k_step) < usize::MAX,
    ensures
        *final(k_step) == (if *old(k_step) != knots_end {
            *old(k_step) + 1
        } else {
            0
        }),
        *old(k_step) <= knots_end ==> *final(k_step) == wrap_next(
            *old(k_step) as int,
            knots_end + 1,
        ),
{
    if *k_step != knots_end {
        *k_step += 1;
    } else {
        // Wrap around.
        *k_step = 0;
    }
}

/// Number of points from `index_l` to `index_r` inclusive, walking forward
/// and wrapping around when `index_l > index_r`.
pub fn knot_span_length(index_l: usize, index_r: usize, points_len: usize) -> (len: usize)
    requires
        index_l <= index_r ==> index_r - index_l < usize::MAX,
        index_l > index_r ==> index_r + points_len - index_l < usize::MAX,
        index_l > index_r ==> index_r + points_len <= usize::MAX,
        index_l > index_r ==> index_l <= index_r + points_len,
    ensures
        len == cyclic_distance(index_l as int, index_r as int, points_len as int) + 1,
{
    (if index_l <= index_r {
        index_r - index_l
    } else {
        (index_r + points_len) - index_l
    }) + 1
}

/// The index `offset` steps after `start` in a ring of `len` indices
/// (for `start < len` and `offset < len`).
pub open spec fn ring_offset(start: int, offset: int, len: int) -> int {
    if start + offset < len {
        start + offset
    } else {
        start + offset - len
    }
}

/// Number of indices strictly inside the forward walk from `index_l` to
/// `index_r`; when the two are equal the walk goes once around the ring.
pub open spec fn interior_len(index_l: int, index_r: int, points_len: int) -> int {
    if index_l == index_r {
        points_len - 1
    } else {
        cyclic_distance(index_l, index_r, points_len) - 1
    }
}

/// The indices strictly between `index_l` and `index_r`, in the order a
/// forward walk around the ring of `points_len` points visits them, stepping
/// with [`knot_step_next_wrap`].  When `index_l == index_r` the walk goes
/// once around the ring.
pub fn span_interior(index_l: usize, index_r: usize, points_len: usize) -> (v: Vec<usize>)
    requires
        index_l < points_len,
        index_r < points_len,
        points_len < usize::MAX,
    ensures
        v@.len() == interior_len(index_l as int, index_r as int, points_len as int),
        forall|k: int|
            0 <= k < v@.len() ==> #[trigger] v@[k] == ring_offset(
                index_l as int,
                k + 1,
                points_len as int,
            ),
{
    let ghost total = if index_l == index_r {
        points_len as int
    } else {
        cyclic_distance(index_l as int, index_r as int, points_len as int)
    };
    let knots_end = points_len - 1;
    let mut v: Vec<usize> = Vec::new();
    let mut i = index_l;
    let ghost mut c: int = 0;
    loop
        invariant_except_break
            i == ring_offset(index_l as int, c, points_len as int),
        invariant
            index_l < points_len,
            index_r < points_len,
            knots_end == points_len - 1,
            0 < total <= points_len,
            total == (if index_l == index_r {
                points_len as int
            } else {
                cyclic_distance(index_l as int, index_r as int, points_len as int)
            }),
            0 <= c < total,
            v@.len() == c,
            forall|k: int|
                0 <= k < c ==> #[trigger] v@[k] == ring_offset(
                    index_l as int,
                    k + 1,
                    points_len as int,
                ),
        ensures
            v@.len() == total - 1,
            forall|k: int|
                0 <= k < v@.len() ==> #[trigger] v@[k] == ring_offset(
                    index_l as int,
                    k + 1,
                    points_len as int,
                ),
        decreases total - c,
    {
        knot_step_next_wrap(&mut i, knots_end);
        if i == index_r {
            break;
        }
        v.push(i);
        proof {
            c = c + 1;
        }
    }
    v
}

/// Map an index into the points of a span that starts at `index_l` back to
/// an index of the whole ring, wrapping past the end.
pub fn span_index_to_global(local: usize, index_l: usize, points_len: usize) -> (global: usize)
    requires
        local < points_len,
        index_l < points_len,
        points_len < usize::MAX / 2,
    ensures
        global == ring_offset(index_l as int, local as int, points_len as int),
        global < points_len,
{
    let mut global = local + index_l;
    if global >= points_len {
        global -= points_len;
    }
    global
}

/// Keep an inflection split point only when it lies at least three points
/// away from both ends of its span; otherwise give `INVALID`.
pub fn inflection_split_filter(
    split_point: usize,
    index_l: usize,
    index_r: usize,
    points_len: usize,
) -> (kept: usize)
    requires
        index_l < points_len,
        index_r < points_len,
        split_point == INVALID || split_point < points_len,
        points_len < usize::MAX / 2,
    ensures
        kept == (if split_point == INVALID || cyclic_distance(
            index_l as int,
            split_point as int,
            points_len as int,
        ) < 3 || cyclic_distance(split_point as int, index_r as int, points_len as int) < 3 {
            INVALID
        } else {
            split_point
        }),
{
    if split_point != INVALID {
        let dist_from_l = if split_point >= index_l {
            split_point - index_l
        } else {
            split_point + points_len - index_l
        };
        let dist_from_r = if index_r >= split_point {
            index_r - split_point
        } else {
            index_r + points_len - split_point
        };
        if dist_from_l < 3 || dist_from_r < 3 {
            return INVALID;
        }
    }
    split_point
}

/// The neighbours of the point `i_curr` that a pre-defined corner takes its
/// two tangents from; on a closed curve they wrap around the ends.
pub fn corner_neighbours(i_curr: usize, knots_end: usize, is_cyclic: bool) -> (pair: (usize, usize))
    requires
        i_curr <= knots_end < usize::MAX,
        !is_cyclic ==> 0 < i_curr < knots_end,
    ensures
        pair.0 == (if is_cyclic && i_curr == 0 {
            knots_end as int
        } else {
            i_curr - 1
        }),
        pair.1 == (if is_cyclic && i_curr == knots_end {
            0
        } else {
            i_curr + 1
        }),
        is_cyclic ==> pair.0 as int == ring_offset(i_curr as int, knots_end as int, knots_end + 1)
            && pair.1 as int == wrap_next(i_curr as int, knots_end + 1),
{
    let i_prev = if is_cyclic && i_curr == 0 {
        knots_end
    } else {
        i_curr - 1
    };
    let i_next = if is_cyclic && i_curr == knots_end {
        0
    } else {
        i_curr + 1
    };
    (i_prev, i_next)
}

/// The positions in a list of `corners_len` pre-defined corners that are
/// turned into corners: all of them on a closed curve, all but the first and
/// the last on an open one (those are its end points).
pub fn corner_index_range(corners_len: usize, is_cyclic: bool) -> (range: (usize, usize))
    ensures
        range.0 == (if is_cyclic {
            0int
        } else {
            1
        }),
        range.1 == (if is_cyclic {
            corners_len as int
        } else if corners_len == 0 {
            0
        } else {
            corners_len - 1
        }),
{
    let start = if is_cyclic {
        0
    } else {
        1
    };
    let end = if is_cyclic {
        corners_len
    } else {
        corners_len.saturating_sub(1)
    };
    (start, end)
}

/// Walking forward `offset` steps (fewer than a full turn) from `start` stands
/// at `ring_offset(start, offset, len)`.
pub proof fn lemma_walk_forward_offset(start: int, offset: nat, len: int)
    requires
        0 <= start < len,
        offset < len,
    ensures
        walk_forward(start, offset, len) == ring_offset(start, offset as int, len),
    decreases offset,
{
    if offset > 0 {
        lemma_walk_forward_offset(start, (offset - 1) as nat, len);
    }
}

/// Stepping forward `steps` times from `start` in a ring of `len` indices
/// stands at `(start + steps) mod len`, for any number of steps: a walk is
/// back at its start exactly after whole turns.
pub proof fn lemma_walk_forward_mod(start: int, steps: nat, len: int)
    requires
        0 <= start < len,
    ensures
        walk_forward(start, steps, len) == (start + steps) % len,
    decreases steps,
{
    if steps == 0 {
        vstd::arithmetic::div_mod::lemma_fundamental_div_mod_converse(start, len, 0, start);
    } else {
        lemma_walk_forward_mod(start, (steps - 1) as nat, len);
        let x = start + steps - 1;
        let q = x / len;
        let r = x % len;
        vstd::arithmetic::div_mod::lemma_fundamental_div_mod(x, len);
        assert(0 <= r < len) by {
            vstd::arithmetic::div_mod::lemma_mod_bound(x, len);
        }
        assert(x == q * len + r) by {
            vstd::arithmetic::mul::lemma_mul_is_commutative(q, len);
        }
        if r + 1 < len {
            vstd::arithmetic::div_mod::lemma_fundamental_div_mod_converse(x + 1, len, q, r + 1);
        } else {
            assert(x + 1 == (q + 1) * len + 0) by {
                vstd::arithmetic::mul::lemma_mul_is_distributive_add_other_way(len, q, 1);
            }
            vstd::arithmetic::div_mod::lemma_fundamental_div_mod_converse(x + 1, len, q + 1, 0);
        }
    }
}

/// Stepping with [`knot_step_next_wrap`] from `index_l`, the point `index_r`
/// is reached after one step less than [`knot_span_length`] counts points.
pub proof fn lemma_span_length_walk(index_l: int, index_r: int, points_len: int)
    requires
        0 <= index_l < points_len,
        0 <= index_r < points_len,
    ensures
        walk_forward(
            index_l,
            cyclic_distance(index_l, index_r, points_len) as nat,
            points_len,
        ) == index_r,
{
    lemma_walk_forward_offset(index_l, cyclic_distance(index_l, index_r, points_len) as nat, points_len);
}

/// The span from `index_l` to `index_r` holds its two ends and the points
/// strictly inside it: [`knot_span_length`] is two more than
/// [`span_interior`] lists, for distinct ends.
pub proof fn lemma_span_length_interior(index_l: int, index_r: int, points_len: int)
    requires
        0 <= index_l < points_len,
        0 <= index_r < points_len,
        index_l != index_r,
    ensures
        cyclic_distance(index_l, index_r, points_len) + 1 == interior_len(
            index_l,
            index_r,
            points_len,
        ) + 2,
{
}

/// The spans from `a` to `b` and from `b` to `a` cover the ring, sharing only
/// their two ends.
pub proof fn lemma_span_lengths_complement(a: int, b: int, points_len: int)
    requires
        0 <= a < points_len,
        0 <= b < points_len,
        a != b,
    ensures
        (cyclic_distance(a, b, points_len) + 1) + (cyclic_distance(b, a, points_len) + 1)
            == points_len + 2,
{
}

} // verus!
