use curve_fit_nd::span::{
    corner_index_range, corner_neighbours, inflection_split_filter, knot_span_length,
    knot_step_next_wrap, span_index_to_global, span_interior, INVALID,
};

#[test]
fn step_next_wrap_advances_and_wraps() {
    let mut k = 2;
    knot_step_next_wrap(&mut k, 3);
    assert_eq!(k, 3);
    knot_step_next_wrap(&mut k, 3);
    assert_eq!(k, 0);
}

#[test]
fn span_length_without_wrap() {
    assert_eq!(knot_span_length(2, 5, 10), 4);
    assert_eq!(knot_span_length(4, 4, 10), 1);
}

#[test]
fn span_length_with_wrap() {
    // 8, 9, 0, 1
    assert_eq!(knot_span_length(8, 1, 10), 4);
}

#[test]
fn span_lengths_cover_ring() {
    let n = 7;
    for a in 0..n {
        for b in 0..n {
            if a != b {
                assert_eq!(knot_span_length(a, b, n) + knot_span_length(b, a, n), n + 2);
            }
        }
    }
}

#[test]
fn span_interior_plain() {
    assert_eq!(span_interior(2, 5, 10), vec![3, 4]);
    assert_eq!(span_interior(2, 3, 10), Vec::<usize>::new());
}

#[test]
fn span_interior_wraps() {
    assert_eq!(span_interior(8, 1, 10), vec![9, 0]);
}

#[test]
fn span_interior_full_turn() {
    assert_eq!(span_interior(3, 3, 5), vec![4, 0, 1, 2]);
}

#[test]
fn span_interior_matches_step_walk() {
    let n = 6;
    for l in 0..n {
        for r in 0..n {
            let v = span_interior(l, r, n);
            let mut k = l;
            let mut walked = Vec::new();
            loop {
                knot_step_next_wrap(&mut k, n - 1);
                if k == r {
                    break;
                }
                walked.push(k);
            }
            assert_eq!(v, walked);
            if l != r {
                assert_eq!(v.len() + 2, knot_span_length(l, r, n));
            }
        }
    }
}

#[test]
fn span_index_to_global_wraps() {
    assert_eq!(span_index_to_global(1, 4, 10), 5);
    assert_eq!(span_index_to_global(3, 8, 10), 1);
    assert_eq!(span_index_to_global(2, 8, 10), 0);
}

#[test]
fn inflection_filter_keeps_inner_points() {
    assert_eq!(inflection_split_filter(5, 0, 10, 20), 5);
    assert_eq!(inflection_split_filter(3, 0, 6, 20), 3);
}

#[test]
fn inflection_filter_rejects_points_near_ends() {
    assert_eq!(inflection_split_filter(2, 0, 10, 20), INVALID);
    assert_eq!(inflection_split_filter(8, 0, 10, 20), INVALID);
    assert_eq!(inflection_split_filter(INVALID, 0, 10, 20), INVALID);
}

#[test]
fn inflection_filter_wraps() {
    // span 18 .. 6 around a ring of 20: 1 is 3 after 18 and 5 before 6
    assert_eq!(inflection_split_filter(1, 18, 6, 20), 1);
    assert_eq!(inflection_split_filter(19, 18, 6, 20), INVALID);
}

#[test]
fn corner_neighbours_open_curve() {
    assert_eq!(corner_neighbours(3, 9, false), (2, 4));
}

#[test]
fn corner_neighbours_closed_curve_wraps() {
    assert_eq!(corner_neighbours(0, 9, true), (9, 1));
    assert_eq!(corner_neighbours(9, 9, true), (8, 0));
}

#[test]
fn corner_index_range_skips_ends_of_open_curve() {
    assert_eq!(corner_index_range(5, false), (1, 4));
    assert_eq!(corner_index_range(0, false), (1, 0));
    assert_eq!(corner_index_range(5, true), (0, 5));
}

#[test]
fn stepping_m_times_lands_at_offset_modulo_ring() {
    let knots_end = 4;
    for k0 in 0..=knots_end {
        let mut k = k0;
        for m in 1..=12 {
            knot_step_next_wrap(&mut k, knots_end);
            assert_eq!(k, (k0 + m) % (knots_end + 1));
        }
    }
}
