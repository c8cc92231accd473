use crumble::math::{
    aabb, aabb_aligned_edges, aabb_clamp, aabb_contains, aabb_intersect, aabb_p0p1,
    aabb_share_edge, aabb_touch, is_valid_shape,
};
use crumble::{Frac, F2, F4, SCALE};

fn fr(num: i64, den: i64) -> Frac {
    Frac::new(num, den).unwrap()
}

fn rect(x: (i64, i64), y: (i64, i64), w: (i64, i64), h: (i64, i64)) -> F4 {
    F4::new(fr(x.0, x.1), fr(y.0, y.1), fr(w.0, w.1), fr(h.0, h.1))
}

fn unit_square(x: (i64, i64), y: (i64, i64), side: (i64, i64)) -> F4 {
    rect(x, y, side, side)
}

#[test]
fn frac_new_is_exact_or_nothing() {
    assert_eq!(fr(1, 6).units, SCALE / 6);
    assert_eq!(fr(0, 1).units, 0);
    assert_eq!(fr(1, 2).units, SCALE / 2);
    assert_eq!(fr(-1, 3).units, -(SCALE / 3));
    // Sign normalises over the pair.
    assert_eq!(Frac::new(1, -2), Frac::new(-1, 2));
    // A zero denominator names no number.
    assert_eq!(Frac::new(1, 0), None);
    // One seventh is not a multiple of 1 / SCALE and is refused, not
    // rounded.
    assert_eq!(Frac::new(1, 7), None);
}

#[test]
fn frac_arithmetic_and_order() {
    assert_eq!(fr(1, 6).add(fr(1, 6)), fr(1, 3));
    assert_eq!(fr(1, 2).sub(fr(1, 3)), fr(1, 6));
    assert!(fr(1, 6).lt(fr(1, 3)));
    assert!(fr(1, 3).le(fr(1, 3)));
    assert!(!fr(1, 2).le(fr(1, 3)));
}

#[test]
fn corners_size_and_area() {
    let r = rect((1, 6), (1, 3), (1, 6), (1, 12));
    assert_eq!(r.p0(), F2::new(fr(1, 6), fr(1, 3)));
    assert_eq!(r.p1(), F2::new(fr(1, 3), fr(5, 12)));
    assert_eq!(r.p10(), F2::new(fr(1, 3), fr(1, 3)));
    assert_eq!(r.p01(), F2::new(fr(1, 6), fr(5, 12)));
    assert_eq!(r.size(), F2::new(fr(1, 6), fr(1, 12)));
    let square = unit_square((0, 1), (0, 1), (1, 6));
    assert_eq!(square.area(), rect((1, 2), (1, 2), (1, 12), (1, 3)).area());
}

#[test]
fn intersection_is_strictly_open() {
    let left = unit_square((0, 1), (0, 1), (1, 6));
    let right_touching = unit_square((1, 6), (0, 1), (1, 6));
    let overlapping = unit_square((1, 12), (0, 1), (1, 6));
    let far = unit_square((1, 2), (1, 2), (1, 6));
    assert!(!aabb_intersect(left, right_touching));
    assert!(aabb_intersect(left, overlapping));
    assert!(!aabb_intersect(left, far));
    // A zero-width path still cuts through an interior.
    let line = rect((1, 12), (0, 1), (0, 1), (1, 6));
    assert!(aabb_intersect(left, line));
}

#[test]
fn containment_is_half_open() {
    let r = unit_square((0, 1), (0, 1), (1, 6));
    assert!(aabb_contains(r, F2::new(fr(0, 1), fr(0, 1))));
    assert!(aabb_contains(r, F2::new(fr(1, 12), fr(1, 12))));
    assert!(!aabb_contains(r, F2::new(fr(1, 6), fr(1, 12))));
    assert!(!aabb_contains(r, F2::new(fr(1, 12), fr(1, 6))));
}

#[test]
fn touch_means_adjacent_or_overlapping() {
    let base = unit_square((0, 1), (0, 1), (1, 6));
    let side = unit_square((1, 6), (0, 1), (1, 6));
    let corner = unit_square((1, 6), (1, 6), (1, 6));
    let apart = unit_square((1, 2), (0, 1), (1, 6));
    let overlap = unit_square((1, 12), (0, 1), (1, 6));
    assert!(aabb_touch(base, side));
    assert!(aabb_touch(base, corner));
    assert!(aabb_touch(base, overlap));
    assert!(!aabb_touch(base, apart));
}

#[test]
fn aligned_edges_counts_per_axis_pairings() {
    let base = unit_square((0, 1), (0, 1), (1, 6));
    // Side-by-side equal squares: one x pairing, two y pairings.
    assert_eq!(aabb_aligned_edges(base, unit_square((1, 6), (0, 1), (1, 6))), 3);
    // Corner-to-corner: one pairing on each axis.
    assert_eq!(aabb_aligned_edges(base, unit_square((1, 6), (1, 6), (1, 6))), 2);
    // The same rectangle twice: both pairings on both axes.
    assert_eq!(aabb_aligned_edges(base, base), 4);
    // Same row far apart: only the two y pairings.
    assert_eq!(aabb_aligned_edges(base, unit_square((1, 2), (0, 1), (1, 6))), 2);
}

#[test]
fn share_edge_is_exactly_three_aligned() {
    let base = unit_square((0, 1), (0, 1), (1, 6));
    assert!(aabb_share_edge(base, unit_square((1, 6), (0, 1), (1, 6))));
    assert!(aabb_share_edge(base, unit_square((0, 1), (1, 6), (1, 6))));
    assert!(!aabb_share_edge(base, unit_square((1, 6), (1, 6), (1, 6))));
    assert!(!aabb_share_edge(base, unit_square((1, 2), (0, 1), (1, 6))));
}

#[test]
fn valid_shapes_are_squares_and_two_to_one() {
    assert!(is_valid_shape(rect((0, 1), (0, 1), (1, 6), (1, 6))));
    assert!(is_valid_shape(rect((0, 1), (0, 1), (1, 3), (1, 6))));
    assert!(is_valid_shape(rect((0, 1), (0, 1), (1, 6), (1, 3))));
    assert!(!is_valid_shape(rect((0, 1), (0, 1), (1, 2), (1, 6))));
    assert!(!is_valid_shape(rect((0, 1), (0, 1), (0, 1), (0, 1))));
    assert!(!is_valid_shape(rect((0, 1), (0, 1), (1, 6), (0, 1))));
}

#[test]
fn bounding_box_covers_all_rectangles() {
    let rects = vec![
        unit_square((0, 1), (1, 6), (1, 6)),
        unit_square((1, 3), (0, 1), (1, 6)),
    ];
    let bb = aabb(&rects);
    assert_eq!(bb, rect((0, 1), (0, 1), (1, 2), (1, 3)));
    let single = vec![unit_square((1, 6), (1, 6), (1, 6))];
    assert_eq!(aabb(&single), single[0]);
}

#[test]
fn clamp_yields_the_common_subrectangle() {
    let a = rect((0, 1), (0, 1), (1, 2), (1, 2));
    let b = rect((1, 4), (1, 4), (1, 2), (1, 2));
    assert_eq!(aabb_clamp(a, b), rect((1, 4), (1, 4), (1, 4), (1, 4)));
    // Clamping inside a larger box returns the source unchanged.
    let inner = rect((1, 6), (1, 6), (1, 6), (1, 6));
    let outer = rect((0, 1), (0, 1), (1, 1), (1, 1));
    assert_eq!(aabb_clamp(inner, outer), inner);
}

#[test]
fn p0p1_rebuilds_from_corners() {
    let r = rect((1, 6), (1, 3), (1, 6), (1, 12));
    assert_eq!(aabb_p0p1(r.p0(), r.p1()), r);
}
