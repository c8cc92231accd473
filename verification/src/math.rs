//! Exact rectangle geometry.
//!
//! A rectangle ([`F4`]) is stored as `(x, y, width, height)`: the
//! position of its upper-left corner plus its extents, never a second
//! corner.  All tests are exact comparisons of scalar unit counts, so a
//! rectangle that merely touches another along an edge is never
//! mistaken for an overlapping one and vice versa.

use vstd::prelude::*;
use crate::frac::{Frac, scalar_in_range, RANGE};

verus! {

/// A point: an ordered pair of scalars.
#[derive(Clone, Copy, PartialEq, Eq, Structural, Debug)]
pub struct F2 {
    pub x: Frac,
    pub y: Frac,
}

/// An axis-aligned box: upper-left corner `(x, y)` plus extents
/// `(w, h)`.
#[derive(Clone, Copy, PartialEq, Eq, Structural, Debug)]
pub struct F4 {
    pub x: Frac,
    pub y: Frac,
    pub w: Frac,
    pub h: Frac,
}

/// An exact area: `units2 / SCALE^2`.  Kept as its own type because the
/// product of two scalars needs a finer denominator than the scalars
/// themselves.
#[derive(Clone, Copy, PartialEq, Eq, Structural, Debug)]
pub struct Area {
    pub(crate) units2: i128,
}

impl View for Area {
    type V = int;

    closed spec fn view(&self) -> int {
        self.units2 as int
    }
}

/// Left edge coordinate, in units.
pub open spec fn x0(r: F4) -> int {
    r.x@
}

/// Right edge coordinate, in units.
pub open spec fn x1(r: F4) -> int {
    r.x@ + r.w@
}

/// Top edge coordinate, in units.
pub open spec fn y0(r: F4) -> int {
    r.y@
}

/// Bottom edge coordinate, in units.
pub open spec fn y1(r: F4) -> int {
    r.y@ + r.h@
}

/// All four stored scalars within the accepted input range.
pub open spec fn in_range4(r: F4) -> bool {
    scalar_in_range(r.x) && scalar_in_range(r.y) && scalar_in_range(r.w) && scalar_in_range(r.h)
}

/// Both coordinates of a point within the accepted input range.
pub open spec fn in_range2(p: F2) -> bool {
    scalar_in_range(p.x) && scalar_in_range(p.y)
}

/// Strict open intersection: the rectangles overlap with positive area.
pub open spec fn spec_intersect(a: F4, b: F4) -> bool {
    x0(a) < x1(b) && y0(a) < y1(b) && x0(b) < x1(a) && y0(b) < y1(a)
}

/// Half-open containment: `p.x` in `[x0, x1)` and `p.y` in `[y0, y1)`.
pub open spec fn spec_contains(r: F4, p: F2) -> bool {
    p.x@ >= x0(r) && p.y@ >= y0(r) && p.x@ < x1(r) && p.y@ < y1(r)
}

/// Closed intersection: the rectangles share at least one point, that
/// is, they overlap or are adjacent along an edge or a corner.
pub open spec fn spec_touch(a: F4, b: F4) -> bool {
    x0(a) <= x1(b) && y0(a) <= y1(b) && x0(b) <= x1(a) && y0(b) <= y1(a)
}

/// How many edge coordinates of `a` equal an edge coordinate of `b` on
/// the same axis, each of the two-by-two pairings counted separately.
pub open spec fn spec_aligned(a: F4, b: F4) -> int {
    (if x0(a) == x0(b) { 1int } else { 0 }) + (if x0(a) == x1(b) { 1int } else { 0 })
        + (if x1(a) == x0(b) { 1int } else { 0 }) + (if x1(a) == x1(b) { 1int } else { 0 })
        + (if y0(a) == y0(b) { 1int } else { 0 }) + (if y0(a) == y1(b) { 1int } else { 0 })
        + (if y1(a) == y0(b) { 1int } else { 0 }) + (if y1(a) == y1(b) { 1int } else { 0 })
}

/// A legal piece shape: positive extents forming a square, or a
/// rectangle of ratio exactly two to one either way.
pub open spec fn spec_valid_shape(r: F4) -> bool {
    r.w@ > 0 && r.h@ > 0 && (r.w@ == r.h@ || r.w@ == 2 * r.h@ || r.h@ == 2 * r.w@)
}

/// `inner` lies within `outer`, edges included.
pub open spec fn spec_within(inner: F4, outer: F4) -> bool {
    x0(outer) <= x0(inner) && x1(inner) <= x1(outer) && y0(outer) <= y0(inner) && y1(inner)
        <= y1(outer)
}

impl F2 {
    pub fn new(x: Frac, y: Frac) -> (r: F2)
        ensures
            r == (F2 { x, y }),
    {
        F2 { x, y }
    }
}

impl F4 {
    pub fn new(x: Frac, y: Frac, w: Frac, h: Frac) -> (r: F4)
        ensures
            r == (F4 { x, y, w, h }),
    {
        F4 { x, y, w, h }
    }

    /// Upper-left corner.
    pub fn p0(&self) -> (p: F2)
        ensures
            p.x@ == x0(*self) && p.y@ == y0(*self),
    {
        F2 { x: self.x, y: self.y }
    }

    /// Lower-right corner.
    pub fn p1(&self) -> (p: F2)
        requires
            in_range4(*self),
        ensures
            p.x@ == x1(*self) && p.y@ == y1(*self),
    {
        F2 { x: self.x.add(self.w), y: self.y.add(self.h) }
    }

    /// Upper-right corner.
    pub fn p10(&self) -> (p: F2)
        requires
            in_range4(*self),
        ensures
            p.x@ == x1(*self) && p.y@ == y0(*self),
    {
        F2 { x: self.x.add(self.w), y: self.y }
    }

    /// Lower-left corner.
    pub fn p01(&self) -> (p: F2)
        requires
            in_range4(*self),
        ensures
            p.x@ == x0(*self) && p.y@ == y1(*self),
    {
        F2 { x: self.x, y: self.y.add(self.h) }
    }

    /// The extents as a point-like pair.
    pub fn size(&self) -> (p: F2)
        ensures
            p.x == self.w && p.y == self.h,
    {
        F2 { x: self.w, y: self.h }
    }

    /// Exact area, `width * height`.
    pub fn area(&self) -> (a: Area)
        ensures
            a@ == self.w@ * self.h@,
    {
        let w: i128 = self.w.units as i128;
        let h: i128 = self.h.units as i128;
        proof {
            assert(i128::MIN <= (w as int) * (h as int) <= i128::MAX) by (nonlinear_arith)
                requires
                    -0x8000_0000_0000_0000 <= w as int <= 0x7fff_ffff_ffff_ffff,
                    -0x8000_0000_0000_0000 <= h as int <= 0x7fff_ffff_ffff_ffff,
            {}
        }
        Area { units2: w * h }
    }
}

/// Bounding-box left edge of a non-empty run of rectangles.
pub open spec fn bb_x0(rs: Seq<F4>) -> int
    decreases rs.len(),
{
    if rs.len() <= 1 {
        x0(rs[0])
    } else {
        vstd::math::min(bb_x0(rs.drop_last()), x0(rs.last()))
    }
}

/// Bounding-box top edge of a non-empty run of rectangles.
pub open spec fn bb_y0(rs: Seq<F4>) -> int
    decreases rs.len(),
{
    if rs.len() <= 1 {
        y0(rs[0])
    } else {
        vstd::math::min(bb_y0(rs.drop_last()), y0(rs.last()))
    }
}

/// Bounding-box right edge of a non-empty run of rectangles.
pub open spec fn bb_x1(rs: Seq<F4>) -> int
    decreases rs.len(),
{
    if rs.len() <= 1 {
        x1(rs[0])
    } else {
        vstd::math::max(bb_x1(rs.drop_last()), x1(rs.last()))
    }
}

/// Bounding-box bottom edge of a non-empty run of rectangles.
pub open spec fn bb_y1(rs: Seq<F4>) -> int
    decreases rs.len(),
{
    if rs.len() <= 1 {
        y1(rs[0])
    } else {
        vstd::math::max(bb_y1(rs.drop_last()), y1(rs.last()))
    }
}

/// Calculates the bounding box of the given rectangles: the
/// component-wise minimum of the upper-left corners together with the
/// component-wise maximum of the lower-right corners.
pub fn aabb(rects: &Vec<F4>) -> (r: F4)
    requires
        rects@.len() > 0,
        forall|i: int| 0 <= i < rects@.len() ==> in_range4(#[trigger] rects@[i]),
    ensures
        x0(r) == bb_x0(rects@) && y0(r) == bb_y0(rects@) && x1(r) == bb_x1(rects@) && y1(r)
            == bb_y1(rects@),
{
    let first = rects[0];
    let mut lx: i64 = first.x.units;
    let mut ty: i64 = first.y.units;
    let mut rx: i64 = first.x.units + first.w.units;
    let mut by: i64 = first.y.units + first.h.units;
    let mut i: usize = 1;
    proof {
        assert(rects@.take(1).drop_last() =~= Seq::<F4>::empty());
        assert(rects@.take(1)[0] == rects@[0]);
    }
    while i < rects.len()
        invariant
            1 <= i as int <= rects@.len(),
            forall|k: int| 0 <= k < rects@.len() ==> in_range4(#[trigger] rects@[k]),
            lx as int == bb_x0(rects@.take(i as int)),
            ty as int == bb_y0(rects@.take(i as int)),
            rx as int == bb_x1(rects@.take(i as int)),
            by as int == bb_y1(rects@.take(i as int)),
            -2 * RANGE <= lx as int <= 2 * RANGE,
            -2 * RANGE <= ty as int <= 2 * RANGE,
            -2 * RANGE <= rx as int <= 2 * RANGE,
            -2 * RANGE <= by as int <= 2 * RANGE,
        decreases rects@.len() - i as int,
    {
        let r = rects[i];
        proof {
            assert(rects@.take(i as int + 1).drop_last() =~= rects@.take(i as int));
            assert(rects@.take(i as int + 1).last() == rects@[i as int]);
        }
        let crx: i64 = r.x.units + r.w.units;
        let cby: i64 = r.y.units + r.h.units;
        if r.x.units < lx {
            lx = r.x.units;
        }
        if r.y.units < ty {
            ty = r.y.units;
        }
        if rx < crx {
            rx = crx;
        }
        if by < cby {
            by = cby;
        }
        i = i + 1;
    }
    proof {
        assert(rects@.take(rects@.len() as int) =~= rects@);
    }
    F4 {
        x: Frac { units: lx },
        y: Frac { units: ty },
        w: Frac { units: rx - lx },
        h: Frac { units: by - ty },
    }
}

/// Whether the rectangle contains the point, half-open: a point on the
/// left or top edge is inside, one on the right or bottom edge is not,
/// so every board point belongs to at most one piece even along shared
/// edges.
pub fn aabb_contains(r0: F4, point: F2) -> (r: bool)
    ensures
        r == spec_contains(r0, point),
{
    let px: i128 = point.x.units as i128;
    let py: i128 = point.y.units as i128;
    px >= r0.x.units as i128 && py >= r0.y.units as i128 && px < r0.x.units as i128
        + r0.w.units as i128 && py < r0.y.units as i128 + r0.h.units as i128
}

/// Clamps the source rectangle to the destination: the corners move to
/// the component-wise maximum of the upper-left corners and minimum of
/// the lower-right corners.  When the two overlap this is their common
/// sub-rectangle; extents may come out non-positive otherwise.
pub fn aabb_clamp(s0: F4, d0: F4) -> (r: F4)
    requires
        in_range4(s0),
        in_range4(d0),
    ensures
        x0(r) == vstd::math::max(x0(s0), x0(d0)),
        y0(r) == vstd::math::max(y0(s0), y0(d0)),
        x1(r) == vstd::math::min(x1(s0), x1(d0)),
        y1(r) == vstd::math::min(y1(s0), y1(d0)),
{
    let sx1: i64 = s0.x.units + s0.w.units;
    let sy1: i64 = s0.y.units + s0.h.units;
    let dx1: i64 = d0.x.units + d0.w.units;
    let dy1: i64 = d0.y.units + d0.h.units;
    let nx0: i64 = if s0.x.units >= d0.x.units { s0.x.units } else { d0.x.units };
    let ny0: i64 = if s0.y.units >= d0.y.units { s0.y.units } else { d0.y.units };
    let nx1: i64 = if sx1 <= dx1 { sx1 } else { dx1 };
    let ny1: i64 = if sy1 <= dy1 { sy1 } else { dy1 };
    F4 {
        x: Frac { units: nx0 },
        y: Frac { units: ny0 },
        w: Frac { units: nx1 - nx0 },
        h: Frac { units: ny1 - ny0 },
    }
}

/// Creates the box with upper-left corner `p0` and lower-right corner
/// `p1` (extents `p1 - p0`, component-wise).
pub fn aabb_p0p1(p0: F2, p1: F2) -> (r: F4)
    requires
        in_range2(p0),
        in_range2(p1),
    ensures
        x0(r) == p0.x@ && y0(r) == p0.y@ && x1(r) == p1.x@ && y1(r) == p1.y@,
{
    F4 {
        x: p0.x,
        y: p0.y,
        w: Frac { units: p1.x.units - p0.x.units },
        h: Frac { units: p1.y.units - p0.y.units },
    }
}

/// Whether two rectangles intersect with positive area; rectangles
/// that merely touch do not count as intersecting.
pub fn aabb_intersect(l0: F4, r0: F4) -> (r: bool)
    ensures
        r == spec_intersect(l0, r0),
{
    let lx0: i128 = l0.x.units as i128;
    let ly0: i128 = l0.y.units as i128;
    let lx1: i128 = l0.x.units as i128 + l0.w.units as i128;
    let ly1: i128 = l0.y.units as i128 + l0.h.units as i128;
    let rx0: i128 = r0.x.units as i128;
    let ry0: i128 = r0.y.units as i128;
    let rx1: i128 = r0.x.units as i128 + r0.w.units as i128;
    let ry1: i128 = r0.y.units as i128 + r0.h.units as i128;
    lx0 < rx1 && ly0 < ry1 && rx0 < lx1 && ry0 < ly1
}

/// Whether two rectangles are adjacent or overlapping: their closed
/// extents share at least one point.
pub fn aabb_touch(lhs: F4, rhs: F4) -> (r: bool)
    ensures
        r == spec_touch(lhs, rhs),
{
    let lx0: i128 = lhs.x.units as i128;
    let ly0: i128 = lhs.y.units as i128;
    let lx1: i128 = lhs.x.units as i128 + lhs.w.units as i128;
    let ly1: i128 = lhs.y.units as i128 + lhs.h.units as i128;
    let rx0: i128 = rhs.x.units as i128;
    let ry0: i128 = rhs.y.units as i128;
    let rx1: i128 = rhs.x.units as i128 + rhs.w.units as i128;
    let ry1: i128 = rhs.y.units as i128 + rhs.h.units as i128;
    lx0 <= rx1 && ly0 <= ry1 && rx0 <= lx1 && ry0 <= ly1
}

/// Counts aligned edge coordinates between the two rectangles: on each
/// axis, each of the four pairings of an edge of `l0` with an edge of
/// `r0` that are numerically equal adds one.
pub fn aabb_aligned_edges(l0: F4, r0: F4) -> (n: usize)
    ensures
        n as int == spec_aligned(l0, r0),
{
    let lx0: i128 = l0.x.units as i128;
    let ly0: i128 = l0.y.units as i128;
    let lx1: i128 = l0.x.units as i128 + l0.w.units as i128;
    let ly1: i128 = l0.y.units as i128 + l0.h.units as i128;
    let rx0: i128 = r0.x.units as i128;
    let ry0: i128 = r0.y.units as i128;
    let rx1: i128 = r0.x.units as i128 + r0.w.units as i128;
    let ry1: i128 = r0.y.units as i128 + r0.h.units as i128;
    let mut n: usize = 0;
    if lx0 == rx0 {
        n = n + 1;
    }
    if lx0 == rx1 {
        n = n + 1;
    }
    if lx1 == rx0 {
        n = n + 1;
    }
    if lx1 == rx1 {
        n = n + 1;
    }
    if ly0 == ry0 {
        n = n + 1;
    }
    if ly0 == ry1 {
        n = n + 1;
    }
    if ly1 == ry0 {
        n = n + 1;
    }
    if ly1 == ry1 {
        n = n + 1;
    }
    n
}

/// Whether two pieces may swap: exactly three aligned edge coordinates
/// means they are edge-adjacent with matching perpendicular extent.
/// Four aligned edges would mean two coincident pieces, which the board
/// invariant rules out, so that case is excluded by precondition
/// instead of being answered.
pub fn aabb_share_edge(l0: F4, r0: F4) -> (r: bool)
    requires
        spec_aligned(l0, r0) <= 3,
    ensures
        r == (spec_aligned(l0, r0) == 3),
{
    let n = aabb_aligned_edges(l0, r0);
    n == 3
}

/// Whether the rectangle is a legal piece shape: a square or a
/// two-to-one rectangle, with positive extents.
pub fn is_valid_shape(rect: F4) -> (r: bool)
    ensures
        r == spec_valid_shape(rect),
{
    let w: i128 = rect.w.units as i128;
    let h: i128 = rect.h.units as i128;
    w > 0 && h > 0 && (w == h || w == 2 * h || h == 2 * w)
}

/// The bounding box of rectangles within a band stays within the band,
/// is properly oriented, and covers each of them.
pub proof fn lemma_bb_bounds(rs: Seq<F4>, lo_x: int, hi_x: int, lo_y: int, hi_y: int)
    requires
        rs.len() > 0,
        forall|i: int|
            0 <= i < rs.len() ==> lo_x <= x0(#[trigger] rs[i]) && x0(rs[i]) <= x1(rs[i]) && x1(
                rs[i],
            ) <= hi_x && lo_y <= y0(rs[i]) && y0(rs[i]) <= y1(rs[i]) && y1(rs[i]) <= hi_y,
    ensures
        lo_x <= bb_x0(rs) && bb_x0(rs) <= bb_x1(rs) && bb_x1(rs) <= hi_x,
        lo_y <= bb_y0(rs) && bb_y0(rs) <= bb_y1(rs) && bb_y1(rs) <= hi_y,
        forall|i: int|
            0 <= i < rs.len() ==> bb_x0(rs) <= x0(#[trigger] rs[i]) && x1(rs[i]) <= bb_x1(rs)
                && bb_y0(rs) <= y0(rs[i]) && y1(rs[i]) <= bb_y1(rs),
    decreases rs.len(),
{
    if rs.len() > 1 {
        lemma_bb_bounds(rs.drop_last(), lo_x, hi_x, lo_y, hi_y);
        assert forall|i: int| 0 <= i < rs.len() implies bb_x0(rs) <= x0(#[trigger] rs[i]) && x1(
            rs[i],
        ) <= bb_x1(rs) && bb_y0(rs) <= y0(rs[i]) && y1(rs[i]) <= bb_y1(rs) by {
            if i < rs.len() - 1 {
                assert(rs.drop_last()[i] == rs[i]);
            } else {
                assert(rs[i] == rs.last());
            }
        }
    }
}

/// A rectangle inside a disjoint one stays disjoint: whatever does not
/// intersect `outer` cannot intersect anything within it.
pub proof fn lemma_within_no_intersect(inner: F4, outer: F4, other: F4)
    requires
        spec_within(inner, outer),
        !spec_intersect(outer, other),
    ensures
        !spec_intersect(inner, other),
{
}

/// Two disjoint rectangles of positive extent can align at most three
/// edge coordinates: four would force them to coincide and overlap.
pub proof fn lemma_disjoint_aligned(a: F4, b: F4)
    requires
        a.w@ > 0 && a.h@ > 0 && b.w@ > 0 && b.h@ > 0,
        !spec_intersect(a, b),
    ensures
        spec_aligned(a, b) <= 3,
{
    if spec_aligned(a, b) >= 4 {
        assert(x0(a) < x1(a) && x0(b) < x1(b) && y0(a) < y1(a) && y0(b) < y1(b));
        let cx = (if x0(a) == x0(b) { 1int } else { 0 }) + (if x0(a) == x1(b) { 1int } else { 0 })
            + (if x1(a) == x0(b) { 1int } else { 0 }) + (if x1(a) == x1(b) { 1int } else { 0 });
        let cy = (if y0(a) == y0(b) { 1int } else { 0 }) + (if y0(a) == y1(b) { 1int } else { 0 })
            + (if y1(a) == y0(b) { 1int } else { 0 }) + (if y1(a) == y1(b) { 1int } else { 0 });
        assert(cx <= 2);
        assert(cy <= 2);
        assert(cx == 2 && cy == 2);
        assert(x0(a) == x0(b) && x1(a) == x1(b));
        assert(y0(a) == y0(b) && y1(a) == y1(b));
        assert(spec_intersect(a, b));
    }
}

} // verus!
