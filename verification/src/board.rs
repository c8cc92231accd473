//! The board: a collection of pieces and the four state-changing
//! operations — join, split, swap and the capture pass run by swap.

use vstd::prelude::*;
use crate::frac::{Frac, SCALE};
use crate::math::{
    F2, F4, spec_intersect, spec_contains, spec_touch, spec_aligned, spec_valid_shape, spec_within,
    x0, x1, y0, y1, in_range4, aabb_intersect, aabb_contains, aabb_touch, aabb_aligned_edges,
    aabb_share_edge, is_valid_shape, aabb_clamp, bb_x0, bb_x1, bb_y0, bb_y1, aabb, lemma_bb_bounds,
    lemma_within_no_intersect, lemma_disjoint_aligned,
};

verus! {

/// A piece colour.  Kept as a plain boolean so hosts can marshal it
/// directly.
pub type Color = bool;

pub const BLACK: Color = false;

pub const WHITE: Color = true;

/// An immutable coloured rectangle occupying part of the board.
#[derive(Clone, Copy, PartialEq, Eq, Structural, Debug)]
pub struct Piece {
    pub aabb: F4,
    pub color: Color,
}

/// The colour-flipped twin of a piece: same geometry, other colour.
pub open spec fn spec_flip(p: Piece) -> Piece {
    Piece { aabb: p.aabb, color: !p.color }
}

/// A piece that may sit on a committed board: legal shape, inside the
/// unit square.
pub open spec fn piece_ok(p: Piece) -> bool {
    spec_valid_shape(p.aabb) && 0 <= x0(p.aabb) && x1(p.aabb) <= SCALE && 0 <= y0(p.aabb) && y1(
        p.aabb,
    ) <= SCALE
}

/// The board invariant: every piece legal, no two pieces overlapping.
pub open spec fn board_ok(ps: Seq<Piece>) -> bool {
    (forall|i: int| 0 <= i < ps.len() ==> piece_ok(#[trigger] ps[i])) && (forall|i: int, j: int|
        0 <= i < j < ps.len() ==> !spec_intersect(#[trigger] ps[i].aabb, #[trigger] ps[j].aabb))
}

impl Piece {
    /// The checked factory: admits the piece only if its shape is
    /// legal.  Every piece that reaches a board came through here.
    pub fn check(self) -> (r: Option<Piece>)
        ensures
            r == if spec_valid_shape(self.aabb) {
                Some(self)
            } else {
                None::<Piece>
            },
    {
        if is_valid_shape(self.aabb) {
            Some(self)
        } else {
            None
        }
    }

    /// The colour-flipped twin: same rectangle, opposite colour.
    pub fn flip(&self) -> (r: Piece)
        ensures
            r == spec_flip(*self),
    {
        Piece { aabb: self.aabb, color: !self.color }
    }
}

/// Side length of one starting-grid cell, in scalar units: `SCALE / 6`.
pub const CELL: i64 = 524288;

/// The piece the starting board holds at position `k` (row-major:
/// grid cell `x = k / 6`, `y = k % 6`); White exactly when `x + y` is
/// odd.
pub open spec fn start_piece(k: int) -> Piece {
    Piece {
        aabb: F4 {
            x: Frac { units: ((k / 6) * CELL) as i64 },
            y: Frac { units: ((k % 6) * CELL) as i64 },
            w: Frac { units: CELL },
            h: Frac { units: CELL },
        },
        color: (k / 6 + k % 6) % 2 == 1,
    }
}

/// The pieces of `ps` whose boxes strictly intersect `s`, in board
/// order.
pub open spec fn sel_spec(ps: Seq<Piece>, s: F4) -> Seq<Piece>
    decreases ps.len(),
{
    if ps.len() == 0 {
        Seq::empty()
    } else {
        let pre = sel_spec(ps.drop_last(), s);
        if spec_intersect(ps.last().aabb, s) {
            pre.push(ps.last())
        } else {
            pre
        }
    }
}

/// The pieces of `ps` whose boxes do not strictly intersect `s`, in
/// board order: the complement of [`sel_spec`].
pub open spec fn rem_spec(ps: Seq<Piece>, s: F4) -> Seq<Piece>
    decreases ps.len(),
{
    if ps.len() == 0 {
        Seq::empty()
    } else {
        let pre = rem_spec(ps.drop_last(), s);
        if spec_intersect(ps.last().aabb, s) {
            pre
        } else {
            pre.push(ps.last())
        }
    }
}

/// The first piece of `ps` containing the point, if any.
pub open spec fn sel_one_spec(ps: Seq<Piece>, pt: F2) -> Option<Piece>
    decreases ps.len(),
{
    if ps.len() == 0 {
        None
    } else if spec_contains(ps[0].aabb, pt) {
        Some(ps[0])
    } else {
        sel_one_spec(ps.skip(1), pt)
    }
}

/// The boxes of a run of pieces, in the same order.
pub open spec fn aabbs_of(ps: Seq<Piece>) -> Seq<F4> {
    Seq::new(ps.len(), |i: int| ps[i].aabb)
}

/// The summed area of a run of pieces, in square scalar units.
pub open spec fn total_area(ps: Seq<Piece>) -> int
    decreases ps.len(),
{
    if ps.len() == 0 {
        0
    } else {
        total_area(ps.drop_last()) + ps.last().aabb.w@ * ps.last().aabb.h@
    }
}

/// The bounding box of a non-empty run of pieces, as a rectangle.
pub open spec fn pieces_bbox(sel: Seq<Piece>) -> F4 {
    let rs = aabbs_of(sel);
    F4 {
        x: Frac { units: bb_x0(rs) as i64 },
        y: Frac { units: bb_y0(rs) as i64 },
        w: Frac { units: (bb_x1(rs) - bb_x0(rs)) as i64 },
        h: Frac { units: (bb_y1(rs) - bb_y0(rs)) as i64 },
    }
}

/// When a join commits: the selection is non-empty, every selected
/// piece already has the requested colour, the selected pieces' summed
/// area exactly fills their bounding box (so they tile it with no gap
/// — and, the board being disjoint, no overlap), the box is itself a
/// legal piece shape, and it intersects no unselected piece.  The last
/// condition already follows from the exact tiling, but the engine
/// checks it outright so that the disjointness invariant holds by
/// construction rather than by a measure argument.
pub open spec fn join_ok(ps: Seq<Piece>, color: Color, selection: F4) -> bool {
    let sel = sel_spec(ps, selection);
    let rem = rem_spec(ps, selection);
    let rs = aabbs_of(sel);
    sel.len() > 0 && (forall|i: int| 0 <= i < sel.len() ==> (#[trigger] sel[i]).color == color)
        && total_area(sel) == (bb_x1(rs) - bb_x0(rs)) * (bb_y1(rs) - bb_y0(rs))
        && spec_valid_shape(pieces_bbox(sel)) && (forall|i: int|
        0 <= i < rem.len() ==> !spec_intersect(pieces_bbox(sel), (#[trigger] rem[i]).aabb))
}

/// The piece a successful join commits: the selection's bounding box
/// in the requested colour.
pub open spec fn joined_piece(ps: Seq<Piece>, color: Color, selection: F4) -> Piece {
    Piece { aabb: pieces_bbox(sel_spec(ps, selection)), color }
}

/// The rectangle spanning two opposite corners, whichever way round
/// they are given.
pub open spec fn span_rect(ax: int, ay: int, bx: int, by: int) -> F4 {
    F4 {
        x: Frac { units: vstd::math::min(ax, bx) as i64 },
        y: Frac { units: vstd::math::min(ay, by) as i64 },
        w: Frac { units: (vstd::math::max(ax, bx) - vstd::math::min(ax, bx)) as i64 },
        h: Frac { units: (vstd::math::max(ay, by) - vstd::math::min(ay, by)) as i64 },
    }
}

/// Left edge of the cut: the cutting path clamped to the piece.
pub open spec fn cut_x0(path: F4, r: F4) -> int {
    vstd::math::max(x0(path), x0(r))
}

/// Top edge of the cut.
pub open spec fn cut_y0(path: F4, r: F4) -> int {
    vstd::math::max(y0(path), y0(r))
}

/// Right edge of the cut.
pub open spec fn cut_x1(path: F4, r: F4) -> int {
    vstd::math::min(x1(path), x1(r))
}

/// Bottom edge of the cut.
pub open spec fn cut_y1(path: F4, r: F4) -> int {
    vstd::math::min(y1(path), y1(r))
}

/// The half spanning from the piece's upper-left corner to the cut's
/// lower-right corner.
pub open spec fn half_lo(r: F4, path: F4) -> F4 {
    span_rect(x0(r), y0(r), cut_x1(path, r), cut_y1(path, r))
}

/// The half spanning from the piece's lower-right corner to the cut's
/// upper-left corner.
pub open spec fn half_hi(r: F4, path: F4) -> F4 {
    span_rect(x1(r), y1(r), cut_x0(path, r), cut_y0(path, r))
}

/// Whether cutting the rectangle along the path yields an acceptable
/// pair: both halves legal piece shapes, not overlapping each other.
pub open spec fn halves_ok(r: F4, path: F4) -> bool {
    spec_valid_shape(half_lo(r, path)) && spec_valid_shape(half_hi(r, path)) && !spec_intersect(
        half_lo(r, path),
        half_hi(r, path),
    )
}

/// The pieces a successful split commits: for each selected piece, in
/// board order, its two halves.
pub open spec fn split_pieces(sel: Seq<Piece>, path: F4) -> Seq<Piece>
    decreases sel.len(),
{
    if sel.len() == 0 {
        Seq::empty()
    } else {
        split_pieces(sel.drop_last(), path) + seq![
            Piece { aabb: half_lo(sel.last().aabb, path), color: sel.last().color },
            Piece { aabb: half_hi(sel.last().aabb, path), color: sel.last().color },
        ]
    }
}

/// When a split commits: the path selects at least one piece, every
/// selected piece has the requested colour, and each selected piece
/// cuts into an acceptable pair of halves.
pub open spec fn split_ok(ps: Seq<Piece>, color: Color, path: F4) -> bool {
    let sel = sel_spec(ps, path);
    sel.len() > 0 && (forall|i: int| 0 <= i < sel.len() ==> (#[trigger] sel[i]).color == color)
        && (forall|i: int| 0 <= i < sel.len() ==> halves_ok((#[trigger] sel[i]).aabb, path))
}

/// The unit board rectangle.
pub open spec fn unit_rect() -> F4 {
    F4 {
        x: Frac { units: 0 },
        y: Frac { units: 0 },
        w: Frac { units: SCALE },
        h: Frac { units: SCALE },
    }
}

/// Whether a piece touches the board wall: at least one of its edge
/// coordinates aligns with an edge of the unit board.
pub open spec fn on_wall(p: Piece) -> bool {
    spec_aligned(unit_rect(), p.aabb) >= 1
}

/// Whether pieces `i` and `j` of the run are adjacent or overlapping.
pub open spec fn adj(ps: Seq<Piece>, i: int, j: int) -> bool {
    spec_touch(ps[i].aabb, ps[j].aabb)
}

/// A chain of pieces, each touching the next, that starts at a piece
/// on the wall and ends at piece `i`.
pub open spec fn wall_path(ps: Seq<Piece>, path: Seq<int>, i: int) -> bool {
    path.len() >= 1 && path.last() == i && (forall|k: int|
        0 <= k < path.len() ==> 0 <= #[trigger] path[k] < ps.len()) && on_wall(ps[path[0]]) && (
    forall|k: int| 0 <= k < path.len() - 1 ==> adj(ps, #[trigger] path[k], path[k + 1]))
}

/// Whether piece `i` is connected to the board wall through a chain
/// of touching pieces.  A piece that is not is captured.
pub open spec fn connected_to_wall(ps: Seq<Piece>, i: int) -> bool {
    exists|path: Seq<int>| wall_path(ps, path, i)
}

/// The outcome of a capture pass: every piece cut off from the wall
/// is replaced by its colour-flipped twin, all others stay.
pub open spec fn apply_capture(ps: Seq<Piece>) -> Seq<Piece> {
    Seq::new(
        ps.len(),
        |i: int|
            if connected_to_wall(ps, i) {
                ps[i]
            } else {
                spec_flip(ps[i])
            },
    )
}

/// The pieces of `ps` other than `a` and `b`, in board order.
pub open spec fn remove2_spec(ps: Seq<Piece>, a: Piece, b: Piece) -> Seq<Piece>
    decreases ps.len(),
{
    if ps.len() == 0 {
        Seq::empty()
    } else {
        let pre = remove2_spec(ps.drop_last(), a, b);
        if ps.last() == a || ps.last() == b {
            pre
        } else {
            pre.push(ps.last())
        }
    }
}

/// The piece run a swap examines before deciding: both swapped pieces
/// replaced by their colour-flipped twins, appended after the rest.
pub open spec fn swap_candidate(ps: Seq<Piece>, from: Piece, to: Piece) -> Seq<Piece> {
    remove2_spec(ps, from, to).push(spec_flip(from)).push(spec_flip(to))
}

/// When a swap commits: the moving piece has the player's colour, the
/// two pieces are edge-adjacent (exactly three aligned edge
/// coordinates), and the destination piece — now of the player's
/// colour — would survive the capture pass that the swap triggers.
/// A swap whose own destination would be captured is suicide and is
/// rejected whole.
pub open spec fn swap_ok(ps: Seq<Piece>, color: Color, from: Piece, to: Piece) -> bool {
    from.color == color && spec_aligned(from.aabb, to.aabb) == 3 && connected_to_wall(
        swap_candidate(ps, from, to),
        swap_candidate(ps, from, to).len() - 1,
    )
}

/// How many entries of a boolean run are set.
pub open spec fn count_true(s: Seq<bool>) -> int
    decreases s.len(),
{
    if s.len() == 0 {
        0
    } else {
        count_true(s.drop_last()) + (if s.last() {
            1int
        } else {
            0
        })
    }
}

/// No unvisited piece touches a visited one: the visited set can grow
/// no further.
pub open spec fn saturated(ps: Seq<Piece>, vis: Seq<bool>) -> bool {
    forall|i: int, j: int|
        0 <= i < ps.len() && 0 <= j < ps.len() && !vis[i] && vis[j] ==> !adj(ps, i, j)
}

/// An unordered collection of pieces tiling part of the unit board.
///
/// Every committed state satisfies [`board_ok`]: each mutating
/// operation either replaces the piece set with another one satisfying
/// it, or — on any failed precondition — leaves the board untouched
/// and returns nothing.
pub struct Board {
    pieces: Vec<Piece>,
}

impl View for Board {
    type V = Seq<Piece>;

    closed spec fn view(&self) -> Seq<Piece> {
        self.pieces@
    }
}

impl Board {
    /// The starting position: a six-by-six grid of cell-sized squares
    /// in a checkerboard pattern, White on cells whose coordinates sum
    /// odd.
    pub fn new_starting() -> (b: Board)
        ensures
            b@.len() == 36,
            forall|k: int| 0 <= k < 36 ==> b@[k] == start_piece(k),
            board_ok(b@),
    {
        let mut pieces: Vec<Piece> = Vec::new();
        let mut x: usize = 0;
        while x < 6
            invariant
                x <= 6,
                pieces@.len() == 6 * x,
                forall|k: int| 0 <= k < pieces@.len() ==> pieces@[k] == start_piece(k),
            decreases 6 - x,
        {
            let mut y: usize = 0;
            while y < 6
                invariant
                    x < 6,
                    y <= 6,
                    pieces@.len() == 6 * x + y,
                    forall|k: int| 0 <= k < pieces@.len() ==> pieces@[k] == start_piece(k),
                decreases 6 - y,
            {
                let p = Piece {
                    aabb: F4 {
                        x: Frac { units: (x as i64) * CELL },
                        y: Frac { units: (y as i64) * CELL },
                        w: Frac { units: CELL },
                        h: Frac { units: CELL },
                    },
                    color: (x + y) % 2 != 0,
                };
                proof {
                    let k = 6 * (x as int) + (y as int);
                    vstd::arithmetic::div_mod::lemma_fundamental_div_mod_converse(
                        k,
                        6,
                        x as int,
                        y as int,
                    );
                    assert(p == start_piece(k));
                }
                pieces.push(p);
                y = y + 1;
            }
            x = x + 1;
        }
        proof {
            lemma_start_board_ok(pieces@);
        }
        Board { pieces }
    }

    /// Every piece whose box strictly intersects the selection
    /// rectangle, in board order; read-only.
    pub fn select(&self, selection: F4) -> (r: Vec<Piece>)
        ensures
            r@ == sel_spec(self@, selection),
    {
        let mut out: Vec<Piece> = Vec::new();
        let mut i: usize = 0;
        while i < self.pieces.len()
            invariant
                i <= self.pieces@.len(),
                out@ == sel_spec(self.pieces@.take(i as int), selection),
            decreases self.pieces@.len() - i as int,
        {
            proof {
                assert(self.pieces@.take(i as int + 1).drop_last() =~= self.pieces@.take(i as int));
                assert(self.pieces@.take(i as int + 1).last() == self.pieces@[i as int]);
            }
            if aabb_intersect(self.pieces[i].aabb, selection) {
                out.push(self.pieces[i]);
            }
            i = i + 1;
        }
        proof {
            assert(self.pieces@.take(self.pieces@.len() as int) =~= self.pieces@);
        }
        out
    }

    /// The first piece containing the point, if any; by the
    /// disjointness invariant at most one piece can.
    pub fn select_one(&self, point: F2) -> (r: Option<Piece>)
        ensures
            r == sel_one_spec(self@, point),
    {
        let mut i: usize = 0;
        proof {
            assert(self.pieces@.skip(0) =~= self.pieces@);
        }
        while i < self.pieces.len()
            invariant
                i <= self.pieces@.len(),
                sel_one_spec(self.pieces@, point) == sel_one_spec(
                    self.pieces@.skip(i as int),
                    point,
                ),
            decreases self.pieces@.len() - i as int,
        {
            proof {
                assert(self.pieces@.skip(i as int)[0] == self.pieces@[i as int]);
                assert(self.pieces@.skip(i as int).skip(1) =~= self.pieces@.skip(i as int + 1));
            }
            if aabb_contains(self.pieces[i].aabb, point) {
                return Some(self.pieces[i]);
            }
            i = i + 1;
        }
        proof {
            assert(self.pieces@.skip(self.pieces@.len() as int) =~= Seq::<Piece>::empty());
        }
        None
    }

    /// Merges the pieces intersecting `selection` into one piece of
    /// the given colour.
    ///
    /// Commits exactly when [`join_ok`] holds — non-empty selection,
    /// all selected pieces of the requested colour, selection exactly
    /// tiling its own bounding box, the box a legal shape and clear of
    /// every unselected piece — and then atomically replaces the
    /// selected pieces with the box; on any failing condition the
    /// board is left untouched and nothing is returned.
    pub fn join(&mut self, color: Color, selection: F4) -> (r: Option<Piece>)
        requires
            board_ok(old(self)@),
        ensures
            board_ok(final(self)@),
            (if join_ok(old(self)@, color, selection) {
                r == Some(joined_piece(old(self)@, color, selection)) && final(self)@ == rem_spec(
                    old(self)@,
                    selection,
                ).push(joined_piece(old(self)@, color, selection))
            } else {
                r == None::<Piece> && final(self)@ == old(self)@
            }),
    {
        proof {
            lemma_partition(self.pieces@, selection);
        }
        let n = self.pieces.len();
        let mut selv: Vec<Piece> = Vec::new();
        let mut remv: Vec<Piece> = Vec::new();
        let mut i: usize = 0;
        while i < n
            invariant
                n == self.pieces@.len(),
                i <= n,
                selv@ == sel_spec(self.pieces@.take(i as int), selection),
                remv@ == rem_spec(self.pieces@.take(i as int), selection),
            decreases n - i,
        {
            proof {
                assert(self.pieces@.take(i as int + 1).drop_last() =~= self.pieces@.take(i as int));
                assert(self.pieces@.take(i as int + 1).last() == self.pieces@[i as int]);
            }
            if aabb_intersect(self.pieces[i].aabb, selection) {
                selv.push(self.pieces[i]);
            } else {
                remv.push(self.pieces[i]);
            }
            i = i + 1;
        }
        proof {
            assert(self.pieces@.take(n as int) =~= self.pieces@);
        }
        let ghost sel = sel_spec(self.pieces@, selection);
        let ghost rem = rem_spec(self.pieces@, selection);
        if selv.len() == 0 {
            return None;
        }
        let mut i: usize = 0;
        while i < selv.len()
            invariant
                i <= selv@.len(),
                self.pieces@ == old(self)@,
                board_ok(old(self)@),
                selv@ == sel_spec(old(self)@, selection),
                forall|k: int| 0 <= k < i ==> (#[trigger] selv@[k]).color == color,
            decreases selv@.len() - i,
        {
            if selv[i].color != color {
                return None;
            }
            i = i + 1;
        }
        let mut rects: Vec<F4> = Vec::new();
        let mut i: usize = 0;
        while i < selv.len()
            invariant
                i <= selv@.len(),
                rects@.len() == i as int,
                forall|k: int| 0 <= k < i ==> rects@[k] == (#[trigger] selv@[k]).aabb,
            decreases selv@.len() - i,
        {
            rects.push(selv[i].aabb);
            i = i + 1;
        }
        proof {
            assert(rects@ =~= aabbs_of(sel));
            assert forall|k: int| 0 <= k < rects@.len() implies in_range4(#[trigger] rects@[k])
                && 0 <= x0(rects@[k]) && x0(rects@[k]) <= x1(rects@[k]) && x1(rects@[k]) <= SCALE
                && 0 <= y0(rects@[k]) && y0(rects@[k]) <= y1(rects@[k]) && y1(rects@[k])
                <= SCALE by {
                assert(piece_ok(sel[k]));
            }
            lemma_bb_bounds(rects@, 0, SCALE as int, 0, SCALE as int);
        }
        let target = aabb(&rects);
        proof {
            assert(target == pieces_bbox(sel));
        }
        let piece = match (Piece { aabb: target, color }).check() {
            Some(p) => p,
            None => {
                return None;
            },
        };
        let mut sum: i128 = 0;
        let mut i: usize = 0;
        while i < selv.len()
            invariant
                i <= selv@.len(),
                selv@ == sel,
                forall|k: int| 0 <= k < sel.len() ==> piece_ok(#[trigger] sel[k]),
                sum as int == total_area(sel.take(i as int)),
                0 <= sum as int <= (i as int) * 9895604649984,
            decreases selv@.len() - i,
        {
            let w: i128 = selv[i].aabb.w.units as i128;
            let h: i128 = selv[i].aabb.h.units as i128;
            proof {
                assert(sel.take(i as int + 1).drop_last() =~= sel.take(i as int));
                assert(sel.take(i as int + 1).last() == sel[i as int]);
                assert(piece_ok(sel[i as int]));
                assert(0 < (w as int) * (h as int) <= 9895604649984) by (nonlinear_arith)
                    requires
                        0 < w as int <= 3145728,
                        0 < h as int <= 3145728,
                {}
            }
            sum = sum + w * h;
            i = i + 1;
        }
        proof {
            assert(sel.take(sel.len() as int) =~= sel);
        }
        let tw: i128 = target.w.units as i128;
        let th: i128 = target.h.units as i128;
        proof {
            assert(0 <= (tw as int) * (th as int) <= 9895604649984) by (nonlinear_arith)
                requires
                    0 <= tw as int <= 3145728,
                    0 <= th as int <= 3145728,
            {}
        }
        if sum != tw * th {
            return None;
        }
        let mut j: usize = 0;
        while j < remv.len()
            invariant
                j <= remv@.len(),
                self.pieces@ == old(self)@,
                board_ok(old(self)@),
                remv@ == rem_spec(old(self)@, selection),
                target == pieces_bbox(sel_spec(old(self)@, selection)),
                forall|k: int| 0 <= k < j ==> !spec_intersect(target, (#[trigger] remv@[k]).aabb),
            decreases remv@.len() - j,
        {
            if aabb_intersect(target, remv[j].aabb) {
                return None;
            }
            j = j + 1;
        }
        proof {
            assert(join_ok(self.pieces@, color, selection));
            assert(piece == joined_piece(self.pieces@, color, selection));
        }
        remv.push(piece);
        self.pieces = remv;
        proof {
            assert forall|a: int, b: int| 0 <= a < b < self.pieces@.len() implies !spec_intersect(
                (#[trigger] self.pieces@[a]).aabb,
                (#[trigger] self.pieces@[b]).aabb,
            ) by {
                if b < self.pieces@.len() - 1 {
                    assert(self.pieces@[a] == rem[a] && self.pieces@[b] == rem[b]);
                } else {
                    assert(self.pieces@[a] == rem[a] && self.pieces@[b] == piece);
                }
            }
            assert(board_ok(self.pieces@));
        }
        Some(piece)
    }

    /// Cuts every piece intersecting `path` into two halves along the
    /// path.
    ///
    /// Commits exactly when [`split_ok`] holds — the path selects at
    /// least one piece, all selected pieces have the requested colour,
    /// and every selected piece yields two legal, non-overlapping
    /// halves.  The whole operation is all-or-nothing across all
    /// selected pieces: one bad half fails the entire split and the
    /// board is left untouched.
    #[verifier::rlimit(80)]
    pub fn split(&mut self, color: Color, path: F4) -> (r: Option<Vec<Piece>>)
        requires
            board_ok(old(self)@),
            in_range4(path),
        ensures
            board_ok(final(self)@),
            (if split_ok(old(self)@, color, path) {
                (match r {
                    Some(v) => v@ == split_pieces(sel_spec(old(self)@, path), path),
                    None => false,
                }) && final(self)@ == rem_spec(old(self)@, path) + split_pieces(
                    sel_spec(old(self)@, path),
                    path,
                )
            } else {
                r == None::<Vec<Piece>> && final(self)@ == old(self)@
            }),
    {
        proof {
            lemma_partition(self.pieces@, path);
        }
        let n = self.pieces.len();
        let mut selv: Vec<Piece> = Vec::new();
        let mut remv: Vec<Piece> = Vec::new();
        let mut i: usize = 0;
        while i < n
            invariant
                n == self.pieces@.len(),
                i <= n,
                selv@ == sel_spec(self.pieces@.take(i as int), path),
                remv@ == rem_spec(self.pieces@.take(i as int), path),
            decreases n - i,
        {
            proof {
                assert(self.pieces@.take(i as int + 1).drop_last() =~= self.pieces@.take(i as int));
                assert(self.pieces@.take(i as int + 1).last() == self.pieces@[i as int]);
            }
            if aabb_intersect(self.pieces[i].aabb, path) {
                selv.push(self.pieces[i]);
            } else {
                remv.push(self.pieces[i]);
            }
            i = i + 1;
        }
        proof {
            assert(self.pieces@.take(n as int) =~= self.pieces@);
        }
        let ghost sel = sel_spec(self.pieces@, path);
        let ghost rem = rem_spec(self.pieces@, path);
        if selv.len() == 0 {
            return None;
        }
        let mut i: usize = 0;
        while i < selv.len()
            invariant
                i <= selv@.len(),
                self.pieces@ == old(self)@,
                board_ok(old(self)@),
                selv@ == sel_spec(old(self)@, path),
                forall|k: int| 0 <= k < i ==> (#[trigger] selv@[k]).color == color,
            decreases selv@.len() - i,
        {
            if selv[i].color != color {
                return None;
            }
            i = i + 1;
        }
        let mut halves: Vec<Piece> = Vec::new();
        let mut i: usize = 0;
        while i < selv.len()
            invariant
                i <= selv@.len(),
                self.pieces@ == old(self)@,
                board_ok(old(self)@),
                in_range4(path),
                selv@ == sel_spec(old(self)@, path),
                forall|k: int|
                    0 <= k < selv@.len() ==> piece_ok(#[trigger] selv@[k]) && spec_intersect(
                        selv@[k].aabb,
                        path,
                    ),
                forall|k: int| 0 <= k < i ==> halves_ok((#[trigger] selv@[k]).aabb, path),
                halves@ == split_pieces(selv@.take(i as int), path),
            decreases selv@.len() - i,
        {
            proof {
                assert(selv@.take(i as int + 1).drop_last() =~= selv@.take(i as int));
                assert(selv@.take(i as int + 1).last() == selv@[i as int]);
            }
            let piece = selv[i];
            match try_split(&piece, path) {
                Some(pair) => {
                    halves.push(pair.0);
                    halves.push(pair.1);
                    proof {
                        assert(halves@ =~= split_pieces(selv@.take(i as int + 1), path));
                    }
                },
                None => {
                    return None;
                },
            }
            i = i + 1;
        }
        proof {
            assert(selv@.take(selv@.len() as int) =~= selv@);
            assert(split_ok(self.pieces@, color, path));
            lemma_split_props(sel, path);
        }
        let mut out: Vec<Piece> = Vec::new();
        let mut i: usize = 0;
        while i < halves.len()
            invariant
                i <= halves@.len(),
                out@ == halves@.take(i as int),
            decreases halves@.len() - i,
        {
            proof {
                assert(halves@.take(i as int + 1) =~= halves@.take(i as int).push(
                    halves@[i as int],
                ));
            }
            out.push(halves[i]);
            i = i + 1;
        }
        proof {
            assert(halves@.take(halves@.len() as int) =~= halves@);
        }
        remv.append(&mut halves);
        self.pieces = remv;
        proof {
            let fin = self.pieces@;
            let hs = split_pieces(sel, path);
            let nr = rem.len();
            assert forall|a: int| 0 <= a < fin.len() implies piece_ok(#[trigger] fin[a]) by {
                if a < nr {
                    assert(fin[a] == rem[a]);
                } else {
                    assert(fin[a] == hs[a - nr]);
                }
            }
            assert forall|a: int, b: int| 0 <= a < b < fin.len() implies !spec_intersect(
                (#[trigger] fin[a]).aabb,
                (#[trigger] fin[b]).aabb,
            ) by {
                if b < nr {
                    assert(fin[a] == rem[a] && fin[b] == rem[b]);
                } else if a < nr {
                    assert(fin[a] == rem[a] && fin[b] == hs[b - nr]);
                    let m = (b - nr) / 2;
                    assert(spec_within(hs[b - nr].aabb, sel[m].aabb));
                    assert(!spec_intersect(sel[m].aabb, rem[a].aabb));
                    lemma_within_no_intersect(hs[b - nr].aabb, sel[m].aabb, rem[a].aabb);
                } else {
                    assert(fin[a] == hs[a - nr] && fin[b] == hs[b - nr]);
                }
            }
            assert(board_ok(fin));
        }
        Some(out)
    }

    /// Swaps the colours of two edge-adjacent pieces: `to` takes the
    /// player's colour, `from` the opposite one — then runs the
    /// capture pass over the whole board.
    ///
    /// Commits exactly when [`swap_ok`] holds: `from` has the
    /// requested colour, the two pieces are edge-adjacent, and the
    /// recoloured destination itself survives the capture pass.  A
    /// swap into immediate self-capture is rejected and the board
    /// reverts untouched; captures of other pieces in the same pass
    /// stand.  Returns the recoloured destination piece on success.
    pub fn swap(&mut self, color: Color, from: Piece, to: Piece) -> (r: Option<Piece>)
        requires
            board_ok(old(self)@),
            old(self)@.contains(from),
            old(self)@.contains(to),
            from != to,
        ensures
            board_ok(final(self)@),
            (if swap_ok(old(self)@, color, from, to) {
                r == Some(spec_flip(to)) && final(self)@ == apply_capture(
                    swap_candidate(old(self)@, from, to),
                )
            } else {
                r == None::<Piece> && final(self)@ == old(self)@
            }),
    {
        proof {
            let kf = choose|k: int| 0 <= k < self.pieces@.len() && self.pieces@[k] == from;
            let kt = choose|k: int| 0 <= k < self.pieces@.len() && self.pieces@[k] == to;
            assert(piece_ok(self.pieces@[kf]) && piece_ok(self.pieces@[kt]));
            lemma_board_pair(self.pieces@, kf, kt);
            lemma_disjoint_aligned(from.aabb, to.aabb);
        }
        if from.color != color {
            return None;
        }
        if !aabb_share_edge(from.aabb, to.aabb) {
            return None;
        }
        let src = match from.flip().check() {
            Some(p) => p,
            None => {
                return None;
            },
        };
        let dst = match to.flip().check() {
            Some(p) => p,
            None => {
                return None;
            },
        };
        let n = self.pieces.len();
        let mut cand: Vec<Piece> = Vec::new();
        let mut i: usize = 0;
        while i < n
            invariant
                n == self.pieces@.len(),
                i <= n,
                cand@ == remove2_spec(self.pieces@.take(i as int), from, to),
            decreases n - i,
        {
            proof {
                assert(self.pieces@.take(i as int + 1).drop_last() =~= self.pieces@.take(i as int));
                assert(self.pieces@.take(i as int + 1).last() == self.pieces@[i as int]);
            }
            let p = self.pieces[i];
            if !(p == from || p == to) {
                cand.push(p);
            }
            i = i + 1;
        }
        proof {
            assert(self.pieces@.take(n as int) =~= self.pieces@);
        }
        cand.push(src);
        cand.push(dst);
        let ghost candseq = swap_candidate(self.pieces@, from, to);
        proof {
            assert(cand@ == candseq);
        }
        let vis = reach_from_wall(&cand);
        let last = cand.len() - 1;
        if !vis[last] {
            return None;
        }
        let mut outp: Vec<Piece> = Vec::new();
        let mut i: usize = 0;
        while i < cand.len()
            invariant
                i <= cand@.len(),
                vis@.len() == cand@.len(),
                forall|k: int|
                    0 <= k < cand@.len() ==> ((#[trigger] vis@[k]) <==> connected_to_wall(
                        cand@,
                        k,
                    )),
                outp@.len() == i as int,
                forall|k: int| 0 <= k < i ==> (#[trigger] outp@[k]) == apply_capture(cand@)[k],
            decreases cand@.len() - i,
        {
            if vis[i] {
                outp.push(cand[i]);
            } else {
                outp.push(cand[i].flip());
            }
            i = i + 1;
        }
        proof {
            assert(outp@ =~= apply_capture(candseq));
            lemma_remove2(self.pieces@, from, to);
            let rm = remove2_spec(self.pieces@, from, to);
            let nr = rm.len();
            assert forall|a: int| 0 <= a < candseq.len() implies piece_ok(#[trigger] candseq[a]) by {
                if a < nr {
                    assert(candseq[a] == rm[a]);
                } else if a == nr {
                    assert(candseq[a] == spec_flip(from));
                } else {
                    assert(candseq[a] == spec_flip(to));
                }
            }
            assert forall|a: int, b: int| 0 <= a < b < candseq.len() implies !spec_intersect(
                (#[trigger] candseq[a]).aabb,
                (#[trigger] candseq[b]).aabb,
            ) by {
                if b < nr {
                    assert(candseq[a] == rm[a] && candseq[b] == rm[b]);
                } else if a < nr {
                    assert(candseq[a] == rm[a]);
                    assert(candseq[b].aabb == from.aabb || candseq[b].aabb == to.aabb);
                } else {
                    assert(candseq[a].aabb == from.aabb && candseq[b].aabb == to.aabb);
                }
            }
            let fin = outp@;
            assert forall|a: int| 0 <= a < fin.len() implies piece_ok(#[trigger] fin[a]) by {
                assert(fin[a].aabb == candseq[a].aabb);
            }
            assert forall|a: int, b: int| 0 <= a < b < fin.len() implies !spec_intersect(
                (#[trigger] fin[a]).aabb,
                (#[trigger] fin[b]).aabb,
            ) by {
                assert(fin[a].aabb == candseq[a].aabb && fin[b].aabb == candseq[b].aabb);
            }
            assert(board_ok(fin));
        }
        self.pieces = outp;
        Some(dst)
    }

    /// Builds a board from an arbitrary piece list, accepting it only
    /// if it satisfies the board invariant.
    pub fn from_pieces(pieces: Vec<Piece>) -> (r: Option<Board>)
        ensures
            match r {
                Some(b) => b@ == pieces@ && board_ok(pieces@),
                None => !board_ok(pieces@),
            },
    {
        let n = pieces.len();
        let mut i: usize = 0;
        while i < n
            invariant
                n == pieces@.len(),
                i <= n,
                forall|k: int| 0 <= k < i ==> piece_ok(#[trigger] pieces@[k]),
            decreases n - i,
        {
            if !piece_ok_exec(&pieces[i]) {
                return None;
            }
            i = i + 1;
        }
        i = 0;
        while i < n
            invariant
                n == pieces@.len(),
                i <= n,
                forall|k: int| 0 <= k < n ==> piece_ok(#[trigger] pieces@[k]),
                forall|k: int, l: int|
                    0 <= k < l < n && k < i ==> !spec_intersect(
                        #[trigger] pieces@[k].aabb,
                        #[trigger] pieces@[l].aabb,
                    ),
            decreases n - i,
        {
            let mut j: usize = i + 1;
            while j < n
                invariant
                    n == pieces@.len(),
                    i < n,
                    i < j <= n,
                    forall|l: int|
                        i < l < j ==> !spec_intersect(
                            pieces@[i as int].aabb,
                            #[trigger] pieces@[l].aabb,
                        ),
                decreases n - j,
            {
                if aabb_intersect(pieces[i].aabb, pieces[j].aabb) {
                    return None;
                }
                j = j + 1;
            }
            i = i + 1;
        }
        Some(Board { pieces })
    }
}

/// On a legal board, selection splits the pieces into two runs that
/// keep every invariant: each side holds legal pieces of the board,
/// the selected ones intersecting the selection rectangle and the
/// remaining ones not, and all pieces across both runs stay pairwise
/// disjoint.
pub proof fn lemma_partition(ps: Seq<Piece>, s: F4)
    requires
        board_ok(ps),
    ensures
        sel_spec(ps, s).len() + rem_spec(ps, s).len() == ps.len(),
        forall|i: int|
            0 <= i < sel_spec(ps, s).len() ==> ps.contains(#[trigger] sel_spec(ps, s)[i])
                && piece_ok(sel_spec(ps, s)[i]) && spec_intersect(sel_spec(ps, s)[i].aabb, s),
        forall|i: int|
            0 <= i < rem_spec(ps, s).len() ==> ps.contains(#[trigger] rem_spec(ps, s)[i])
                && piece_ok(rem_spec(ps, s)[i]) && !spec_intersect(rem_spec(ps, s)[i].aabb, s),
        forall|i: int, j: int|
            0 <= i < j < sel_spec(ps, s).len() ==> !spec_intersect(
                (#[trigger] sel_spec(ps, s)[i]).aabb,
                (#[trigger] sel_spec(ps, s)[j]).aabb,
            ),
        forall|i: int, j: int|
            0 <= i < j < rem_spec(ps, s).len() ==> !spec_intersect(
                (#[trigger] rem_spec(ps, s)[i]).aabb,
                (#[trigger] rem_spec(ps, s)[j]).aabb,
            ),
        forall|i: int, j: int|
            0 <= i < sel_spec(ps, s).len() && 0 <= j < rem_spec(ps, s).len() ==> !spec_intersect(
                (#[trigger] sel_spec(ps, s)[i]).aabb,
                (#[trigger] rem_spec(ps, s)[j]).aabb,
            ),
    decreases ps.len(),
{
    if ps.len() > 0 {
        let pre = ps.drop_last();
        let last = ps.last();
        assert forall|i: int| 0 <= i < pre.len() implies piece_ok(#[trigger] pre[i]) by {
            assert(pre[i] == ps[i]);
        }
        assert forall|i: int, j: int| 0 <= i < j < pre.len() implies !spec_intersect(
            (#[trigger] pre[i]).aabb,
            (#[trigger] pre[j]).aabb,
        ) by {
            assert(pre[i] == ps[i] && pre[j] == ps[j]);
        }
        lemma_partition(pre, s);
        assert forall|e: Piece| pre.contains(e) implies ps.contains(e) && !spec_intersect(
            e.aabb,
            last.aabb,
        ) by {
            let k = choose|k: int| 0 <= k < pre.len() && pre[k] == e;
            assert(ps[k] == e);
            assert(!spec_intersect(ps[k].aabb, ps[ps.len() - 1].aabb));
        }
        assert(ps.contains(last)) by {
            assert(ps[ps.len() - 1] == last);
        }
        let selp = sel_spec(pre, s);
        let remp = rem_spec(pre, s);
        assert forall|i: int| 0 <= i < selp.len() implies pre.contains(#[trigger] selp[i]) by {}
        assert forall|i: int| 0 <= i < remp.len() implies pre.contains(#[trigger] remp[i]) by {}
    }
}

/// The two halves of every selected piece are themselves legal,
/// mutually disjoint pieces, each lying within its parent.
#[verifier::rlimit(60)]
proof fn lemma_split_props(sel: Seq<Piece>, path: F4)
    requires
        forall|i: int|
            0 <= i < sel.len() ==> piece_ok(#[trigger] sel[i]) && spec_intersect(sel[i].aabb, path)
                && halves_ok(sel[i].aabb, path),
        forall|i: int, j: int|
            0 <= i < j < sel.len() ==> !spec_intersect(
                (#[trigger] sel[i]).aabb,
                (#[trigger] sel[j]).aabb,
            ),
    ensures
        split_pieces(sel, path).len() == 2 * sel.len(),
        forall|k: int|
            0 <= k < 2 * sel.len() ==> piece_ok(#[trigger] split_pieces(sel, path)[k])
                && spec_within(split_pieces(sel, path)[k].aabb, sel[k / 2].aabb) && split_pieces(
                sel,
                path,
            )[k].color == sel[k / 2].color,
        forall|k: int, l: int|
            0 <= k < l < 2 * sel.len() ==> !spec_intersect(
                (#[trigger] split_pieces(sel, path)[k]).aabb,
                (#[trigger] split_pieces(sel, path)[l]).aabb,
            ),
    decreases sel.len(),
{
    if sel.len() > 0 {
        let pre = sel.drop_last();
        let last = sel.last();
        assert forall|i: int| 0 <= i < pre.len() implies piece_ok(#[trigger] pre[i])
            && spec_intersect(pre[i].aabb, path) && halves_ok(pre[i].aabb, path) by {
            assert(pre[i] == sel[i]);
        }
        assert forall|i: int, j: int| 0 <= i < j < pre.len() implies !spec_intersect(
            (#[trigger] pre[i]).aabb,
            (#[trigger] pre[j]).aabb,
        ) by {
            assert(pre[i] == sel[i] && pre[j] == sel[j]);
        }
        lemma_split_props(pre, path);
        let res = split_pieces(sel, path);
        let resp = split_pieces(pre, path);
        let n = sel.len();
        let a = Piece { aabb: half_lo(last.aabb, path), color: last.color };
        let b = Piece { aabb: half_hi(last.aabb, path), color: last.color };
        assert(piece_ok(sel[n - 1]) && spec_intersect(sel[n - 1].aabb, path) && halves_ok(
            sel[n - 1].aabb,
            path,
        ));
        assert(spec_within(a.aabb, last.aabb) && spec_within(b.aabb, last.aabb));
        assert(piece_ok(a) && piece_ok(b));
        assert forall|k: int| 0 <= k < 2 * n implies piece_ok(#[trigger] res[k]) && spec_within(
            res[k].aabb,
            sel[k / 2].aabb,
        ) && res[k].color == sel[k / 2].color by {
            if k < 2 * (n - 1) {
                assert(res[k] == resp[k]);
                assert(sel[k / 2] == pre[k / 2]);
            } else if k == 2 * n - 2 {
                assert(res[k] == a && k / 2 == n - 1);
            } else {
                assert(res[k] == b && k / 2 == n - 1);
            }
        }
        assert forall|k: int, l: int| 0 <= k < l < 2 * n implies !spec_intersect(
            (#[trigger] res[k]).aabb,
            (#[trigger] res[l]).aabb,
        ) by {
            if l < 2 * (n - 1) {
                assert(res[k] == resp[k] && res[l] == resp[l]);
            } else if k < 2 * (n - 1) {
                assert(res[k] == resp[k]);
                assert(spec_within(res[k].aabb, sel[k / 2].aabb));
                assert(!spec_intersect(sel[k / 2].aabb, last.aabb));
                lemma_within_no_intersect(res[k].aabb, sel[k / 2].aabb, last.aabb);
                assert(spec_within(res[l].aabb, last.aabb));
                lemma_within_no_intersect(res[l].aabb, last.aabb, res[k].aabb);
            } else {
                assert(res[k] == a && res[l] == b);
            }
        }
    }
}

/// A set count lies between zero and the run's length.
proof fn lemma_count_bounds(s: Seq<bool>)
    ensures
        0 <= count_true(s) <= s.len(),
    decreases s.len(),
{
    if s.len() > 0 {
        lemma_count_bounds(s.drop_last());
    }
}

/// Setting one unset entry raises the count by exactly one.
proof fn lemma_count_update(s: Seq<bool>, k: int)
    requires
        0 <= k < s.len(),
        !s[k],
    ensures
        count_true(s.update(k, true)) == count_true(s) + 1,
    decreases s.len(),
{
    let t = s.update(k, true);
    if k == s.len() - 1 {
        assert(t.drop_last() =~= s.drop_last());
    } else {
        assert(t.drop_last() =~= s.drop_last().update(k, true));
        lemma_count_update(s.drop_last(), k);
        assert(t.last() == s.last());
    }
}

/// A piece on the wall is connected to the wall: the one-piece chain.
pub proof fn lemma_on_wall_connected(ps: Seq<Piece>, i: int)
    requires
        0 <= i < ps.len(),
        on_wall(ps[i]),
    ensures
        connected_to_wall(ps, i),
{
    let path = seq![i];
    assert(wall_path(ps, path, i));
}

/// A piece touching a wall-connected piece is itself wall-connected:
/// the chain grows by one link.  With [`lemma_on_wall_connected`] this
/// is why a piece with any chain of touching pieces reaching the wall
/// is never captured.
pub proof fn lemma_adjacent_connected(ps: Seq<Piece>, i: int, j: int)
    requires
        0 <= i < ps.len(),
        0 <= j < ps.len(),
        connected_to_wall(ps, j),
        spec_touch(ps[i].aabb, ps[j].aabb),
    ensures
        connected_to_wall(ps, i),
{
    let path = choose|path: Seq<int>| wall_path(ps, path, j);
    let ext = path.push(i);
    assert(ext.last() == i);
    assert forall|k: int| 0 <= k < ext.len() implies 0 <= #[trigger] ext[k] < ps.len() by {
        if k < path.len() {
            assert(ext[k] == path[k]);
        }
    }
    assert(ext[0] == path[0]);
    assert forall|k: int| 0 <= k < ext.len() - 1 implies adj(ps, #[trigger] ext[k], ext[k + 1]) by {
        if k < path.len() - 1 {
            assert(ext[k] == path[k] && ext[k + 1] == path[k + 1]);
        } else {
            assert(ext[k] == path.last() && ext[k + 1] == i);
        }
    }
    assert(wall_path(ps, ext, i));
}

/// A piece neither on the wall nor touching any other piece is cut
/// off from the wall: no chain can reach it.
pub proof fn lemma_isolated_not_connected(ps: Seq<Piece>, i: int)
    requires
        0 <= i < ps.len(),
        !on_wall(ps[i]),
        forall|j: int| 0 <= j < ps.len() && j != i ==> !spec_touch(ps[i].aabb, (#[trigger] ps[j]).aabb)
            && !spec_touch((#[trigger] ps[j]).aabb, ps[i].aabb),
    ensures
        !connected_to_wall(ps, i),
{
    if connected_to_wall(ps, i) {
        let path = choose|path: Seq<int>| wall_path(ps, path, i);
        lemma_isolated_no_path(ps, i, path);
    }
}

/// Helper for [`lemma_isolated_not_connected`]: no chain of any
/// length reaches an isolated piece.
proof fn lemma_isolated_no_path(ps: Seq<Piece>, i: int, path: Seq<int>)
    requires
        0 <= i < ps.len(),
        !on_wall(ps[i]),
        forall|j: int| 0 <= j < ps.len() && j != i ==> !spec_touch(ps[i].aabb, (#[trigger] ps[j]).aabb)
            && !spec_touch((#[trigger] ps[j]).aabb, ps[i].aabb),
    ensures
        !wall_path(ps, path, i),
    decreases path.len(),
{
    if wall_path(ps, path, i) {
        if path.len() == 1 {
            assert(path[0] == i);
        } else {
            let j = path[path.len() - 2];
            assert(adj(ps, j, i));
            if j == i {
                let sub = path.take(path.len() - 1);
                assert(sub.last() == j);
                assert forall|k: int| 0 <= k < sub.len() implies 0 <= #[trigger] sub[k]
                    < ps.len() by {
                    assert(sub[k] == path[k]);
                }
                assert(sub[0] == path[0]);
                assert forall|k: int| 0 <= k < sub.len() - 1 implies adj(
                    ps,
                    #[trigger] sub[k],
                    sub[k + 1],
                ) by {
                    assert(sub[k] == path[k] && sub[k + 1] == path[k + 1]);
                }
                lemma_isolated_no_path(ps, i, sub);
                assert(wall_path(ps, sub, i));
            } else {
                assert(!spec_touch(ps[j].aabb, ps[i].aabb));
            }
        }
    }
}

/// Once the visited set is saturated and holds every wall piece, it
/// holds every wall-connected piece: chains cannot leave a saturated
/// set.
proof fn lemma_saturated_complete(ps: Seq<Piece>, vis: Seq<bool>, path: Seq<int>, i: int)
    requires
        vis.len() == ps.len(),
        saturated(ps, vis),
        forall|k: int| 0 <= k < ps.len() && on_wall(#[trigger] ps[k]) ==> vis[k],
        wall_path(ps, path, i),
    ensures
        0 <= i < ps.len() && vis[i],
    decreases path.len(),
{
    if path.len() == 1 {
        assert(path[0] == i);
    } else {
        let j = path[path.len() - 2];
        let sub = path.take(path.len() - 1);
        assert(sub.last() == j);
        assert forall|k: int| 0 <= k < sub.len() implies 0 <= #[trigger] sub[k] < ps.len() by {
            assert(sub[k] == path[k]);
        }
        assert(sub[0] == path[0]);
        assert forall|k: int| 0 <= k < sub.len() - 1 implies adj(ps, #[trigger] sub[k], sub[k + 1]) by {
            assert(sub[k] == path[k] && sub[k + 1] == path[k + 1]);
        }
        assert(wall_path(ps, sub, j));
        lemma_saturated_complete(ps, vis, sub, j);
        assert(adj(ps, j, i));
        if !vis[i] {
            assert(!adj(ps, i, j));
            assert(spec_touch(ps[j].aabb, ps[i].aabb));
            assert(false);
        }
    }
}

/// Removing the two swapped pieces keeps every invariant: what is
/// left are legal board pieces, pairwise disjoint, all disjoint from
/// the two removed rectangles.
proof fn lemma_remove2(ps: Seq<Piece>, a: Piece, b: Piece)
    requires
        board_ok(ps),
        ps.contains(a),
        ps.contains(b),
        a != b,
    ensures
        forall|i: int|
            0 <= i < remove2_spec(ps, a, b).len() ==> piece_ok(#[trigger] remove2_spec(ps, a, b)[i])
                && !spec_intersect(remove2_spec(ps, a, b)[i].aabb, a.aabb) && !spec_intersect(
                remove2_spec(ps, a, b)[i].aabb,
                b.aabb,
            ),
        forall|i: int, j: int|
            0 <= i < j < remove2_spec(ps, a, b).len() ==> !spec_intersect(
                (#[trigger] remove2_spec(ps, a, b)[i]).aabb,
                (#[trigger] remove2_spec(ps, a, b)[j]).aabb,
            ),
{
    lemma_remove2_general(ps, a, b);
    let res = remove2_spec(ps, a, b);
    let ka = choose|k: int| 0 <= k < ps.len() && ps[k] == a;
    let kb = choose|k: int| 0 <= k < ps.len() && ps[k] == b;
    assert forall|i: int| 0 <= i < res.len() implies piece_ok(#[trigger] res[i]) && !spec_intersect(
        res[i].aabb,
        a.aabb,
    ) && !spec_intersect(res[i].aabb, b.aabb) by {
        assert(ps.contains(res[i]) && res[i] != a && res[i] != b);
        let ke = choose|k: int| 0 <= k < ps.len() && ps[k] == res[i];
        assert(piece_ok(ps[ke]));
        lemma_board_pair(ps, ke, ka);
        lemma_board_pair(ps, ke, kb);
    }
    assert forall|i: int, j: int| 0 <= i < j < res.len() implies !spec_intersect(
        (#[trigger] res[i]).aabb,
        (#[trigger] res[j]).aabb,
    ) by {
        let (k, l): (int, int) = choose|k: int, l: int|
            0 <= k < l < ps.len() && (#[trigger] ps[k]) == res[i] && (#[trigger] ps[l]) == res[j];
        lemma_board_pair(ps, k, l);
    }
}

/// Structural facts about two-piece removal that hold on any run:
/// the result keeps exactly the other pieces, in order.
proof fn lemma_remove2_general(ps: Seq<Piece>, a: Piece, b: Piece)
    ensures
        forall|i: int|
            0 <= i < remove2_spec(ps, a, b).len() ==> ps.contains(#[trigger] remove2_spec(ps, a, b)[i])
                && remove2_spec(ps, a, b)[i] != a && remove2_spec(ps, a, b)[i] != b,
        forall|i: int, j: int|
            #![trigger remove2_spec(ps, a, b)[i], remove2_spec(ps, a, b)[j]]
            0 <= i < j < remove2_spec(ps, a, b).len() ==> exists|k: int, l: int|
                0 <= k < l < ps.len() && (#[trigger] ps[k]) == remove2_spec(ps, a, b)[i] && (
                #[trigger] ps[l]) == remove2_spec(ps, a, b)[j],
    decreases ps.len(),
{
    if ps.len() > 0 {
        let pre = ps.drop_last();
        lemma_remove2_general(pre, a, b);
        let res = remove2_spec(ps, a, b);
        let resp = remove2_spec(pre, a, b);
        assert forall|e: Piece| pre.contains(e) implies ps.contains(e) by {
            let k = choose|k: int| 0 <= k < pre.len() && pre[k] == e;
            assert(ps[k] == e);
        }
        assert forall|i: int, j: int|
            #![trigger res[i], res[j]]
            0 <= i < j < res.len() implies exists|k: int, l: int|
            0 <= k < l < ps.len() && (#[trigger] ps[k]) == res[i] && (#[trigger] ps[l])
                == res[j] by {
            if j < resp.len() {
                assert(res[i] == resp[i] && res[j] == resp[j]);
                let (k, l): (int, int) = choose|k: int, l: int|
                    0 <= k < l < pre.len() && (#[trigger] pre[k]) == resp[i] && (#[trigger] pre[l])
                        == resp[j];
                assert(ps[k] == res[i] && ps[l] == res[j]);
                assert(0 <= k < l < ps.len());
            } else {
                assert(res[j] == ps.last());
                assert(res[i] == resp[i]);
                assert(pre.contains(resp[i]));
                let k = choose|k: int| 0 <= k < pre.len() && pre[k] == resp[i];
                assert(ps[k] == res[i] && ps[ps.len() - 1] == res[j]);
                assert(0 <= k < ps.len() - 1);
            }
        }
    }
}

/// Two distinct indices of a legal board hold disjoint pieces,
/// whichever order they come in.
proof fn lemma_board_pair(ps: Seq<Piece>, i: int, j: int)
    requires
        board_ok(ps),
        0 <= i < ps.len(),
        0 <= j < ps.len(),
        i != j,
    ensures
        !spec_intersect(ps[i].aabb, ps[j].aabb),
        !spec_intersect(ps[j].aabb, ps[i].aabb),
{
    if i < j {
        assert(!spec_intersect(ps[i].aabb, ps[j].aabb));
    } else {
        assert(!spec_intersect(ps[j].aabb, ps[i].aabb));
    }
}

/// No two pieces of a committed board overlap: their boxes never
/// intersect with positive area.  Every constructor and mutating
/// operation ends in a state satisfying [`board_ok`], so this holds of
/// all reachable boards.
pub proof fn lemma_board_disjoint(ps: Seq<Piece>, i: int, j: int)
    requires
        board_ok(ps),
        0 <= i < ps.len(),
        0 <= j < ps.len(),
        i != j,
    ensures
        !spec_intersect(ps[i].aabb, ps[j].aabb),
{
    lemma_board_pair(ps, i, j);
}

/// Every piece of a committed board has a legal shape and lies inside
/// the unit board.
pub proof fn lemma_board_shapes(ps: Seq<Piece>, i: int)
    requires
        board_ok(ps),
        0 <= i < ps.len(),
    ensures
        spec_valid_shape(ps[i].aabb),
        piece_ok(ps[i]),
{
}

/// On a committed board every point belongs to at most one piece:
/// containment is half-open and pieces are disjoint, so when one
/// piece holds a point no other does.
pub proof fn lemma_contains_unique(ps: Seq<Piece>, pt: F2, i: int, j: int)
    requires
        board_ok(ps),
        0 <= i < ps.len(),
        0 <= j < ps.len(),
        i != j,
        spec_contains(ps[i].aabb, pt),
    ensures
        !spec_contains(ps[j].aabb, pt),
{
    if spec_contains(ps[j].aabb, pt) {
        lemma_board_pair(ps, i, j);
        assert(spec_intersect(ps[i].aabb, ps[j].aabb));
    }
}

/// A piece with a chain of touching pieces reaching the board wall is
/// never captured: the capture pass leaves it unchanged.
pub proof fn lemma_chain_to_wall_never_captured(ps: Seq<Piece>, path: Seq<int>, i: int)
    requires
        0 <= i < ps.len(),
        wall_path(ps, path, i),
    ensures
        apply_capture(ps)[i] == ps[i],
{
    assert(connected_to_wall(ps, i));
}

/// A piece with no chain of touching pieces reaching the board wall
/// is captured: the capture pass flips its colour.
pub proof fn lemma_sealed_piece_captured(ps: Seq<Piece>, i: int)
    requires
        0 <= i < ps.len(),
        !connected_to_wall(ps, i),
    ensures
        apply_capture(ps)[i] == spec_flip(ps[i]),
{
}

/// Selection distributes over concatenation, on both sides of the
/// partition.
proof fn lemma_sel_concat(s1: Seq<Piece>, s2: Seq<Piece>, s: F4)
    ensures
        sel_spec(s1 + s2, s) == sel_spec(s1, s) + sel_spec(s2, s),
        rem_spec(s1 + s2, s) == rem_spec(s1, s) + rem_spec(s2, s),
    decreases s2.len(),
{
    if s2.len() == 0 {
        assert(s1 + s2 =~= s1);
        assert(sel_spec(s1, s) + sel_spec(s2, s) =~= sel_spec(s1, s));
        assert(rem_spec(s1, s) + rem_spec(s2, s) =~= rem_spec(s1, s));
    } else {
        lemma_sel_concat(s1, s2.drop_last(), s);
        assert((s1 + s2).drop_last() =~= s1 + s2.drop_last());
        assert((s1 + s2).last() == s2.last());
        if spec_intersect(s2.last().aabb, s) {
            assert(sel_spec(s1 + s2, s) =~= sel_spec(s1, s) + sel_spec(s2, s));
            assert(rem_spec(s1 + s2, s) =~= rem_spec(s1, s) + rem_spec(s2, s));
        } else {
            assert(sel_spec(s1 + s2, s) =~= sel_spec(s1, s) + sel_spec(s2, s));
            assert(rem_spec(s1 + s2, s) =~= rem_spec(s1, s) + rem_spec(s2, s));
        }
    }
}

/// A selection nothing intersects is empty and removes nothing.
proof fn lemma_sel_none(ps: Seq<Piece>, s: F4)
    requires
        forall|j: int| 0 <= j < ps.len() ==> !spec_intersect((#[trigger] ps[j]).aabb, s),
    ensures
        sel_spec(ps, s) == Seq::<Piece>::empty(),
        rem_spec(ps, s) == ps,
    decreases ps.len(),
{
    if ps.len() > 0 {
        assert forall|j: int| 0 <= j < ps.drop_last().len() implies !spec_intersect(
            (#[trigger] ps.drop_last()[j]).aabb,
            s,
        ) by {
            assert(ps.drop_last()[j] == ps[j]);
        }
        lemma_sel_none(ps.drop_last(), s);
        assert(rem_spec(ps, s) =~= ps);
    }
}

/// A selection that exactly one piece intersects holds that piece
/// alone and removes exactly it.
proof fn lemma_sel_single(ps: Seq<Piece>, s: F4, k: int)
    requires
        0 <= k < ps.len(),
        spec_intersect(ps[k].aabb, s),
        forall|j: int| 0 <= j < ps.len() && j != k ==> !spec_intersect((#[trigger] ps[j]).aabb, s),
    ensures
        sel_spec(ps, s) == seq![ps[k]],
        rem_spec(ps, s) == ps.remove(k),
    decreases ps.len(),
{
    let pre = ps.drop_last();
    if k == ps.len() - 1 {
        assert forall|j: int| 0 <= j < pre.len() implies !spec_intersect(
            (#[trigger] pre[j]).aabb,
            s,
        ) by {
            assert(pre[j] == ps[j]);
        }
        lemma_sel_none(pre, s);
        assert(sel_spec(ps, s) =~= seq![ps[k]]);
        assert(rem_spec(ps, s) =~= ps.remove(k));
    } else {
        assert(pre[k] == ps[k]);
        assert forall|j: int| 0 <= j < pre.len() && j != k implies !spec_intersect(
            (#[trigger] pre[j]).aabb,
            s,
        ) by {
            assert(pre[j] == ps[j]);
        }
        lemma_sel_single(pre, s, k);
        assert(!spec_intersect(ps.last().aabb, s));
        assert(sel_spec(ps, s) == seq![ps[k]]);
        assert(rem_spec(ps, s) =~= pre.remove(k).push(ps.last()));
        assert(pre.remove(k).push(ps.last()) =~= ps.remove(k));
    }
}

/// Splitting a lone square piece with a vertical path through its
/// centre and then joining the two halves back with the piece's own
/// rectangle restores the piece exactly: join and split are inverses
/// on a single piece, and the board as a whole is unchanged up to
/// order.
pub proof fn lemma_split_join_inverse(ps: Seq<Piece>, k: int, color: Color, path: F4)
    requires
        board_ok(ps),
        0 <= k < ps.len(),
        ps[k].color == color,
        ps[k].aabb.w@ == ps[k].aabb.h@,
        x0(path) == x1(path),
        2 * x0(path) == 2 * x0(ps[k].aabb) + ps[k].aabb.w@,
        y0(path) == y0(ps[k].aabb),
        y1(path) == y1(ps[k].aabb),
    ensures
        split_ok(ps, color, path),
        sel_spec(ps, path) == seq![ps[k]],
        join_ok(
            rem_spec(ps, path) + split_pieces(sel_spec(ps, path), path),
            color,
            ps[k].aabb,
        ),
        joined_piece(
            rem_spec(ps, path) + split_pieces(sel_spec(ps, path), path),
            color,
            ps[k].aabb,
        ) == ps[k],
        ({
            let after = rem_spec(ps, path) + split_pieces(sel_spec(ps, path), path);
            rem_spec(after, ps[k].aabb).push(joined_piece(after, color, ps[k].aabb)).to_multiset()
                == ps.to_multiset()
        }),
{
    let pk = ps[k];
    let r = pk.aabb;
    let c = x0(path);
    assert(piece_ok(pk));
    assert(spec_intersect(r, path));
    assert forall|j: int| 0 <= j < ps.len() && j != k implies !spec_intersect(
        (#[trigger] ps[j]).aabb,
        path,
    ) by {
        if spec_intersect(ps[j].aabb, path) {
            lemma_board_pair(ps, j, k);
            assert(spec_intersect(ps[j].aabb, r));
        }
    }
    lemma_sel_single(ps, path, k);
    let sel = sel_spec(ps, path);
    let rm = rem_spec(ps, path);
    let lo = half_lo(r, path);
    let hi = half_hi(r, path);
    assert(x0(lo) == x0(r) && x1(lo) == c && y0(lo) == y0(r) && y1(lo) == y1(r));
    assert(x0(hi) == c && x1(hi) == x1(r) && y0(hi) == y0(r) && y1(hi) == y1(r));
    assert(lo.w@ == c - x0(r) && lo.h@ == r.h@);
    assert(hi.w@ == x1(r) - c && hi.h@ == r.h@);
    assert(2 * lo.w@ == r.w@ && 2 * hi.w@ == r.w@);
    assert(spec_valid_shape(lo) && spec_valid_shape(hi));
    assert(!spec_intersect(lo, hi));
    assert(halves_ok(r, path));
    assert(split_ok(ps, color, path));
    let a = Piece { aabb: lo, color: pk.color };
    let b = Piece { aabb: hi, color: pk.color };
    assert(split_pieces(sel, path) =~= seq![a, b]) by {
        assert(sel.drop_last() =~= Seq::<Piece>::empty());
        assert(split_pieces(Seq::<Piece>::empty(), path) == Seq::<Piece>::empty());
        assert(sel.last() == pk);
    }
    let after = rm + split_pieces(sel, path);
    assert forall|j: int| 0 <= j < rm.len() implies !spec_intersect((#[trigger] rm[j]).aabb, r) by {
        assert(rm == ps.remove(k));
        if j < k {
            assert(rm[j] == ps[j]);
            lemma_board_pair(ps, j, k);
        } else {
            assert(rm[j] == ps[j + 1]);
            lemma_board_pair(ps, j + 1, k);
        }
    }
    lemma_sel_none(rm, r);
    assert(spec_intersect(a.aabb, r) && spec_intersect(b.aabb, r));
    lemma_sel_concat(rm, seq![a, b], r);
    assert(sel_spec(seq![a, b], r) =~= seq![a, b]) by {
        assert(seq![a, b].drop_last() =~= seq![a]);
        assert(seq![a].drop_last() =~= Seq::<Piece>::empty());
        assert(sel_spec(Seq::<Piece>::empty(), r) == Seq::<Piece>::empty());
        assert(seq![a, b].last() == b && seq![a].last() == a);
        assert(sel_spec(seq![a], r) =~= seq![a]);
    }
    assert(rem_spec(seq![a, b], r) =~= Seq::<Piece>::empty()) by {
        assert(seq![a, b].drop_last() =~= seq![a]);
        assert(seq![a].drop_last() =~= Seq::<Piece>::empty());
        assert(rem_spec(Seq::<Piece>::empty(), r) == Seq::<Piece>::empty());
        assert(seq![a, b].last() == b && seq![a].last() == a);
        assert(rem_spec(seq![a], r) =~= Seq::<Piece>::empty());
    }
    let sel2 = sel_spec(after, r);
    assert(sel2 =~= seq![a, b]);
    assert(rem_spec(after, r) =~= rm);
    let rs = aabbs_of(sel2);
    assert(rs =~= seq![lo, hi]);
    assert(bb_x0(rs) == x0(r) && bb_x1(rs) == x1(r) && bb_y0(rs) == y0(r) && bb_y1(rs) == y1(r))
        by {
        assert(rs.drop_last() =~= seq![lo]);
        assert(rs[0] == lo && rs.last() == hi);
        assert(seq![lo].len() == 1 && seq![lo][0] == lo);
        assert(bb_x0(seq![lo]) == x0(lo) && bb_x1(seq![lo]) == x1(lo));
        assert(bb_y0(seq![lo]) == y0(lo) && bb_y1(seq![lo]) == y1(lo));
    }
    assert(pieces_bbox(sel2) == r);
    assert(total_area(sel2) == lo.w@ * lo.h@ + hi.w@ * hi.h@) by {
        assert(sel2.drop_last() =~= seq![a]);
        assert(seq![a].drop_last() =~= Seq::<Piece>::empty());
        assert(total_area(Seq::<Piece>::empty()) == 0);
        assert(sel2.last() == b && seq![a].last() == a);
        assert(total_area(seq![a]) == a.aabb.w@ * a.aabb.h@);
    }
    assert(total_area(sel2) == (bb_x1(rs) - bb_x0(rs)) * (bb_y1(rs) - bb_y0(rs)))
        by (nonlinear_arith)
        requires
            total_area(sel2) == lo.w@ * lo.h@ + hi.w@ * hi.h@,
            lo.h@ == r.h@ && hi.h@ == r.h@,
            lo.w@ + hi.w@ == r.w@,
            bb_x1(rs) - bb_x0(rs) == r.w@,
            bb_y1(rs) - bb_y0(rs) == r.h@,
    {}
    assert(join_ok(after, color, r));
    assert(joined_piece(after, color, r) == pk);
    assert(rm.push(pk).to_multiset() =~= ps.to_multiset()) by {
        rm.to_multiset_ensures();
        ps.to_multiset_ensures();
        assert(rm == ps.remove(k));
        assert(ps.remove(k).to_multiset() =~= ps.to_multiset().remove(pk));
        assert(rm.push(pk).to_multiset() =~= rm.to_multiset().insert(pk));
        assert(ps.contains(pk)) by {
            assert(ps[k] == pk);
        }
        assert(ps.to_multiset().count(pk) > 0);
    }
}

/// Whether a piece touches the board wall, executably.
fn on_wall_exec(p: &Piece) -> (r: bool)
    ensures
        r == on_wall(*p),
{
    let unit = F4 {
        x: Frac { units: 0 },
        y: Frac { units: 0 },
        w: Frac { units: SCALE },
        h: Frac { units: SCALE },
    };
    proof {
        assert(unit == unit_rect());
    }
    let n = aabb_aligned_edges(unit, p.aabb);
    n >= 1
}

/// Computes, for every piece, whether a chain of touching pieces
/// connects it to the board wall.
///
/// Starts from the pieces aligned with the board edge and saturates:
/// any piece touching a marked piece is marked, until a full pass
/// changes nothing.  Entry `i` of the result is true exactly when
/// piece `i` is wall-connected; the capture pass flips the others.
pub fn reach_from_wall(pieces: &Vec<Piece>) -> (vis: Vec<bool>)
    ensures
        vis@.len() == pieces@.len(),
        forall|i: int|
            0 <= i < pieces@.len() ==> ((#[trigger] vis@[i]) <==> connected_to_wall(pieces@, i)),
{
    let n = pieces.len();
    let mut vis: Vec<bool> = Vec::new();
    let mut i: usize = 0;
    while i < n
        invariant
            n == pieces@.len(),
            i <= n,
            vis@.len() == i as int,
            forall|k: int| 0 <= k < i ==> (#[trigger] vis@[k]) == on_wall(pieces@[k]),
        decreases n - i,
    {
        vis.push(on_wall_exec(&pieces[i]));
        i = i + 1;
    }
    proof {
        assert forall|k: int| 0 <= k < n && (#[trigger] vis@[k]) implies connected_to_wall(
            pieces@,
            k,
        ) by {
            lemma_on_wall_connected(pieces@, k);
        }
        lemma_count_bounds(vis@);
    }
    let mut changed = true;
    while changed
        invariant
            n == pieces@.len(),
            vis@.len() == n as int,
            forall|k: int| 0 <= k < n && (#[trigger] vis@[k]) ==> connected_to_wall(pieces@, k),
            forall|k: int| 0 <= k < n && on_wall(#[trigger] pieces@[k]) ==> vis@[k],
            0 <= count_true(vis@) <= n as int,
            !changed ==> saturated(pieces@, vis@),
        decreases (n as int) - count_true(vis@) + (if changed {
            1int
        } else {
            0
        }),
    {
        let ghost c0 = count_true(vis@);
        changed = false;
        let mut i: usize = 0;
        while i < n
            invariant
                n == pieces@.len(),
                vis@.len() == n as int,
                i <= n,
                forall|k: int| 0 <= k < n && (#[trigger] vis@[k]) ==> connected_to_wall(pieces@, k),
                forall|k: int| 0 <= k < n && on_wall(#[trigger] pieces@[k]) ==> vis@[k],
                0 <= count_true(vis@) <= n as int,
                c0 <= count_true(vis@),
                changed ==> c0 + 1 <= count_true(vis@),
                !changed ==> (forall|a: int, b: int|
                    0 <= a < i && 0 <= b < n && !vis@[a] && vis@[b] ==> !adj(pieces@, a, b)),
            decreases n - i,
        {
            if !vis[i] {
                let mut j: usize = 0;
                let mut hit = false;
                while j < n && !hit
                    invariant
                        n == pieces@.len(),
                        vis@.len() == n as int,
                        i < n,
                        j <= n,
                        !hit ==> (forall|b: int|
                            0 <= b < j && vis@[b] ==> !adj(pieces@, i as int, b)),
                        hit ==> (j < n && vis@[j as int] && adj(pieces@, i as int, j as int)),
                    decreases n - j + (if hit {
                        0int
                    } else {
                        1
                    }),
                {
                    if vis[j] && aabb_touch(pieces[i].aabb, pieces[j].aabb) {
                        hit = true;
                    } else {
                        j = j + 1;
                    }
                }
                if hit {
                    proof {
                        lemma_adjacent_connected(pieces@, i as int, j as int);
                        lemma_count_update(vis@, i as int);
                    }
                    vis.set(i, true);
                    changed = true;
                    proof {
                        lemma_count_bounds(vis@);
                    }
                }
            }
            i = i + 1;
        }
    }
    proof {
        assert forall|i: int| 0 <= i < n implies ((#[trigger] vis@[i]) <==> connected_to_wall(
            pieces@,
            i,
        )) by {
            if !vis@[i] && connected_to_wall(pieces@, i) {
                let path = choose|path: Seq<int>| wall_path(pieces@, path, i);
                lemma_saturated_complete(pieces@, vis@, path, i);
            }
        }
    }
    vis
}

/// The rectangle spanning two opposite corners, executably; both
/// corners must lie in the unit board.
fn span(ax: i64, ay: i64, bx: i64, by: i64) -> (r: F4)
    requires
        0 <= ax <= SCALE && 0 <= ay <= SCALE && 0 <= bx <= SCALE && 0 <= by <= SCALE,
    ensures
        r == span_rect(ax as int, ay as int, bx as int, by as int),
{
    let lx: i64 = if ax <= bx { ax } else { bx };
    let hx: i64 = if ax <= bx { bx } else { ax };
    let ly: i64 = if ay <= by { ay } else { by };
    let hy: i64 = if ay <= by { by } else { ay };
    F4 {
        x: Frac { units: lx },
        y: Frac { units: ly },
        w: Frac { units: hx - lx },
        h: Frac { units: hy - ly },
    }
}

/// Cuts one piece along the path: the two halves span from the
/// piece's corners to the opposite corners of the path clamped to the
/// piece.  Yields nothing unless both halves are legal piece shapes
/// that do not overlap each other.
fn try_split(p: &Piece, path: F4) -> (r: Option<(Piece, Piece)>)
    requires
        piece_ok(*p),
        in_range4(path),
        spec_intersect(p.aabb, path),
    ensures
        (match r {
            Some(pair) => halves_ok(p.aabb, path) && pair.0 == (Piece {
                aabb: half_lo(p.aabb, path),
                color: p.color,
            }) && pair.1 == (Piece { aabb: half_hi(p.aabb, path), color: p.color }),
            None => !halves_ok(p.aabb, path),
        }),
{
    let cut = aabb_clamp(path, p.aabb);
    proof {
        assert(x0(cut) == cut_x0(path, p.aabb));
        assert(y0(cut) == cut_y0(path, p.aabb));
        assert(x1(cut) == cut_x1(path, p.aabb));
        assert(y1(cut) == cut_y1(path, p.aabb));
        assert(0 <= x0(cut) <= SCALE && 0 <= y0(cut) <= SCALE);
        assert(0 <= x1(cut) <= SCALE && 0 <= y1(cut) <= SCALE);
    }
    let c_x0: i64 = cut.x.units;
    let c_y0: i64 = cut.y.units;
    let c_x1: i64 = cut.x.units + cut.w.units;
    let c_y1: i64 = cut.y.units + cut.h.units;
    let lo = span(p.aabb.x.units, p.aabb.y.units, c_x1, c_y1);
    let hi = span(
        p.aabb.x.units + p.aabb.w.units,
        p.aabb.y.units + p.aabb.h.units,
        c_x0,
        c_y0,
    );
    let first = match (Piece { aabb: lo, color: p.color }).check() {
        Some(q) => q,
        None => {
            return None;
        },
    };
    let second = match (Piece { aabb: hi, color: p.color }).check() {
        Some(q) => q,
        None => {
            return None;
        },
    };
    if aabb_intersect(lo, hi) {
        return None;
    }
    Some((first, second))
}

/// Whether a piece may sit on a committed board, executably.
fn piece_ok_exec(p: &Piece) -> (r: bool)
    ensures
        r == piece_ok(*p),
{
    let px: i128 = p.aabb.x.units as i128;
    let py: i128 = p.aabb.y.units as i128;
    let pw: i128 = p.aabb.w.units as i128;
    let ph: i128 = p.aabb.h.units as i128;
    is_valid_shape(p.aabb) && px >= 0 && px + pw <= SCALE as i128 && py >= 0 && py + ph
        <= SCALE as i128
}

/// The thirty-six starting cells are legal pieces and pairwise
/// disjoint.
proof fn lemma_start_board_ok(ps: Seq<Piece>)
    requires
        ps.len() == 36,
        forall|k: int| 0 <= k < 36 ==> (#[trigger] ps[k]) == start_piece(k),
    ensures
        board_ok(ps),
{
    assert forall|k: int| 0 <= k < ps.len() implies piece_ok(#[trigger] ps[k]) by {
        assert(ps[k] == start_piece(k));
        vstd::arithmetic::div_mod::lemma_fundamental_div_mod(k, 6);
        assert(0 <= k / 6 < 6 && 0 <= k % 6 < 6);
    }
    assert forall|i: int, j: int| 0 <= i < j < ps.len() implies !spec_intersect(
        #[trigger] ps[i].aabb,
        #[trigger] ps[j].aabb,
    ) by {
        assert(ps[i] == start_piece(i));
        assert(ps[j] == start_piece(j));
        vstd::arithmetic::div_mod::lemma_fundamental_div_mod(i, 6);
        vstd::arithmetic::div_mod::lemma_fundamental_div_mod(j, 6);
        assert(0 <= i / 6 < 6 && 0 <= i % 6 < 6);
        assert(0 <= j / 6 < 6 && 0 <= j % 6 < 6);
        if i / 6 == j / 6 && i % 6 == j % 6 {
            assert(i == j);
        }
    }
}

} // verus!
