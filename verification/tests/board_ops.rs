use crumble::board::{reach_from_wall, Board, BLACK, WHITE};
use crumble::{Frac, Piece, F2, F4};

fn fr(num: i64, den: i64) -> Frac {
    Frac::new(num, den).unwrap()
}

fn rect(x: (i64, i64), y: (i64, i64), w: (i64, i64), h: (i64, i64)) -> F4 {
    F4::new(fr(x.0, x.1), fr(y.0, y.1), fr(w.0, w.1), fr(h.0, h.1))
}

fn cell_rect(x: i64, y: i64) -> F4 {
    rect((x, 6), (y, 6), (1, 6), (1, 6))
}

fn cell_center(x: i64, y: i64) -> F2 {
    F2::new(fr(2 * x + 1, 12), fr(2 * y + 1, 12))
}

fn unit_rect() -> F4 {
    rect((0, 1), (0, 1), (1, 1), (1, 1))
}

/// A vertical path of zero width through the centre of a cell,
/// spanning its full height.
fn cell_center_path(x: i64, y: i64) -> F4 {
    rect((2 * x + 1, 12), (y, 6), (0, 1), (1, 6))
}

fn cell_piece(x: i64, y: i64) -> Piece {
    Piece { aabb: cell_rect(x, y), color: (x + y) % 2 != 0 }
}

#[test]
fn starting_board_has_36_checkerboard_cells() {
    let board = Board::new_starting();
    let all = board.select(unit_rect());
    assert_eq!(all.len(), 36);
    for x in 0..6 {
        for y in 0..6 {
            let piece = board.select_one(cell_center(x, y)).unwrap();
            assert_eq!(piece.aabb, cell_rect(x, y));
            assert_eq!(piece.aabb.size().x, fr(1, 6));
            assert_eq!(piece.aabb.size().y, fr(1, 6));
            assert_eq!(piece.color, (x + y) % 2 != 0, "cell ({}, {})", x, y);
        }
    }
}

#[test]
fn split_then_join_restores_the_piece() {
    let mut board = Board::new_starting();
    let halves = board.split(BLACK, cell_center_path(0, 0)).unwrap();
    assert_eq!(halves.len(), 2);
    assert_eq!(halves[0].aabb, rect((0, 6), (0, 6), (1, 12), (1, 6)));
    assert_eq!(halves[1].aabb, rect((1, 12), (0, 6), (1, 12), (1, 6)));
    assert!(halves.iter().all(|h| h.color == BLACK));
    assert_eq!(board.select(unit_rect()).len(), 37);

    let joined = board.join(BLACK, cell_rect(0, 0)).unwrap();
    assert_eq!(joined, cell_piece(0, 0));
    assert_eq!(board.select(unit_rect()).len(), 36);
    assert_eq!(board.select_one(cell_center(0, 0)).unwrap(), cell_piece(0, 0));
}

#[test]
fn failed_join_leaves_the_board_unchanged() {
    let mut board = Board::new_starting();
    let before = board.select(unit_rect());
    // Cell (0, 0) is Black: a White join over it must fail.
    assert!(board.join(WHITE, cell_rect(0, 0)).is_none());
    // Two adjacent cells never share a colour on the starting board.
    assert!(board.join(BLACK, rect((0, 6), (0, 6), (2, 6), (1, 6))).is_none());
    assert_eq!(board.select(unit_rect()), before);
}

#[test]
fn join_of_a_single_piece_returns_it() {
    let mut board = Board::new_starting();
    let joined = board.join(BLACK, cell_rect(0, 0)).unwrap();
    assert_eq!(joined, cell_piece(0, 0));
    assert_eq!(board.select(unit_rect()).len(), 36);
}

#[test]
fn split_a_tall_half_into_squares() {
    let mut board = Board::new_starting();
    board.split(BLACK, cell_center_path(0, 0)).unwrap();
    // A horizontal cut through the centre of the left, upright half.
    let path = rect((0, 6), (1, 12), (1, 12), (0, 1));
    let quads = board.split(BLACK, path).unwrap();
    assert_eq!(quads.len(), 2);
    assert_eq!(quads[0].aabb, rect((0, 6), (0, 6), (1, 12), (1, 12)));
    assert_eq!(quads[1].aabb, rect((0, 6), (1, 12), (1, 12), (1, 12)));
    assert_eq!(board.select(unit_rect()).len(), 38);
}

#[test]
fn join_of_two_pieces_makes_a_domino() {
    let a = Piece { aabb: cell_rect(0, 0), color: BLACK };
    let b = Piece { aabb: cell_rect(1, 0), color: BLACK };
    let mut board = Board::from_pieces(vec![a, b]).unwrap();
    let joined = board.join(BLACK, rect((0, 6), (0, 6), (2, 6), (1, 6))).unwrap();
    assert_eq!(joined.aabb, rect((0, 6), (0, 6), (2, 6), (1, 6)));
    assert_eq!(joined.color, BLACK);
    assert_eq!(board.select(unit_rect()).len(), 1);
}

#[test]
fn join_over_a_gap_fails() {
    // Two same-coloured squares a cell apart: their bounding box is
    // not exactly tiled, so the join must fail and change nothing.
    let a = Piece { aabb: cell_rect(0, 0), color: BLACK };
    let b = Piece { aabb: cell_rect(2, 0), color: BLACK };
    let mut board = Board::from_pieces(vec![a, b]).unwrap();
    let before = board.select(unit_rect());
    assert!(board.join(BLACK, rect((0, 6), (0, 6), (3, 6), (1, 6))).is_none());
    assert_eq!(board.select(unit_rect()), before);
}

#[test]
fn failed_split_leaves_the_board_unchanged() {
    let mut board = Board::new_starting();
    let before = board.select(unit_rect());
    // The whole board holds both colours: an all-board split fails.
    assert!(board.split(BLACK, unit_rect()).is_none());
    // Wrong colour on a single cell.
    assert!(board.split(WHITE, cell_center_path(0, 0)).is_none());
    // An off-centre cut makes a half of illegal proportions.
    let off_center = rect((1, 24), (0, 6), (0, 1), (1, 6));
    assert!(board.split(BLACK, off_center).is_none());
    assert_eq!(board.select(unit_rect()), before);
}

#[test]
fn swap_flips_both_adjacent_pieces() {
    let mut board = Board::new_starting();
    let from = board.select_one(cell_center(0, 0)).unwrap();
    let to = board.select_one(cell_center(1, 0)).unwrap();
    assert_eq!(from.color, BLACK);
    assert_eq!(to.color, WHITE);
    let dst = board.swap(BLACK, from, to).unwrap();
    assert_eq!(dst.aabb, cell_rect(1, 0));
    assert_eq!(dst.color, BLACK);
    assert_eq!(board.select_one(cell_center(1, 0)).unwrap().color, BLACK);
    assert_eq!(board.select_one(cell_center(0, 0)).unwrap().color, WHITE);
    assert_eq!(board.select(unit_rect()).len(), 36);
}

#[test]
fn swap_rejects_wrong_colour_and_non_adjacent_pieces() {
    let mut board = Board::new_starting();
    let before = board.select(unit_rect());
    let p00 = board.select_one(cell_center(0, 0)).unwrap();
    let p10 = board.select_one(cell_center(1, 0)).unwrap();
    let p11 = board.select_one(cell_center(1, 1)).unwrap();
    let p30 = board.select_one(cell_center(3, 0)).unwrap();
    // `from` must have the player's colour.
    assert!(board.swap(WHITE, p00, p10).is_none());
    // Diagonal neighbours share only a corner.
    assert!(board.swap(BLACK, p00, p11).is_none());
    // Distant pieces share no edge at all.
    assert!(board.swap(BLACK, p00, p30).is_none());
    assert_eq!(board.select(unit_rect()), before);
}

#[test]
fn swap_into_a_sealed_position_is_rejected() {
    // Two pieces floating in the middle of the board, cut off from the
    // wall: recolouring the destination would capture it at once, so
    // the swap must fail and leave the board exactly as it was.
    let a = Piece { aabb: cell_rect(2, 2), color: BLACK };
    let b = Piece { aabb: cell_rect(3, 2), color: WHITE };
    let mut board = Board::from_pieces(vec![a, b]).unwrap();
    let before = board.select(unit_rect());
    assert!(board.swap(BLACK, a, b).is_none());
    assert_eq!(board.select(unit_rect()), before);
}

#[test]
fn swap_with_a_chain_to_the_wall_succeeds() {
    // The destination connects to the wall through touching pieces.
    let a = Piece { aabb: cell_rect(2, 2), color: BLACK };
    let b = Piece { aabb: cell_rect(3, 2), color: WHITE };
    let c = Piece { aabb: cell_rect(4, 2), color: WHITE };
    let d = Piece { aabb: cell_rect(5, 2), color: WHITE };
    // d touches the right wall, so every piece in the row survives.
    let mut board = Board::from_pieces(vec![a, b, c, d]).unwrap();
    let dst = board.swap(BLACK, a, b).unwrap();
    assert_eq!(dst.aabb, cell_rect(3, 2));
    assert_eq!(dst.color, BLACK);
    assert_eq!(board.select_one(cell_center(2, 2)).unwrap().color, WHITE);
}

#[test]
fn swap_captures_a_sealed_bystander() {
    // A and B sit on the wall; C floats alone in the middle.  The swap
    // of A and B stands, and C — cut off from the wall — is captured
    // and recoloured as a side effect of the same pass.
    let a = Piece { aabb: cell_rect(0, 0), color: BLACK };
    let b = Piece { aabb: cell_rect(1, 0), color: WHITE };
    let c = Piece { aabb: cell_rect(3, 3), color: WHITE };
    let mut board = Board::from_pieces(vec![a, b, c]).unwrap();
    let dst = board.swap(BLACK, a, b).unwrap();
    assert_eq!(dst.aabb, cell_rect(1, 0));
    assert_eq!(dst.color, BLACK);
    assert_eq!(board.select_one(cell_center(3, 3)).unwrap().color, BLACK);
}

#[test]
fn wall_reachability_follows_touching_chains() {
    let floating = Piece { aabb: cell_rect(2, 2), color: BLACK };
    let corner = Piece { aabb: cell_rect(0, 0), color: WHITE };
    let bridge = Piece { aabb: cell_rect(1, 1), color: BLACK };

    // A piece alone in the middle of the board reaches nothing.
    assert_eq!(reach_from_wall(&vec![floating]), vec![false]);
    // A piece on the board edge reaches the wall by itself.
    assert_eq!(reach_from_wall(&vec![corner]), vec![true]);
    // Corner-touching pieces carry the connection inwards.
    assert_eq!(reach_from_wall(&vec![floating, bridge, corner]), vec![true, true, true]);
    // Two pieces touching only each other stay cut off.
    let adrift = Piece { aabb: cell_rect(3, 2), color: WHITE };
    assert_eq!(reach_from_wall(&vec![floating, adrift]), vec![false, false]);
}

#[test]
fn from_pieces_rejects_illegal_boards() {
    let a = Piece { aabb: cell_rect(0, 0), color: BLACK };
    // Overlapping pieces.
    let overlap = Piece { aabb: rect((1, 12), (0, 6), (1, 6), (1, 6)), color: WHITE };
    assert!(Board::from_pieces(vec![a, overlap]).is_none());
    // A piece reaching outside the unit board.
    let outside = Piece { aabb: rect((5, 6), (0, 6), (1, 3), (1, 3)), color: WHITE };
    assert!(Board::from_pieces(vec![outside]).is_none());
    // A piece of illegal proportions.
    let tall = Piece { aabb: rect((0, 6), (0, 6), (1, 6), (1, 2)), color: BLACK };
    assert!(Board::from_pieces(vec![tall]).is_none());
    // A legal pair is accepted.
    let b = Piece { aabb: cell_rect(1, 0), color: WHITE };
    assert!(Board::from_pieces(vec![a, b]).is_some());
}

#[test]
fn piece_check_and_flip() {
    let square = Piece { aabb: cell_rect(0, 0), color: BLACK };
    assert_eq!(square.check(), Some(square));
    let bad = Piece { aabb: rect((0, 1), (0, 1), (1, 2), (1, 6)), color: BLACK };
    assert_eq!(bad.check(), None);
    let flipped = square.flip();
    assert_eq!(flipped.aabb, square.aabb);
    assert_eq!(flipped.color, WHITE);
    assert_eq!(flipped.flip(), square);
}
