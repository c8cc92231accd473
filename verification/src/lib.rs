//! Rules engine for a territory-capture board game played on rectangular
//! pieces that tile a unit square board.
//!
//! The engine is built from two layers:
//!
//! * exact scalar arithmetic and axis-aligned rectangle geometry
//!   ([`frac`], [`math`]), and
//! * the board itself with its four state-changing operations — join,
//!   split, swap and the capture pass that swap triggers ([`board`]).
//!
//! Every operation is atomic: it either commits a replacement piece set
//! that again satisfies the board invariants (pieces of legal shape,
//! pairwise disjoint, inside the unit board) or leaves the board
//! untouched and reports no result.

pub mod frac;
pub mod math;
pub mod board;

pub use frac::{Frac, SCALE, RANGE};
pub use math::{F2, F4, Area};
pub use board::{Board, Piece, Color, BLACK, WHITE, CELL};
