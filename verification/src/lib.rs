//! Rules engine for a block-placement puzzle on a 9×9 board: the board's
//! occupancy bitmap, the minos and their rigid transforms, placement, and
//! the detection and clearing of full rows, columns and boxes.

mod bits;
pub mod board;
pub mod clearing;
pub mod game;
pub mod mino;
pub mod placement;
pub mod score;
mod seq_facts;
pub mod util;

pub use board::{
    Board, OutOfBounds, PlaceError, Position, SquareIndex, WouldRemove, BOARD_SIZE,
};
pub use game::{CellLook, Game, MinoState, TILE_BATCH_SIZE};
pub use mino::{Mino, MINO_SIZE};
pub use score::score_text;
pub use util::{grid_fmt, min_bytes_for_bits, Coordinate, SplatExt};
