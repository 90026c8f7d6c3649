//! Verified core of a terminal 2048 game.
//!
//! The board is a 4x4 grid of cells, each empty (0) or holding a tile whose
//! value is a power of two at least 2. Moves slide tiles toward one edge and
//! merge equal neighbours; a merge adds the merged value to the score. New
//! tiles appear in randomly chosen empty cells. The sliding, merging and
//! scoring rules are specified and proved here; the terminal front end only
//! forwards key presses and displays the rendered board.

mod engine;
mod model;
mod render;
mod rng;

pub use engine::GameState;
pub use model::Direction;
