//! Move generation for a two-player, grid territory game.
//!
//! Each turn the engine receives the board and a piece.  The placement
//! finder lists every anchor at which the piece may legally be laid down,
//! and the move selector picks the anchor closest to the opponent.

pub mod distance;
pub mod grid;
pub mod placement;
pub mod scan;
pub mod selector;
pub mod symbols;
pub mod turn;

pub use distance::manhattan_distance;
pub use grid::{is_rectangular, matrix_width};
pub use placement::{find_valid_placements, is_legal_placement};
pub use selector::{anchor_score, find_opponent_cells, select_move};
pub use symbols::player_symbols;
pub use turn::decide_move;
