//! A compact codec between a sliding-puzzle board of sixteen tiles and a
//! packed 64-bit word that keeps one field for each position, all of them
//! within its low fifty bits.
//!
//! `Board::array_to_hash` packs a board and `Board::hash_to_array` unpacks a
//! word. The module `round_trip` states on which boards the second undoes
//! the first, and on which the packed word stays within the fifty bits.

pub mod bitset;
pub mod board;
pub mod layout;
pub mod round_trip;

pub use bitset::{get_nth_unused_val, num_previous_vals_used};
pub use board::{Board, BoardArray, BoardError, BoardHash, SomeBoard, START_BOARD};
pub use layout::HASH_LIMIT;
