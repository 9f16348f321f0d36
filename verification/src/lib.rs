//! Verified core of a sliding-tile (N-puzzle) solver.
//!
//! The library models boards as permutations of `0..n*n` (0 is the blank),
//! computes admissible heuristic distances (Hamming, Manhattan,
//! Manhattan-with-linear-conflict), and runs two search engines, A* and
//! IDA*, over a node arena with verified bookkeeping.

use vstd::prelude::*;

mod algo;
mod coord;
mod grid;
mod node;
mod parse;
mod puzzle_gen;
mod state;
mod utils;

verus! {

pub use crate::parse::expect_gscore;
pub use crate::parse::expect_size;
pub use crate::parse::expect_weight;
pub use crate::parse::parser;
pub use crate::parse::sort_check_and_dedup;
pub use crate::puzzle_gen::create_snail_goal;
pub use crate::utils::remove_comment_by_line;
pub use crate::utils::snail_sort;

pub use crate::algo::AType;
pub use crate::algo::Algo;
pub use crate::coord::Coord;
pub use crate::grid::Grid;
pub use crate::grid::HType;
pub use crate::grid::Move;
pub use crate::node::Node;
pub use crate::state::State;

} // verus!
