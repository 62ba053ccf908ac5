//! Solver for a 3x3 numbered-tile scratch game: nine cells hide a permutation
//! of the digits 0 through 8, cells are revealed one at a time, and the player
//! finally cashes in one of eight lines whose digit sum maps to a payout tier.
//!
//! The library canonicalizes boards under the square's symmetry group,
//! compresses canonical boards into 32-bit memoization keys, and searches the
//! remaining permutations exhaustively to recommend the reveal or line with
//! the highest expected payout, together with the exact integer distribution
//! of outcomes over the sixteen payout tiers.

pub mod board;
pub mod canon;
pub mod digit_set;
pub mod game;
pub mod lines;
pub mod payout;
pub mod solver;
pub mod transform;

use vstd::prelude::*;

verus! {

/// Sentinel value held by a cell whose digit has not been revealed yet.
pub const HIDDEN: u8 = 255;

} // verus!
