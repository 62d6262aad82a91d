//! Exact counting of knight's tours on an N-by-N board.
//!
//! The search is an explicit-stack depth-first traversal driven by a
//! precomputed move table. A breadth-first frontier expansion splits the
//! single exhaustive search into independent units, so that callers can run
//! them on as many workers as they like; the per-unit counts are reduced by a
//! plain sum, which makes the totals independent of scheduling.

pub mod count;
pub mod dfs;
pub mod frontier;
pub mod jumps;
pub mod orchestrator;
pub mod state;

use vstd::prelude::*;

verus! {

/// Errors reported before or during a search.
#[derive(Clone, Copy, Debug, PartialEq, Eq, Structural)]
pub enum Error {
    /// The board width is below 3: no knight move fits on such a board.
    WidthTooSmall,
    /// The board width does not fit the 8-bit square encoding.
    WidthTooLarge,
    /// A tour counter would exceed its integer range.
    CounterOverflow,
    /// The start square is not on the board.
    StartOutOfRange,
    /// The frontier depth is at least the number of squares, so full paths
    /// would be dropped from the expansion.
    DepthTooLarge,
}

} // verus!
