//! Error values of the solvers.

use vstd::prelude::*;

verus! {

/// Why a solver produced no assignment.
#[derive(Debug, Clone, Copy, PartialEq, Eq)]
pub enum SolverError {
    /// The shortest augmenting path search failed.
    HungarianError(HungarianError),
    /// The auction ended with a row that no column could take.
    AuctionError(AuctionError),
    /// The matrix has fewer columns than `rows * max_tile_occurrences`.
    TooFewColumns { rows: usize, columns: usize },
    /// The configuration allows no tile to be used at all.
    ConfigError,
}

/// Failures of the shortest augmenting path search.
#[derive(Debug, Clone, Copy, PartialEq, Eq)]
pub enum HungarianError {
    /// Some row cannot be matched to any free column.
    Infeasible,
}

/// Failures of the auction.
#[derive(Debug, Clone, Copy, PartialEq, Eq)]
pub enum AuctionError {
    /// A row found no column that may still be used.
    UnassignedAgents,
}

} // verus!
