//! Error values of the crate.

use crate::solvers::error::SolverError;
use vstd::prelude::*;

verus! {

/// The error type of the `image` crate, carried through unread.
#[verifier::external_type_specification]
#[verifier::external_body]
pub struct ExImageError(image::ImageError);

/// Any failure that a function of this crate reports.
#[derive(Debug)]
pub enum PhomoError {
    /// The mosaic could not be put together.
    MosaicError(MosaicError),
    /// The master image could not be cut into its grid.
    MasterError(MasterError),
    /// A solver refused its input or found no assignment.
    SolverError(SolverError),
    /// The cost matrix was malformed.
    DistanceMatrixError(DistanceMatrixError),
    /// A tile could not be copied into the mosaic image.
    ImageError(image::ImageError),
}

/// What can go wrong with a master image.
#[derive(Debug)]
pub enum MasterError {
    /// The image could not be handled by the `image` crate.
    ImageError(image::ImageError),
    /// The image dimensions are not multiples of the grid dimensions.
    GridSizeMismatch {
        grid_size: (u32, u32),
        master_dimensions: (u32, u32),
        cell_size: (u32, u32),
    },
}

/// What can go wrong when a mosaic is assembled.
#[derive(Debug, PartialEq, Eq)]
#[allow(inconsistent_fields)]
pub enum MosaicError {
    /// The cost matrix does not have one row per cell and a column for every tile.
    DistanceMatrixSizeMismatch { expected: (usize, usize), found: (usize, usize) },
    /// There is not exactly one assignment per cell.
    InvalidAssignmentsLength { expected: usize, found: usize },
    /// A tile does not have the dimensions of a grid cell.
    TileSizeMismatch { expected: (u32, u32), found: (u32, u32) },
    /// Even with repeats there are fewer tiles than cells.
    InsufficientTiles { provided: usize, required: usize, max_occurrences: usize },
    /// A placement names a tile that does not exist.
    InvalidTileIndex(usize),
    /// Any other failure, described in words.
    Custom(String),
}

/// What can go wrong when a cost matrix is made.
#[derive(Debug, Clone, Copy, PartialEq, Eq)]
pub enum DistanceMatrixError {
    /// The data does not hold `rows * columns` entries.
    WrongLength,
    /// The matrix has no column.
    EmptyCol,
    /// The matrix has no row.
    EmptyRow,
}

} // verus!
