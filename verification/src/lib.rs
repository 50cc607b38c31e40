//! Photo mosaics: a master image is cut into a grid of cells, every cell is
//! compared with every tile, and a solver picks the tile that each cell
//! shows, with a limit on how often a tile may be used.
//!
//! - [`master`] cuts the master image into cells; [`buffer`] holds the pixels.
//! - [`metrics`] measure how far a tile is from a cell, and
//!   [`distance_matrix`] holds the costs of all pairs.
//! - [`solvers`] assign tiles to cells: [`Hungarian`] at the least total
//!   cost, [`Greedy`] fast, [`Auction`] by bidding. [`lsap`] is the search
//!   behind the first, and [`assignment`] says what a valid assignment is.
//! - [`mosaic`] and [`blueprint`] turn an assignment into an image, at once
//!   or by way of a plan.
//!
//! Every function of this crate carries a contract that is proved. The
//! three functions in [`buffer`] that hand pixels to the `image` crate are
//! marked; their contracts are the only statements taken on trust.

pub mod assignment;
pub mod blueprint;
pub mod buffer;
pub mod color_match;
pub mod distance_matrix;
pub mod error;
pub mod lsap;
pub mod master;
pub mod metrics;
pub mod mosaic;
pub mod solvers;
pub mod two_numbers;
pub mod utils;

pub use blueprint::Blueprint;
pub use buffer::RgbBuffer;
pub use distance_matrix::DistanceMatrix;
pub use master::Master;
pub use metrics::avg_color;
pub use metrics::norm_l1;
pub use metrics::norm_l2;
pub use mosaic::Mosaic;
pub use solvers::auction::Auction;
pub use solvers::greedy::Greedy;
pub use solvers::hungarian::Hungarian;
pub use solvers::Solve;
pub use solvers::SolverConfig;
