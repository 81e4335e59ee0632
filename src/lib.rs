//! Digram texture of a byte stream: every pair of adjacent bytes is counted
//! in a 256 by 256 grid, and the grid is turned into intensities in the unit
//! interval by a logarithmic, max-scaled rule.

pub mod histogram;
pub mod intensity;
pub mod pairs;

pub use histogram::{Histogram, CELLS, SIDE};
pub use intensity::{digram_intensities, intensity, normalize, Intensity};
pub use pairs::{byte_pairs, PairExtractor};
