//! Statistics and a histogram of the integers in a delimited text.
pub mod bars;
pub mod bins;
pub mod histogram;
pub mod laws;
pub mod samples;
pub mod stats;
pub mod text;

pub use bars::BinRow;
pub use bins::{HistogramInt, RangeError};
pub use histogram::{get_histogram, Args, HistogramError};
pub use stats::{get_statistics, ParseError, Statistics};
