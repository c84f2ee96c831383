//! Aggregation of weather-station readings ("one billion row challenge"):
//! parsing `name;temperature` lines into fixed-point integers, folding them
//! into per-station minimum / mean / maximum statistics, splitting a file into
//! newline-aligned chunks that can be aggregated independently, merging the
//! partial results, and rendering the summary text.

pub mod search;
pub mod reading;
pub mod model;
pub mod input;
pub mod table;
pub mod threaded;
pub mod baseline;
