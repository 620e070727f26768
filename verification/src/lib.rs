//! Membership tables over labelled sets: which combination of sources each
//! distinct value belongs to.
//!
//! - `setidx`: combinations of source indices, their encodings as bit
//!   vectors and decimal numbers, and the generator of all combinations
//!   within a range of depths.
//! - `counting`: what the generated combinations are and how many.
//! - `valueset`: sets of values.
//! - `multiset`: one set of values per source, and the membership records
//!   of the values over a list of combinations.
//! - `text`: fields of a line, decimal numbers, the order of strings.
//! - `facade`: from input lines to the header and the rows of the table.

pub mod counting;
pub mod facade;
pub mod multiset;
pub mod setidx;
pub mod text;
pub mod valueset;
