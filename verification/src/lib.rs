//! Approximate matching of city names.
//!
//! A query string is compared against the names of a fixed set of city
//! records. The names that are close enough are ranked by closeness and
//! mapped back to their records.

pub mod score;
pub mod text;
pub mod similarity;
pub mod record;
pub mod index;
pub mod ranker;
pub mod resolver;
pub mod assembler;
pub mod search;
