//! A Bloom filter: a fixed-size bit array with hash-derived positions,
//! supporting insertion and approximate membership tests with no false
//! negatives and a tunable false-positive rate.

pub mod bits;
pub mod filter;
pub mod hashing;
pub mod sizing;

pub use crate::filter::BloomFilter;
pub use crate::filter::FilterError;
