//! Longest correctly bracketed substring of a cyclic string.
//!
//! A string is treated as cyclic: its end wraps around to its beginning.
//! The scanner finds the longest contiguous substring that is correctly
//! bracketed — round, square and curly brackets properly nested and matched
//! by kind, with any other character neutral — or reports that the balanced
//! run is at least one full cycle long, so the pattern repeats without bound.

pub mod balance;
pub mod scan;
