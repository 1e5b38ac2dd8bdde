//! Search for numbers of high multiplicative persistence.
//!
//! A candidate is a sequence of decimal digits, least significant first.
//! `persistence` collapses a candidate by multiplying its digits until one
//! digit is left, `enumerator` walks the candidates in a fixed order that
//! skips the digits 0, 1 and 5, and `search` holds the decisions of one
//! worker and the table of progress counts.

pub mod big;
pub mod digits;
pub mod enumerator;
pub mod persistence;
pub mod search;
