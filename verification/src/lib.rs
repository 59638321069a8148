//! Parallel chunked aggregation core for semicolon-delimited `key;value`
//! records: a chunk planner that cuts a byte buffer at record boundaries,
//! a fixed-point numeric parser, a record scanner that accumulates per-key
//! statistics, and a merge step that folds per-chunk tables into one table.

use vstd::prelude::*;

pub mod engine;
pub mod parser;
pub mod planner;
pub mod records;
pub mod scan;
pub mod table;

verus! {

/// Why an aggregation run failed. A format error (a line without a
/// delimiter, a malformed value, or trailing bytes without a terminator)
/// marks bad input; an alignment error (no terminator within the excess
/// margin around a claimed offset) marks a tuning problem and is reported
/// distinctly.
#[derive(Clone, Copy, Debug, PartialEq, Eq, Structural)]
pub enum AggError {
    Format,
    Alignment,
}

} // verus!
