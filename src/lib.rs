//! Finds pairs of primers whose first occurrences in a sequence record
//! delimit an amplicon, with case-insensitive wildcard matching.
//!
//! - `matcher`: the wildcard search of one pattern in a sequence.
//! - `primers`: the primer table, keyed by id.
//! - `scanner`: the scan of one record against every pair of primers.
//! - `pipeline`: what a run over many records yields.
//! - `workers`: how many workers scan in parallel.

pub mod matcher;
pub mod pipeline;
pub mod primers;
pub mod scanner;
pub mod workers;
