//! Verified core of a `wc`-style text-statistics utility: an option set of
//! requested metrics, a counting engine over decoded text, a fixed-width
//! formatter, and an aggregator for running totals.

pub mod engine;
pub mod format;
pub mod options;
pub mod run;
