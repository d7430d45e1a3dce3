//! Failure triage: turns raw build and test output into structured errors,
//! clusters them by likely root cause and proposes an order in which to fix
//! them.

pub mod text;
pub mod parse;
pub mod triage;
pub mod cli;
pub mod error;
pub mod report;
