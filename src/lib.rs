//! Parameter sweeps: expands declared parameter expressions into combinations,
//! harvests numeric metrics from command output, and keeps a resumable CSV
//! store of results.

pub mod text;
pub mod expr;
pub mod deps;
pub mod evaluator;
pub mod metrics;
pub mod csv;
pub mod parser;
pub mod executor;
pub mod daemon;
