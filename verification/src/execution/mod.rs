//! Statement execution.

pub mod execution;
pub mod report;
