//! The registry of trading signals.

pub mod submission;
