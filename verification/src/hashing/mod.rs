//! Content hashing of circuits and gate windows.
pub mod canonical;
