//! Reversible-circuit obfuscation and reduction toolkit over ORNB gates
//! (`target ^= ctrl1 | !ctrl2`), with machine-checked contracts.
pub mod infra;
pub mod hashing;
pub mod reducer;
pub mod optimize;
pub mod obfuscate;
pub mod algorithms;
pub mod analysis;
pub mod config;
