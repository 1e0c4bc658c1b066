//! Obfuscation and reduction algorithms.
pub mod annealing;
pub mod butterfly;
pub mod identity_growth;
pub mod local_rewrite;
pub mod shuffle_bitflip;
