//! Local mixing and reduction, and the annealing moves.
pub mod anneal;
pub mod local;
