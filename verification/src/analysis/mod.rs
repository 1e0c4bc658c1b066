//! Analyses of how states evolve through a circuit, and per-wire statistics.
pub mod alignment;
pub mod wires;
