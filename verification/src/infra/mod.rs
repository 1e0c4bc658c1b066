//! Core circuit model and storage-facing helpers.
pub mod circuit;
pub mod ids_index;
pub mod kv;
pub mod random;
pub mod search;
pub mod sat_witness;
pub mod store;
