//! Local circuit optimization: subcircuit extraction, truth tables,
//! replacement, and the messages of the external optimizers.
pub mod compress_sat;
pub mod python_bridge;
pub mod replacement;
pub mod subcircuit;
pub mod truth_table;

pub use python_bridge::{OptimizeRequest, OptimizeResponse};
pub use replacement::{replace_subcircuit, verify_equivalence};
pub use subcircuit::{extract_by_wire_window, extract_subcircuit, SubCircuit};
pub use truth_table::compute_truth_tables;
