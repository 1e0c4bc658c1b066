use local_mixing::infra::circuit::CircuitSeq;
use local_mixing::optimize::python_bridge::{optimize_request, optimized_gates, OptimizeResponse};
use local_mixing::optimize::replacement::{replace_subcircuit, verify_equivalence, verify_equivalence_exhaustive};
use local_mixing::optimize::subcircuit::{extract_by_indices, extract_subcircuit};
use local_mixing::optimize::truth_table::{compute_truth_tables, compute_truth_tables_original};

#[test]
fn test_extract_subcircuit() {
    let circuit = CircuitSeq {
        gates: vec![[0, 1, 2], [1, 2, 3], [2, 0, 1], [3, 1, 0]],
    };

    let sub = extract_subcircuit(&circuit, 1, 2);

    assert_eq!(sub.num_gates(), 2);
    assert_eq!(sub.gates[0], [1, 2, 3]);
    assert_eq!(sub.gates[1], [2, 0, 1]);
    assert_eq!(sub.original_indices, vec![1, 2]);
}

#[test]
fn test_input_output_wires() {
    let circuit = CircuitSeq {
        gates: vec![[1, 0, 2], [2, 1, 0]],
    };

    let sub = extract_subcircuit(&circuit, 0, 2);

    assert!(sub.input_wires.contains(&0));
    assert!(sub.input_wires.contains(&2));

    assert!(sub.output_wires.contains(&1));
    assert!(sub.output_wires.contains(&2));
}

#[test]
fn test_identity_truth_table() {
    let circuit = CircuitSeq { gates: vec![] };
    let sub = extract_subcircuit(&circuit, 0, 0);
    let tables = compute_truth_tables(&sub);

    assert!(tables.is_empty());
}

#[test]
fn test_single_ornb_gate_truth_table() {
    let circuit = CircuitSeq {
        gates: vec![[0, 1, 2]],
    };

    let sub = extract_subcircuit(&circuit, 0, 1);
    let tables = compute_truth_tables(&sub);

    assert!(sub.output_wires.contains(&0));
    assert_eq!(tables.len(), 1);
}

#[test]
fn single_gate_truth_table_entries() {
    // Output wire 0 for inputs (w0, w1, w2) = bits 0, 1, 2 of the row:
    // w0 ^ (w1 | !w2).
    let circuit = CircuitSeq { gates: vec![[0, 1, 2]] };
    let sub = extract_subcircuit(&circuit, 0, 1);
    assert_eq!(sub.input_wires, vec![0, 1, 2]);
    assert_eq!(sub.output_wires, vec![0]);
    let tables = compute_truth_tables(&sub);
    assert_eq!(tables, vec!["10100110".to_string()]);
    let original = compute_truth_tables_original(&sub, 3);
    assert_eq!(original.len(), 1);
}

#[test]
fn test_verify_equivalence_identity() {
    let circuit = CircuitSeq {
        gates: vec![[0, 1, 2], [0, 1, 2]],
    };

    let empty = CircuitSeq { gates: vec![] };

    let _ = verify_equivalence(&circuit, &empty, 3, 100);
}

#[test]
fn test_verify_equivalence_same_circuit() {
    let circuit = CircuitSeq {
        gates: vec![[0, 1, 2], [1, 2, 0]],
    };

    let same = circuit.clone();

    assert!(verify_equivalence(&circuit, &same, 3, 100));
    assert!(verify_equivalence_exhaustive(&circuit, &same, 3));
}

#[test]
fn exhaustive_check_tells_circuits_apart() {
    let a = CircuitSeq { gates: vec![[0, 1, 2]] };
    let b = CircuitSeq { gates: vec![[1, 0, 2]] };
    assert!(!verify_equivalence_exhaustive(&a, &b, 3));
    let pair = CircuitSeq { gates: vec![[0, 1, 2], [0, 1, 2]] };
    let empty = CircuitSeq { gates: vec![] };
    assert!(verify_equivalence_exhaustive(&pair, &empty, 3));
}

#[test]
fn extraction_by_indices_lists_wires() {
    let circuit = CircuitSeq { gates: vec![[0, 1, 2], [4, 5, 6], [2, 4, 1]] };
    let sub = extract_by_indices(&circuit, &[0, 2]);
    assert_eq!(sub.gates, vec![[0, 1, 2], [2, 4, 1]]);
    assert_eq!(sub.wire_unmap, vec![0, 1, 2, 4]);
    assert_eq!(sub.input_wires, vec![0, 1, 2, 4]);
    assert_eq!(sub.output_wires, vec![0, 2]);
    assert_eq!(sub.local_gates(), vec![[0, 1, 2], [2, 3, 1]]);
    assert_eq!(sub.num_inputs(), 4);
    assert_eq!(sub.num_outputs(), 2);
}

#[test]
fn replacement_puts_unmapped_gates_in_place() {
    let mut circuit = CircuitSeq { gates: vec![[0, 1, 2], [1, 2, 3], [2, 1, 3], [3, 1, 0]] };
    let sub = extract_subcircuit(&circuit, 1, 2);
    // Local wires 0..3 stand for 1, 2, 3.
    let r = replace_subcircuit(&mut circuit, &sub, &[[2, 0, 1]]);
    assert!(r.is_ok());
    assert_eq!(circuit.gates, vec![[0, 1, 2], [3, 1, 2], [3, 1, 0]]);
}

#[test]
fn replacement_without_positions_fails() {
    let mut circuit = CircuitSeq { gates: vec![[0, 1, 2]] };
    let sub = extract_subcircuit(&circuit, 0, 0);
    assert!(replace_subcircuit(&mut circuit, &sub, &[]).is_err());
    assert_eq!(circuit.gates, vec![[0, 1, 2]]);
}

#[test]
fn optimizer_messages() {
    let req = optimize_request(vec!["11010110".to_string()], 3, 30);
    assert_eq!(req.num_inputs, 3);
    assert_eq!(req.current_num_gates, 30);
    assert_eq!(req.time_limit, 30);
    assert_eq!(req.output_truth_tables, vec!["11010110".to_string()]);

    let ok = OptimizeResponse { success: true, gates: Some(vec![[3, 0, 1]]), num_gates: Some(1), error: None };
    assert_eq!(optimized_gates(ok), Some(vec![[3, 0, 1]]));
    let failed = OptimizeResponse {
        success: false,
        gates: Some(vec![[3, 0, 1]]),
        num_gates: None,
        error: Some("timeout".to_string()),
    };
    assert_eq!(optimized_gates(failed), None);
}

#[test]
fn random_equivalence_rejects_a_circuit_that_always_differs() {
    // [0, 1, 1] fires on every input (wire 1 set, or wire 1 clear).
    let flip = CircuitSeq { gates: vec![[0, 1, 1]] };
    let empty = CircuitSeq { gates: vec![] };
    assert!(!verify_equivalence(&flip, &empty, 2, 5));
    assert!(verify_equivalence(&flip, &empty, 2, 0));
}

#[test]
fn putting_back_a_window_own_local_gates_changes_nothing() {
    let c0 = CircuitSeq { gates: vec![[0, 1, 2], [4, 2, 3], [3, 0, 4], [1, 2, 0]] };
    let mut circuit = c0.clone();
    let sub = extract_subcircuit(&circuit, 1, 2);
    let local = sub.local_gates();
    assert!(replace_subcircuit(&mut circuit, &sub, &local).is_ok());
    assert_eq!(circuit.gates, c0.gates);
}
