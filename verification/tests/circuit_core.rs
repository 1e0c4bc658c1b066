use local_mixing::hashing::canonical::{canonical_window_key, circuit_hash_64, EnergyCache};
use local_mixing::infra::circuit::{cancel_adjacent_pairs, CircuitSeq, Gate};
use local_mixing::infra::random::shoot_left_vec;
use local_mixing::obfuscate::passes::{compute_boundaries, simple_compress};
use local_mixing::reducer::budget::{gates_commute, reduce_budget, reduce_budget_no_db, ReducerConfig};

#[test]
fn test_shoot_left_vec_stops_on_collision() {
    let mut gates = vec![[0, 1, 2], [3, 4, 5], [1, 6, 7]];
    let new_index = shoot_left_vec(&mut gates, 2);

    assert_eq!(new_index, 1);
    assert_eq!(gates, vec![[0, 1, 2], [1, 6, 7], [3, 4, 5]]);
}

#[test]
fn test_circuit_hash_deterministic() {
    let c = CircuitSeq {
        gates: vec![[0, 1, 2], [3, 4, 5]],
    };

    let h1 = circuit_hash_64(&c);
    let h2 = circuit_hash_64(&c);
    assert_eq!(h1, h2);
}

#[test]
fn test_canonical_window_key() {
    let gates1 = vec![[0, 1, 2], [0, 2, 1]];
    let gates2 = vec![[5, 6, 7], [5, 7, 6]];

    let key1 = canonical_window_key(&gates1);
    let key2 = canonical_window_key(&gates2);

    assert_eq!(key1, key2);
}

#[test]
fn test_gates_commute() {
    let g1 = [0, 1, 2];
    let g2 = [3, 4, 5];
    assert!(gates_commute(&g1, &g2));

    let g3 = [0, 1, 2];
    let g4 = [0, 3, 4];
    assert!(!gates_commute(&g3, &g4));

    let g5 = [0, 1, 2];
    let g6 = [3, 0, 4];
    assert!(!gates_commute(&g5, &g6));
}

#[test]
fn test_reduce_budget_cancellation() {
    let c = CircuitSeq {
        gates: vec![[0, 1, 2], [0, 1, 2], [3, 4, 5]],
    };

    let config = ReducerConfig::default();
    let report = reduce_budget(&c, &config, None);

    assert_eq!(report.original_len, 3);
    assert_eq!(report.reduced_len, 1);
    assert_eq!(report.cancel_pairs, 1);
}

#[test]
fn test_segmentation() {
    let boundaries = compute_boundaries(100, 4);
    assert_eq!(boundaries.len(), 3);
    assert_eq!(boundaries, vec![25, 50, 75]);
}

#[test]
fn segmentation_of_empty_circuit_is_empty() {
    assert!(compute_boundaries(0, 4).is_empty());
    assert!(compute_boundaries(10, 0).is_empty());
}

#[test]
fn single_gate_flips_target_when_condition_holds() {
    // target 0, controls 1 and 2: flips when bit1 | !bit2
    assert_eq!(Gate::evaluate_index(0b000, [0, 1, 2]), 0b001);
    assert_eq!(Gate::evaluate_index(0b100, [0, 1, 2]), 0b100);
    assert_eq!(Gate::evaluate_index(0b110, [0, 1, 2]), 0b111);
    assert_eq!(Gate::evaluate_index(0b111, [0, 1, 2]), 0b110);
}

#[test]
fn gate_is_its_own_inverse() {
    let c = CircuitSeq { gates: vec![[2, 0, 1], [2, 0, 1]] };
    for x in 0..8usize {
        assert_eq!(c.evaluate(x), x);
    }
}

#[test]
fn circuit_followed_by_inverse_is_identity() {
    let c = CircuitSeq { gates: vec![[0, 1, 2], [1, 2, 3], [3, 0, 2], [2, 3, 1]] };
    let inv = c.inverse();
    assert_eq!(inv.gates, vec![[2, 3, 1], [3, 0, 2], [1, 2, 3], [0, 1, 2]]);
    let both = c.concat(&inv);
    for x in 0..16usize {
        assert_eq!(both.evaluate(x), x);
    }
}

#[test]
fn splice_inserts_before_position() {
    let mut c = CircuitSeq { gates: vec![[0, 1, 2], [1, 2, 0]] };
    let other = CircuitSeq { gates: vec![[2, 0, 1]] };
    c.splice(1, &other);
    assert_eq!(c.gates, vec![[0, 1, 2], [2, 0, 1], [1, 2, 0]]);
}

#[test]
fn permutation_lists_images() {
    let c = CircuitSeq { gates: vec![[0, 1, 2]] };
    let p = c.permutation(3);
    assert_eq!(p.data, vec![1, 0, 3, 2, 4, 5, 7, 6]);
}

#[test]
fn cancel_adjacent_pairs_removes_nested_pairs() {
    let mut gates = vec![[0, 1, 2], [3, 4, 5], [3, 4, 5], [0, 1, 2], [1, 2, 3]];
    let changed = cancel_adjacent_pairs(&mut gates);
    assert!(changed);
    assert_eq!(gates, vec![[1, 2, 3]]);
    let mut none = vec![[0, 1, 2], [1, 2, 3]];
    assert!(!cancel_adjacent_pairs(&mut none));
    assert_eq!(none, vec![[0, 1, 2], [1, 2, 3]]);
}

#[test]
fn simple_compress_keeps_function() {
    let c = CircuitSeq { gates: vec![[0, 1, 2], [1, 0, 2], [1, 0, 2], [2, 1, 0]] };
    let r = simple_compress(&c);
    assert_eq!(r.gates, vec![[0, 1, 2], [2, 1, 0]]);
    for x in 0..8usize {
        assert_eq!(r.evaluate(x), c.evaluate(x));
    }
}

#[test]
fn reduce_budget_without_index_keeps_function() {
    let c = CircuitSeq { gates: vec![[0, 1, 2], [3, 4, 5], [0, 1, 2], [4, 5, 3]] };
    let report = reduce_budget_no_db(&c, &ReducerConfig::default());
    assert!(report.reduced_len < report.original_len);
    for x in 0..64usize {
        assert_eq!(report.c_reduced.evaluate(x), c.evaluate(x));
    }
    assert_eq!(report.gates_removed(), report.original_len - report.reduced_len);
}

#[test]
fn window_key_ignores_wire_names() {
    let a = vec![[3, 4, 5], [4, 3, 5], [5, 4, 3]];
    let b = vec![[9, 1, 2], [1, 9, 2], [2, 1, 9]];
    let c = vec![[9, 1, 2], [2, 9, 1], [2, 1, 9]];
    assert_eq!(canonical_window_key(&a), canonical_window_key(&b));
    assert_ne!(canonical_window_key(&a), canonical_window_key(&c));
}

#[test]
fn different_circuits_hash_differently() {
    let a = CircuitSeq { gates: vec![[0, 1, 2]] };
    let b = CircuitSeq { gates: vec![[0, 2, 1]] };
    assert_ne!(circuit_hash_64(&a), circuit_hash_64(&b));
}

#[test]
fn test_energy_cache() {
    let mut cache = EnergyCache::new(10);
    cache.insert(123, 0.5);
    assert_eq!(cache.get(123), Some(0.5));
    assert_eq!(cache.get(456), None);
}

#[test]
fn energy_cache_empties_when_full() {
    let mut cache: EnergyCache<f64> = EnergyCache::new(2);
    assert!(cache.is_empty());
    cache.insert(1, 1.0);
    cache.insert(2, 2.0);
    assert_eq!(cache.len(), 2);
    cache.insert(2, 2.5);
    assert_eq!(cache.len(), 1);
    assert_eq!(cache.get(1), None);
    assert_eq!(cache.get(2), Some(2.5));
}
