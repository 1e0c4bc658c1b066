use local_mixing::algorithms::annealing::local::{mix_step, MixConfig};
use local_mixing::algorithms::butterfly::blocks::{butterfly_layout, butterfly_with, merge_blocks, merge_combine_with};
use local_mixing::algorithms::butterfly::chained::{abutterfly_delay_bookends_with, abutterfly_with, chained_blocks};
use local_mixing::algorithms::butterfly::compress::{
    compress_big_with, compress_step, compress_with, expand_with, sequential_compress_with,
};
use local_mixing::algorithms::butterfly::pairs::{collect_pairs, insert_between_pairs, offer_identity};
use local_mixing::infra::circuit::CircuitSeq;
use local_mixing::obfuscate::passes::{inject_gadgets, simple_compress};
use local_mixing::reducer::budget::{reduce_budget, ReducerConfig};
use rand::SeedableRng;

fn seeded_rng(seed: u64) -> rand::rngs::StdRng {
    rand::rngs::StdRng::seed_from_u64(seed)
}

#[test]
fn blocks_sit_between_the_gates_of_each_pair() {
    let gates = vec![[0u8, 1, 2], [1, 2, 0], [2, 0, 1]];
    let blocks = vec![vec![[3u8, 4, 5], [3, 4, 5]]];
    let out = insert_between_pairs(&gates, &blocks);
    assert_eq!(out, vec![[0, 1, 2], [3, 4, 5], [3, 4, 5], [1, 2, 0], [2, 0, 1]]);
    let none = insert_between_pairs(&gates, &vec![vec![]]);
    assert_eq!(none, gates);
}

#[test]
fn butterfly_layout_keeps_the_function() {
    let c = CircuitSeq { gates: vec![[0, 1, 2], [2, 0, 1]] };
    let r = CircuitSeq { gates: vec![[1, 0, 2], [2, 1, 0]] };
    let r_inv = r.inverse();
    let out = butterfly_layout(&c, &r, &r_inv);
    assert_eq!(out.gates.len(), 2 + 2 * (2 + 1 + 2) + 2);
    assert_eq!(&out.gates[..2], &r.gates[..]);
    for x in 0..8usize {
        assert_eq!(out.evaluate(x), c.evaluate(x));
    }
    let merged = merge_blocks(&vec![r.clone(), c.clone()]);
    assert_eq!(merged.gates, vec![[1, 0, 2], [2, 1, 0], [0, 1, 2], [2, 0, 1]]);
}

#[test]
fn pairs_are_listed_and_take_matching_identities() {
    // (0,1,2) then (1,0,2): the second gate's target is the first's control.
    let gates = vec![[0u8, 1, 2], [1, 0, 2], [3, 4, 5], [6, 7, 8]];
    let mut entries = collect_pairs(&gates);
    assert_eq!(entries.len(), 1);
    assert_eq!(entries[0].1, 0);
    let mut to_replace: Vec<Vec<[u8; 3]>> = vec![vec![], vec![]];
    let mut rng = seeded_rng(4);
    let id = vec![[0u8, 1, 2], [1, 0, 2], [1, 0, 2], [0, 1, 2]];
    assert!(offer_identity(&mut entries, &mut to_replace, &gates, &id, &mut rng));
    assert!(entries.is_empty());
    assert_eq!(to_replace[0], id);
    assert!(to_replace[1].is_empty());
    assert!(!offer_identity(&mut entries, &mut to_replace, &gates, &id, &mut rng));
}

#[test]
fn compression_cancels_pairs_exposed_by_earlier_cancellations() {
    let c = CircuitSeq { gates: vec![[0, 1, 2], [3, 4, 5], [3, 4, 5], [0, 1, 2], [6, 7, 8]] };
    let r = simple_compress(&c);
    assert_eq!(r.gates, vec![[6, 7, 8]]);
    assert_eq!(simple_compress(&r).gates, r.gates);
}

#[test]
fn gadget_injection_adds_one_mirror_per_boundary() {
    let c = CircuitSeq { gates: vec![[0, 1, 2], [1, 2, 0], [2, 0, 1]] };
    let mut rng = seeded_rng(2);
    let r = inject_gadgets(&c, &[1, 2], 8, 5, &mut rng);
    // Depth max(8 / 2, 3) = 4, so each gadget has 8 gates.
    assert_eq!(r.gates.len(), 3 + 2 * 8);
    for x in 0..32usize {
        assert_eq!(r.evaluate(x), c.evaluate(x));
    }
}

#[test]
fn budget_reduction_removes_nested_pairs() {
    let c = CircuitSeq { gates: vec![[0, 1, 2], [3, 4, 5], [3, 4, 5], [0, 1, 2]] };
    let report = reduce_budget(&c, &ReducerConfig::default(), None);
    assert!(report.c_reduced.gates.is_empty());
    assert_eq!(report.cancel_pairs, 2);
    assert_eq!(report.original_len, 4);
    assert_eq!(report.reduced_len, 0);
    assert_eq!(report.steps_taken, 3);
    assert_eq!(report.commute_swaps, 0);
    assert!(report.template_hits.is_empty());
}

#[test]
fn budget_reduction_keeps_the_unpaired_gate() {
    let c = CircuitSeq { gates: vec![[0, 1, 2], [0, 1, 2], [3, 4, 5]] };
    let report = reduce_budget(&c, &ReducerConfig::default(), None);
    assert_eq!(report.c_reduced.gates, vec![[3, 4, 5]]);
    assert_eq!(report.cancel_pairs, 1);
    assert_eq!(report.reduced_len, 1);
}

#[test]
fn window_compression_uses_the_answers_it_gets() {
    let c = CircuitSeq { gates: vec![[0, 1, 2], [1, 2, 0], [2, 0, 1]] };
    let stepped = compress_step(&c, 1, 3, Some(CircuitSeq { gates: vec![[3, 4, 5]] }));
    assert_eq!(stepped.gates, vec![[0, 1, 2], [3, 4, 5]]);
    assert_eq!(compress_step(&c, 1, 3, None).gates, c.gates);
    let none = |_s: &CircuitSeq| -> Option<CircuitSeq> { None };
    // Fewer than five gates: two whole-circuit trials, nothing found.
    assert_eq!(compress_with(&c, 3, 3, &none).gates, c.gates);
    // A circuit computing the identity on its wires compresses to nothing.
    let id = CircuitSeq { gates: vec![[0, 1, 2], [1, 2, 0], [1, 2, 0], [0, 1, 2], [2, 0, 1]] };
    let mut with_pair = id.clone();
    with_pair.gates.push([2, 0, 1]);
    assert!(compress_with(&with_pair, 3, 3, &none).gates.is_empty());
}

#[test]
fn butterfly_with_a_compressor_keeps_the_function() {
    let c = CircuitSeq { gates: vec![[0, 1, 2], [2, 0, 1], [1, 2, 0]] };
    let r = CircuitSeq { gates: vec![[1, 0, 2], [2, 1, 0], [0, 2, 1]] };
    let r_inv = r.inverse();
    let squeeze = |s: &CircuitSeq, _trials: usize| -> CircuitSeq { simple_compress(s) };
    let out = butterfly_with(&c, &r, &r_inv, 10, 2, &squeeze);
    for x in 0..8usize {
        assert_eq!(out.evaluate(x), c.evaluate(x));
    }
}

#[test]
fn mixing_keeps_the_function() {
    let base = CircuitSeq { gates: vec![[0, 1, 2], [3, 4, 5], [1, 2, 0], [4, 5, 3]] };
    let cfg = MixConfig { num_wires: 6, num_rounds: 1, template_size_max: 4 };
    let mut rng = seeded_rng(17);
    let mut c = base.clone();
    for _ in 0..20 {
        mix_step(&mut c, &cfg, &mut rng);
        for x in 0..64usize {
            assert_eq!(c.evaluate(x), base.evaluate(x));
        }
    }
}

#[test]
fn chained_blocks_take_their_halves_from_both_sides() {
    let c = CircuitSeq { gates: vec![[0, 1, 2], [2, 0, 1]] };
    let rs = vec![
        CircuitSeq { gates: vec![[1, 0, 2]] },
        CircuitSeq { gates: vec![[2, 1, 0]] },
        CircuitSeq { gates: vec![[0, 2, 1]] },
    ];
    let ris = vec![
        CircuitSeq { gates: vec![[1, 0, 2]] },
        CircuitSeq { gates: vec![[2, 1, 0]] },
        CircuitSeq { gates: vec![[0, 2, 1]] },
    ];
    let bs = chained_blocks(&c, &rs, &ris);
    assert_eq!(bs.len(), 2);
    assert_eq!(bs[0].gates, vec![[1, 0, 2], [0, 1, 2], [2, 1, 0]]);
    assert_eq!(bs[1].gates, vec![[2, 1, 0], [2, 0, 1], [0, 2, 1]]);
}

#[test]
fn chained_butterfly_keeps_the_function() {
    let c = CircuitSeq { gates: vec![[0, 1, 2], [3, 4, 0], [2, 0, 1], [1, 4, 3]] };
    let squeeze = |s: &CircuitSeq, _trials: usize| -> CircuitSeq { simple_compress(s) };
    let out = abutterfly_with(&c, 5, 2, 4, 10, 2, &squeeze);
    for x in 0..32usize {
        assert_eq!(out.evaluate(x), c.evaluate(x));
    }
    let (mid, first, last) = abutterfly_delay_bookends_with(&c, 5, 2, 4, 10, 2, &squeeze);
    assert!(first.gates.len() >= 2 && first.gates.len() <= 4);
    assert!(last.gates.len() >= 2 && last.gates.len() <= 4);
    let whole = first.concat(&mid).concat(&last);
    for x in 0..32usize {
        assert_eq!(whole.evaluate(x), c.evaluate(x));
    }
}

#[test]
fn big_compression_splices_the_picked_window() {
    let c = CircuitSeq { gates: vec![[0, 1, 2], [3, 4, 5], [0, 1, 2], [1, 2, 0]] };
    // Gates on disjoint wires commute, so `g h g` computes what `h` computes.
    let shorten = |s: &CircuitSeq| -> CircuitSeq {
        if s.gates == vec![[0, 1, 2], [3, 4, 5], [0, 1, 2]] {
            CircuitSeq { gates: vec![[3, 4, 5]] }
        } else {
            s.clone()
        }
    };
    let first_three = |_s: &CircuitSeq| -> Option<(usize, usize)> { Some((0, 2)) };
    let out = compress_big_with(&c, 1, &first_three, &shorten);
    assert_eq!(out.gates, vec![[3, 4, 5], [1, 2, 0]]);
    for x in 0..64usize {
        assert_eq!(out.evaluate(x), c.evaluate(x));
    }
    let outside = |_s: &CircuitSeq| -> Option<(usize, usize)> { Some((2, 9)) };
    assert_eq!(compress_big_with(&c, 3, &outside, &shorten).gates, c.gates);
}

#[test]
fn sequential_compression_sweeps_the_positions() {
    let c = CircuitSeq { gates: vec![[0, 1, 2], [3, 4, 5], [0, 1, 2], [1, 2, 0]] };
    let shorten = |s: &CircuitSeq| -> CircuitSeq {
        if s.gates == vec![[0, 1, 2], [3, 4, 5], [0, 1, 2]] {
            CircuitSeq { gates: vec![[3, 4, 5]] }
        } else {
            s.clone()
        }
    };
    let three_from = |_s: &CircuitSeq, i: usize| -> Option<(usize, usize)> { Some((i, i + 2)) };
    let out = sequential_compress_with(&c, &three_from, &shorten);
    assert_eq!(out.gates, vec![[3, 4, 5], [1, 2, 0]]);
    for x in 0..64usize {
        assert_eq!(out.evaluate(x), c.evaluate(x));
    }
}

#[test]
fn merging_in_rounds_keeps_the_blocks_function() {
    let blocks = vec![
        CircuitSeq { gates: vec![[0, 1, 2], [3, 4, 5]] },
        CircuitSeq { gates: vec![[3, 4, 5], [1, 2, 0]] },
        CircuitSeq { gates: vec![[2, 0, 1]] },
        CircuitSeq { gates: vec![[2, 0, 1], [4, 5, 3]] },
        CircuitSeq { gates: vec![[5, 3, 4]] },
    ];
    let squeeze = |s: &CircuitSeq, _trials: usize| -> CircuitSeq { simple_compress(s) };
    let out = merge_combine_with(&blocks, &squeeze);
    // Cancelling equal neighbours all the way through leaves these gates.
    assert_eq!(out.gates, vec![[0, 1, 2], [1, 2, 0], [4, 5, 3], [5, 3, 4]]);
    let flat = merge_blocks(&blocks);
    for x in 0..64usize {
        assert_eq!(out.evaluate(x), flat.evaluate(x));
    }
    let record: std::cell::RefCell<Vec<usize>> = std::cell::RefCell::new(Vec::new());
    let counting = |s: &CircuitSeq, trials: usize| -> CircuitSeq {
        record.borrow_mut().push(trials);
        s.clone()
    };
    let kept = merge_combine_with(&blocks, &counting);
    assert_eq!(kept.gates, flat.gates);
    // Three pairs, then three groups of one pair, then the whole.
    assert_eq!(*record.borrow(), vec![30, 30, 30, 200, 200, 200, 1000]);
}

#[test]
fn expansion_grows_windows_without_changing_the_function() {
    let c = CircuitSeq { gates: vec![[0, 1, 2], [1, 2, 0], [2, 0, 1]] };
    // A window followed by a gate twice computes what the window computes.
    let pad = |s: &CircuitSeq| -> Option<CircuitSeq> {
        let mut g = s.gates.clone();
        g.push([3, 4, 5]);
        g.push([3, 4, 5]);
        Some(CircuitSeq { gates: g })
    };
    let out = expand_with(&c, 3, &pad);
    assert_eq!(out.gates.len(), c.gates.len() + 6);
    for x in 0..64usize {
        assert_eq!(out.evaluate(x), c.evaluate(x));
    }
    let none = |_s: &CircuitSeq| -> Option<CircuitSeq> { None };
    assert_eq!(expand_with(&c, 3, &none).gates, c.gates);
    assert!(expand_with(&CircuitSeq { gates: vec![] }, 3, &pad).gates.is_empty());
}
