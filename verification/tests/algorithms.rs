use local_mixing::algorithms::annealing::anneal::{
    count_adjacent_cancels, move_commute_swap, move_insert_template, move_insert_template_adversarial,
    move_patch_pair, score_template_stickiness, select_adversarial_template, MoveType,
};
use local_mixing::algorithms::annealing::local::{commutes, embed_template, inverse, reduce_circuit, ReduceConfig};
use local_mixing::algorithms::butterfly::replace::{
    gate_pair_taxonomy, get_collision_type, obfuscate, random_id, CollisionType, GatePair,
};
use local_mixing::algorithms::identity_growth::{
    bounded_compress, rewire_to_subset, SkeletonGraph, SkeletonMode, TemplateSource,
};
use local_mixing::algorithms::local_rewrite::{
    attack_peel_with, run_kneading_with, shares_wire, splice_replacement, AttackConfig, KneadingConfig,
    LocalRewriteConfig, OracleStats, Window,
};
use local_mixing::infra::circuit::{CircuitSeq, Gate};
use rand::SeedableRng;
use local_mixing::obfuscate::gadgets::{commutator, interleave, simple_identity};
use local_mixing::obfuscate::mixer::{random_mixer, MixerLocality};
use local_mixing::reducer::budget::count_distinct_wires;

fn seeded_rng(seed: u64) -> rand::rngs::StdRng {
    rand::rngs::StdRng::seed_from_u64(seed)
}

#[test]
fn test_rewire_to_subset() {
    let template = CircuitSeq {
        gates: vec![[0, 1, 2]],
    };
    let target_wires = vec![10, 20, 30];
    let rewired = rewire_to_subset(&template, &target_wires, 32);
    assert_eq!(rewired.gates[0], [10, 20, 30]);
}

#[test]
fn test_skeleton_graph_basic() {
    let mut skeleton = SkeletonGraph::new(8);
    let coverage = |s: &SkeletonGraph| s.touched_wires() as f64 / s.num_wires() as f64;
    assert_eq!(coverage(&skeleton), 0.0);

    let circuit = CircuitSeq {
        gates: vec![[0, 1, 2], [3, 4, 5]],
    };
    skeleton.update_from_circuit(&circuit);
    assert!(coverage(&skeleton) > 0.0);
}

#[test]
fn skeleton_counts_touched_wires() {
    let mut skeleton = SkeletonGraph::new(8);
    skeleton.update_from_circuit(&CircuitSeq { gates: vec![[0, 1, 2], [3, 4, 5], [0, 3, 6]] });
    assert_eq!(skeleton.touched_wires(), 7);
    assert_eq!(skeleton.num_wires(), 8);
}

#[test]
fn sparse_selection_prefers_untouched_wires() {
    let mut skeleton = SkeletonGraph::new(8);
    skeleton.update_from_circuit(&CircuitSeq { gates: vec![[0, 1, 2], [3, 4, 5]] });
    let mut rng = seeded_rng(7);
    let mut picked = skeleton.select_subset(2, SkeletonMode::Sparse, &mut rng);
    picked.sort();
    assert_eq!(picked, vec![6, 7]);
}

#[test]
fn balanced_selection_draws_from_lowest_degrees() {
    let mut skeleton = SkeletonGraph::new(6);
    skeleton.update_from_circuit(&CircuitSeq { gates: vec![[0, 1, 2], [0, 1, 2]] });
    let mut rng = seeded_rng(3);
    let picked = skeleton.select_subset(1, SkeletonMode::Balanced, &mut rng);
    assert_eq!(picked.len(), 1);
    // The two lowest wires by degree are 3 and 4.
    assert!(picked[0] == 3 || picked[0] == 4);
    let mut dense = skeleton.select_subset(6, SkeletonMode::Dense, &mut rng);
    dense.sort();
    assert_eq!(dense, vec![0, 1, 2, 3, 4, 5]);
}

#[test]
fn template_source_and_mode_defaults() {
    assert_eq!(TemplateSource::default(), TemplateSource::PermTables);
    assert_eq!(SkeletonMode::default(), SkeletonMode::Balanced);
}

#[test]
fn bounded_compress_keeps_function() {
    let c = CircuitSeq { gates: vec![[0, 1, 2], [3, 4, 5], [3, 4, 5], [0, 1, 2], [1, 2, 0]] };
    let r = bounded_compress(&c, 5);
    assert_eq!(r.gates, vec![[1, 2, 0]]);
    let unchanged = bounded_compress(&c, 0);
    assert_eq!(unchanged.gates, c.gates);
}

#[test]
fn random_identity_is_identity() {
    let (r, rinv) = random_id(5, 12);
    assert_eq!(r.gates.len(), 12);
    let mut rev = r.gates.clone();
    rev.reverse();
    assert_eq!(rinv.gates, rev);
    let both = r.concat(&rinv);
    for x in 0..32usize {
        assert_eq!(both.evaluate(x), x);
    }
}

#[test]
fn butterfly_obfuscation_keeps_function() {
    let c = CircuitSeq { gates: vec![[0, 1, 2], [2, 3, 4], [4, 0, 1]] };
    let (obf, starts) = obfuscate(&c, 5);
    assert_eq!(starts.len(), 4);
    let m = starts[0];
    assert!(m >= 3 && m <= 25);
    assert_eq!(obf.gates.len(), 4 * (2 * m) + 3);
    for (i, s) in starts.iter().enumerate() {
        assert_eq!(*s, i * (2 * m + 1) + m);
    }
    for x in 0..32usize {
        assert_eq!(obf.evaluate(x), c.evaluate(x));
    }
    let (empty, none) = obfuscate(&CircuitSeq { gates: vec![] }, 5);
    assert!(empty.gates.is_empty() && none.is_empty());
}

#[test]
fn gate_pair_taxonomy_classifies_pins() {
    let g1 = [0, 1, 2];
    assert_eq!(get_collision_type(&g1, 0), CollisionType::OnActive);
    assert_eq!(get_collision_type(&g1, 1), CollisionType::OnCtrl1);
    assert_eq!(get_collision_type(&g1, 2), CollisionType::OnCtrl2);
    assert_eq!(get_collision_type(&g1, 7), CollisionType::OnNew);
    let t = gate_pair_taxonomy(&g1, &[2, 0, 9]);
    assert!(!GatePair::is_none(&t));
    assert_eq!(t, gate_pair_taxonomy(&[5, 6, 7], &[7, 5, 9]));
    assert!(GatePair::is_none(&gate_pair_taxonomy(&g1, &[3, 4, 5])));
}

#[test]
fn move_names() {
    assert_eq!(MoveType::InsertTemplate.name(), "insert_template");
    assert_eq!(MoveType::CommuteSwap.name(), "commute_swap");
    assert_eq!(MoveType::PatchPair.name(), "patch_pair");
}

#[test]
fn counts_adjacent_cancelling_pairs() {
    let c = CircuitSeq { gates: vec![[0, 1, 2], [0, 1, 2], [0, 1, 2], [1, 2, 0]] };
    assert_eq!(count_adjacent_cancels(&c), 2);
    assert_eq!(count_adjacent_cancels(&CircuitSeq { gates: vec![] }), 0);
}

#[test]
fn stickiness_counts_non_commuting_neighbours() {
    // Template gate [0, 1, 2]; neighbours [1, 0, 3] (target is a control:
    // no commute) and [5, 6, 7] (commutes).
    let c = CircuitSeq { gates: vec![[1, 0, 3], [5, 6, 7]] };
    assert_eq!(score_template_stickiness(&c, &[[0, 1, 2]], 1, 2), 1);
    assert_eq!(score_template_stickiness(&c, &[[8, 9, 10]], 1, 2), 0);
}

#[test]
fn adversarial_template_is_a_cancelling_pair() {
    let c = CircuitSeq { gates: vec![[0, 1, 2], [2, 3, 4]] };
    let mut rng = seeded_rng(11);
    let t = select_adversarial_template(&c, 1, 6, 4, 2, &mut rng);
    assert_eq!(t.len(), 2);
    assert_eq!(t[0], t[1]);
    assert!(select_adversarial_template(&c, 1, 6, 0, 2, &mut rng).is_empty());
}

#[test]
fn annealing_moves_shape() {
    let mut rng = seeded_rng(5);
    let base = CircuitSeq { gates: vec![[0, 1, 2], [3, 4, 5], [1, 2, 0]] };

    let mut c = base.clone();
    move_commute_swap(&mut c, &mut rng);
    for x in 0..64usize {
        assert_eq!(c.evaluate(x), base.evaluate(x));
    }

    let mut c = base.clone();
    assert!(move_insert_template(&mut c, 6, &mut rng));
    assert_eq!(c.gates.len(), base.gates.len() + 2);
    let mut small = base.clone();
    assert!(!move_insert_template(&mut small, 2, &mut rng));
    assert_eq!(small.gates, base.gates);

    let mut c = base.clone();
    assert!(move_insert_template_adversarial(&mut c, 6, 3, 2, &mut rng));
    assert_eq!(c.gates.len(), base.gates.len() + 4);
    for x in 0..64usize {
        assert_eq!(c.evaluate(x), base.evaluate(x));
    }

    let mut c = base.clone();
    assert!(move_patch_pair(&mut c, 6, &mut rng));
    let added = c.gates.len() - base.gates.len();
    assert!(added >= 4 && added <= 8 && added % 2 == 0);
}

#[test]
fn local_gate_rules() {
    let a = Gate { pins: [0, 1, 2] };
    let b = Gate { pins: [3, 4, 5] };
    let c = Gate { pins: [1, 4, 5] };
    assert!(commutes(&a, &b));
    assert!(!commutes(&a, &c));
    assert_eq!(inverse(&a).pins, a.pins);
    let t = CircuitSeq { gates: vec![[0, 1, 2], [2, 0, 1]] };
    let e = embed_template(&t, &[7, 3, 5]);
    assert_eq!(e.gates, vec![[7, 3, 5], [5, 7, 3]]);
}

#[test]
fn local_reducer_keeps_function() {
    let c = CircuitSeq { gates: vec![[0, 1, 2], [0, 1, 2], [1, 2, 3]] };
    let mut r = c.clone();
    let len = reduce_circuit(&mut r, &ReduceConfig { max_passes: 10, max_stall: 3 });
    assert_eq!(len, r.gates.len());
    assert!(len < c.gates.len());
    for x in 0..64usize {
        assert_eq!(r.evaluate(x), c.evaluate(x));
    }
}

#[test]
fn test_commutator_is_identity() {
    let mut rng = seeded_rng(42);
    let gadget = commutator(8, 5, 5, &mut rng);

    for input in 0..256u64 {
        let output = gadget.full.evaluate(input as usize);
        assert_eq!(output, input as usize, "Commutator not identity at input {}", input);
    }
}

#[test]
fn test_simple_identity() {
    let mut rng = seeded_rng(123);
    let gadget = simple_identity(6, 10, &mut rng);

    for input in 0..64u64 {
        let output = gadget.evaluate(input as usize);
        assert_eq!(output, input as usize);
    }
}

#[test]
fn interleave_alternates() {
    let a = CircuitSeq { gates: vec![[0, 1, 2], [1, 2, 0], [2, 0, 1]] };
    let b = CircuitSeq { gates: vec![[3, 4, 5]] };
    assert_eq!(interleave(&a, &b).gates, vec![[0, 1, 2], [3, 4, 5], [1, 2, 0], [2, 0, 1]]);
}

#[test]
fn mixers_have_requested_depth_and_distinct_pins() {
    let mut rng = seeded_rng(42);
    for locality in [MixerLocality::Global, MixerLocality::Local, MixerLocality::Mixed] {
        let m = random_mixer(16, 50, locality, &mut rng);
        assert_eq!(m.gates.len(), 50);
        for g in &m.gates {
            assert!(g[0] < 16 && g[1] < 16 && g[2] < 16);
            assert!(g[0] != g[1] && g[0] != g[2] && g[1] != g[2]);
        }
    }
}

#[test]
fn window_splice_maps_local_wires_back() {
    let mut c = CircuitSeq { gates: vec![[0, 1, 2], [4, 5, 6], [5, 6, 4], [1, 2, 0]] };
    let w = Window { start: 1, end: 3, used_wires: vec![4, 5, 6], rewired: CircuitSeq { gates: vec![] } };
    let replacement = CircuitSeq { gates: vec![[2, 1, 0]] };
    splice_replacement(&mut c, &w, &replacement);
    assert_eq!(c.gates, vec![[0, 1, 2], [6, 5, 4], [1, 2, 0]]);
}

#[test]
fn shares_wire_any_pin() {
    assert!(shares_wire(&[0, 1, 2], &[5, 6, 2]));
    assert!(!shares_wire(&[0, 1, 2], &[3, 4, 5]));
}

#[test]
fn local_rewrite_defaults() {
    let cfg = LocalRewriteConfig::default();
    assert_eq!(cfg.num_wires, 64);
    assert_eq!(cfg.kneading.window_schedule, vec![32, 64]);
    assert_eq!(cfg.metrics.gap_window_sizes, vec![4, 8, 16, 32, 64]);
    let stats = OracleStats::default();
    assert_eq!(stats.queries + stats.hits + stats.longer_hits, 0);
}

#[test]
fn test_coverage() {
    let mut rng = seeded_rng(42);
    let mixer = random_mixer(16, 50, MixerLocality::Global, &mut rng);
    let coverage = count_distinct_wires(&mixer.gates) as f32 / 16.0;
    assert!(coverage > 0.8, "Coverage should be high: {}", coverage);
}

#[test]
fn commute_swap_always_swaps_commuting_neighbours() {
    let mut rng = seeded_rng(8);
    // The two gates share no wire, so they commute.
    let base = CircuitSeq { gates: vec![[0, 1, 2], [3, 4, 5]] };
    let mut c = base.clone();
    assert!(move_commute_swap(&mut c, &mut rng));
    assert_eq!(c.gates, vec![[3, 4, 5], [0, 1, 2]]);

    let mut one = CircuitSeq { gates: vec![[0, 1, 2]] };
    assert!(!move_commute_swap(&mut one, &mut rng));
    assert_eq!(one.gates, vec![[0, 1, 2]]);

    // Equal gates never commute: nothing moves.
    let mut same = CircuitSeq { gates: vec![[0, 1, 2], [0, 1, 2]] };
    assert!(!move_commute_swap(&mut same, &mut rng));
    assert_eq!(same.gates, vec![[0, 1, 2], [0, 1, 2]]);
}

#[test]
fn peeling_counts_every_removed_gate() {
    let mut c = CircuitSeq { gates: vec![[0, 1, 2], [3, 4, 5], [0, 1, 2], [1, 2, 0]] };
    let cfg = AttackConfig {
        max_passes: 3,
        trials_per_pass: 1,
        window_len_min: 3,
        window_len_max: 3,
        max_active_wires: 6,
        out_len: 2,
    };
    // The first three gates, on wires 0..6 kept in place; once fewer than
    // three gates are left the proposal reaches past the end.
    let sample = |c: &CircuitSeq, len: usize, _wires: usize| -> Option<Window> {
        let k = if c.gates.len() < len { c.gates.len() } else { len };
        Some(Window {
            start: 0,
            end: len,
            used_wires: vec![0, 1, 2, 3, 4, 5],
            rewired: CircuitSeq { gates: c.gates[..k].to_vec() },
        })
    };
    let shortest = |w: &CircuitSeq, _active: usize, _out_len: usize| -> Option<CircuitSeq> {
        if w.gates == vec![[0, 1, 2], [3, 4, 5], [0, 1, 2]] {
            Some(CircuitSeq { gates: vec![[3, 4, 5]] })
        } else {
            None
        }
    };
    let mut rng = seeded_rng(5);
    let report = attack_peel_with(&mut c, &cfg, &sample, &shortest, &mut rng);
    assert_eq!(c.gates, vec![[3, 4, 5], [1, 2, 0]]);
    assert_eq!(report.passes, 2);
    assert_eq!(report.total_replacements, 1);
    assert_eq!(report.total_gate_reduction, 2);
}

#[test]
fn kneading_keeps_the_length() {
    let start = vec![[0u8, 1, 2], [1, 2, 0], [2, 0, 1]];
    let mut c = CircuitSeq { gates: start.clone() };
    let cfg = KneadingConfig {
        steps: 2,
        window_schedule: vec![2],
        max_active_wires: 3,
        inner_rewrites: 0,
        inner_len_min: 0,
        inner_len_max: 0,
        attempts_per_step: 1,
    };
    let sample = |c: &CircuitSeq, len: usize, _wires: usize| -> Option<Window> {
        Some(Window {
            start: 0,
            end: len,
            used_wires: vec![0, 1, 2],
            rewired: CircuitSeq { gates: c.gates[..len].to_vec() },
        })
    };
    // The alternative offered is the window backwards.
    let backwards = |w: &CircuitSeq, _active: usize, _tries: usize| -> Option<CircuitSeq> {
        let mut g = w.gates.clone();
        g.reverse();
        Some(CircuitSeq { gates: g })
    };
    let mut rng = seeded_rng(9);
    let stats = run_kneading_with(&mut c, &cfg, &sample, &backwards, &mut rng);
    assert_eq!(c.gates, start);
    assert_eq!(stats.steps, 2);
    assert_eq!(stats.windows_tried, 2);
    assert_eq!(stats.replacements, 2);
    let idle = KneadingConfig { window_schedule: vec![], ..cfg.clone() };
    let stats = run_kneading_with(&mut c, &idle, &sample, &backwards, &mut rng);
    assert_eq!(c.gates, start);
    assert_eq!(stats.windows_tried, 0);
    assert_eq!(stats.replacements, 0);
}
