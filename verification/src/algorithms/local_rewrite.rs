//! Local rewrite obfuscation: configuration of the inflation, kneading,
//! attack and metric stages, the windows a rewrite works on, splicing a
//! rewritten window back into the circuit, the kneading stage and the
//! peeling attacker, which take their window sampler and their table oracle
//! as arguments.
use vstd::prelude::*;

use std::collections::HashSet;

use crate::infra::circuit::CircuitSeq;
use crate::infra::random::rng_usize_inclusive;

verus! {

broadcast use vstd::std_specs::hash::group_hash_axioms;

/// Limits on the windows that a rewrite may touch.
#[derive(Debug, Clone, Copy)]
pub struct LocalityBudget {
    pub max_len: usize,
    pub max_wires: usize,
}

/// Inflation stage: grows the circuit by replacing windows with longer
/// equivalents.
#[derive(Debug, Clone)]
pub struct InflationConfig {
    pub steps: usize,
    pub len_min: usize,
    pub len_max: usize,
    pub delta_min: usize,
    pub delta_max: usize,
    pub max_active_wires: usize,
    pub attempts_per_step: usize,
}

/// Kneading stage: rewrites windows of the scheduled sizes in place.
#[derive(Debug, Clone)]
pub struct KneadingConfig {
    pub steps: usize,
    pub window_schedule: Vec<usize>,
    pub max_active_wires: usize,
    pub inner_rewrites: usize,
    pub inner_len_min: usize,
    pub inner_len_max: usize,
    pub attempts_per_step: usize,
}

/// The peeling attacker that tries to shrink windows.
#[derive(Debug, Clone)]
pub struct AttackConfig {
    pub max_passes: usize,
    pub trials_per_pass: usize,
    pub window_len_min: usize,
    pub window_len_max: usize,
    pub max_active_wires: usize,
    pub out_len: usize,
}

/// Sampling sizes of the gap, entropy and sectoring metrics.
#[derive(Debug, Clone)]
pub struct MetricsConfig {
    pub gap_window_sizes: Vec<usize>,
    pub samples_per_size: usize,
    pub entropy_window_size: usize,
    pub entropy_samples: usize,
    pub entropy_max_count: usize,
    pub sector_seed_count: usize,
    pub sector_sample_windows: usize,
    pub sector_window_len: usize,
    pub max_active_wires: usize,
}

/// The whole local rewrite pipeline.
#[derive(Debug, Clone)]
pub struct LocalRewriteConfig {
    pub num_wires: usize,
    pub base_depth: usize,
    pub inflation: InflationConfig,
    pub kneading: KneadingConfig,
    pub attack: AttackConfig,
    pub metrics: MetricsConfig,
    pub seed: u64,
}

impl Default for LocalRewriteConfig {
    fn default() -> (r: Self)
        ensures
            r.num_wires == 64 && r.base_depth == 40 && r.seed == 0,
            r.inflation.steps == 400 && r.inflation.len_min == 4 && r.inflation.len_max == 10
                && r.inflation.delta_min == 2 && r.inflation.delta_max == 6
                && r.inflation.max_active_wires == 7 && r.inflation.attempts_per_step == 5,
            r.kneading.steps == 400 && r.kneading.window_schedule@ == seq![32usize, 64usize]
                && r.kneading.max_active_wires == 7 && r.kneading.inner_rewrites == 2
                && r.kneading.inner_len_min == 4 && r.kneading.inner_len_max == 10
                && r.kneading.attempts_per_step == 5,
            r.attack.max_passes == 50 && r.attack.trials_per_pass == 200
                && r.attack.window_len_min == 4 && r.attack.window_len_max == 10
                && r.attack.max_active_wires == 7 && r.attack.out_len == 6,
            r.metrics.gap_window_sizes@ == seq![4usize, 8usize, 16usize, 32usize, 64usize]
                && r.metrics.samples_per_size == 200 && r.metrics.entropy_window_size == 6
                && r.metrics.entropy_samples == 100 && r.metrics.entropy_max_count == 1000
                && r.metrics.sector_seed_count == 5 && r.metrics.sector_sample_windows == 200
                && r.metrics.sector_window_len == 6 && r.metrics.max_active_wires == 7,
    {
        let window_schedule: Vec<usize> = vec![32, 64];
        let gap_window_sizes: Vec<usize> = vec![4, 8, 16, 32, 64];
        LocalRewriteConfig {
            num_wires: 64,
            base_depth: 40,
            inflation: InflationConfig {
                steps: 400,
                len_min: 4,
                len_max: 10,
                delta_min: 2,
                delta_max: 6,
                max_active_wires: 7,
                attempts_per_step: 5,
            },
            kneading: KneadingConfig {
                steps: 400,
                window_schedule,
                max_active_wires: 7,
                inner_rewrites: 2,
                inner_len_min: 4,
                inner_len_max: 10,
                attempts_per_step: 5,
            },
            attack: AttackConfig {
                max_passes: 50,
                trials_per_pass: 200,
                window_len_min: 4,
                window_len_max: 10,
                max_active_wires: 7,
                out_len: 6,
            },
            metrics: MetricsConfig {
                gap_window_sizes,
                samples_per_size: 200,
                entropy_window_size: 6,
                entropy_samples: 100,
                entropy_max_count: 1000,
                sector_seed_count: 5,
                sector_sample_windows: 200,
                sector_window_len: 6,
                max_active_wires: 7,
            },
            seed: 0,
        }
    }
}

/// Counters of the equivalence oracle.
#[derive(Debug, Clone)]
pub struct OracleStats {
    pub queries: usize,
    pub hits: usize,
    pub same_size_hits: usize,
    pub shorter_hits: usize,
    pub longer_hits: usize,
}

impl Default for OracleStats {
    fn default() -> (r: Self)
        ensures
            r.queries == 0 && r.hits == 0 && r.same_size_hits == 0 && r.shorter_hits == 0
                && r.longer_hits == 0,
    {
        OracleStats { queries: 0, hits: 0, same_size_hits: 0, shorter_hits: 0, longer_hits: 0 }
    }
}

/// A window `start..end` of a circuit, the wires it uses in increasing
/// order, and its gates rewired onto `0..used_wires.len()`.
#[derive(Debug, Clone)]
pub struct Window {
    pub start: usize,
    pub end: usize,
    pub used_wires: Vec<u8>,
    pub rewired: CircuitSeq,
}

/// Counters of a rewrite stage.
#[derive(Debug, Clone)]
pub struct StageStats {
    pub steps: usize,
    pub windows_tried: usize,
    pub replacements: usize,
}

/// What the peeling attacker achieved.
#[derive(Debug, Clone)]
pub struct AttackReport {
    pub passes: usize,
    pub total_replacements: usize,
    pub total_gate_reduction: usize,
}

/// Some pin of `a` is a pin of `b`.
pub open spec fn spec_shares_wire(a: [u8; 3], b: [u8; 3]) -> bool {
    exists|i: int, j: int| 0 <= i < 3 && 0 <= j < 3 && #[trigger] a[i] == #[trigger] b[j]
}

/// Whether the two gates have a wire in common.
pub fn shares_wire(a: &[u8; 3], b: &[u8; 3]) -> (r: bool)
    ensures
        r == spec_shares_wire(*a, *b),
{
    let mut i: usize = 0;
    while i < 3
        invariant
            i <= 3,
            forall|x: int, y: int| 0 <= x < i && 0 <= y < 3 ==> a[x] != b[y],
        decreases 3 - i,
    {
        if a[i] == b[0] || a[i] == b[1] || a[i] == b[2] {
            proof {
                if a[i as int] == b[0] {
                    assert(a[i as int] == b[0]);
                } else if a[i as int] == b[1] {
                    assert(a[i as int] == b[1]);
                } else {
                    assert(a[i as int] == b[2]);
                }
            }
            return true;
        }
        i += 1;
    }
    false
}

/// `g` with each pin `i` replaced by `wires[i]`.
pub open spec fn unrewired_gate(g: [u8; 3], wires: Seq<u8>) -> [u8; 3] {
    [wires[g[0] as int], wires[g[1] as int], wires[g[2] as int]]
}

/// Every pin of every gate of `c` is below `n`.
pub open spec fn all_pins_below(c: Seq<[u8; 3]>, n: nat) -> bool {
    forall|i: int|
        0 <= i < c.len() ==> ((#[trigger] c[i])[0] as nat) < n && (c[i][1] as nat) < n && (c[i][2]
            as nat) < n
}

/// Replaces the window's gates by the replacement, rewired from local wire
/// `i` back to `window.used_wires[i]`.
pub fn splice_replacement(circuit: &mut CircuitSeq, window: &Window, replacement: &CircuitSeq)
    requires
        window.start <= window.end <= old(circuit)@.len(),
        all_pins_below(replacement@, window.used_wires@.len()),
    ensures
        final(circuit)@.len() == old(circuit)@.len() - (window.end - window.start) + replacement@.len(),
        final(circuit)@.take(window.start as int) == old(circuit)@.take(window.start as int),
        final(circuit)@.skip(window.start + replacement@.len()) == old(circuit)@.skip(window.end as int),
        forall|i: int|
            0 <= i < replacement@.len() ==> #[trigger] final(circuit)@[window.start + i]
                == unrewired_gate(replacement@[i], window.used_wires@),
{
    let ghost old_c = circuit@;
    let n = circuit.gates.len();
    let m = replacement.gates.len();
    let mut gates: Vec<[u8; 3]> = Vec::new();
    let mut i: usize = 0;
    while i < window.start
        invariant
            i <= window.start,
            window.start <= n,
            n == old_c.len(),
            circuit@ == old_c,
            gates@ == old_c.take(i as int),
        decreases window.start - i,
    {
        gates.push(circuit.gates[i]);
        i += 1;
        proof {
            assert(gates@ =~= old_c.take(i as int));
        }
    }
    let mut k: usize = 0;
    while k < m
        invariant
            k <= m,
            m == replacement@.len(),
            all_pins_below(replacement@, window.used_wires@.len()),
            gates@.len() == window.start + k,
            gates@.take(window.start as int) == old_c.take(window.start as int),
            forall|j: int|
                0 <= j < k ==> #[trigger] gates@[window.start + j] == unrewired_gate(
                    replacement@[j],
                    window.used_wires@,
                ),
        decreases m - k,
    {
        let g = replacement.gates[k];
        proof {
            assert(replacement@[k as int] == g);
        }
        let ng = [window.used_wires[g[0] as usize], window.used_wires[g[1] as usize], window.used_wires[g[2] as usize]];
        let ghost before = gates@;
        gates.push(ng);
        proof {
            assert(gates@.take(window.start as int) =~= before.take(window.start as int));
            assert(ng =~= unrewired_gate(g, window.used_wires@));
        }
        k += 1;
    }
    let ghost mid = gates@;
    let mut j: usize = window.end;
    while j < n
        invariant
            window.end <= j <= n,
            n == old_c.len(),
            circuit@ == old_c,
            gates@ == mid + old_c.subrange(window.end as int, j as int),
        decreases n - j,
    {
        gates.push(circuit.gates[j]);
        j += 1;
        proof {
            assert(gates@ =~= mid + old_c.subrange(window.end as int, j as int));
        }
    }
    proof {
        assert(old_c.subrange(window.end as int, n as int) =~= old_c.skip(window.end as int));
        assert(gates@.take(window.start as int) =~= mid.take(window.start as int));
        assert(gates@.skip(window.start + m) =~= old_c.skip(window.end as int));
        assert forall|i: int| 0 <= i < m implies #[trigger] gates@[window.start + i]
            == unrewired_gate(replacement@[i], window.used_wires@) by {
            assert(gates@[window.start + i] == mid[window.start + i]);
        }
    }
    circuit.gates = gates;
}

/// A step between listed positions whose gates share a wire.
pub open spec fn step(c: Seq<[u8; 3]>, idx: Seq<usize>, y: usize, x: usize) -> bool {
    idx.contains(y) && idx.contains(x) && spec_shares_wire(c[y as int], c[x as int])
}

/// `p` is a walk of steps starting at the first listed position.
pub open spec fn is_walk(c: Seq<[u8; 3]>, idx: Seq<usize>, p: Seq<usize>) -> bool {
    &&& p.len() > 0
    &&& p[0] == idx[0]
    &&& forall|i: int| 1 <= i < p.len() ==> step(c, idx, p[i - 1], #[trigger] p[i])
}

/// Some walk from the first listed position ends at `x`.
pub open spec fn reached(c: Seq<[u8; 3]>, idx: Seq<usize>, x: usize) -> bool {
    exists|p: Seq<usize>| #[trigger] is_walk(c, idx, p) && p.last() == x
}

/// The listed positions are distinct, not empty, and all reached from the
/// first one.
pub open spec fn connected_positions(c: Seq<[u8; 3]>, idx: Seq<usize>) -> bool {
    &&& idx.len() > 0
    &&& idx.no_duplicates()
    &&& forall|j: int| 0 <= j < idx.len() ==> #[trigger] reached(c, idx, idx[j])
}

/// Every position reached is in a set that holds the first position and is
/// closed under steps.
proof fn lemma_reached_in_closed(c: Seq<[u8; 3]>, idx: Seq<usize>, seen: Set<usize>, p: Seq<usize>)
    requires
        idx.len() > 0,
        seen.contains(idx[0]),
        forall|a: usize, b: usize|
            #[trigger] seen.contains(a) && step(c, idx, a, b) ==> #[trigger] seen.contains(b),
        is_walk(c, idx, p),
    ensures
        seen.contains(p.last()),
    decreases p.len(),
{
    if p.len() > 1 {
        let q = p.drop_last();
        assert forall|i: int| 1 <= i < q.len() implies step(c, idx, q[i - 1], #[trigger] q[i]) by {
            assert(q[i] == p[i] && q[i - 1] == p[i - 1]);
        }
        lemma_reached_in_closed(c, idx, seen, q);
        assert(step(c, idx, p[p.len() - 2], p[p.len() - 1]));
        assert(q.last() == p[p.len() - 2]);
    }
}

/// Whether the gates at the listed positions form one connected group,
/// two gates being adjacent when they share a wire (a depth-first search
/// from the first position).  Repeated positions answer `false`.
pub fn is_connected(circuit: &CircuitSeq, indices: &[usize]) -> (r: bool)
    requires
        forall|j: int| 0 <= j < indices@.len() ==> (#[trigger] indices@[j] as int) < circuit@.len(),
    ensures
        r == connected_positions(circuit@, indices@),
{
    if indices.len() == 0 {
        return false;
    }
    let ghost c = circuit@;
    let ghost idx = indices@;
    let ghost idx_set = idx.to_set();
    let ghost total = idx_set.len();
    proof {
        idx.lemma_cardinality_of_set();
        assert(idx.contains(idx[0]));
    }
    let mut stack: Vec<usize> = Vec::new();
    stack.push(indices[0]);
    let mut seen: HashSet<usize> = HashSet::new();
    seen.insert(indices[0]);
    proof {
        assert(seen@ =~= Set::<usize>::empty().insert(idx[0]));
        assert(stack@[0] == idx[0]);
        assert(idx_set.contains(idx[0]));
        vstd::set_lib::lemma_len_subset(seen@, idx_set);
        assert forall|a: usize, b: usize|
            #[trigger] seen@.contains(a) && !stack@.contains(a) && step(c, idx, a, b)
                implies #[trigger] seen@.contains(b) by {
            assert(a == idx[0]);
            assert(stack@.contains(stack@[0]));
        }
        assert(is_walk(c, idx, seq![idx[0]]));
        assert(reached(c, idx, idx[0]));
    }
    while stack.len() > 0
        invariant
            idx == indices@,
            c == circuit@,
            idx.len() > 0,
            idx_set == idx.to_set(),
            total == idx_set.len(),
            idx_set.finite(),
            forall|j: int| 0 <= j < idx.len() ==> (#[trigger] idx[j] as int) < c.len(),
            seen@.contains(idx[0]),
            seen@.finite(),
            seen@.subset_of(idx_set),
            seen@.len() <= total,
            stack@.no_duplicates(),
            forall|i: int| 0 <= i < stack@.len() ==> seen@.contains(#[trigger] stack@[i]),
            forall|x: usize| #[trigger] seen@.contains(x) ==> reached(c, idx, x),
            forall|a: usize, b: usize|
                #[trigger] seen@.contains(a) && !stack@.contains(a) && step(c, idx, a, b)
                    ==> #[trigger] seen@.contains(b),
        decreases (total - seen@.len()) * 2 + stack@.len(),
    {
        let ghost stack0 = stack@;
        let x = stack.pop().unwrap();
        proof {
            assert(stack0 == stack@.push(x));
            assert(stack0[stack0.len() - 1] == x);
            assert(!stack@.contains(x)) by {
                if stack@.contains(x) {
                    let q = choose|q: int| 0 <= q < stack@.len() && stack@[q] == x;
                    assert(stack0[q] == x);
                }
            }
            assert forall|i: int| 0 <= i < stack@.len() implies seen@.contains(#[trigger] stack@[i]) by {
                assert(stack@[i] == stack0[i]);
            }
            assert forall|i: int, j: int| 0 <= i < stack@.len() && 0 <= j < stack@.len() && i != j implies stack@[i]
                != stack@[j] by {
                assert(stack@[i] == stack0[i] && stack@[j] == stack0[j]);
            }
        }
        let ghost seen_x = seen@;
        let gate = circuit.gates[x];
        proof {
            assert(seen@.contains(stack0[stack0.len() - 1]));
            assert(idx_set.contains(x));
            assert((x as int) < c.len()) by {
                let q = choose|q: int| 0 <= q < idx.len() && idx[q] == x;
            }
        }
        let ghost px = choose|p: Seq<usize>| #[trigger] is_walk(c, idx, p) && p.last() == x;
        proof {
            assert forall|a: usize, b: usize|
                #[trigger] seen@.contains(a) && !stack@.contains(a) && a != x && step(c, idx, a, b)
                    implies #[trigger] seen@.contains(b) by {
                assert(!stack0.contains(a)) by {
                    if stack0.contains(a) {
                        let q = choose|q: int| 0 <= q < stack0.len() && stack0[q] == a;
                        if q < stack@.len() {
                            assert(stack@[q] == a);
                        }
                    }
                }
            }
        }
        let mut jj: usize = 0;
        while jj < indices.len()
            invariant
                idx == indices@,
                c == circuit@,
                idx.len() > 0,
                idx_set == idx.to_set(),
                total == idx_set.len(),
                idx_set.finite(),
                forall|j: int| 0 <= j < idx.len() ==> (#[trigger] idx[j] as int) < c.len(),
                (x as int) < c.len(),
                gate == c[x as int],
                seen@.contains(x),
                !stack@.contains(x),
                is_walk(c, idx, px),
                px.last() == x,
                idx.contains(x),
                seen_x.subset_of(seen@),
                seen_x.finite(),
                seen@.len() - seen_x.len() == stack@.len() - (stack0.len() - 1),
                stack@.len() >= stack0.len() - 1,
                seen@.contains(idx[0]),
                seen@.finite(),
                seen@.subset_of(idx_set),
                stack@.no_duplicates(),
                forall|i: int| 0 <= i < stack@.len() ==> seen@.contains(#[trigger] stack@[i]),
                forall|y: usize| #[trigger] seen@.contains(y) ==> reached(c, idx, y),
                forall|a: usize, b: usize|
                    #[trigger] seen@.contains(a) && !stack@.contains(a) && a != x && step(c, idx, a, b)
                        ==> #[trigger] seen@.contains(b),
                forall|q: int|
                    0 <= q < jj && spec_shares_wire(c[x as int], c[idx[q] as int]) ==> seen@.contains(
                        #[trigger] idx[q],
                    ),
            decreases idx.len() - jj,
        {
            let j = indices[jj];
            if !seen.contains(&j) {
                let g2 = circuit.gates[j];
                if shares_wire(&gate, &g2) {
                    let ghost seen_b = seen@;
                    let ghost stack_b = stack@;
                    seen.insert(j);
                    stack.push(j);
                    proof {
                        assert(idx.contains(j)) by {
                            assert(idx[jj as int] == j);
                        }
                        assert(idx_set.contains(j));
                        assert(step(c, idx, x, j));
                        let pj = px.push(j);
                        assert forall|i: int| 1 <= i < pj.len() implies step(c, idx, pj[i - 1], #[trigger] pj[i]) by {
                            if i < px.len() {
                                assert(pj[i] == px[i] && pj[i - 1] == px[i - 1]);
                            } else {
                                assert(pj[i - 1] == px.last());
                            }
                        }
                        assert(is_walk(c, idx, pj) && pj.last() == j);
                        assert forall|i: int| 0 <= i < stack@.len() implies seen@.contains(
                            #[trigger] stack@[i],
                        ) by {
                            if i < stack_b.len() {
                                assert(stack@[i] == stack_b[i]);
                            }
                        }
                        assert(!stack_b.contains(j)) by {
                            if stack_b.contains(j) {
                                let q = choose|q: int| 0 <= q < stack_b.len() && stack_b[q] == j;
                                assert(seen_b.contains(stack_b[q]));
                            }
                        }
                        assert forall|a: int, b: int|
                            0 <= a < stack@.len() && 0 <= b < stack@.len() && a != b implies stack@[a]
                            != stack@[b] by {
                            if a < stack_b.len() && b < stack_b.len() {
                                assert(stack@[a] == stack_b[a] && stack@[b] == stack_b[b]);
                            } else if a < stack_b.len() {
                                assert(stack@[a] == stack_b[a]);
                            } else if b < stack_b.len() {
                                assert(stack@[b] == stack_b[b]);
                            }
                        }
                        assert forall|y: usize| #[trigger] seen@.contains(y) implies reached(c, idx, y) by {
                            if y == j {
                                let pj = px.push(j);
                                assert(is_walk(c, idx, pj) && pj.last() == j);
                            } else {
                                assert(seen_b.contains(y));
                            }
                        }
                        assert forall|a: usize, b: usize|
                            #[trigger] seen@.contains(a) && !stack@.contains(a) && a != x && step(c, idx, a, b)
                                implies #[trigger] seen@.contains(b) by {
                            assert(a != j) by {
                                assert(stack@[stack@.len() - 1] == j);
                            }
                            assert(!stack_b.contains(a)) by {
                                if stack_b.contains(a) {
                                    let q = choose|q: int| 0 <= q < stack_b.len() && stack_b[q] == a;
                                    assert(stack@[q] == a);
                                }
                            }
                            assert(seen_b.contains(a));
                        }
                        vstd::set_lib::lemma_len_subset(seen@, idx_set);
                    }
                }
            }
            jj += 1;
        }
        proof {
            assert forall|a: usize, b: usize|
                #[trigger] seen@.contains(a) && !stack@.contains(a) && step(c, idx, a, b)
                    implies #[trigger] seen@.contains(b) by {
                if a == x {
                    let q = choose|q: int| 0 <= q < idx.len() && idx[q] == b;
                    assert(seen@.contains(idx[q]));
                }
            }
            vstd::set_lib::lemma_len_subset(seen@, idx_set);
        }
    }
    proof {
        assert(stack@.len() == 0);
        assert forall|a: usize, b: usize|
            #[trigger] seen@.contains(a) && step(c, idx, a, b) implies #[trigger] seen@.contains(b) by {
            assert(!stack@.contains(a));
        }
        idx.lemma_cardinality_of_set();
        if seen@.len() == idx.len() {
            assert(idx_set.len() == idx.len());
            idx.lemma_no_dup_set_cardinality();
            vstd::set_lib::lemma_subset_equality(seen@, idx_set);
            assert forall|j: int| 0 <= j < idx.len() implies #[trigger] reached(c, idx, idx[j]) by {
                assert(idx_set.contains(idx[j]));
                assert(seen@.contains(idx[j]));
            }
        }
        if connected_positions(c, idx) {
            assert forall|v: usize| idx_set.contains(v) implies seen@.contains(v) by {
                let q = choose|q: int| 0 <= q < idx.len() && idx[q] == v;
                assert(reached(c, idx, idx[q]));
                let w = choose|w: Seq<usize>| #[trigger] is_walk(c, idx, w) && w.last() == v;
                lemma_reached_in_closed(c, idx, seen@, w);
            }
            assert(seen@ =~= idx_set);
            idx.unique_seq_to_set();
        }
    }
    seen.len() == indices.len()
}

/// The peeling attacker: for at most `cfg.max_passes` passes, each of
/// `cfg.trials_per_pass` trials draws a window length in
/// `cfg.window_len_min ..= cfg.window_len_max`; `sample` proposes a window of
/// that length on at most `cfg.max_active_wires` wires (a proposal that does
/// not lie inside the circuit is passed over), and `shortest` proposes a
/// circuit of at most `cfg.out_len` gates on the window's wires; one with
/// fewer gates than the window replaces it.  A pass that replaces nothing
/// ends the attack.  Every gate removed is counted once.
pub fn attack_peel_with<S, G>(
    circuit: &mut CircuitSeq,
    cfg: &AttackConfig,
    sample: &S,
    shortest: &G,
    rng: &mut rand::rngs::StdRng,
) -> (r: AttackReport) where
    S: Fn(&CircuitSeq, usize, usize) -> Option<Window>,
    G: Fn(&CircuitSeq, usize, usize) -> Option<CircuitSeq>,

    requires
        cfg.max_passes > 0 && cfg.trials_per_pass > 0 ==> cfg.window_len_min <= cfg.window_len_max,
        forall|c: &CircuitSeq, len: usize, wires: usize| #[trigger] sample.requires((c, len, wires)),
        forall|w: &CircuitSeq, active: usize, out_len: usize| #[trigger] shortest.requires((w, active, out_len)),
        forall|w: &CircuitSeq, active: usize, out_len: usize, o: Option<CircuitSeq>|
            #[trigger] shortest.ensures((w, active, out_len), o) ==> (o matches Some(x) ==> all_pins_below(
                x@,
                active as nat,
            )),
    ensures
        final(circuit)@.len() + r.total_gate_reduction == old(circuit)@.len(),
        r.total_replacements <= r.total_gate_reduction,
        r.passes <= cfg.max_passes,
        cfg.max_passes == 0 ==> final(circuit)@ == old(circuit)@,
{
    let ghost orig = circuit@;
    let orig_len = circuit.gates.len();
    let mut report = AttackReport { passes: 0, total_replacements: 0, total_gate_reduction: 0 };
    let mut done = false;
    while report.passes < cfg.max_passes && !done
        invariant
            orig.len() == orig_len,
            report.passes <= cfg.max_passes,
            circuit@.len() + report.total_gate_reduction == orig.len(),
            report.total_replacements <= report.total_gate_reduction,
            cfg.max_passes == 0 ==> circuit@ == orig,
            cfg.max_passes > 0 && cfg.trials_per_pass > 0 ==> cfg.window_len_min <= cfg.window_len_max,
            forall|c: &CircuitSeq, len: usize, wires: usize| #[trigger] sample.requires((c, len, wires)),
            forall|w: &CircuitSeq, active: usize, out_len: usize| #[trigger] shortest.requires((w, active, out_len)),
            forall|w: &CircuitSeq, active: usize, out_len: usize, o: Option<CircuitSeq>|
                #[trigger] shortest.ensures((w, active, out_len), o) ==> (o matches Some(x) ==> all_pins_below(
                    x@,
                    active as nat,
                )),
        decreases cfg.max_passes - report.passes, (if done { 0int } else { 1int }),
    {
        let len_before = circuit.gates.len();
        let mut replaced: usize = 0;
        let mut t: usize = 0;
        while t < cfg.trials_per_pass
            invariant
                t <= cfg.trials_per_pass,
                cfg.max_passes > 0,
                circuit@.len() + replaced <= len_before,
                cfg.max_passes > 0 && cfg.trials_per_pass > 0 ==> cfg.window_len_min <= cfg.window_len_max,
                forall|c: &CircuitSeq, len: usize, wires: usize| #[trigger] sample.requires((c, len, wires)),
                forall|w: &CircuitSeq, active: usize, out_len: usize| #[trigger] shortest.requires(
                    (w, active, out_len),
                ),
                forall|w: &CircuitSeq, active: usize, out_len: usize, o: Option<CircuitSeq>|
                    #[trigger] shortest.ensures((w, active, out_len), o) ==> (o matches Some(x) ==> all_pins_below(
                        x@,
                        active as nat,
                    )),
            decreases cfg.trials_per_pass - t,
        {
            let len = rng_usize_inclusive(rng, cfg.window_len_min, cfg.window_len_max);
            match sample(&*circuit, len, cfg.max_active_wires) {
                Some(w) => {
                    if w.start <= w.end && w.end <= circuit.gates.len() && w.rewired.gates.len() == w.end - w.start {
                        let active = w.used_wires.len();
                        match shortest(&w.rewired, active, cfg.out_len) {
                            Some(rep) => {
                                if rep.gates.len() < w.rewired.gates.len() {
                                    splice_replacement(circuit, &w, &rep);
                                    replaced += 1;
                                }
                            },
                            None => {},
                        }
                    }
                },
                None => {},
            }
            t += 1;
        }
        let len_after = circuit.gates.len();
        report.passes = report.passes + 1;
        report.total_replacements = report.total_replacements + replaced;
        report.total_gate_reduction = report.total_gate_reduction + (len_before - len_after);
        if replaced == 0 {
            done = true;
        }
    }
    report
}

/// `same_size` answers only circuits of the window's length on the
/// window's wires.
pub open spec fn gives_same_size<G: Fn(&CircuitSeq, usize, usize) -> Option<CircuitSeq>>(same_size: &G) -> bool {
    &&& forall|w: &CircuitSeq, active: usize, tries: usize| #[trigger] same_size.requires((w, active, tries))
    &&& forall|w: &CircuitSeq, active: usize, tries: usize, o: Option<CircuitSeq>|
        #[trigger] same_size.ensures((w, active, tries), o) ==> (o matches Some(x) ==> x@.len() == w@.len()
            && all_pins_below(x@, active as nat))
}

/// Offers the window to `same_size` with `tries` tries and splices the
/// answer in; a window that does not lie inside the circuit is passed over.
/// Answers whether a replacement was made; the length never changes.
fn knead_window<G: Fn(&CircuitSeq, usize, usize) -> Option<CircuitSeq>>(
    circuit: &mut CircuitSeq,
    w: &Window,
    same_size: &G,
    tries: usize,
) -> (r: bool)
    requires
        gives_same_size(same_size),
    ensures
        final(circuit)@.len() == old(circuit)@.len(),
        !r ==> final(circuit)@ == old(circuit)@,
{
    if w.start <= w.end && w.end <= circuit.gates.len() && w.rewired.gates.len() == w.end - w.start {
        match same_size(&w.rewired, w.used_wires.len(), tries) {
            Some(rep) => {
                splice_replacement(circuit, w, &rep);
                true
            },
            None => false,
        }
    } else {
        false
    }
}

/// The kneading stage: for each of `cfg.steps` steps the window length is
/// the next one of `cfg.window_schedule`, and for at most
/// `max(cfg.attempts_per_step, 1)` attempts `sample` proposes a window of
/// that length on at most `cfg.max_active_wires` wires; `same_size` is asked
/// for an alternative of the same size with 3 tries, which ends the step's
/// attempts when found; otherwise `cfg.inner_rewrites` inner windows of
/// lengths drawn in `cfg.inner_len_min ..= cfg.inner_len_max` are offered
/// with 2 tries.  The circuit keeps its length.
pub fn run_kneading_with<S, G>(
    circuit: &mut CircuitSeq,
    cfg: &KneadingConfig,
    sample: &S,
    same_size: &G,
    rng: &mut rand::rngs::StdRng,
) -> (r: StageStats) where
    S: Fn(&CircuitSeq, usize, usize) -> Option<Window>,
    G: Fn(&CircuitSeq, usize, usize) -> Option<CircuitSeq>,

    requires
        cfg.inner_rewrites > 0 ==> cfg.inner_len_min <= cfg.inner_len_max,
        cfg.steps * (if cfg.attempts_per_step > 0 { cfg.attempts_per_step as int } else { 1 }) * (1
            + cfg.inner_rewrites) <= usize::MAX,
        forall|c: &CircuitSeq, len: usize, wires: usize| #[trigger] sample.requires((c, len, wires)),
        gives_same_size(same_size),
    ensures
        final(circuit)@.len() == old(circuit)@.len(),
        r.steps == cfg.steps,
        r.windows_tried <= cfg.steps * (if cfg.attempts_per_step > 0 { cfg.attempts_per_step as int } else { 1 }),
        r.replacements <= r.windows_tried * (1 + cfg.inner_rewrites),
        cfg.window_schedule@.len() == 0 ==> final(circuit)@ == old(circuit)@ && r.windows_tried == 0,
{
    let ghost orig = circuit@;
    let mut stats = StageStats { steps: cfg.steps, windows_tried: 0, replacements: 0 };
    if cfg.window_schedule.len() == 0 {
        return stats;
    }
    let attempts: usize = if cfg.attempts_per_step > 0 {
        cfg.attempts_per_step
    } else {
        1
    };
    let ghost k = 1 + cfg.inner_rewrites;
    let mut step: usize = 0;
    while step < cfg.steps
        invariant
            step <= cfg.steps,
            attempts >= 1,
            attempts == (if cfg.attempts_per_step > 0 { cfg.attempts_per_step as int } else { 1 }),
            k == 1 + cfg.inner_rewrites,
            cfg.steps * attempts * k <= usize::MAX,
            cfg.window_schedule@.len() > 0,
            circuit@.len() == orig.len(),
            stats.steps == cfg.steps,
            stats.windows_tried <= step * attempts,
            stats.replacements <= stats.windows_tried * k,
            cfg.inner_rewrites > 0 ==> cfg.inner_len_min <= cfg.inner_len_max,
            forall|c: &CircuitSeq, len: usize, wires: usize| #[trigger] sample.requires((c, len, wires)),
            gives_same_size(same_size),
        decreases cfg.steps - step,
    {
        let len = cfg.window_schedule[step % cfg.window_schedule.len()];
        let mut a: usize = 0;
        let mut found = false;
        while a < attempts && !found
            invariant
                a <= attempts,
                step < cfg.steps,
                attempts >= 1,
                k == 1 + cfg.inner_rewrites,
                cfg.steps * attempts * k <= usize::MAX,
                circuit@.len() == orig.len(),
                stats.steps == cfg.steps,
                stats.windows_tried <= step * attempts + a,
                stats.replacements <= stats.windows_tried * k,
                cfg.inner_rewrites > 0 ==> cfg.inner_len_min <= cfg.inner_len_max,
                forall|c: &CircuitSeq, len: usize, wires: usize| #[trigger] sample.requires((c, len, wires)),
                gives_same_size(same_size),
            decreases attempts - a, (if found { 0int } else { 1int }),
        {
            proof {
                assert(step * attempts + a + 1 <= cfg.steps * attempts) by (nonlinear_arith)
                    requires
                        step < cfg.steps,
                        a < attempts,
                ;
                assert(cfg.steps * attempts <= cfg.steps * attempts * k) by (nonlinear_arith)
                    requires
                        k >= 1,
                ;
            }
            match sample(&*circuit, len, cfg.max_active_wires) {
                Some(w) => {
                    let ghost wt0 = stats.windows_tried as int;
                    let ghost r0 = stats.replacements as int;
                    stats.windows_tried = stats.windows_tried + 1;
                    proof {
                        assert((wt0 + 1) * k == wt0 * k + k) by (nonlinear_arith);
                        assert((wt0 + 1) * k <= cfg.steps * attempts * k) by (nonlinear_arith)
                            requires
                                wt0 + 1 <= cfg.steps * attempts,
                                k >= 1,
                        ;
                    }
                    if knead_window(circuit, &w, same_size, 3) {
                        stats.replacements = stats.replacements + 1;
                        found = true;
                    } else if cfg.inner_rewrites > 0 {
                        let mut j: usize = 0;
                        while j < cfg.inner_rewrites
                            invariant
                                j <= cfg.inner_rewrites,
                                k == 1 + cfg.inner_rewrites,
                                cfg.inner_len_min <= cfg.inner_len_max,
                                circuit@.len() == orig.len(),
                                stats.steps == cfg.steps,
                                stats.windows_tried == wt0 + 1,
                                stats.replacements <= r0 + j,
                                r0 <= wt0 * k,
                                (wt0 + 1) * k == wt0 * k + k,
                                (wt0 + 1) * k <= usize::MAX,
                                forall|c: &CircuitSeq, len: usize, wires: usize| #[trigger] sample.requires(
                                    (c, len, wires),
                                ),
                                gives_same_size(same_size),
                            decreases cfg.inner_rewrites - j,
                        {
                            let inner_len = rng_usize_inclusive(rng, cfg.inner_len_min, cfg.inner_len_max);
                            match sample(&*circuit, inner_len, cfg.max_active_wires) {
                                Some(inner) => {
                                    if knead_window(circuit, &inner, same_size, 2) {
                                        stats.replacements = stats.replacements + 1;
                                    }
                                },
                                None => {},
                            }
                            j += 1;
                        }
                    }
                },
                None => {},
            }
            a += 1;
        }
        proof {
            assert(step * attempts + attempts == (step + 1) * attempts) by (nonlinear_arith);
        }
        step += 1;
    }
    stats
}

} // verus!
