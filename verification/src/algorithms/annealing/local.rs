//! Local mixing primitives and the reducer (attacker): adjacent cancellation,
//! commute-to-expose, and deletion of small windows that compute the
//! identity.
use vstd::prelude::*;

use std::collections::HashSet;

use crate::infra::circuit::{
    bit, cancel_adjacent_pairs, no_adjacent_equal, eval_gates, gate_fits, gates_fit, gates_reversible,
    lemma_reversible_swap, lemma_same_function_transitive, lemma_swap_adjacent, pins_commute,
    same_function, CircuitSeq, Gate,
};
use crate::algorithms::annealing::anneal::inserted_at;
use crate::algorithms::identity_growth::{lemma_shuffled_prefix, take_prefix};
use crate::infra::circuit::{
    gate_reversible, is_identity_fn, lemma_insert_identity, lemma_mirror_is_identity,
};
use crate::infra::ids_index::drain_window;
use crate::infra::random::{random_below, random_u64, rng_usize_below, rng_usize_inclusive, seeded_rng, shuffle_prefix};
use crate::obfuscate::gadgets::{all_distinct_pins_below, random_circuit_touching};

verus! {

/// Configuration for mixing.
#[derive(Clone, Debug)]
pub struct MixConfig {
    pub num_wires: usize,
    pub num_rounds: usize,
    /// Max wires for templates.
    pub template_size_max: usize,
}

/// Configuration for the reducer.
#[derive(Clone, Debug)]
pub struct ReduceConfig {
    pub max_passes: usize,
    pub max_stall: usize,
}

/// Whether two gates commute: neither target is a control of the other gate.
/// Gates with the same target commute when neither controls the other.
pub fn commutes(g1: &Gate, g2: &Gate) -> (r: bool)
    ensures
        r == (g1.pins[0] != g2.pins[1] && g1.pins[0] != g2.pins[2] && g2.pins[0] != g1.pins[1]
            && g2.pins[0] != g1.pins[2]),
{
    if g1.pins[0] == g2.pins[1] || g1.pins[0] == g2.pins[2] {
        return false;
    }
    if g2.pins[0] == g1.pins[1] || g2.pins[0] == g1.pins[2] {
        return false;
    }
    true
}

/// The inverse of a gate: that same gate.
pub fn inverse(g: &Gate) -> (r: Gate)
    ensures
        r == *g,
{
    *g
}

/// `template` with every wire `w` replaced by `mapping[w]` (truncated to a
/// byte).
pub open spec fn spec_embed(template: Seq<[u8; 3]>, mapping: Seq<usize>) -> Seq<[u8; 3]> {
    Seq::new(
        template.len(),
        |i: int|
            [
                mapping[template[i][0] as int] as u8,
                mapping[template[i][1] as int] as u8,
                mapping[template[i][2] as int] as u8,
            ],
    )
}

/// Embeds a template on wires `0..k` into a larger wire space through
/// `mapping`.
pub fn embed_template(template: &CircuitSeq, mapping: &[usize]) -> (r: CircuitSeq)
    requires
        forall|i: int, k: int|
            0 <= i < template@.len() && 0 <= k < 3 ==> (#[trigger] template@[i][k] as int)
                < mapping@.len(),
    ensures
        r@ == spec_embed(template@, mapping@),
{
    let mut new_gates: Vec<[u8; 3]> = Vec::with_capacity(template.gates.len());
    let mut i: usize = 0;
    while i < template.gates.len()
        invariant
            i <= template@.len(),
            forall|a: int, k: int|
                0 <= a < template@.len() && 0 <= k < 3 ==> (#[trigger] template@[a][k] as int)
                    < mapping@.len(),
            new_gates@ == spec_embed(template@, mapping@).take(i as int),
        decreases template@.len() - i,
    {
        let gate = template.gates[i];
        proof {
            assert((template@[i as int][0] as int) < mapping@.len());
            assert((template@[i as int][1] as int) < mapping@.len());
            assert((template@[i as int][2] as int) < mapping@.len());
        }
        let new_t = mapping[gate[0] as usize];
        let new_c1 = mapping[gate[1] as usize];
        let new_c2 = mapping[gate[2] as usize];
        new_gates.push([new_t as u8, new_c1 as u8, new_c2 as u8]);
        i += 1;
        proof {
            assert(new_gates@ =~= spec_embed(template@, mapping@).take(i as int));
        }
    }
    proof {
        assert(spec_embed(template@, mapping@).take(i as int) =~= spec_embed(template@, mapping@));
    }
    CircuitSeq { gates: new_gates }
}

/// Pass 1: cancels adjacent identical gates; returns whether any were.
fn pass_cancel(circuit: &mut CircuitSeq) -> (changed: bool)
    ensures
        final(circuit)@.len() <= old(circuit)@.len(),
        changed <==> final(circuit)@.len() < old(circuit)@.len(),
        no_adjacent_equal(final(circuit)@),
        gates_reversible(old(circuit)@) ==> gates_reversible(final(circuit)@) && same_function(
            old(circuit)@,
            final(circuit)@,
        ),
{
    cancel_adjacent_pairs(&mut circuit.gates)
}

/// Pass 2: `2 * len` random swaps of commuting neighbours, then a cancel
/// pass; returns whether the cancel pass removed gates.  A circuit of fewer
/// than two gates is left as it is.
fn pass_commute_expose(circuit: &mut CircuitSeq) -> (exposed: bool)
    ensures
        final(circuit)@.len() <= old(circuit)@.len(),
        exposed <==> final(circuit)@.len() < old(circuit)@.len(),
        old(circuit)@.len() < 2 ==> final(circuit)@ == old(circuit)@,
        old(circuit)@.len() >= 2 ==> no_adjacent_equal(final(circuit)@),
        gates_reversible(old(circuit)@) ==> gates_reversible(final(circuit)@) && same_function(
            old(circuit)@,
            final(circuit)@,
        ),
{
    let len = circuit.gates.len();
    if len < 2 {
        return false;
    }
    let n_swaps: usize = if len <= usize::MAX / 2 {
        len * 2
    } else {
        usize::MAX
    };
    let ghost c0 = circuit@;
    let ghost ok = gates_reversible(c0);
    let mut k: usize = 0;
    while k < n_swaps
        invariant
            circuit@.len() == len,
            len >= 2,
            ok == gates_reversible(c0),
            ok ==> gates_reversible(circuit@) && same_function(c0, circuit@),
        decreases n_swaps - k,
    {
        let idx = random_below(len - 1);
        let a = circuit.gates[idx];
        let b = circuit.gates[idx + 1];
        let g1 = Gate { pins: [a[0] as usize, a[1] as usize, a[2] as usize] };
        let g2 = Gate { pins: [b[0] as usize, b[1] as usize, b[2] as usize] };
        if commutes(&g1, &g2) {
            let ghost before = circuit@;
            circuit.gates.set(idx, b);
            circuit.gates.set(idx + 1, a);
            proof {
                if ok {
                    assert(crate::infra::circuit::gate_reversible(before[idx as int]));
                    assert(crate::infra::circuit::gate_reversible(before[idx + 1]));
                    lemma_swap_adjacent(before, idx as int);
                    lemma_same_function_transitive(c0, before, circuit@);
                    lemma_reversible_swap(before, idx as int);
                }
            }
        }
        k += 1;
    }
    let ghost mid = circuit@;
    let exposed = pass_cancel(circuit);
    proof {
        if ok {
            lemma_same_function_transitive(c0, mid, circuit@);
        }
    }
    exposed
}

/// Number of wires of `active` below `w`.
pub open spec fn rank(active: Set<u8>, w: nat) -> nat
    decreases w,
{
    if w == 0 {
        0
    } else {
        rank(active, (w - 1) as nat) + if active.contains((w - 1) as u8) {
            1nat
        } else {
            0nat
        }
    }
}

/// `gates` with every wire replaced by its rank among the active wires.
pub open spec fn localize(gates: Seq<[u8; 3]>, active: Set<u8>) -> Seq<[u8; 3]> {
    Seq::new(
        gates.len(),
        |i: int|
            [
                rank(active, gates[i][0] as nat) as u8,
                rank(active, gates[i][1] as nat) as u8,
                rank(active, gates[i][2] as nat) as u8,
            ],
    )
}

/// Every pin of every gate is an active wire.
pub open spec fn pins_within(gates: Seq<[u8; 3]>, active: Set<u8>) -> bool {
    forall|i: int, k: int| 0 <= i < gates.len() && 0 <= k < 3 ==> active.contains(#[trigger] gates[i][k])
}

proof fn lemma_rank_bounds(active: Set<u8>, w: nat, v: nat)
    requires
        w <= v,
    ensures
        rank(active, w) <= rank(active, v),
        rank(active, w) <= w,
    decreases v,
{
    if w < v {
        lemma_rank_bounds(active, w, (v - 1) as nat);
    } else if w > 0 {
        lemma_rank_bounds(active, (w - 1) as nat, (w - 1) as nat);
    }
}

proof fn lemma_rank_strict(active: Set<u8>, w: u8)
    requires
        active.contains(w),
    ensures
        rank(active, w as nat) < rank(active, 256),
{
    lemma_rank_bounds(active, (w + 1) as nat, 256);
}

/// Whether the window, relabelled onto its `k` active wires, computes the
/// identity on every one of the `2^k` states.
fn is_identity_window(gates: &[[u8; 3]], active_wires: &HashSet<u8>) -> (r: bool)
    requires
        pins_within(gates@, active_wires@),
        rank(active_wires@, 256) < usize::BITS,
    ensures
        r == forall|x: usize|
            (x as int) < vstd::arithmetic::power2::pow2(rank(active_wires@, 256)) ==> #[trigger] eval_gates(
                x,
                localize(gates@, active_wires@),
            ) == x,
{
    broadcast use vstd::std_specs::hash::group_hash_axioms;

    // Rank of every wire among the active ones.
    let mut map: Vec<usize> = vec![0usize; 256];
    let mut k: usize = 0;
    let mut w: usize = 0;
    while w < 256
        invariant
            w <= 256,
            map@.len() == 256,
            k == rank(active_wires@, w as nat),
            forall|v: u8| (v as int) < w ==> #[trigger] map@[v as int] == rank(active_wires@, v as nat),
        decreases 256 - w,
    {
        proof {
            lemma_rank_bounds(active_wires@, w as nat, w as nat);
        }
        map.set(w, k);
        if active_wires.contains(&(w as u8)) {
            k += 1;
        }
        w += 1;
        proof {
            assert forall|v: u8| (v as int) < w implies #[trigger] map@[v as int] == rank(active_wires@, v as nat) by {
            }
        }
    }
    // The local gates.
    let mut local: Vec<[u8; 3]> = Vec::with_capacity(gates.len());
    let mut i: usize = 0;
    while i < gates.len()
        invariant
            i <= gates@.len(),
            map@.len() == 256,
            k == rank(active_wires@, 256),
            k < usize::BITS,
            pins_within(gates@, active_wires@),
            forall|v: u8| #[trigger] map@[v as int] == rank(active_wires@, v as nat),
            local@ == localize(gates@, active_wires@).take(i as int),
        decreases gates@.len() - i,
    {
        let g = gates[i];
        proof {
            assert(active_wires@.contains(gates@[i as int][0]));
            assert(active_wires@.contains(gates@[i as int][1]));
            assert(active_wires@.contains(gates@[i as int][2]));
            lemma_rank_strict(active_wires@, g[0]);
            lemma_rank_strict(active_wires@, g[1]);
            lemma_rank_strict(active_wires@, g[2]);
        }
        local.push([map[g[0] as usize] as u8, map[g[1] as usize] as u8, map[g[2] as usize] as u8]);
        i += 1;
        proof {
            assert(local@ =~= localize(gates@, active_wires@).take(i as int));
        }
    }
    proof {
        assert(local@ =~= localize(gates@, active_wires@));
        assert forall|j: int| 0 <= j < local@.len() implies #[trigger] gate_fits(local@[j]) by {
            assert(active_wires@.contains(gates@[j][0]));
            assert(active_wires@.contains(gates@[j][1]));
            assert(active_wires@.contains(gates@[j][2]));
            lemma_rank_strict(active_wires@, gates@[j][0]);
            lemma_rank_strict(active_wires@, gates@[j][1]);
            lemma_rank_strict(active_wires@, gates@[j][2]);
        }
    }
    let num_states: usize = 1usize << k;
    proof {
        crate::infra::circuit::lemma_shift_is_pow2(k);
    }
    let mut state: usize = 0;
    while state < num_states
        invariant
            num_states == vstd::arithmetic::power2::pow2(k as nat),
            k == rank(active_wires@, 256),
            gates_fit(local@),
            local@ == localize(gates@, active_wires@),
            forall|x: usize| x < state ==> #[trigger] eval_gates(x, local@) == x,
        decreases num_states - state,
    {
        let curr = Gate::evaluate_index_list(state, local.as_slice());
        if curr != state {
            return false;
        }
        state += 1;
    }
    true
}

/// The wires of the gates at positions `start .. start + len`, as a set.
fn window_wires(gates: &Vec<[u8; 3]>, start: usize, len: usize) -> (r: HashSet<u8>)
    requires
        start + len <= gates@.len(),
    ensures
        pins_within(gates@.subrange(start as int, start + len), r@),
        r@.finite(),
        forall|w: u8| #[trigger] r@.contains(w) ==> exists|i: int, k: int|
            start <= i < start + len && 0 <= k < 3 && gates@[i][k] == w,
{
    broadcast use vstd::std_specs::hash::group_hash_axioms;

    let mut active: HashSet<u8> = HashSet::new();
    let n = gates.len();
    let end = start + len;
    let mut i: usize = start;
    while i < end
        invariant
            start <= i <= end,
            end == start + len,
            end <= gates@.len(),
            active@.finite(),
            pins_within(gates@.subrange(start as int, i as int), active@),
            forall|w: u8| #[trigger] active@.contains(w) ==> exists|a: int, k: int|
                start <= a < i && 0 <= k < 3 && gates@[a][k] == w,
        decreases end - i,
    {
        let g = gates[i];
        active.insert(g[0]);
        active.insert(g[1]);
        active.insert(g[2]);
        i += 1;
        proof {
            let sub = gates@.subrange(start as int, i as int);
            assert forall|a: int, k: int| 0 <= a < sub.len() && 0 <= k < 3 implies active@.contains(#[trigger] sub[a][k]) by {
                if a < sub.len() - 1 {
                    assert(sub[a] == gates@.subrange(start as int, i - 1)[a]);
                } else {
                    assert(sub[a] == g);
                }
            }
            assert forall|w: u8| #[trigger] active@.contains(w) implies exists|a: int, k: int|
                start <= a < i && 0 <= k < 3 && gates@[a][k] == w by {
                if w == g[0] {
                    assert(gates@[i - 1][0] == w);
                } else if w == g[1] {
                    assert(gates@[i - 1][1] == w);
                } else if w == g[2] {
                    assert(gates@[i - 1][2] == w);
                }
            }
        }
    }
    active
}

/// Number of active wires of a set, counted in rank order.
proof fn lemma_rank_is_len(active: Set<u8>, w: nat)
    requires
        active.finite(),
        w <= 256,
    ensures
        rank(active, w) == active.filter(|v: u8| (v as nat) < w).len(),
    decreases w,
{
    if w == 0 {
        assert(active.filter(|v: u8| (v as nat) < w) =~= Set::empty());
    } else {
        lemma_rank_is_len(active, (w - 1) as nat);
        let prev = active.filter(|v: u8| (v as nat) < (w - 1) as nat);
        let cur = active.filter(|v: u8| (v as nat) < w);
        if active.contains((w - 1) as u8) {
            assert(cur =~= prev.insert((w - 1) as u8));
        } else {
            assert(cur =~= prev);
        }
    }
}

/// The number of active wires is their rank count.
proof fn lemma_rank_all(active: Set<u8>)
    requires
        active.finite(),
    ensures
        rank(active, 256) == active.len(),
{
    lemma_rank_is_len(active, 256);
    assert(active.filter(|v: u8| (v as nat) < 256) =~= active);
}

proof fn lemma_add_top_keeps_low(x: usize, r: usize, j: usize)
    by (bit_vector)
    requires
        r < usize::BITS,
        j < r,
        x < (1usize << r),
    ensures
        (((x + (1usize << r)) as usize) >> j) & 1usize == (x >> j) & 1usize,
{
}

proof fn lemma_add_top_sets_top(x: usize, r: usize)
    by (bit_vector)
    requires
        r < usize::BITS,
        x < (1usize << r),
    ensures
        (((x + (1usize << r)) as usize) >> r) & 1usize == 1usize,
{
}

proof fn lemma_small_top_clear(x: usize, r: usize)
    by (bit_vector)
    requires
        r < usize::BITS,
        x < (1usize << r),
    ensures
        (x >> r) & 1usize == 0usize,
{
}

proof fn lemma_add_top_bound(x: usize, r: usize)
    by (bit_vector)
    requires
        r + 1 < usize::BITS,
        x < (1usize << r),
    ensures
        x + (1usize << r) < (1usize << (r + 1)),
        x < (1usize << (r + 1)),
{
}

proof fn lemma_flip_same_bit(s: usize, t: usize)
    by (bit_vector)
    requires
        t < usize::BITS,
    ensures
        (((s ^ (1usize << t)) >> t) & 1usize == 1usize) == !((s >> t) & 1usize == 1usize),
{
}

proof fn lemma_flip_other_bit(s: usize, t: usize, c: usize)
    by (bit_vector)
    requires
        t < usize::BITS,
        c < usize::BITS,
        t != c,
    ensures
        ((s ^ (1usize << t)) >> c) & 1usize == (s >> c) & 1usize,
{
}

proof fn lemma_low_bit_of_nonzero(d: usize)
    by (bit_vector)
    requires
        d != 0,
        d & 1usize == 0usize,
    ensures
        d >> 1usize != 0,
        d >> 1usize < d,
{
}

proof fn lemma_shift_compose(d: usize, j: usize)
    by (bit_vector)
    requires
        j + 1 < usize::BITS,
    ensures
        ((d >> 1usize) >> j) & 1usize == (d >> (j + 1)) & 1usize,
{
}

proof fn lemma_top_bit_of_half(d: usize, j: usize)
    by (bit_vector)
    requires
        j < usize::BITS,
        ((d >> 1usize) >> j) & 1usize == 1usize,
    ensures
        j + 1 < usize::BITS,
{
}

/// A nonzero state has a set bit.
proof fn lemma_nonzero_has_bit(d: usize) -> (i: usize)
    requires
        d != 0,
    ensures
        i < usize::BITS,
        (d >> i) & 1usize == 1usize,
    decreases d,
{
    if d & 1usize == 1usize {
        assert((d >> 0usize) == d) by (bit_vector);
        0
    } else {
        assert((d & 1usize) == 0usize || (d & 1usize) == 1usize) by (bit_vector);
        lemma_low_bit_of_nonzero(d);
        let j = lemma_nonzero_has_bit(d >> 1usize);
        lemma_top_bit_of_half(d, j);
        lemma_shift_compose(d, j);
        (j + 1) as usize
    }
}

proof fn lemma_xor_bit(a: usize, b: usize, i: usize)
    by (bit_vector)
    requires
        i < usize::BITS,
        ((a ^ b) >> i) & 1usize == 1usize,
    ensures
        ((a >> i) & 1usize == 1usize) != ((b >> i) & 1usize == 1usize),
{
}

proof fn lemma_xor_zero(a: usize, b: usize)
    by (bit_vector)
    requires
        a ^ b == 0usize,
    ensures
        a == b,
{
}

/// States that agree on every bit are equal.
proof fn lemma_bits_eq(a: usize, b: usize)
    requires
        forall|i: u8| (i as int) < usize::BITS ==> #[trigger] bit(a, i) == bit(b, i),
    ensures
        a == b,
{
    if a ^ b != 0 {
        let i = lemma_nonzero_has_bit(a ^ b);
        lemma_xor_bit(a, b, i);
        assert(bit(a, i as u8) == bit(b, i as u8));
        assert(false);
    } else {
        lemma_xor_zero(a, b);
    }
}

/// Ranks of distinct active wires differ, and stay below the total.
proof fn lemma_rank_injective(active: Set<u8>, w1: u8, w2: u8)
    requires
        active.contains(w1),
        active.contains(w2),
        w1 < w2,
    ensures
        rank(active, w1 as nat) < rank(active, w2 as nat),
{
    lemma_rank_bounds(active, (w1 + 1) as nat, w2 as nat);
}

/// The local state `x` holds, at the rank of every active wire below `w`,
/// the bit of `s` on that wire.
pub open spec fn agree_upto(s: usize, x: usize, active: Set<u8>, w: nat) -> bool {
    forall|v: u8|
        (v as nat) < w && active.contains(v) ==> #[trigger] bit(x, rank(active, v as nat) as u8)
            == bit(s, v)
}

/// A local state that agrees with `s` on the active wires below `w`, below
/// `2^rank(w)`.
proof fn lemma_projection(s: usize, active: Set<u8>, w: nat) -> (x: usize)
    requires
        w <= 256,
        rank(active, 256) < usize::BITS,
    ensures
        x < (1usize << (rank(active, w) as usize)),
        agree_upto(s, x, active, w),
    decreases w,
{
    lemma_rank_bounds(active, w, 256);
    if w == 0 {
        assert(0usize < (1usize << 0usize)) by (bit_vector);
        0
    } else {
        let x = lemma_projection(s, active, (w - 1) as nat);
        let v = (w - 1) as u8;
        let r = rank(active, (w - 1) as nat) as usize;
        lemma_rank_bounds(active, w, 256);
        if active.contains(v) {
            assert(r + 1 < usize::BITS);
            lemma_add_top_bound(x, r);
            if bit(s, v) {
                let y = (x + (1usize << r)) as usize;
                lemma_add_top_sets_top(x, r);
                assert forall|u: u8| (u as nat) < w && active.contains(u) implies #[trigger] bit(
                    y,
                    rank(active, u as nat) as u8,
                ) == bit(s, u) by {
                    lemma_rank_strict(active, u);
                    if u != v {
                        lemma_rank_bounds(active, (u + 1) as nat, (w - 1) as nat);
                        let ru = rank(active, u as nat) as usize;
                        assert(ru < r);
                        lemma_add_top_keeps_low(x, r, ru);
                        assert(bit(x, rank(active, u as nat) as u8) == bit(s, u));
                        assert((ru as u8) as usize == ru);
                    } else {
                        assert((r as u8) as usize == r);
                    }
                }
                y
            } else {
                lemma_small_top_clear(x, r);
                assert((r as u8) as usize == r);
                x
            }
        } else {
            x
        }
    }
}

/// Every active wire addresses a bit of a `usize` state.
pub open spec fn active_fits(active: Set<u8>) -> bool {
    forall|w: u8| active.contains(w) ==> (w as int) < usize::BITS
}

/// The global state `s` and the local state `x` agree on every active wire.
pub open spec fn agree(s: usize, x: usize, active: Set<u8>) -> bool {
    agree_upto(s, x, active, 256)
}

/// `s` and `t` agree on every wire outside `active`.
pub open spec fn same_outside(s: usize, t: usize, active: Set<u8>) -> bool {
    forall|w: u8| (w as int) < usize::BITS && !active.contains(w) ==> #[trigger] bit(s, w) == bit(
        t,
        w,
    )
}

/// One gate on active wires, applied globally and locally, keeps agreement
/// and leaves the other wires alone.
proof fn lemma_step_agree(s: usize, x: usize, g: [u8; 3], active: Set<u8>)
    requires
        agree(s, x, active),
        active.contains(g[0]),
        active.contains(g[1]),
        active.contains(g[2]),
        gate_fits(g),
        rank(active, 256) < usize::BITS,
        active_fits(active),
    ensures
        agree(
            crate::infra::circuit::apply_gate(s, g),
            crate::infra::circuit::apply_gate(
                x,
                [
                    rank(active, g[0] as nat) as u8,
                    rank(active, g[1] as nat) as u8,
                    rank(active, g[2] as nat) as u8,
                ],
            ),
            active,
        ),
        same_outside(s, crate::infra::circuit::apply_gate(s, g), active),
{
    let lg = [
        rank(active, g[0] as nat) as u8,
        rank(active, g[1] as nat) as u8,
        rank(active, g[2] as nat) as u8,
    ];
    lemma_rank_strict(active, g[0]);
    lemma_rank_strict(active, g[1]);
    lemma_rank_strict(active, g[2]);
    assert(bit(x, lg[1]) == bit(s, g[1]));
    assert(bit(x, lg[2]) == bit(s, g[2]));
    let s2 = crate::infra::circuit::apply_gate(s, g);
    let x2 = crate::infra::circuit::apply_gate(x, lg);
    let t = g[0] as usize;
    let lt = lg[0] as usize;
    if crate::infra::circuit::gate_fires(s, g) {
        assert forall|v: u8| (v as nat) < 256 && active.contains(v) implies #[trigger] bit(
            x2,
            rank(active, v as nat) as u8,
        ) == bit(s2, v) by {
            lemma_rank_strict(active, v);
            let rv = rank(active, v as nat) as usize;
            assert((rv as u8) as usize == rv);
            assert(bit(x, rank(active, v as nat) as u8) == bit(s, v));
            if v == g[0] {
                lemma_flip_same_bit(s, t);
                lemma_flip_same_bit(x, lt);
            } else {
                if v < g[0] {
                    lemma_rank_injective(active, v, g[0]);
                } else {
                    lemma_rank_injective(active, g[0], v);
                }
                lemma_flip_other_bit(s, t, v as usize);
                lemma_flip_other_bit(x, lt, rank(active, v as nat) as usize);
            }
        }
        assert forall|w: u8| (w as int) < usize::BITS && !active.contains(w) implies #[trigger] bit(
            s,
            w,
        ) == bit(s2, w) by {
            lemma_flip_other_bit(s, t, w as usize);
        }
    }
}

/// Running a window on active wires globally and locally keeps agreement and
/// leaves the other wires alone.
proof fn lemma_eval_agree(s: usize, x: usize, gates: Seq<[u8; 3]>, active: Set<u8>)
    requires
        agree(s, x, active),
        pins_within(gates, active),
        gates_fit(gates),
        rank(active, 256) < usize::BITS,
        active_fits(active),
    ensures
        agree(eval_gates(s, gates), eval_gates(x, localize(gates, active)), active),
        same_outside(s, eval_gates(s, gates), active),
    decreases gates.len(),
{
    if gates.len() > 0 {
        let dl = gates.drop_last();
        assert(localize(gates, active).drop_last() =~= localize(dl, active));
        assert(pins_within(dl, active)) by {
            assert forall|i: int, k: int| 0 <= i < dl.len() && 0 <= k < 3 implies active.contains(
                #[trigger] dl[i][k],
            ) by {
                assert(dl[i] == gates[i]);
            }
        }
        assert(gates_fit(dl)) by {
            assert forall|i: int| 0 <= i < dl.len() implies #[trigger] gate_fits(dl[i]) by {
                assert(dl[i] == gates[i]);
            }
        }
        lemma_eval_agree(s, x, dl, active);
        let g = gates.last();
        assert(active.contains(gates[gates.len() - 1][0]));
        assert(active.contains(gates[gates.len() - 1][1]));
        assert(active.contains(gates[gates.len() - 1][2]));
        assert(gate_fits(gates[gates.len() - 1]));
        lemma_step_agree(eval_gates(s, dl), eval_gates(x, localize(dl, active)), g, active);
        assert(localize(gates, active).last() == [
            rank(active, g[0] as nat) as u8,
            rank(active, g[1] as nat) as u8,
            rank(active, g[2] as nat) as u8,
        ]);
    }
}

/// A window whose gates use only active wires and which computes the
/// identity on every local state computes the identity on every state.
pub proof fn lemma_local_identity_lifts(gates: Seq<[u8; 3]>, active: Set<u8>)
    requires
        pins_within(gates, active),
        gates_fit(gates),
        rank(active, 256) < usize::BITS,
        active_fits(active),
        forall|x: usize|
            (x as int) < vstd::arithmetic::power2::pow2(rank(active, 256)) ==> #[trigger] eval_gates(
                x,
                localize(gates, active),
            ) == x,
    ensures
        crate::infra::circuit::is_identity_fn(gates),
{
    assert forall|s: usize| #[trigger] eval_gates(s, gates) == s by {
        let x = lemma_projection(s, active, 256);
        crate::infra::circuit::lemma_shift_is_pow2(rank(active, 256) as usize);
        assert(eval_gates(x, localize(gates, active)) == x);
        lemma_eval_agree(s, x, gates, active);
        let e = eval_gates(s, gates);
        assert forall|i: u8| (i as int) < usize::BITS implies #[trigger] bit(e, i) == bit(s, i) by {
            if active.contains(i) {
                assert(bit(eval_gates(x, localize(gates, active)), rank(active, i as nat) as u8)
                    == bit(e, i));
                assert(bit(x, rank(active, i as nat) as u8) == bit(s, i));
            }
        }
        lemma_bits_eq(e, s);
    }
}

/// The wires that the gates of `win` touch.
pub open spec fn window_pins(win: Seq<[u8; 3]>) -> Set<u8> {
    Set::new(|w: u8| exists|a: int, k: int| 0 <= a < win.len() && 0 <= k < 3 && win[a][k] == w)
}

/// The lengths of the windows that the reducer tries to delete.
pub open spec fn template_window_len(w: int) -> bool {
    w == 4 || w == 6 || w == 8 || w == 10 || w == 12 || w == 16
}

/// The `w` gates of `s` from `i` on touch at most 6 wires and compute the
/// identity on those wires.
pub open spec fn deletable_window(s: Seq<[u8; 3]>, i: int, w: int) -> bool {
    let win = s.subrange(i, i + w);
    let active = window_pins(win);
    &&& 0 <= i
    &&& i + w <= s.len()
    &&& active.len() <= 6
    &&& forall|x: usize|
        (x as int) < vstd::arithmetic::power2::pow2(rank(active, 256)) ==> #[trigger] eval_gates(
            x,
            localize(win, active),
        ) == x
}

/// No window of a length that the reducer tries is deletable in `s`.
pub open spec fn no_deletable_window(s: Seq<[u8; 3]>) -> bool {
    forall|i: int, w: int| template_window_len(w) ==> !#[trigger] deletable_window(s, i, w)
}

/// The set that `window_wires` returns is exactly the wires of the window.
proof fn lemma_window_wires_exact(gates: Seq<[u8; 3]>, start: int, len: int, active: Set<u8>)
    requires
        0 <= start,
        start + len <= gates.len(),
        pins_within(gates.subrange(start, start + len), active),
        forall|w: u8| #[trigger] active.contains(w) ==> exists|i: int, k: int|
            start <= i < start + len && 0 <= k < 3 && gates[i][k] == w,
    ensures
        active =~= window_pins(gates.subrange(start, start + len)),
{
    let win = gates.subrange(start, start + len);
    assert forall|w: u8| active.contains(w) implies window_pins(win).contains(w) by {
        let (i, k) = choose|i: int, k: int| start <= i < start + len && 0 <= k < 3 && gates[i][k] == w;
        assert(win[i - start][k] == w);
    }
    assert forall|w: u8| window_pins(win).contains(w) implies active.contains(w) by {
        let (a, k) = choose|a: int, k: int| 0 <= a < win.len() && 0 <= k < 3 && win[a][k] == w;
        assert(active.contains(win[a][k]));
    }
}

/// Pass 3: deletes windows of 4, 6, 8, 10, 12 or 16 gates on at most 6
/// wires that compute the identity on those wires, restarting after each
/// deletion, for at most 10 rounds.  Returns whether a window was deleted;
/// when none was, the circuit is unchanged and holds no such window.
fn pass_template_delete(circuit: &mut CircuitSeq) -> (changed: bool)
    ensures
        final(circuit)@.len() <= old(circuit)@.len(),
        changed <==> final(circuit)@.len() < old(circuit)@.len(),
        !changed ==> final(circuit)@ == old(circuit)@ && no_deletable_window(old(circuit)@),
        gates_fit(old(circuit)@) ==> gates_fit(final(circuit)@) && same_function(
            old(circuit)@,
            final(circuit)@,
        ),
        gates_reversible(old(circuit)@) ==> gates_reversible(final(circuit)@),
{
    let windows: [usize; 6] = [4, 6, 8, 10, 12, 16];
    let mut changed = false;
    let ghost c0 = circuit@;
    let mut iter: usize = 0;
    let mut again = true;
    while iter < 10 && again
        invariant
            circuit@.len() <= c0.len(),
            changed <==> circuit@.len() < c0.len(),
            !changed ==> circuit@ == c0,
            iter == 0 ==> again,
            iter > 0 && !changed ==> !again && no_deletable_window(c0),
            windows@ == seq![4usize, 6, 8, 10, 12, 16],
            gates_fit(c0) ==> gates_fit(circuit@) && same_function(c0, circuit@),
            gates_reversible(c0) ==> gates_reversible(circuit@),
        decreases 10 - iter,
    {
        let mut found_this_iter = false;
        let mut wi: usize = 0;
        let ghost start = circuit@;
        while wi < 6 && !found_this_iter
            invariant
                wi <= 6,
                circuit@.len() <= c0.len(),
                changed <==> circuit@.len() < c0.len(),
                !changed ==> circuit@ == c0,
                found_this_iter ==> changed,
                !found_this_iter ==> circuit@ == start,
                !found_this_iter ==> forall|j: int, wj: int|
                    0 <= wj < wi ==> !#[trigger] deletable_window(start, j, windows@[wj] as int),
                windows@ == seq![4usize, 6, 8, 10, 12, 16],
                gates_fit(c0) ==> gates_fit(circuit@) && same_function(c0, circuit@),
                gates_reversible(c0) ==> gates_reversible(circuit@),
            decreases 6 - wi,
        {
            let w_len = windows[wi];
            let n = circuit.gates.len();
            if n >= w_len {
                let last = n - w_len;
                let mut i: usize = 0;
                let mut scanning = true;
                while scanning
                    invariant
                        circuit@.len() <= c0.len(),
                        changed <==> circuit@.len() < c0.len(),
                        !changed ==> circuit@ == c0,
                        found_this_iter ==> changed,
                        !found_this_iter ==> circuit@ == start,
                        !found_this_iter ==> forall|j: int, wj: int|
                            0 <= wj < wi ==> !#[trigger] deletable_window(start, j, windows@[wj] as int),
                        !found_this_iter ==> i <= last && last + w_len == n && n == circuit@.len(),
                        !found_this_iter ==> forall|j: int| 0 <= j < i ==> !#[trigger] deletable_window(start, j, w_len as int),
                        !found_this_iter && !scanning ==> !deletable_window(start, i as int, w_len as int) && i == last,
                        found_this_iter ==> !scanning,
                        wi < 6,
                        w_len == windows@[wi as int],
                        w_len >= 4,
                        windows@ == seq![4usize, 6, 8, 10, 12, 16],
                        gates_fit(c0) ==> gates_fit(circuit@) && same_function(c0, circuit@),
                        gates_reversible(c0) ==> gates_reversible(circuit@),
                    decreases (if scanning { 1int } else { 0int }), last - i,
                {
                    let active = window_wires(&circuit.gates, i, w_len);
                    proof {
                        lemma_window_wires_exact(circuit@, i as int, w_len as int, active@);
                    }
                    let mut hit = false;
                    if active.len() <= 6 {
                        let window = crate::infra::ids_index::slice_window(circuit.gates.as_slice(), i, i + w_len);
                        proof {
                            lemma_rank_all(active@);
                        }
                        if is_identity_window(window.as_slice(), &active) {
                            hit = true;
                            let ghost before = circuit@;
                            proof {
                                if gates_fit(c0) {
                                    let win = before.subrange(i as int, i + w_len);
                                    assert(gates_fit(win)) by {
                                        assert forall|a: int| 0 <= a < win.len() implies #[trigger] gate_fits(win[a]) by {
                                            assert(win[a] == before[i + a]);
                                        }
                                    }
                                    assert(active_fits(active@)) by {
                                        assert forall|w: u8| active@.contains(w) implies (w as int) < usize::BITS by {
                                            let (a, k) = choose|a: int, k: int| i <= a < i + w_len && 0 <= k < 3 && before[a][k] == w;
                                            assert(gate_fits(before[a]));
                                        }
                                    }
                                    lemma_local_identity_lifts(win, active@);
                                    crate::infra::circuit::lemma_remove_identity_window(before, i as int, i + w_len);
                                    crate::infra::circuit::lemma_fit_drop_window(before, i as int, i + w_len);
                                }
                                if gates_reversible(c0) {
                                    crate::infra::circuit::lemma_reversible_drop_window(before, i as int, i + w_len);
                                }
                            }
                            drain_window(&mut circuit.gates, i, i + w_len);
                            proof {
                                if gates_fit(c0) {
                                    lemma_same_function_transitive(c0, before, circuit@);
                                }
                            }
                            changed = true;
                            found_this_iter = true;
                            scanning = false;
                        }
                    }
                    if !hit {
                        proof {
                            assert(!deletable_window(start, i as int, w_len as int));
                        }
                        if i >= last {
                            scanning = false;
                        } else {
                            i += 1;
                        }
                    }
                }
                proof {
                    if !found_this_iter {
                        assert forall|j: int, wj: int| 0 <= wj < wi + 1 implies !#[trigger] deletable_window(start, j, windows@[wj] as int) by {
                            if wj == wi && 0 <= j && j + w_len <= start.len() {
                                if j > i {
                                    assert(false);
                                }
                            }
                        }
                    }
                }
            } else {
                proof {
                    assert forall|j: int, wj: int| 0 <= wj < wi + 1 implies !#[trigger] deletable_window(start, j, windows@[wj] as int) by {
                        if wj == wi {
                            assert(windows@[wj] as int == w_len);
                        }
                    }
                }
            }
            wi += 1;
        }
        proof {
            if !found_this_iter {
                assert forall|j: int, w: int| template_window_len(w) implies !#[trigger] deletable_window(start, j, w) by {
                    let wj: int = if w == 4 { 0 } else if w == 6 { 1 } else if w == 8 { 2 } else if w == 10 { 3 } else if w == 12 { 4 } else { 5 };
                    assert(windows@[wj] as int == w);
                    assert(!deletable_window(start, j, windows@[wj] as int));
                }
            }
        }
        if !found_this_iter {
            again = false;
        }
        iter += 1;
    }
    changed
}

/// Runs cancel, commute-to-expose and template-deletion passes until
/// `max_passes` passes have run or `max_stall` passes in a row did not
/// shorten the circuit; returns the final length.
pub fn reduce_circuit(circuit: &mut CircuitSeq, config: &ReduceConfig) -> (r: usize)
    ensures
        r == final(circuit)@.len(),
        r <= old(circuit)@.len(),
        config.max_passes == 0 || config.max_stall == 0 ==> final(circuit)@ == old(circuit)@,
        gates_reversible(old(circuit)@) ==> gates_reversible(final(circuit)@) && same_function(
            old(circuit)@,
            final(circuit)@,
        ),
        config.max_passes > 0 && config.max_stall > 0 && (final(circuit)@.len() == old(circuit)@.len()
            || config.max_passes >= (old(circuit)@.len() + 1) * config.max_stall) ==> reduce_fixpoint(
            final(circuit)@,
        ),
{
    let ghost c0 = circuit@;
    let mut passes: usize = 0;
    let mut stall_count: usize = 0;
    while passes < config.max_passes && stall_count < config.max_stall
        invariant
            circuit@.len() <= c0.len(),
            config.max_passes == 0 || config.max_stall == 0 ==> circuit@ == c0,
            gates_reversible(c0) ==> gates_reversible(circuit@) && same_function(c0, circuit@),
            stall_count > 0 ==> reduce_fixpoint(circuit@),
            passes > 0 && circuit@.len() == c0.len() ==> stall_count > 0,
            passes <= (c0.len() - circuit@.len()) * config.max_stall + stall_count,
            passes <= config.max_passes,
        decreases config.max_passes - passes,
    {
        let start_len = circuit.gates.len();
        let ghost s0 = circuit@;
        pass_cancel(circuit);
        let ghost s1 = circuit@;
        pass_commute_expose(circuit);
        let ghost s2 = circuit@;
        pass_template_delete(circuit);
        proof {
            if gates_reversible(c0) {
                lemma_same_function_transitive(c0, s0, s1);
                lemma_same_function_transitive(c0, s1, s2);
                crate::infra::circuit::lemma_reversible_fit(s2);
                lemma_same_function_transitive(c0, s2, circuit@);
            }
        }
        let end_len = circuit.gates.len();
        let ghost d0 = c0.len() - s0.len();
        let ghost d1 = c0.len() - circuit@.len();
        if end_len < start_len {
            proof {
                assert(d0 + 1 <= d1);
                assert(d0 * config.max_stall + config.max_stall <= d1 * config.max_stall) by (nonlinear_arith)
                    requires
                        d0 + 1 <= d1,
                        d0 >= 0,
                ;
            }
            stall_count = 0;
        } else {
            proof {
                assert(circuit@ == s2);
                assert(no_adjacent_equal(s2));
            }
            stall_count += 1;
        }
        passes += 1;
    }
    proof {
        if config.max_passes > 0 && config.max_stall > 0 && config.max_passes >= (c0.len() + 1)
            * config.max_stall && stall_count < config.max_stall {
            let d = c0.len() - circuit@.len();
            assert(d * config.max_stall + stall_count < (c0.len() + 1) * config.max_stall) by (nonlinear_arith)
                requires
                    0 <= d <= c0.len(),
                    stall_count < config.max_stall,
            ;
        }
    }
    circuit.gates.len()
}

/// Neither a cancel pass nor a template-deletion pass has anything left to
/// remove.
pub open spec fn reduce_fixpoint(s: Seq<[u8; 3]>) -> bool {
    no_adjacent_equal(s) && no_deletable_window(s)
}

/// Every gate has three distinct pins below `n`.
pub open spec fn pins_distinct_below(f: Seq<[u8; 3]>, n: nat) -> bool {
    forall|i: int|
        0 <= i < f.len() ==> (#[trigger] f[i])[0] < n && f[i][1] < n && f[i][2] < n && f[i][0] != f[i][1]
            && f[i][0] != f[i][2] && f[i][1] != f[i][2]
}

/// `t` lists distinct wires below `n`.
pub open spec fn injective_wires(t: Seq<usize>, n: nat) -> bool {
    &&& t.no_duplicates()
    &&& forall|i: int| 0 <= i < t.len() ==> (#[trigger] t[i] as nat) < n
}

/// `new` is `old` with the template `p p⁻¹` embedded on the wires `t`
/// inserted before position `pos`.
pub open spec fn template_placed(
    old: Seq<[u8; 3]>,
    new: Seq<[u8; 3]>,
    p: Seq<[u8; 3]>,
    t: Seq<usize>,
    pos: int,
    n: nat,
) -> bool {
    &&& 0 <= pos <= old.len()
    &&& t.len() >= 3
    &&& injective_wires(t, n)
    &&& pins_distinct_below(p, t.len())
    &&& new == inserted_at(old, pos, spec_embed(p + p.reverse(), t))
}

/// `new` is `old` with the patch `p` embedded on the wires `t` inserted at
/// `p1`, and its reverse inserted at `p2`, after the patch, where every gate
/// between the two commutes with every gate of the reverse.
pub open spec fn patch_placed(
    old: Seq<[u8; 3]>,
    new: Seq<[u8; 3]>,
    p: Seq<[u8; 3]>,
    t: Seq<usize>,
    p1: int,
    p2: int,
    n: nat,
) -> bool {
    let e = spec_embed(p, t);
    let ei = spec_embed(p.reverse(), t);
    let mid = inserted_at(old, p1, e);
    &&& 0 <= p1 <= old.len()
    &&& p1 + e.len() <= p2 <= mid.len()
    &&& t.len() >= 3
    &&& injective_wires(t, n)
    &&& pins_distinct_below(p, t.len())
    &&& forall|i: int, j: int| p1 + e.len() <= i < p2 && 0 <= j < ei.len() ==> #[trigger] pins_commute(ei[j], mid[i])
    &&& new == inserted_at(mid, p2, ei)
}

/// A block whose gates all commute with all gates of `m` can move past `m`.
proof fn lemma_block_slide(x: Seq<[u8; 3]>, m: Seq<[u8; 3]>)
    requires
        gates_fit(x),
        gates_fit(m),
        forall|i: int, j: int| 0 <= i < m.len() && 0 <= j < x.len() ==> #[trigger] pins_commute(x[j], m[i]),
    ensures
        same_function(m + x, x + m),
    decreases x.len(),
{
    let e = Seq::<[u8; 3]>::empty();
    if x.len() == 0 {
        assert(m + x =~= x + m);
    } else {
        let x1 = x.drop_last();
        let g = x.last();
        assert(gates_fit(x1)) by {
            assert forall|j: int| 0 <= j < x1.len() implies #[trigger] gate_fits(x1[j]) by {
                assert(x1[j] == x[j]);
            }
        }
        assert forall|i: int, j: int| 0 <= i < m.len() && 0 <= j < x1.len() implies #[trigger] pins_commute(x1[j], m[i]) by {
            assert(x1[j] == x[j]);
        }
        lemma_block_slide(x1, m);
        crate::infra::circuit::lemma_replace_middle(e, m + x1, x1 + m, seq![g]);
        assert(e + (m + x1) + seq![g] =~= m + x);
        assert(gate_fits(g));
        assert forall|i: int| 0 <= i < m.len() implies #[trigger] pins_commute(g, m[i]) by {
            assert(pins_commute(x[x.len() - 1], m[i]));
        }
        crate::algorithms::annealing::anneal::lemma_gate_slides(g, m);
        crate::infra::circuit::lemma_replace_middle(x1, m + seq![g], seq![g] + m, e);
        assert(e + (x1 + m) + seq![g] =~= x1 + (m + seq![g]) + e);
        assert(x1 + (seq![g] + m) + e =~= x + m);
        lemma_same_function_transitive(m + x, x1 + (m + seq![g]) + e, x + m);
    }
}

/// Embedding a patch and placing its reverse past gates that commute with
/// it keeps the function, when the wires fit a `usize` state.
pub proof fn lemma_patch_placed_keeps_function(
    old: Seq<[u8; 3]>,
    new: Seq<[u8; 3]>,
    p: Seq<[u8; 3]>,
    t: Seq<usize>,
    p1: int,
    p2: int,
    n: nat,
)
    requires
        patch_placed(old, new, p, t, p1, p2, n),
        gates_fit(old),
        n <= usize::BITS,
    ensures
        same_function(old, new),
        gates_fit(new),
{
    let e = spec_embed(p, t);
    let ei = spec_embed(p.reverse(), t);
    lemma_embed_mirror(p, t);
    let mid = inserted_at(old, p1, e);
    let q = p2 - e.len();
    let a = old.take(p1);
    let m = old.subrange(p1, q);
    let b = old.skip(q);
    assert(new =~= a + e + (m + ei) + b);
    assert forall|i: int| 0 <= i < e.len() implies #[trigger] gate_fits(e[i]) by {
        let g = p[i];
        assert(g[0] < t.len() && g[1] < t.len() && g[2] < t.len());
        assert((t[g[0] as int] as nat) < n && (t[g[1] as int] as nat) < n && (t[g[2] as int] as nat) < n);
    }
    assert forall|i: int| 0 <= i < ei.len() implies #[trigger] gate_fits(ei[i]) by {
        assert(ei[i] == e[e.len() - 1 - i]);
    }
    assert(gates_fit(m)) by {
        assert forall|i: int| 0 <= i < m.len() implies #[trigger] gate_fits(m[i]) by {
            assert(m[i] == old[p1 + i]);
        }
    }
    assert forall|i: int, j: int| 0 <= i < m.len() && 0 <= j < ei.len() implies #[trigger] pins_commute(ei[j], m[i]) by {
        assert(mid[p1 + e.len() + i] == m[i]);
        assert(pins_commute(ei[j], mid[p1 + e.len() + i]));
    }
    lemma_block_slide(ei, m);
    crate::infra::circuit::lemma_replace_middle(a + e, m + ei, ei + m, b);
    let placed = a + e + (ei + m) + b;
    assert(placed =~= inserted_at(old, p1, spec_embed(p + p.reverse(), t)));
    assert(template_placed(old, placed, p, t, p1, n));
    lemma_template_placed_keeps_function(old, placed, p, t, p1, n);
    assert(same_function(new, placed));
    assert(same_function(old, new)) by {
        assert forall|x: usize| #[trigger] eval_gates(x, old) == eval_gates(x, new) by {
            assert(eval_gates(x, old) == eval_gates(x, placed));
            assert(eval_gates(x, new) == eval_gates(x, placed));
        }
    }
    assert forall|i: int| 0 <= i < new.len() implies #[trigger] gate_fits(new[i]) by {
        let la = a.len() as int;
        if i < la {
            assert(new[i] == old[i]);
        } else if i < la + e.len() {
            assert(new[i] == e[i - la]);
        } else if i < la + e.len() + m.len() {
            assert(new[i] == m[i - la - e.len()]);
        } else if i < la + e.len() + m.len() + ei.len() {
            assert(new[i] == ei[i - la - e.len() - m.len()]);
        } else {
            assert(new[i] == b[i - la - e.len() - m.len() - ei.len()]);
            assert(b[i - la - e.len() - m.len() - ei.len()] == old[q + i - la - e.len() - m.len() - ei.len()]);
        }
    }
}


/// The outcome of one mixing step: an embedded identity template inserted,
/// swaps of commuting neighbours (which keep the length and the function),
/// or an embedded patch and, past gates that commute with it, its reverse.
pub open spec fn mix_moved(old: Seq<[u8; 3]>, new: Seq<[u8; 3]>, n: nat) -> bool {
    ||| exists|p: Seq<[u8; 3]>, t: Seq<usize>, pos: int| #[trigger] template_placed(old, new, p, t, pos, n)
    ||| (new.len() == old.len() && (gates_fit(old) ==> gates_fit(new) && same_function(old, new)))
    ||| exists|p: Seq<[u8; 3]>, t: Seq<usize>, p1: int, p2: int| #[trigger] patch_placed(old, new, p, t, p1, p2, n)
}

/// What the mixing move numbered `m` (drawn below 100) did to `old`:
/// below 40 it inserted an embedded identity template `P P⁻¹` with `P` of 5
/// to 19 gates; from 40 to 89 it only swapped commuting neighbours (same
/// length, same function); from 90 on it inserted an embedded patch `R` of
/// 3 to 9 gates and, past gates that commute with it, its reverse.
pub open spec fn mix_move_done(old: Seq<[u8; 3]>, new: Seq<[u8; 3]>, m: nat, n: nat) -> bool {
    &&& m < 40 ==> exists|p: Seq<[u8; 3]>, t: Seq<usize>, pos: int|
        #[trigger] template_placed(old, new, p, t, pos, n) && 5 <= p.len() <= 19
    &&& 40 <= m < 90 ==> new.len() == old.len() && (gates_fit(old) ==> gates_fit(new) && same_function(old, new))
    &&& 90 <= m ==> exists|p: Seq<[u8; 3]>, t: Seq<usize>, p1: int, p2: int|
        #[trigger] patch_placed(old, new, p, t, p1, p2, n) && 3 <= p.len() <= 9
}

/// The least number of gates the move numbered `m` adds.
pub open spec fn least_added(m: usize) -> int {
    if m < 40 {
        10
    } else if m >= 90 {
        6
    } else {
        0
    }
}

/// The least number of gates the moves add, one after another.
pub open spec fn least_added_all(moves: Seq<usize>) -> int
    decreases moves.len(),
{
    if moves.len() == 0 {
        0
    } else {
        least_added_all(moves.drop_last()) + least_added(moves.last())
    }
}

/// How a mixing move changes the length: a template move adds 10 to 38
/// gates, a swap move none, a patch move 6 to 18.
pub proof fn law_mix_move_length(old: Seq<[u8; 3]>, new: Seq<[u8; 3]>, m: nat, n: nat)
    requires
        mix_move_done(old, new, m, n),
    ensures
        m < 40 ==> old.len() + 10 <= new.len() <= old.len() + 38,
        40 <= m < 90 ==> new.len() == old.len(),
        90 <= m ==> old.len() + 6 <= new.len() <= old.len() + 18,
{
    if m < 40 {
        let (p, t, pos) = choose|p: Seq<[u8; 3]>, t: Seq<usize>, pos: int|
            #[trigger] template_placed(old, new, p, t, pos, n) && 5 <= p.len() <= 19;
        assert(spec_embed(p + p.reverse(), t).len() == 2 * p.len());
    } else if 90 <= m {
        let (p, t, p1, p2) = choose|p: Seq<[u8; 3]>, t: Seq<usize>, p1: int, p2: int|
            #[trigger] patch_placed(old, new, p, t, p1, p2, n) && 3 <= p.len() <= 9;
        assert(spec_embed(p, t).len() == p.len());
        assert(spec_embed(p.reverse(), t).len() == p.len());
    }
}

/// Every move below 100 is one of the mixing moves.
pub proof fn lemma_move_done_is_mix_moved(old: Seq<[u8; 3]>, new: Seq<[u8; 3]>, m: nat, n: nat)
    requires
        mix_move_done(old, new, m, n),
    ensures
        mix_moved(old, new, n),
{
    if m < 40 {
        let (p, t, pos) = choose|p: Seq<[u8; 3]>, t: Seq<usize>, pos: int|
            #[trigger] template_placed(old, new, p, t, pos, n) && 5 <= p.len() <= 19;
        assert(template_placed(old, new, p, t, pos, n));
    } else if 90 <= m {
        let (p, t, p1, p2) = choose|p: Seq<[u8; 3]>, t: Seq<usize>, p1: int, p2: int|
            #[trigger] patch_placed(old, new, p, t, p1, p2, n) && 3 <= p.len() <= 9;
        assert(patch_placed(old, new, p, t, p1, p2, n));
    }
}

/// Embedding works gate by gate: it maps a reversed sequence to the
/// reversed embedding and a concatenation to the concatenation.
proof fn lemma_embed_mirror(p: Seq<[u8; 3]>, t: Seq<usize>)
    ensures
        spec_embed(p.reverse(), t) == spec_embed(p, t).reverse(),
        spec_embed(p + p.reverse(), t) == spec_embed(p, t) + spec_embed(p, t).reverse(),
{
    assert(spec_embed(p.reverse(), t) =~= spec_embed(p, t).reverse());
    assert(spec_embed(p + p.reverse(), t) =~= spec_embed(p, t) + spec_embed(p, t).reverse());
}

/// Inserting an embedded identity template keeps the function, when the
/// wires fit a `usize` state.
pub proof fn lemma_template_placed_keeps_function(
    old: Seq<[u8; 3]>,
    new: Seq<[u8; 3]>,
    p: Seq<[u8; 3]>,
    t: Seq<usize>,
    pos: int,
    n: nat,
)
    requires
        template_placed(old, new, p, t, pos, n),
        n <= usize::BITS,
    ensures
        same_function(old, new),
        gates_fit(old) ==> gates_fit(new),
{
    let e = spec_embed(p, t);
    lemma_embed_mirror(p, t);
    if gates_fit(old) {
        let f = e + e.reverse();
        assert forall|i: int| 0 <= i < e.len() implies #[trigger] gate_fits(e[i]) by {
            let g = p[i];
            assert(g[0] < t.len() && g[1] < t.len() && g[2] < t.len());
            assert((t[g[0] as int] as nat) < n && (t[g[1] as int] as nat) < n && (t[g[2] as int] as nat) < n);
        }
        assert forall|i: int| 0 <= i < f.len() implies #[trigger] gate_fits(f[i]) by {
            if i < e.len() {
                assert(f[i] == e[i]);
            } else {
                assert(f[i] == e[e.len() - 1 - (i - e.len())]);
            }
        }
        assert forall|i: int| 0 <= i < new.len() implies #[trigger] gate_fits(new[i]) by {
            if i < pos {
                assert(new[i] == old[i]);
            } else if i < pos + f.len() {
                assert(new[i] == f[i - pos]);
            } else {
                assert(new[i] == old[i - f.len()]);
            }
        }
    }
    assert forall|i: int| 0 <= i < e.len() implies #[trigger] gate_reversible(e[i]) by {
        let g = p[i];
        assert(pins_distinct_below(p, t.len()));
        assert(g[0] < t.len() && g[1] < t.len() && g[2] < t.len());
        assert(t[g[0] as int] != t[g[1] as int]);
        assert(t[g[0] as int] != t[g[2] as int]);
        assert((t[g[0] as int] as nat) < n && (t[g[1] as int] as nat) < n && (t[g[2] as int] as nat) < n);
    }
    lemma_mirror_is_identity(e);
    lemma_insert_identity(old.take(pos), e + e.reverse(), old.skip(pos));
    assert(old.take(pos) + old.skip(pos) =~= old);
}

/// A random identity template `P P⁻¹` on `num_wires` wires, `P` having 5 to
/// 19 gates with distinct pins.
pub fn get_identity_template(num_wires: usize, rng: &mut rand::rngs::StdRng) -> (r: CircuitSeq)
    requires
        3 <= num_wires <= 255,
    ensures
        exists|p: Seq<[u8; 3]>|
            #[trigger] pins_distinct_below(p, num_wires as nat) && 5 <= p.len() <= 19 && r@ == p
                + p.reverse(),
{
    let depth = rng_usize_inclusive(rng, 5, 19);
    let p = random_circuit_touching(num_wires, depth, rng);
    let p_inv = p.inverse();
    let r = p.concat(&p_inv);
    proof {
        assert(all_distinct_pins_below(p@, num_wires as u8));
        assert forall|i: int| 0 <= i < p@.len() implies (#[trigger] p@[i])[0] < num_wires
            && p@[i][1] < num_wires && p@[i][2] < num_wires && p@[i][0] != p@[i][1] && p@[i][0]
            != p@[i][2] && p@[i][1] != p@[i][2] by {
            assert(crate::obfuscate::gadgets::distinct_pins_below(p@[i], num_wires as u8));
        }
        assert(pins_distinct_below(p@, num_wires as nat));
    }
    r
}

/// The wires `0..n` in random order.
fn shuffled_wires(n: usize, rng: &mut rand::rngs::StdRng) -> (r: Vec<usize>)
    ensures
        r@.len() == n,
        injective_wires(r@, n as nat),
{
    let mut wires: Vec<usize> = Vec::with_capacity(n);
    let mut w: usize = 0;
    while w < n
        invariant
            w <= n,
            wires@ == Seq::new(w as nat, |i: int| i as usize),
        decreases n - w,
    {
        wires.push(w);
        w += 1;
        proof {
            assert(wires@ =~= Seq::new(w as nat, |i: int| i as usize));
        }
    }
    let ghost all = wires@;
    proof {
        assert(all.take(n as int) =~= all);
    }
    shuffle_prefix(&mut wires, n, rng);
    proof {
        lemma_shuffled_prefix(all, wires@, n as int);
        assert(wires@.take(n as int) =~= wires@);
        assert forall|i: int| 0 <= i < n implies (#[trigger] wires@[i] as nat) < n by {
            assert(all.contains(wires@[i]));
        }
    }
    wires
}

/// The first `k` wires of a random order of `0..n`, and their embedding of
/// `f`.
fn embed_on_random_wires(f: &CircuitSeq, n: usize, k: usize, rng: &mut rand::rngs::StdRng) -> (r: (
    CircuitSeq,
    Vec<usize>,
))
    requires
        k <= n,
        pins_distinct_below(f@, k as nat),
    ensures
        r.1@.len() == k,
        injective_wires(r.1@, n as nat),
        r.0@ == spec_embed(f@, r.1@),
{
    let wires = shuffled_wires(n, rng);
    let target = take_prefix(&wires, k);
    proof {
        assert forall|a: int, b: int| 0 <= a < k && 0 <= b < k && a != b implies target@[a]
            != target@[b] by {
            assert(target@[a] == wires@[a] && target@[b] == wires@[b]);
        }
        assert forall|i: int| 0 <= i < k implies (#[trigger] target@[i] as nat) < n by {
            assert(target@[i] == wires@[i]);
        }
        assert forall|i: int, q: int| 0 <= i < f@.len() && 0 <= q < 3 implies (#[trigger] f@[i][q]
            as int) < target@.len() by {
            assert(f@[i][0] < k && f@[i][1] < k && f@[i][2] < k);
        }
    }
    let e = embed_template(f, target.as_slice());
    (e, target)
}

/// The mixing move numbered `move_type`.  Below 40 an identity template
/// `P P⁻¹` on 3 to `min(template_size_max, num_wires)` random wires is
/// inserted at a random position; from 40 to 89, 10 to 99 random neighbours
/// are swapped where they commute; from 90 on a random `R` of 3 to 9 gates
/// on 3 to `min(8, num_wires)` random wires is inserted at a random position
/// and `R⁻¹` after it, moved on towards a second random position for as
/// long as the gates it passes commute with it.  Every move keeps the
/// function.
pub fn mix_move(circuit: &mut CircuitSeq, config: &MixConfig, move_type: usize, rng: &mut rand::rngs::StdRng)
    requires
        3 <= config.num_wires <= 256,
        3 <= config.template_size_max,
        config.template_size_max <= 255 || config.num_wires <= 255,
        old(circuit)@.len() + 2 * 19 + 8 <= usize::MAX,
    ensures
        mix_move_done(old(circuit)@, final(circuit)@, move_type as nat, config.num_wires as nat),
        mix_moved(old(circuit)@, final(circuit)@, config.num_wires as nat),
        final(circuit)@.len() <= old(circuit)@.len() + 38,
        gates_fit(old(circuit)@) && config.num_wires <= usize::BITS ==> same_function(
            old(circuit)@,
            final(circuit)@,
        ) && gates_fit(final(circuit)@),
{
    let ghost c0 = circuit@;
    let nw = config.num_wires;
    if move_type < 40 {
        let hi = if config.template_size_max < nw {
            config.template_size_max
        } else {
            nw
        };
        let k = rng_usize_inclusive(rng, 3, hi);
        let template = get_identity_template(k, rng);
        let ghost pp = choose|p: Seq<[u8; 3]>|
            #[trigger] pins_distinct_below(p, k as nat) && 5 <= p.len() <= 19 && template@ == p
                + p.reverse();
        proof {
            assert(pins_distinct_below(template@, k as nat)) by {
                assert forall|i: int| 0 <= i < template@.len() implies (#[trigger] template@[i])[0] < k
                    && template@[i][1] < k && template@[i][2] < k && template@[i][0] != template@[i][1]
                    && template@[i][0] != template@[i][2] && template@[i][1] != template@[i][2] by {
                    if i < pp.len() {
                        assert(template@[i] == pp[i]);
                    } else {
                        assert(template@[i] == pp.reverse()[i - pp.len()]);
                        assert(pp.reverse()[i - pp.len()] == pp[pp.len() - 1 - (i - pp.len())]);
                    }
                }
            }
        }
        let (embedded, target) = embed_on_random_wires(&template, nw, k, rng);
        let ghost t = target@;
        let pos = if circuit.gates.len() == 0 {
            0
        } else {
            rng_usize_inclusive(rng, 0, circuit.gates.len())
        };
        circuit.splice(pos, &embedded);
        proof {
            assert(embedded@.len() == template@.len());
            assert(template_placed(c0, circuit@, pp, t, pos as int, nw as nat));
            if gates_fit(c0) && nw <= usize::BITS {
                lemma_template_placed_keeps_function(c0, circuit@, pp, t, pos as int, nw as nat);
            }
        }
    } else if move_type < 90 {
        if circuit.gates.len() < 2 {
            proof {
                if gates_fit(c0) {
                    assert(same_function(c0, circuit@));
                }
            }
            return;
        }
        let num_swaps = rng_usize_inclusive(rng, 10, 99);
        let n = circuit.gates.len();
        let mut s: usize = 0;
        while s < num_swaps
            invariant
                s <= num_swaps,
                n == circuit@.len(),
                n >= 2,
                n == c0.len(),
                gates_fit(c0) ==> gates_fit(circuit@) && same_function(c0, circuit@),
            decreases num_swaps - s,
        {
            let idx = rng_usize_below(rng, n - 1);
            let a = circuit.gates[idx];
            let b = circuit.gates[idx + 1];
            let g1 = Gate { pins: [a[0] as usize, a[1] as usize, a[2] as usize] };
            let g2 = Gate { pins: [b[0] as usize, b[1] as usize, b[2] as usize] };
            if commutes(&g1, &g2) {
                let ghost before = circuit@;
                circuit.gates.set(idx, b);
                circuit.gates.set(idx + 1, a);
                proof {
                    assert(circuit@ == before.update(idx as int, before[idx + 1]).update(
                        idx + 1,
                        before[idx as int],
                    ));
                    if gates_fit(c0) {
                        assert(gate_fits(before[idx as int]) && gate_fits(before[idx + 1]));
                        assert(pins_commute(before[idx as int], before[idx + 1]));
                        lemma_swap_adjacent(before, idx as int);
                        lemma_same_function_transitive(c0, before, circuit@);
                        assert forall|i: int| 0 <= i < circuit@.len() implies #[trigger] gate_fits(
                            circuit@[i],
                        ) by {
                            if i == idx as int {
                                assert(circuit@[i] == before[idx + 1]);
                            } else if i == idx + 1 {
                                assert(circuit@[i] == before[idx as int]);
                            } else {
                                assert(circuit@[i] == before[i]);
                            }
                        }
                    }
                }
            }
            s += 1;
        }
    } else {
        let hi = if 8 < nw {
            8
        } else {
            nw
        };
        let k = rng_usize_inclusive(rng, 3, hi);
        let r_depth = rng_usize_inclusive(rng, 3, 9);
        let r = random_circuit_touching(k, r_depth, rng);
        proof {
            assert forall|i: int| 0 <= i < r@.len() implies (#[trigger] r@[i])[0] < k && r@[i][1] < k
                && r@[i][2] < k && r@[i][0] != r@[i][1] && r@[i][0] != r@[i][2] && r@[i][1] != r@[i][2] by {
                assert(crate::obfuscate::gadgets::distinct_pins_below(r@[i], k as u8));
            }
        }
        let r_inv = r.inverse();
        let (r_emb, target) = embed_on_random_wires(&r, nw, k, rng);
        let ghost t = target@;
        proof {
            assert forall|i: int, q: int| 0 <= i < r_inv@.len() && 0 <= q < 3 implies (#[trigger] r_inv@[i][q]
                as int) < t.len() by {
                assert(r_inv@[i] == r@[r@.len() - 1 - i]);
            }
        }
        let r_inv_emb = embed_template(&r_inv, target.as_slice());
        proof {
            assert(r_inv@ == r@.reverse());
            lemma_embed_mirror(r@, t);
        }
        let pos1 = if circuit.gates.len() == 0 {
            0
        } else {
            rng_usize_inclusive(rng, 0, circuit.gates.len())
        };
        circuit.splice(pos1, &r_emb);
        let ghost mid = circuit@;
        let len1 = circuit.gates.len();
        let drawn = rng_usize_inclusive(rng, 0, len1);
        proof {
            assert(r_emb@.len() == r@.len() && r_inv_emb@.len() == r@.len());
            assert(mid == inserted_at(c0, pos1 as int, spec_embed(r@, t)));
        }
        let mut pos2 = pos1 + r_emb.gates.len();
        while pos2 < drawn && pos2 < len1
            invariant
                pos1 + r_emb@.len() <= pos2 <= len1,
                len1 == circuit@.len(),
                circuit@ == mid,
                r_inv_emb@ == spec_embed(r@.reverse(), t),
                forall|i: int, j: int| pos1 + r_emb@.len() <= i < pos2 && 0 <= j < r_inv_emb@.len() ==> #[trigger] pins_commute(
                    r_inv_emb@[j],
                    mid[i],
                ),
            decreases len1 - pos2,
        {
            let h = circuit.gates[pos2];
            if !commutes_with_all(h, &r_inv_emb.gates) {
                break;
            }
            pos2 += 1;
        }
        circuit.splice(pos2, &r_inv_emb);
        proof {
            assert(patch_placed(c0, circuit@, r@, t, pos1 as int, pos2 as int, nw as nat));
            if gates_fit(c0) && nw <= usize::BITS {
                lemma_patch_placed_keeps_function(c0, circuit@, r@, t, pos1 as int, pos2 as int, nw as nat);
            }
        }
    }
}

/// One mixing step: draws a move below 100 and makes it (see `mix_move`):
/// a template below 40 (40 in 100), swaps below 90 (50 in 100), a patch and
/// its reverse otherwise.  Answers the move drawn.
pub fn mix_step(circuit: &mut CircuitSeq, config: &MixConfig, rng: &mut rand::rngs::StdRng) -> (m: usize)
    requires
        3 <= config.num_wires <= 256,
        3 <= config.template_size_max,
        config.template_size_max <= 255 || config.num_wires <= 255,
        old(circuit)@.len() + 2 * 19 + 8 <= usize::MAX,
    ensures
        m < 100,
        mix_move_done(old(circuit)@, final(circuit)@, m as nat, config.num_wires as nat),
        mix_moved(old(circuit)@, final(circuit)@, config.num_wires as nat),
        final(circuit)@.len() <= old(circuit)@.len() + 38,
        gates_fit(old(circuit)@) && config.num_wires <= usize::BITS ==> same_function(
            old(circuit)@,
            final(circuit)@,
        ) && gates_fit(final(circuit)@),
{
    let move_type = rng_usize_below(rng, 100);
    mix_move(circuit, config, move_type, rng);
    move_type
}

/// Whether `h` commutes with every gate of `block`.
fn commutes_with_all(h: [u8; 3], block: &Vec<[u8; 3]>) -> (r: bool)
    ensures
        r == forall|j: int| 0 <= j < block@.len() ==> #[trigger] pins_commute(block@[j], h),
{
    let mut j: usize = 0;
    while j < block.len()
        invariant
            j <= block@.len(),
            forall|q: int| 0 <= q < j ==> #[trigger] pins_commute(block@[q], h),
        decreases block@.len() - j,
    {
        let g = block[j];
        if !(g[0] != h[1] && g[0] != h[2] && h[0] != g[1] && h[0] != g[2]) {
            proof {
                assert(!pins_commute(block@[j as int], h));
            }
            return false;
        }
        j += 1;
    }
    true
}

/// `hist` records `rounds` mixing steps leading from `a` to `b`.
pub open spec fn mix_history(hist: Seq<Seq<[u8; 3]>>, a: Seq<[u8; 3]>, b: Seq<[u8; 3]>, rounds: nat, n: nat) -> bool {
    &&& hist.len() == rounds + 1
    &&& hist[0] == a
    &&& hist.last() == b
    &&& forall|j: int| 0 <= j < rounds ==> mix_moved(#[trigger] hist[j], hist[j + 1], n)
}

/// The rounds of `hist` were made by the moves `moves`, one per round.
pub open spec fn moves_made(hist: Seq<Seq<[u8; 3]>>, moves: Seq<usize>, n: nat) -> bool {
    &&& moves.len() + 1 == hist.len()
    &&& forall|j: int| 0 <= j < moves.len() ==> (#[trigger] moves[j]) < 100 && mix_move_done(hist[j], hist[j + 1], moves[j] as nat, n)
}

/// Over the rounds of mixing, every template move adds at least 10 gates
/// and every patch move at least 6, and no move removes any.
pub proof fn law_mix_rounds_grow(hist: Seq<Seq<[u8; 3]>>, moves: Seq<usize>, n: nat)
    requires
        moves_made(hist, moves, n),
    ensures
        hist.last().len() >= hist[0].len() + least_added_all(moves),
    decreases moves.len(),
{
    if moves.len() > 0 {
        let k = moves.len() - 1;
        let h2 = hist.drop_last();
        let m2 = moves.drop_last();
        assert forall|j: int| 0 <= j < m2.len() implies (#[trigger] m2[j]) < 100 && mix_move_done(h2[j], h2[j + 1], m2[j] as nat, n) by {
            assert(m2[j] == moves[j] && h2[j] == hist[j] && h2[j + 1] == hist[j + 1]);
        }
        law_mix_rounds_grow(h2, m2, n);
        assert(mix_move_done(hist[k], hist[k + 1], moves[k] as nat, n));
        law_mix_move_length(hist[k], hist[k + 1], moves[k] as nat, n);
        assert(h2.last() == hist[k]);
        assert(hist.last() == hist[k + 1]);
    }
}

/// Applies `num_rounds` mixing steps with a freshly seeded generator;
/// answers the moves drawn, one per round.
pub fn mix_circuit(circuit: &mut CircuitSeq, config: &MixConfig) -> (moves: Vec<usize>)
    requires
        3 <= config.num_wires <= 256,
        3 <= config.template_size_max,
        config.template_size_max <= 255 || config.num_wires <= 255,
        old(circuit)@.len() + 46 * (config.num_rounds + 1) <= usize::MAX,
    ensures
        moves@.len() == config.num_rounds,
        exists|hist: Seq<Seq<[u8; 3]>>|
            #[trigger] mix_history(hist, old(circuit)@, final(circuit)@, config.num_rounds as nat, config.num_wires as nat)
                && moves_made(hist, moves@, config.num_wires as nat),
        final(circuit)@.len() >= old(circuit)@.len() + least_added_all(moves@),
        gates_fit(old(circuit)@) && config.num_wires <= usize::BITS ==> same_function(old(circuit)@, final(circuit)@)
            && gates_fit(final(circuit)@),
{
    let mut rng = seeded_rng(random_u64());
    let ghost c0 = circuit@;
    let ghost mut hist: Seq<Seq<[u8; 3]>> = seq![c0];
    let mut moves: Vec<usize> = Vec::new();
    let mut i: usize = 0;
    while i < config.num_rounds
        invariant
            i <= config.num_rounds,
            3 <= config.num_wires <= 256,
            3 <= config.template_size_max,
            config.template_size_max <= 255 || config.num_wires <= 255,
            c0.len() + 46 * (config.num_rounds + 1) <= usize::MAX,
            circuit@.len() <= c0.len() + 38 * i,
            mix_history(hist, c0, circuit@, i as nat, config.num_wires as nat),
            moves@.len() == i,
            moves_made(hist, moves@, config.num_wires as nat),
            gates_fit(c0) && config.num_wires <= usize::BITS ==> same_function(c0, circuit@) && gates_fit(circuit@),
        decreases config.num_rounds - i,
    {
        let ghost before = circuit@;
        proof {
            assert(circuit@.len() + 46 <= usize::MAX) by (nonlinear_arith)
                requires
                    circuit@.len() <= c0.len() + 38 * i,
                    c0.len() + 46 * (config.num_rounds + 1) <= usize::MAX,
                    i < config.num_rounds,
            ;
        }
        let m = mix_step(circuit, config, &mut rng);
        let ghost mv0 = moves@;
        moves.push(m);
        proof {
            if gates_fit(c0) && config.num_wires <= usize::BITS {
                lemma_same_function_transitive(c0, before, circuit@);
            }
            let h0 = hist;
            hist = hist.push(circuit@);
            assert forall|j: int| 0 <= j < i + 1 implies mix_moved(#[trigger] hist[j], hist[j + 1], config.num_wires as nat) by {
                if j < i {
                    assert(hist[j] == h0[j] && hist[j + 1] == h0[j + 1]);
                } else {
                    assert(hist[j] == before);
                }
            }
            assert forall|j: int| 0 <= j < moves@.len() implies (#[trigger] moves@[j]) < 100 && mix_move_done(
                hist[j],
                hist[j + 1],
                moves@[j] as nat,
                config.num_wires as nat,
            ) by {
                if j < i {
                    assert(hist[j] == h0[j] && hist[j + 1] == h0[j + 1] && moves@[j] == mv0[j]);
                } else {
                    assert(hist[j] == before && hist[j + 1] == circuit@ && moves@[j] == m);
                }
            }
        }
        i += 1;
    }
    proof {
        assert(mix_history(hist, c0, circuit@, config.num_rounds as nat, config.num_wires as nat));
        law_mix_rounds_grow(hist, moves@, config.num_wires as nat);
    }
    moves
}

} // verus!
