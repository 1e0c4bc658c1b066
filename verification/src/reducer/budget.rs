//! Budgeted reducer: reduction operations that stop after a fixed budget.
//!
//! Pass 1: cancel adjacent identical gates (every reversible gate is its own
//! inverse).
//! Pass 2: swap commuting neighbours where that brings identical gates
//! together.
//! Pass 3: with an LMDB environment, delete windows whose canonical form is
//! in the identity index.
use vstd::prelude::*;

use std::collections::HashMap;

use crate::infra::circuit::{
    copy_gates, gate_eq, gate_fits, gates_reversible, lemma_cancel_adjacent, no_adjacent_equal,
    lemma_reversible_drop_window, lemma_reversible_swap, lemma_same_function_transitive,
    lemma_swap_adjacent, pins_commute, same_function, CircuitSeq, is_identity_fn, lemma_insert_identity,
};
use crate::infra::ids_index::{
    index_lists_identities, open_ids_rev,
    card_ok, distinct_wires, drain_window, lemma_card_ok_step, lemma_u8_set_missing_small, ids_rev_contains, label_wire, labels_of, slice_window,
    LabelState,
};

verus! {

/// Report of a budgeted reduction run.
#[derive(Debug)]
pub struct ReductionReport {
    /// The reduced circuit.
    pub c_reduced: CircuitSeq,
    /// Original circuit length.
    pub original_len: usize,
    /// Reduced circuit length.
    pub reduced_len: usize,
    /// Identity windows deleted, by window length.
    pub template_hits: HashMap<usize, usize>,
    /// Adjacent identical pairs cancelled.
    pub cancel_pairs: usize,
    /// Commuting swaps performed.
    pub commute_swaps: usize,
    /// Steps taken before the budget ran out or nothing changed.
    pub steps_taken: usize,
}

impl ReductionReport {
    /// Number of gates removed.
    pub fn gates_removed(&self) -> (r: usize)
        ensures
            r == if self.original_len >= self.reduced_len {
                self.original_len - self.reduced_len
            } else {
                0
            },
    {
        self.original_len.saturating_sub(self.reduced_len)
    }
}

/// `Σ w · hits[w]` over the widths `w < b` that `hits` lists.
pub open spec fn hits_weight_below(hits: Map<usize, usize>, b: nat) -> int
    decreases b,
{
    if b == 0 {
        0
    } else {
        let w = (b - 1) as usize;
        hits_weight_below(hits, (b - 1) as nat) + (if hits.dom().contains(w) {
            w * hits[w]
        } else {
            0
        })
    }
}

/// `Σ hits[w]` over the widths `w < b` that `hits` lists.
pub open spec fn hits_count_below(hits: Map<usize, usize>, b: nat) -> int
    decreases b,
{
    if b == 0 {
        0
    } else {
        let w = (b - 1) as usize;
        hits_count_below(hits, (b - 1) as nat) + (if hits.dom().contains(w) {
            hits[w] as int
        } else {
            0
        })
    }
}

/// Gates removed by deleted windows: `Σ w · hits[w]` over all widths.
pub open spec fn template_weight(hits: Map<usize, usize>) -> int {
    hits_weight_below(hits, usize::MAX as nat + 1)
}

/// Windows deleted: `Σ hits[w]` over all widths.
pub open spec fn template_count(hits: Map<usize, usize>) -> int {
    hits_count_below(hits, usize::MAX as nat + 1)
}

/// No width listed: both sums are 0.
proof fn lemma_hits_empty(b: nat)
    ensures
        hits_weight_below(Map::<usize, usize>::empty(), b) == 0,
        hits_count_below(Map::<usize, usize>::empty(), b) == 0,
    decreases b,
{
    if b > 0 {
        lemma_hits_empty((b - 1) as nat);
    }
}

/// Setting the count of width `w` to `v` moves both sums by the change at `w`
/// alone; below `w` they do not move.
proof fn lemma_hits_insert(hits: Map<usize, usize>, w: usize, v: usize, b: nat)
    requires
        b <= usize::MAX as nat + 1,
    ensures
        b <= w ==> hits_weight_below(hits.insert(w, v), b) == hits_weight_below(hits, b),
        b <= w ==> hits_count_below(hits.insert(w, v), b) == hits_count_below(hits, b),
        w < b ==> hits_weight_below(hits.insert(w, v), b) == hits_weight_below(hits, b) - (if hits.dom().contains(w) {
            w * hits[w]
        } else {
            0
        }) + w * v,
        w < b ==> hits_count_below(hits.insert(w, v), b) == hits_count_below(hits, b) - (if hits.dom().contains(w) {
            hits[w] as int
        } else {
            0
        }) + v,
    decreases b,
{
    if b > 0 {
        lemma_hits_insert(hits, w, v, (b - 1) as nat);
        let u = (b - 1) as usize;
        let h2 = hits.insert(w, v);
        assert(u as int == b - 1);
        if u == w {
            assert(h2.dom().contains(w) && h2[w] == v);
        } else {
            assert(h2.dom().contains(u) == hits.dom().contains(u));
            if hits.dom().contains(u) {
                assert(h2[u] == hits[u]);
            }
        }
    }
}

/// Sums of counts are never negative, and a listed count is at most the
/// sum.
proof fn lemma_hits_bounds(hits: Map<usize, usize>, w: usize, b: nat)
    requires
        b <= usize::MAX as nat + 1,
    ensures
        hits_weight_below(hits, b) >= 0,
        hits_count_below(hits, b) >= 0,
        w < b && hits.dom().contains(w) ==> hits[w] <= hits_count_below(hits, b),
    decreases b,
{
    if b > 0 {
        lemma_hits_bounds(hits, w, (b - 1) as nat);
        let u = (b - 1) as usize;
        assert(u as int == b - 1);
        if hits.dom().contains(u) {
            assert(u * hits[u] >= 0) by (nonlinear_arith);
        }
    }
}

/// Dropping an identity window from a reversible circuit that computes what
/// `c` computes keeps both properties.
proof fn lemma_drop_identity_window(c: Seq<[u8; 3]>, before: Seq<[u8; 3]>, s: int, e: int)
    requires
        0 <= s <= e <= before.len(),
        is_identity_fn(before.subrange(s, e)),
        gates_reversible(before),
        same_function(c, before),
    ensures
        gates_reversible(before.take(s) + before.skip(e)),
        same_function(c, before.take(s) + before.skip(e)),
{
    let pre = before.take(s);
    let post = before.skip(e);
    lemma_insert_identity(pre, before.subrange(s, e), post);
    assert(pre + before.subrange(s, e) + post =~= before);
    lemma_same_function_transitive(c, before, pre + post);
    lemma_reversible_drop_window(before, s, e);
}

/// Budgeted reducer configuration.
#[derive(Clone, Debug)]
pub struct ReducerConfig {
    /// Maximum number of operations.
    pub max_steps: usize,
    /// Maximum number of distinct wires of a window looked up in the index.
    pub max_template_m: usize,
    /// Window sizes to try for template matching.
    pub window_sizes: Vec<usize>,
}

impl Default for ReducerConfig {
    fn default() -> (r: Self)
        ensures
            r.max_steps == 10000,
            r.max_template_m == 8,
            r.window_sizes@ == seq![3usize, 4, 5, 6],
    {
        let mut window_sizes: Vec<usize> = Vec::new();
        window_sizes.push(3);
        window_sizes.push(4);
        window_sizes.push(5);
        window_sizes.push(6);
        proof {
            assert(window_sizes@ =~= seq![3usize, 4, 5, 6]);
        }
        ReducerConfig { max_steps: 10000, max_template_m: 8, window_sizes }
    }
}

/// The commutation rule of the reducer: different targets, and neither
/// target is a control of the other gate.
pub open spec fn spec_gates_commute(g1: [u8; 3], g2: [u8; 3]) -> bool {
    g1[0] != g2[0] && pins_commute(g1, g2)
}

/// Whether two gates can be swapped: their targets differ and neither target
/// is a control of the other gate.
pub fn gates_commute(g1: &[u8; 3], g2: &[u8; 3]) -> (r: bool)
    ensures
        r == spec_gates_commute(*g1, *g2),
{
    let t1 = g1[0];
    let t2 = g2[0];
    if t1 == t2 {
        return false;
    }
    if t1 == g2[1] || t1 == g2[2] {
        return false;
    }
    if t2 == g1[1] || t2 == g1[2] {
        return false;
    }
    true
}

/// Number of distinct wires of a window.
pub fn count_distinct_wires(gates: &[[u8; 3]]) -> (r: usize)
    ensures
        r == distinct_wires(gates@),
{
    let mut seen: Vec<bool> = vec![false; 256];
    let mut count: usize = 0;
    let ghost mut st: LabelState = (Map::empty(), 0);
    let mut i: usize = 0;
    while i < gates.len()
        invariant
            i <= gates.len(),
            st == labels_of(gates@.take(i as int)),
            seen@.len() == 256,
            count == st.1,
            card_ok(st),
            forall|w: u8| #[trigger] seen@[w as int] == st.0.dom().contains(w),
        decreases gates.len() - i,
    {
        let g = gates[i];
        let mut k: usize = 0;
        let ghost st0 = st;
        while k < 3
            invariant
                k <= 3,
                seen@.len() == 256,
                count == st.1,
                card_ok(st),
                i < gates@.len(),
                g == gates@[i as int],
                forall|w: u8| #[trigger] seen@[w as int] == st.0.dom().contains(w),
                k == 0 ==> st == st0,
                k == 1 ==> st == label_wire(st0, g[0]),
                k == 2 ==> st == label_wire(label_wire(st0, g[0]), g[1]),
                k == 3 ==> st == label_wire(label_wire(label_wire(st0, g[0]), g[1]), g[2]),
            decreases 3 - k,
        {
            let w = g[k];
            if !seen[w as usize] {
                proof {
                    lemma_u8_set_missing_small(st.0.dom(), w);
                }
                seen.set(w as usize, true);
                count += 1;
            }
            proof {
                lemma_card_ok_step(st, w);
                st = label_wire(st, w);
            }
            assert forall|u: u8| #[trigger] seen@[u as int] == st.0.dom().contains(u) by {
            }
            k += 1;
        }
        proof {
            assert(gates@.take(i + 1).drop_last() =~= gates@.take(i as int));
            assert(gates@.take(i + 1).last() == g);
        }
        i += 1;
    }
    proof {
        assert(gates@.take(i as int) =~= gates@);
    }
    count
}

/// Swapping the commuting neighbours at `j` and `j + 1` would put one of
/// them next to an equal gate.
pub open spec fn swap_would_cancel(s: Seq<[u8; 3]>, j: int) -> bool {
    &&& spec_gates_commute(s[j], s[j + 1])
    &&& ((j > 0 && s[j - 1] == s[j + 1]) || s[j] == s[j + 2])
}

/// Neither cancellation nor a cancelling swap applies to `s`: no two
/// neighbours are equal, and no commuting pair (before the last gate) can be
/// swapped next to an equal gate.
pub open spec fn budget_fixpoint(s: Seq<[u8; 3]>) -> bool {
    &&& no_adjacent_equal(s)
    &&& forall|j: int| 0 <= j && j + 2 < s.len() ==> !#[trigger] swap_would_cancel(s, j)
}

/// The sequence with the neighbours at `i` and `i + 1` exchanged.
pub open spec fn swap_pair(s: Seq<[u8; 3]>, i: int) -> Seq<[u8; 3]> {
    s.update(i, s[i + 1]).update(i + 1, s[i])
}

/// Pass 1 from position `i` with `steps` used of `max`: each comparison of
/// `s[i]` with `s[i + 1]` costs a step; an equal pair is removed and the
/// scan stays at `i`, otherwise it moves on.  Gives the sequence, the steps
/// used and the pairs removed.
pub open spec fn cancel_pass(s: Seq<[u8; 3]>, i: nat, steps: nat, max: nat) -> (Seq<[u8; 3]>, nat, nat)
    decreases s.len() - i,
{
    if !(i + 1 < s.len() && steps < max) {
        (s, steps, 0)
    } else if s[i as int] == s[i + 1 as int] {
        let r = cancel_pass(s.take(i as int) + s.skip(i + 2 as int), i, steps + 1, max);
        (r.0, r.1, r.2 + 1)
    } else {
        cancel_pass(s, i + 1, steps + 1, max)
    }
}

/// Pass 2 from position `i`: each position before the last two costs a
/// step; a commuting pair whose swap would put a gate next to an equal one
/// is swapped.  Gives the sequence, the steps used and the swaps made.
pub open spec fn swap_pass(s: Seq<[u8; 3]>, i: nat, steps: nat, max: nat) -> (Seq<[u8; 3]>, nat, nat)
    decreases s.len() - i,
{
    if !(i + 2 < s.len() && steps < max) {
        (s, steps, 0)
    } else if swap_would_cancel(s, i as int) {
        let r = swap_pass(swap_pair(s, i as int), i + 1, steps + 1, max);
        (r.0, r.1, r.2 + 1)
    } else {
        swap_pass(s, i + 1, steps + 1, max)
    }
}

/// Rounds of pass 1 then pass 2, repeated while a round changes something
/// and steps remain: the final sequence, the steps used, and the pairs
/// removed and swaps made in all.
pub open spec fn budget_run(s: Seq<[u8; 3]>, steps: nat, cancels: nat, swaps: nat, max: nat) -> (
    Seq<[u8; 3]>,
    nat,
    nat,
    nat,
)
    decreases max - steps,
{
    if steps >= max {
        (s, steps, cancels, swaps)
    } else {
        let a = cancel_pass(s, 0, steps, max);
        let b = swap_pass(a.0, 0, a.1, max);
        if a.2 == 0 && b.2 == 0 {
            (b.0, b.1, cancels, swaps)
        } else if steps < b.1 <= max {
            budget_run(b.0, b.1, cancels + a.2, swaps + b.2, max)
        } else {
            (b.0, b.1, cancels + a.2, swaps + b.2)
        }
    }
}

/// A pass that changed something used a step.
proof fn lemma_cancel_pass_steps(s: Seq<[u8; 3]>, i: nat, steps: nat, max: nat)
    ensures
        cancel_pass(s, i, steps, max).1 >= steps,
        steps <= max ==> cancel_pass(s, i, steps, max).1 <= max,
        cancel_pass(s, i, steps, max).2 > 0 ==> cancel_pass(s, i, steps, max).1 > steps,
    decreases s.len() - i,
{
    if i + 1 < s.len() && steps < max {
        if s[i as int] == s[i + 1 as int] {
            lemma_cancel_pass_steps(s.take(i as int) + s.skip(i + 2 as int), i, steps + 1, max);
        } else {
            lemma_cancel_pass_steps(s, i + 1, steps + 1, max);
        }
    }
}

proof fn lemma_swap_pass_steps(s: Seq<[u8; 3]>, i: nat, steps: nat, max: nat)
    ensures
        swap_pass(s, i, steps, max).1 >= steps,
        steps <= max ==> swap_pass(s, i, steps, max).1 <= max,
        swap_pass(s, i, steps, max).2 > 0 ==> swap_pass(s, i, steps, max).1 > steps,
    decreases s.len() - i,
{
    if i + 2 < s.len() && steps < max {
        if swap_would_cancel(s, i as int) {
            lemma_swap_pass_steps(swap_pair(s, i as int), i + 1, steps + 1, max);
        } else {
            lemma_swap_pass_steps(s, i + 1, steps + 1, max);
        }
    }
}

/// Budgeted reduction of `c`.
///
/// Without an LMDB environment only passes 1 and 2 run: on a circuit of
/// reversible gates the result computes the same function, and every gate
/// removed was cancelled in a pair.  With an environment, pass 3 may also
/// delete windows that the identity index lists.  The passes repeat until
/// one round changes nothing; when the step budget was not used up, neither
/// pass 1 nor pass 2 applies to the result.  Every gate removed is
/// accounted for: twice the cancelled pairs plus, for each window width, the
/// width times the windows of that width deleted; and no more windows are
/// deleted than steps taken.  Without an environment the result, the steps
/// used and the counts are those of `budget_run`.
pub fn reduce_budget(
    c: &CircuitSeq,
    config: &ReducerConfig,
    env: Option<&lmdb::Environment>,
) -> (r: ReductionReport)
    ensures
        r.original_len == c@.len(),
        r.reduced_len == r.c_reduced@.len(),
        r.reduced_len <= r.original_len,
        r.steps_taken <= config.max_steps,
        config.max_steps == 0 ==> r.c_reduced@ == c@,
        env is None ==> r.reduced_len + 2 * r.cancel_pairs == r.original_len,
        env is None ==> r.template_hits@ == Map::<usize, usize>::empty(),
        env is None && gates_reversible(c@) ==> same_function(c@, r.c_reduced@),
        env matches Some(e) && gates_reversible(c@) && index_lists_identities(e) ==> same_function(
            c@,
            r.c_reduced@,
        ),
        r.steps_taken < config.max_steps ==> budget_fixpoint(r.c_reduced@),
        r.reduced_len + 2 * r.cancel_pairs + template_weight(r.template_hits@) == r.original_len,
        template_count(r.template_hits@) <= r.steps_taken,
        env is None ==> (r.c_reduced@, r.steps_taken as nat, r.cancel_pairs as nat, r.commute_swaps as nat)
            == budget_run(c@, 0, 0, 0, config.max_steps as nat),
{
    let original_len = c.gates.len();
    let mut reduced = CircuitSeq { gates: copy_gates(c.gates.as_slice()) };
    let mut steps: usize = 0;
    let mut cancel_pairs: usize = 0;
    let mut commute_swaps: usize = 0;
    let mut template_hits: HashMap<usize, usize> = HashMap::new();
    proof {
        lemma_hits_empty(usize::MAX as nat + 1);
    }
    let ids_rev_db = match env {
        Some(e) => open_ids_rev(e),
        None => None,
    };
    let ghost ok = gates_reversible(c@) && match env {
        None => true,
        Some(e) => index_lists_identities(e),
    };
    proof {
        if ok {
            assert(same_function(c@, reduced@));
        }
    }
    let ghost target = budget_run(c@, 0, 0, 0, config.max_steps as nat);
    let mut changed = true;
    while changed && steps < config.max_steps
        invariant
            steps <= config.max_steps,
            reduced@.len() + 2 * cancel_pairs <= original_len,
            reduced@.len() + 2 * cancel_pairs + template_weight(template_hits@) == original_len,
            template_count(template_hits@) <= steps,
            original_len == c@.len(),
            config.max_steps == 0 ==> reduced@ == c@,
            env is None ==> reduced@.len() + 2 * cancel_pairs == original_len,
            env is None ==> template_hits@ == Map::<usize, usize>::empty(),
            env is None ==> ids_rev_db is None,
            env matches Some(e) ==> call_ensures(open_ids_rev, (e,), ids_rev_db),
            ok == (gates_reversible(c@) && match env {
                None => true,
                Some(e) => index_lists_identities(e),
            }),
            ok ==> gates_reversible(reduced@) && same_function(c@, reduced@),
            commute_swaps <= steps,
            !changed && steps < config.max_steps ==> budget_fixpoint(reduced@),
            env is None && changed ==> budget_run(reduced@, steps as nat, cancel_pairs as nat, commute_swaps as nat, config.max_steps as nat) == target,
            env is None && !changed ==> (reduced@, steps as nat, cancel_pairs as nat, commute_swaps as nat) == target,
        decreases config.max_steps - steps, (if changed { 1int } else { 0int }),
    {
        changed = false;
        let ghost steps_at_start = steps;
        let ghost start1 = reduced@;
        let ghost cancels_at_start = cancel_pairs;
        let ghost swaps_at_start = commute_swaps;
        let ghost p1 = cancel_pass(start1, 0, steps as nat, config.max_steps as nat);

        // Pass 1: remove adjacent identical gates.
        let mut i: usize = 0;
        while i < reduced.gates.len().saturating_sub(1) && steps < config.max_steps
            invariant
                steps <= config.max_steps,
                steps_at_start <= steps,
                reduced@.len() + 2 * cancel_pairs <= original_len,
                reduced@.len() + 2 * cancel_pairs + template_weight(template_hits@) == original_len,
                template_count(template_hits@) <= steps,
                original_len == c@.len(),
                changed ==> steps > steps_at_start,
                env is None ==> reduced@.len() + 2 * cancel_pairs == original_len,
                ok ==> gates_reversible(reduced@) && same_function(c@, reduced@),
                commute_swaps <= steps,
                !changed ==> reduced@ == start1,
                !changed ==> forall|j: int| 0 <= j < i ==> #[trigger] reduced@[j] != reduced@[j + 1],
                changed <==> cancel_pairs > cancels_at_start,
                cancel_pairs >= cancels_at_start,
                commute_swaps == swaps_at_start,
                cancel_pass(reduced@, i as nat, steps as nat, config.max_steps as nat).0 == p1.0,
                cancel_pass(reduced@, i as nat, steps as nat, config.max_steps as nat).1 == p1.1,
                cancel_pass(reduced@, i as nat, steps as nat, config.max_steps as nat).2 + (cancel_pairs - cancels_at_start) == p1.2,
            decreases reduced@.len() - i,
        {
            steps += 1;
            if gate_eq(&reduced.gates[i], &reduced.gates[i + 1]) {
                let ghost before = reduced@;
                reduced.gates.remove(i + 1);
                reduced.gates.remove(i);
                proof {
                    assert(reduced@ =~= before.take(i as int) + before.skip(i + 2));
                    if ok {
                        assert(gates_reversible(before));
                        assert(gate_reversible_at(before, i as int));
                        lemma_cancel_adjacent(before, i as int);
                        lemma_same_function_transitive(c@, before, reduced@);
                        lemma_reversible_drop_window(before, i as int, i + 2);
                    }
                }
                cancel_pairs = cancel_pairs + 1;
                changed = true;
            } else {
                i += 1;
            }
        }

        proof {
            if !changed && steps < config.max_steps {
                assert forall|j: int| 0 <= j && j + 1 < reduced@.len() implies #[trigger] reduced@[j]
                    != reduced@[j + 1] by {
                    assert(j < i);
                }
            }
        }
        let ghost start2 = reduced@;
        let ghost changed1 = changed;
        let ghost p2 = swap_pass(start2, 0, steps as nat, config.max_steps as nat);
        proof {
            assert(start2 == p1.0 && steps == p1.1 && cancel_pairs - cancels_at_start == p1.2);
        }

        // Pass 2: commuting swaps that bring identical gates together.
        let mut i: usize = 0;
        while i < reduced.gates.len().saturating_sub(2) && steps < config.max_steps
            invariant
                steps <= config.max_steps,
                steps_at_start <= steps,
                reduced@.len() + 2 * cancel_pairs <= original_len,
                reduced@.len() + 2 * cancel_pairs + template_weight(template_hits@) == original_len,
                template_count(template_hits@) <= steps,
                original_len == c@.len(),
                changed ==> steps > steps_at_start,
                env is None ==> reduced@.len() + 2 * cancel_pairs == original_len,
                ok ==> gates_reversible(reduced@) && same_function(c@, reduced@),
                commute_swaps <= steps,
                !changed ==> reduced@ == start2,
                !changed && steps < config.max_steps ==> no_adjacent_equal(reduced@),
                changed <==> (changed1 || commute_swaps > swaps_at_start),
                commute_swaps >= swaps_at_start,
                changed1 <==> cancel_pairs > cancels_at_start,
                cancel_pairs - cancels_at_start == p1.2,
                swap_pass(reduced@, i as nat, steps as nat, config.max_steps as nat).0 == p2.0,
                swap_pass(reduced@, i as nat, steps as nat, config.max_steps as nat).1 == p2.1,
                swap_pass(reduced@, i as nat, steps as nat, config.max_steps as nat).2 + (commute_swaps - swaps_at_start) == p2.2,
                !changed ==> forall|j: int| 0 <= j < i && j + 2 < reduced@.len() ==> !#[trigger] swap_would_cancel(reduced@, j),
            decreases reduced@.len() - i,
        {
            steps += 1;
            if gates_commute(&reduced.gates[i], &reduced.gates[i + 1]) {
                let would_cancel_left = i > 0 && gate_eq(
                    &reduced.gates[i - 1],
                    &reduced.gates[i + 1],
                );
                let would_cancel_right = i + 2 < reduced.gates.len() && gate_eq(
                    &reduced.gates[i],
                    &reduced.gates[i + 2],
                );
                if would_cancel_left || would_cancel_right {
                    let ghost before = reduced@;
                    let a = reduced.gates[i];
                    let b = reduced.gates[i + 1];
                    reduced.gates.set(i, b);
                    reduced.gates.set(i + 1, a);
                    proof {
                        if ok {
                            assert(gate_reversible_at(before, i as int));
                            assert(gate_reversible_at(before, i + 1));
                            lemma_swap_adjacent(before, i as int);
                            lemma_same_function_transitive(c@, before, reduced@);
                            lemma_reversible_swap(before, i as int);
                        }
                    }
                    commute_swaps = commute_swaps + 1;
                    changed = true;
                }
            }
            proof {
                if !changed {
                    assert(!swap_would_cancel(reduced@, i as int));
                }
            }
            i += 1;
        }
        proof {
            if !changed && steps < config.max_steps {
                assert forall|j: int| 0 <= j && j + 2 < reduced@.len() implies !#[trigger] swap_would_cancel(reduced@, j) by {
                    assert(j < i);
                }
            }
        }

        // Pass 3: identity windows listed in the index.
        match (env, ids_rev_db) {
            (Some(e), Some(db)) => {
                let mut wi: usize = 0;
                let mut done = false;
                while wi < config.window_sizes.len() && !done
                    invariant
                        steps <= config.max_steps,
                        steps_at_start <= steps,
                        reduced@.len() + 2 * cancel_pairs <= original_len,
                        reduced@.len() + 2 * cancel_pairs + template_weight(template_hits@) == original_len,
                        template_count(template_hits@) <= steps,
                        changed ==> steps > steps_at_start,
                        commute_swaps <= steps,
                        env is Some,
                        !changed && steps < config.max_steps ==> budget_fixpoint(reduced@),
                        call_ensures(open_ids_rev, (e,), Some(db)),
                        ok ==> index_lists_identities(e),
                        ok ==> gates_reversible(reduced@) && same_function(c@, reduced@),
                    decreases config.window_sizes@.len() - wi,
                {
                    let w_len = config.window_sizes[wi];
                    if reduced.gates.len() >= w_len && steps < config.max_steps {
                        let last = reduced.gates.len() - w_len;
                        let mut i: usize = 0;
                        let mut scanning = true;
                        while scanning
                            invariant
                                steps <= config.max_steps,
                                steps_at_start <= steps,
                                reduced@.len() + 2 * cancel_pairs <= original_len,
                                reduced@.len() + 2 * cancel_pairs + template_weight(template_hits@) == original_len,
                                template_count(template_hits@) <= steps,
                                changed ==> steps > steps_at_start,
                                scanning ==> i <= last && last + w_len == reduced@.len(),
                                scanning ==> steps < config.max_steps,
                                commute_swaps <= steps,
                                env is Some,
                                !changed && steps < config.max_steps ==> budget_fixpoint(reduced@),
                                call_ensures(open_ids_rev, (e,), Some(db)),
                                ok ==> index_lists_identities(e),
                                ok ==> gates_reversible(reduced@) && same_function(c@, reduced@),
                            decreases (if scanning { 1int } else { 0int }), last - i,
                        {
                            steps += 1;
                            if steps >= config.max_steps {
                                done = true;
                                scanning = false;
                            } else {
                                let window = slice_window(
                                    reduced.gates.as_slice(),
                                    i,
                                    i + w_len,
                                );
                                let wslice = window.as_slice();
                                let active = count_distinct_wires(wslice);
                                let listed = if active <= config.max_template_m {
                                    ids_rev_contains(e, db, wslice)
                                } else {
                                    false
                                };
                                if listed {
                                    let ghost len0 = reduced@.len();
                                    let ghost before = reduced@;
                                    proof {
                                        assert(call_ensures(ids_rev_contains, (e, db, wslice), true));
                                        assert(wslice@ == before.subrange(i as int, i + w_len));
                                    }
                                    drain_window(&mut reduced.gates, i, i + w_len);
                                    proof {
                                        if ok {
                                            assert(is_identity_fn(wslice@));
                                            lemma_drop_identity_window(c@, before, i as int, i + w_len);
                                        }
                                    }
                                    let prev = match template_hits.get(&w_len) {
                                        Some(v) => *v,
                                        None => 0,
                                    };
                                    let ghost h0 = template_hits@;
                                    proof {
                                        lemma_hits_bounds(h0, w_len, usize::MAX as nat + 1);
                                        assert(prev == (if h0.dom().contains(w_len) { h0[w_len] } else { 0 }));
                                        assert(prev < usize::MAX);
                                    }
                                    let next = prev + 1;
                                    template_hits.insert(w_len, next);
                                    proof {
                                        lemma_hits_insert(h0, w_len, next, usize::MAX as nat + 1);
                                        assert(w_len * next == w_len * prev + w_len) by (nonlinear_arith)
                                            requires
                                                next == prev + 1,
                                        ;
                                        assert(reduced@.len() == len0 - w_len);
                                    }
                                    changed = true;
                                    done = true;
                                    scanning = false;
                                } else if i >= last {
                                    scanning = false;
                                } else {
                                    i += 1;
                                }
                            }
                        }
                    }
                    wi += 1;
                }
            },
            _ => {},
        }
    }
    let reduced_len = reduced.gates.len();
    ReductionReport {
        c_reduced: reduced,
        original_len,
        reduced_len,
        template_hits,
        cancel_pairs,
        commute_swaps,
        steps_taken: steps,
    }
}

/// The budgeted reducer keeps the function of a reversible circuit: always
/// without an index, and with an index whenever every window that its
/// lookups affirm computes the identity (the index lists identities only).
/// Every gate it removes is accounted for by the cancelled pairs and the
/// deleted windows.
pub proof fn law_reduce_budget_keeps_function(
    c: &CircuitSeq,
    config: &ReducerConfig,
    env: Option<&lmdb::Environment>,
    r: ReductionReport,
)
    requires
        call_ensures(reduce_budget, (c, config, env), r),
        gates_reversible(c@),
        env matches Some(e) ==> index_lists_identities(e),
    ensures
        same_function(c@, r.c_reduced@),
        r.c_reduced@.len() + 2 * r.cancel_pairs + template_weight(r.template_hits@) == c@.len(),
{
}

/// `a[i]` is a reversible gate.
pub open spec fn gate_reversible_at(a: Seq<[u8; 3]>, i: int) -> bool {
    crate::infra::circuit::gate_reversible(a[i])
}

/// Budgeted reduction without an identity index.
pub fn reduce_budget_no_db(c: &CircuitSeq, config: &ReducerConfig) -> (r: ReductionReport)
    ensures
        r.steps_taken < config.max_steps ==> budget_fixpoint(r.c_reduced@),
        r.original_len == c@.len(),
        r.reduced_len == r.c_reduced@.len(),
        r.reduced_len + 2 * r.cancel_pairs == r.original_len,
        r.steps_taken <= config.max_steps,
        r.template_hits@ == Map::<usize, usize>::empty(),
        gates_reversible(c@) ==> same_function(c@, r.c_reduced@),
{
    reduce_budget(c, config, None)
}

} // verus!
