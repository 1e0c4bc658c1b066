//! Window compression: cancel equal neighbours, then for a number of trials
//! pick a window, ask for a shorter circuit of the same function, and
//! splice it in; cancel equal neighbours again at the end.  Window
//! expansion splices in equivalent circuits of any length.
//!
//! Finding the replacement (canonical forms of the window's permutation and
//! the tables of circuits by size) and, for large circuits, choosing the
//! window are the jobs of the arguments; this module holds what is done
//! with their answers.
use vstd::prelude::*;

use crate::algorithms::butterfly::blocks::compression_ok;
use crate::algorithms::butterfly::replace::random_subcircuit;
use crate::infra::ids_index::slice_window;
use crate::infra::circuit::{
    eval_gates, gate_reversible, gates_fit, gates_reversible, lemma_replace_middle,
    lemma_same_function_transitive, no_adjacent_equal, same_function, CircuitSeq, Gate,
};
use crate::obfuscate::passes::{lemma_stack_reduce, simple_compress, stack_reduce};

verus! {

/// `rep` may stand in for `sub`: it is not longer, and on reversible gates
/// it is reversible and computes the same function.
pub open spec fn replacement_ok(sub: Seq<[u8; 3]>, rep: Option<CircuitSeq>) -> bool {
    rep matches Some(x) ==> x@.len() <= sub.len() && (gates_reversible(sub) ==> gates_reversible(x@)
        && same_function(sub, x@))
}

/// `c` computes the identity on every input below `2^n`.
pub open spec fn identity_below(c: Seq<[u8; 3]>, n: nat) -> bool {
    forall|x: usize| (x as int) < vstd::arithmetic::power2::pow2(n) ==> #[trigger] eval_gates(x, c) == x
}

/// Whether `c` computes the identity on every input below `2^n`.
pub fn is_identity_below(c: &CircuitSeq, n: usize) -> (r: bool)
    requires
        n < usize::BITS,
        gates_fit(c@),
    ensures
        r == identity_below(c@, n as nat),
{
    let max_input: usize = 1usize << n;
    proof {
        crate::infra::circuit::lemma_shift_is_pow2(n);
    }
    let mut x: usize = 0;
    while x < max_input
        invariant
            x <= max_input,
            max_input == vstd::arithmetic::power2::pow2(n as nat),
            gates_fit(c@),
            forall|y: usize| y < x ==> #[trigger] eval_gates(y, c@) == y,
        decreases max_input - x,
    {
        if Gate::evaluate_index_list(x, c.gates.as_slice()) != x {
            return false;
        }
        x += 1;
    }
    true
}

/// One compression step: `c` with the gates from `start` to `end` replaced
/// by `found`, when there is one; `c` itself otherwise.
pub fn compress_step(c: &CircuitSeq, start: usize, end: usize, found: Option<CircuitSeq>) -> (r: CircuitSeq)
    requires
        start <= end <= c@.len(),
    ensures
        found matches Some(rep) ==> r@ == c@.take(start as int) + rep@ + c@.skip(end as int),
        found is None ==> r@ == c@,
{
    match found {
        Some(rep) => {
            let mut gates: Vec<[u8; 3]> = Vec::new();
            let mut i: usize = 0;
            while i < start
                invariant
                    i <= start,
                    start <= end <= c@.len(),
                    gates@ == c@.take(i as int),
                decreases start - i,
            {
                gates.push(c.gates[i]);
                i += 1;
                proof {
                    assert(gates@ =~= c@.take(i as int));
                }
            }
            let mut j: usize = 0;
            while j < rep.gates.len()
                invariant
                    j <= rep@.len(),
                    start <= end <= c@.len(),
                    gates@ == c@.take(start as int) + rep@.take(j as int),
                decreases rep@.len() - j,
            {
                gates.push(rep.gates[j]);
                j += 1;
                proof {
                    assert(gates@ =~= c@.take(start as int) + rep@.take(j as int));
                }
            }
            let mut k: usize = end;
            proof {
                assert(rep@.take(j as int) =~= rep@);
            }
            while k < c.gates.len()
                invariant
                    end <= k <= c@.len(),
                    gates@ == c@.take(start as int) + rep@ + c@.subrange(end as int, k as int),
                decreases c@.len() - k,
            {
                gates.push(c.gates[k]);
                k += 1;
                proof {
                    assert(gates@ =~= c@.take(start as int) + rep@ + c@.subrange(end as int, k as int));
                }
            }
            proof {
                assert(c@.subrange(end as int, k as int) =~= c@.skip(end as int));
            }
            CircuitSeq { gates }
        },
        None => CircuitSeq { gates: crate::infra::circuit::copy_gates(c.gates.as_slice()) },
    }
}

/// Splicing a replacement that computes what the window computes keeps the
/// function and reversibility.
proof fn lemma_splice_keeps(c: Seq<[u8; 3]>, start: int, end: int, x: Seq<[u8; 3]>)
    requires
        0 <= start <= end <= c.len(),
        gates_reversible(c),
        gates_reversible(x),
        same_function(c.subrange(start, end), x),
    ensures
        gates_reversible(c.take(start) + x + c.skip(end)),
        same_function(c, c.take(start) + x + c.skip(end)),
{
    lemma_replace_middle(c.take(start), c.subrange(start, end), x, c.skip(end));
    assert(c.take(start) + c.subrange(start, end) + c.skip(end) =~= c);
    let r = c.take(start) + x + c.skip(end);
    assert forall|i: int| 0 <= i < r.len() implies #[trigger] gate_reversible(r[i]) by {
        if i < start {
            assert(r[i] == c[i]);
        } else if i < start + x.len() {
            assert(r[i] == x[i - start]);
        } else {
            assert(r[i] == c[i - x.len() + (end - start)]);
        }
    }
}

/// Window compression of `c` on `n` wires: a circuit that computes the
/// identity below `2^n` gives the empty circuit; otherwise equal neighbours
/// cancel, then `trials` random windows (two whole-circuit trials when fewer
/// than 5 gates remain) are offered to `find`, each answer replacing its
/// window, and equal neighbours cancel again.
pub fn compress_with<F: Fn(&CircuitSeq) -> Option<CircuitSeq>>(
    c: &CircuitSeq,
    trials: usize,
    n: usize,
    find: &F,
) -> (r: CircuitSeq)
    requires
        n < usize::BITS,
        gates_fit(c@),
        forall|s: &CircuitSeq| #[trigger] find.requires((s,)),
        forall|s: &CircuitSeq, o: Option<CircuitSeq>| #[trigger] find.ensures((s,), o) ==> replacement_ok(s@, o),
    ensures
        r@.len() <= c@.len(),
        no_adjacent_equal(r@),
        identity_below(c@, n as nat) ==> r@.len() == 0,
        gates_reversible(c@) ==> gates_reversible(r@),
        gates_reversible(c@) && !identity_below(c@, n as nat) ==> same_function(c@, r@),
{
    if is_identity_below(c, n) {
        return CircuitSeq { gates: Vec::new() };
    }
    let mut compressed = simple_compress(c);
    if compressed.gates.len() == 0 {
        return compressed;
    }
    let (do_subcircuit, trial_count) = if compressed.gates.len() < 5 {
        (false, 2usize)
    } else {
        (true, trials)
    };
    let ghost ok = gates_reversible(c@);
    let mut t: usize = 0;
    while t < trial_count
        invariant
            t <= trial_count,
            compressed@.len() <= c@.len(),
            ok == gates_reversible(c@),
            ok ==> gates_reversible(compressed@) && same_function(c@, compressed@),
            forall|s: &CircuitSeq| #[trigger] find.requires((s,)),
            forall|s: &CircuitSeq, o: Option<CircuitSeq>| #[trigger] find.ensures((s,), o) ==> replacement_ok(s@, o),
        decreases trial_count - t,
    {
        let (sub, start, end) = if do_subcircuit {
            random_subcircuit(&compressed)
        } else {
            let whole = CircuitSeq { gates: crate::infra::circuit::copy_gates(compressed.gates.as_slice()) };
            (whole, 0, compressed.gates.len())
        };
        proof {
            if !do_subcircuit {
                assert(sub@ =~= compressed@.subrange(0, compressed@.len() as int));
            }
            if compressed@.len() == 0 {
                assert(start == 0 && end == 0);
            }
        }
        let found = find(&sub);
        proof {
            assert(replacement_ok(sub@, found));
        }
        let ghost before = compressed@;
        let next = compress_step(&compressed, start, end, found);
        proof {
            if found is Some {
                let x = found->0@;
                assert(x.len() <= end - start);
                if ok {
                    assert(gates_reversible(sub@)) by {
                        assert forall|i: int| 0 <= i < sub@.len() implies #[trigger] gate_reversible(sub@[i]) by {
                            assert(sub@[i] == before[start + i]);
                        }
                    }
                    lemma_splice_keeps(before, start as int, end as int, x);
                    lemma_same_function_transitive(c@, before, next@);
                }
            }
        }
        compressed = next;
        t += 1;
    }
    let result = simple_compress(&compressed);
    proof {
        if ok {
            lemma_same_function_transitive(c@, compressed@, result@);
        }
    }
    result
}

/// Window compression of a large circuit: equal neighbours cancel, then for
/// `trials` rounds `pick` proposes a window `start ..= end` (a proposal that
/// does not lie inside the circuit is passed over), the window is
/// compressed by `compress` and spliced back, and equal neighbours cancel
/// again.  Choosing the window (convex subcircuits) and compressing it
/// (canonical forms and the tables of smallest circuits) are the jobs of the
/// two arguments.
pub fn compress_big_with<P: Fn(&CircuitSeq) -> Option<(usize, usize)>, F: Fn(&CircuitSeq) -> CircuitSeq>(
    c: &CircuitSeq,
    trials: usize,
    pick: &P,
    compress: &F,
) -> (r: CircuitSeq)
    requires
        forall|s: &CircuitSeq| #[trigger] pick.requires((s,)),
        forall|s: &CircuitSeq| #[trigger] compress.requires((s,)),
        forall|s: &CircuitSeq, o: CircuitSeq| #[trigger] compress.ensures((s,), o) ==> compression_ok(s@, o@),
    ensures
        r@.len() <= c@.len(),
        no_adjacent_equal(r@),
        gates_reversible(c@) ==> gates_reversible(r@) && same_function(c@, r@),
{
    let mut circuit = simple_compress(c);
    if circuit.gates.len() == 0 {
        return circuit;
    }
    let ghost ok = gates_reversible(c@);
    let mut t: usize = 0;
    while t < trials
        invariant
            t <= trials,
            circuit@.len() <= c@.len(),
            ok == gates_reversible(c@),
            ok ==> gates_reversible(circuit@) && same_function(c@, circuit@),
            forall|s: &CircuitSeq| #[trigger] pick.requires((s,)),
            forall|s: &CircuitSeq| #[trigger] compress.requires((s,)),
            forall|s: &CircuitSeq, o: CircuitSeq| #[trigger] compress.ensures((s,), o) ==> compression_ok(s@, o@),
        decreases trials - t,
    {
        match pick(&circuit) {
            Some((start, end)) => {
                if start <= end && end < circuit.gates.len() {
                    let sub = CircuitSeq { gates: slice_window(circuit.gates.as_slice(), start, end + 1) };
                    let rep = compress(&sub);
                    proof {
                        assert(compression_ok(sub@, rep@));
                    }
                    let ghost before = circuit@;
                    let ghost x = rep@;
                    let next = compress_step(&circuit, start, end + 1, Some(rep));
                    proof {
                        if ok {
                            assert(gates_reversible(sub@)) by {
                                assert forall|i: int| 0 <= i < sub@.len() implies #[trigger] gate_reversible(sub@[i]) by {
                                    assert(sub@[i] == before[start + i]);
                                }
                            }
                            lemma_splice_keeps(before, start as int, end + 1, x);
                            lemma_same_function_transitive(c@, before, next@);
                        }
                    }
                    circuit = next;
                }
            },
            None => {},
        }
        t += 1;
    }
    let result = simple_compress(&circuit);
    proof {
        if ok {
            lemma_same_function_transitive(c@, circuit@, result@);
        }
    }
    result
}

/// Sequential window compression: equal neighbours cancel, then a sweep
/// runs over the positions `i` of the circuit, from the first onwards;
/// `pick` proposes a window `start ..= end` aimed at position `i` (a
/// proposal that does not lie inside the circuit is passed over), the
/// window is compressed by `compress` and spliced back, and the sweep moves
/// on while `i` is below the current length; equal neighbours cancel again
/// at the end.
pub fn sequential_compress_with<
    P: Fn(&CircuitSeq, usize) -> Option<(usize, usize)>,
    F: Fn(&CircuitSeq) -> CircuitSeq,
>(c: &CircuitSeq, pick: &P, compress: &F) -> (r: CircuitSeq)
    requires
        forall|s: &CircuitSeq, i: usize| #[trigger] pick.requires((s, i)),
        forall|s: &CircuitSeq| #[trigger] compress.requires((s,)),
        forall|s: &CircuitSeq, o: CircuitSeq| #[trigger] compress.ensures((s,), o) ==> compression_ok(s@, o@),
    ensures
        r@.len() <= c@.len(),
        no_adjacent_equal(r@),
        gates_reversible(c@) ==> gates_reversible(r@) && same_function(c@, r@),
{
    let mut circuit = simple_compress(c);
    let ghost ok = gates_reversible(c@);
    let mut i: usize = 0;
    while i < circuit.gates.len()
        invariant
            i <= c@.len(),
            circuit@.len() <= c@.len(),
            ok == gates_reversible(c@),
            ok ==> gates_reversible(circuit@) && same_function(c@, circuit@),
            forall|s: &CircuitSeq, i: usize| #[trigger] pick.requires((s, i)),
            forall|s: &CircuitSeq| #[trigger] compress.requires((s,)),
            forall|s: &CircuitSeq, o: CircuitSeq| #[trigger] compress.ensures((s,), o) ==> compression_ok(s@, o@),
        decreases c@.len() - i,
    {
        match pick(&circuit, i) {
            Some((start, end)) => {
                if start <= end && end < circuit.gates.len() {
                    let sub = CircuitSeq { gates: slice_window(circuit.gates.as_slice(), start, end + 1) };
                    let rep = compress(&sub);
                    proof {
                        assert(compression_ok(sub@, rep@));
                    }
                    let ghost before = circuit@;
                    let ghost x = rep@;
                    let next = compress_step(&circuit, start, end + 1, Some(rep));
                    proof {
                        assert(sub@.len() == end + 1 - start);
                        assert(next@.len() == start + x.len() + (before.len() - (end + 1)));
                        assert(next@.len() <= before.len());
                        if ok {
                            assert(gates_reversible(sub@)) by {
                                assert forall|k: int| 0 <= k < sub@.len() implies #[trigger] gate_reversible(sub@[k]) by {
                                    assert(sub@[k] == before[start + k]);
                                }
                            }
                            lemma_splice_keeps(before, start as int, end + 1, x);
                            lemma_same_function_transitive(c@, before, next@);
                        }
                    }
                    circuit = next;
                }
            },
            None => {},
        }
        i += 1;
    }
    let result = simple_compress(&circuit);
    proof {
        if ok {
            lemma_same_function_transitive(c@, circuit@, result@);
        }
    }
    result
}

/// `rep` computes what `sub` computes: on reversible gates it is reversible
/// and of the same function, whatever its length.
pub open spec fn equivalent_ok(sub: Seq<[u8; 3]>, rep: Option<CircuitSeq>) -> bool {
    rep matches Some(x) ==> (gates_reversible(sub) ==> gates_reversible(x@) && same_function(sub, x@))
}

/// Window expansion of `c`: for `trials` rounds a random window is offered
/// to `find`, and an answer, which may be longer than the window, replaces
/// it.  Finding an equivalent circuit (canonical forms of the window's
/// permutation and the tables of circuits by size) is the job of `find`.
pub fn expand_with<F: Fn(&CircuitSeq) -> Option<CircuitSeq>>(c: &CircuitSeq, trials: usize, find: &F) -> (r:
    CircuitSeq)
    requires
        forall|s: &CircuitSeq| #[trigger] find.requires((s,)),
        forall|s: &CircuitSeq, o: Option<CircuitSeq>| #[trigger] find.ensures((s,), o) ==> equivalent_ok(s@, o),
    ensures
        c@.len() == 0 ==> r@.len() == 0,
        gates_reversible(c@) ==> gates_reversible(r@) && same_function(c@, r@),
{
    let mut expanded = CircuitSeq { gates: crate::infra::circuit::copy_gates(c.gates.as_slice()) };
    if expanded.gates.len() == 0 {
        return expanded;
    }
    let ghost ok = gates_reversible(c@);
    let mut t: usize = 0;
    while t < trials
        invariant
            t <= trials,
            ok == gates_reversible(c@),
            ok ==> gates_reversible(expanded@) && same_function(c@, expanded@),
            forall|s: &CircuitSeq| #[trigger] find.requires((s,)),
            forall|s: &CircuitSeq, o: Option<CircuitSeq>| #[trigger] find.ensures((s,), o) ==> equivalent_ok(s@, o),
        decreases trials - t,
    {
        let (sub, start, end) = random_subcircuit(&expanded);
        proof {
            if expanded@.len() == 0 {
                assert(start == 0 && end == 0);
            }
        }
        let found = find(&sub);
        proof {
            assert(equivalent_ok(sub@, found));
        }
        let ghost before = expanded@;
        let next = compress_step(&expanded, start, end, found);
        proof {
            if found is Some && ok {
                let x = found->0@;
                assert(gates_reversible(sub@)) by {
                    assert forall|i: int| 0 <= i < sub@.len() implies #[trigger] gate_reversible(sub@[i]) by {
                        assert(sub@[i] == before[start + i]);
                    }
                }
                lemma_splice_keeps(before, start as int, end as int, x);
                lemma_same_function_transitive(c@, before, next@);
            }
        }
        expanded = next;
        t += 1;
    }
    expanded
}

} // verus!
