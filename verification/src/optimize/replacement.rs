//! Replacement of subcircuits by optimized versions, and equivalence checks.
use vstd::prelude::*;
use vstd::relations::{sorted_by, total_ordering};

use super::subcircuit::{gates_at, index_range, is_extraction, SubCircuit};
use crate::infra::circuit::{eval_gates, gates_fit, CircuitSeq, Gate};
use crate::infra::random::draw_below;

verus! {

/// Descending order on indices.
pub open spec fn desc(a: usize, b: usize) -> bool {
    a >= b
}

/// The indices in descending order.
pub open spec fn sorted_desc(idx: Seq<usize>) -> Seq<usize> {
    idx.sort_by(|a: usize, b: usize| desc(a, b))
}

/// Removes, in the order given, each position that is still in range.
pub open spec fn remove_each(gates: Seq<[u8; 3]>, order: Seq<usize>) -> Seq<[u8; 3]>
    decreases order.len(),
{
    if order.len() == 0 {
        gates
    } else {
        let g = if (order[0] as int) < gates.len() {
            gates.remove(order[0] as int)
        } else {
            gates
        };
        remove_each(g, order.drop_first())
    }
}

/// Gates with local wires mapped back to the original wires.
pub open spec fn unmap_gates(gates: Seq<[u8; 3]>, unmap: Seq<u8>) -> Seq<[u8; 3]> {
    Seq::new(
        gates.len(),
        |i: int| [unmap[gates[i][0] as int], unmap[gates[i][1] as int], unmap[gates[i][2] as int]],
    )
}

/// The circuit after a replacement: the gates at the subcircuit's positions
/// removed (in descending order), then the unmapped optimized gates inserted
/// at the first recorded position, clipped to the remaining length.
pub open spec fn replaced(
    gates: Seq<[u8; 3]>,
    sub: SubCircuit,
    optimized: Seq<[u8; 3]>,
) -> Seq<[u8; 3]> {
    let rest = remove_each(gates, sorted_desc(sub.original_indices@));
    let first = sub.original_indices@[0] as int;
    let pos = if first < rest.len() {
        first
    } else {
        rest.len() as int
    };
    rest.take(pos) + unmap_gates(optimized, sub.wire_unmap@) + rest.skip(pos)
}

proof fn lemma_desc_total()
    ensures
        total_ordering(|a: usize, b: usize| desc(a, b)),
{
}

/// Non-increasing.
pub open spec fn desc_sorted(s: Seq<usize>) -> bool {
    forall|a: int, b: int| 0 <= a < b < s.len() ==> s[a] >= s[b]
}

/// The indices sorted in descending order.
fn sort_indices_desc(idx: &Vec<usize>) -> (r: Vec<usize>)
    ensures
        r@ == sorted_desc(idx@),
{
    let mut sorted: Vec<usize> = Vec::new();
    let mut i: usize = 0;
    proof {
        assert(idx@.take(0) =~= Seq::<usize>::empty());
        assert(sorted@ =~= Seq::<usize>::empty());
    }
    while i < idx.len()
        invariant
            i <= idx@.len(),
            desc_sorted(sorted@),
            sorted@.to_multiset() == idx@.take(i as int).to_multiset(),
        decreases idx@.len() - i,
    {
        let x = idx[i];
        let mut p: usize = 0;
        while p < sorted.len() && sorted[p] >= x
            invariant
                p <= sorted@.len(),
                forall|j: int| 0 <= j < p ==> sorted@[j] >= x,
            decreases sorted@.len() - p,
        {
            p += 1;
        }
        let ghost before = sorted@;
        sorted.insert(p, x);
        proof {
            assert forall|j: int| p <= j < before.len() implies before[j] < x by {
                assert(before[p as int] < x);
            }
            assert forall|a: int, b: int| 0 <= a < b < sorted@.len() implies sorted@[a]
                >= sorted@[b] by {
                if b < p {
                } else if b == p {
                } else if a < p {
                    assert(sorted@[b] == before[b - 1]);
                } else if a == p {
                    assert(sorted@[b] == before[b - 1]);
                } else {
                    assert(sorted@[a] == before[a - 1]);
                    assert(sorted@[b] == before[b - 1]);
                }
            }
            vstd::seq_lib::to_multiset_insert(before, p as int, x);
            assert(idx@.take(i + 1) =~= idx@.take(i as int).push(x));
            vstd::seq_lib::to_multiset_build(idx@.take(i as int), x);
        }
        i += 1;
    }
    proof {
        assert(idx@.take(i as int) =~= idx@);
        lemma_desc_total();
        idx@.lemma_sort_by_ensures(|a: usize, b: usize| desc(a, b));
        assert(sorted_by(sorted@, |a: usize, b: usize| desc(a, b)));
        vstd::seq_lib::lemma_sorted_unique(
            sorted@,
            sorted_desc(idx@),
            |a: usize, b: usize| desc(a, b),
        );
    }
    sorted
}

/// Replaces the subcircuit's gates in `circuit` by `optimized_gates` (given
/// on local wires, mapped back through `wire_unmap`).  Fails, leaving the
/// circuit unchanged, when the subcircuit records no original position.
pub fn replace_subcircuit(
    circuit: &mut CircuitSeq,
    subcircuit: &SubCircuit,
    optimized_gates: &[[u8; 3]],
) -> (r: Result<(), String>)
    requires
        forall|i: int, k: int|
            0 <= i < optimized_gates@.len() && 0 <= k < 3 ==> (#[trigger] optimized_gates@[i][k] as int)
                < subcircuit.wire_unmap@.len(),
    ensures
        r is Ok <==> subcircuit.original_indices@.len() > 0,
        r is Ok ==> final(circuit)@ == replaced(old(circuit)@, *subcircuit, optimized_gates@),
        r is Err ==> final(circuit)@ == old(circuit)@,
        r matches Err(e) ==> e@ == "Subcircuit has no original indices"@,
{
    if subcircuit.original_indices.len() == 0 {
        return Err(String::from_str("Subcircuit has no original indices"));
    }
    // Optimized gates on the original wires.
    let mut unmapped: Vec<[u8; 3]> = Vec::with_capacity(optimized_gates.len());
    let mut i: usize = 0;
    while i < optimized_gates.len()
        invariant
            i <= optimized_gates@.len(),
            forall|a: int, k: int|
                0 <= a < optimized_gates@.len() && 0 <= k < 3 ==> (#[trigger] optimized_gates@[a][k] as int)
                    < subcircuit.wire_unmap@.len(),
            unmapped@ == unmap_gates(optimized_gates@, subcircuit.wire_unmap@).take(i as int),
        decreases optimized_gates@.len() - i,
    {
        let g = optimized_gates[i];
        proof {
            assert((optimized_gates@[i as int][0] as int) < subcircuit.wire_unmap@.len());
            assert((optimized_gates@[i as int][1] as int) < subcircuit.wire_unmap@.len());
            assert((optimized_gates@[i as int][2] as int) < subcircuit.wire_unmap@.len());
        }
        unmapped.push(
            [
                subcircuit.wire_unmap[g[0] as usize],
                subcircuit.wire_unmap[g[1] as usize],
                subcircuit.wire_unmap[g[2] as usize],
            ],
        );
        i += 1;
        proof {
            assert(unmapped@ =~= unmap_gates(optimized_gates@, subcircuit.wire_unmap@).take(
                i as int,
            ));
        }
    }
    proof {
        assert(unmapped@ =~= unmap_gates(optimized_gates@, subcircuit.wire_unmap@));
    }
    let insert_pos = subcircuit.original_indices[0];
    // Remove the original gates, highest position first.
    let order = sort_indices_desc(&subcircuit.original_indices);
    let ghost g0 = circuit@;
    let mut j: usize = 0;
    proof {
        assert(order@.skip(0) =~= order@);
    }
    while j < order.len()
        invariant
            j <= order@.len(),
            remove_each(g0, order@) == remove_each(circuit@, order@.skip(j as int)),
        decreases order@.len() - j,
    {
        let idx = order[j];
        proof {
            assert(order@.skip(j as int).drop_first() =~= order@.skip(j + 1));
            assert(order@.skip(j as int)[0] == idx);
        }
        if idx < circuit.gates.len() {
            circuit.gates.remove(idx);
        }
        j += 1;
    }
    proof {
        assert(order@.skip(j as int) =~= Seq::<usize>::empty());
    }
    let pos = if insert_pos < circuit.gates.len() {
        insert_pos
    } else {
        circuit.gates.len()
    };
    circuit.splice(pos, &CircuitSeq { gates: unmapped });
    Ok(())
}

/// Removing the positions `e - 1, e - 2, ..., s` one after another removes
/// the window from `s` to `e`.
proof fn lemma_remove_desc_range(c: Seq<[u8; 3]>, s: int, e: int)
    requires
        0 <= s <= e <= c.len(),
        e <= usize::MAX + 1,
    ensures
        remove_each(c, index_range(s, e).reverse()) == c.take(s) + c.skip(e),
    decreases e - s,
{
    let order = index_range(s, e).reverse();
    if e == s {
        assert(order =~= Seq::<usize>::empty());
        assert(c.take(s) + c.skip(e) =~= c);
    } else {
        assert(order[0] == (e - 1) as usize);
        assert(order.drop_first() =~= index_range(s, e - 1).reverse());
        let c1 = c.remove(e - 1);
        lemma_remove_desc_range(c1, s, e - 1);
        assert(c1.take(s) + c1.skip(e - 1) =~= c.take(s) + c.skip(e));
    }
}

/// Putting the local gates of an extracted window back in its place leaves
/// the circuit as it was.
#[verifier::spinoff_prover]
#[verifier::rlimit(40)]
pub proof fn lemma_replace_own_local_gates(c: Seq<[u8; 3]>, s: int, e: int, sub: SubCircuit)
    requires
        0 <= s < e <= c.len(),
        e <= usize::MAX,
        is_extraction(c, index_range(s, e), sub),
    ensures
        sub.remap_covers_gates(),
        forall|i: int, k: int|
            0 <= i < sub.spec_local_gates().len() && 0 <= k < 3 ==> (#[trigger] sub.spec_local_gates()[i][k] as int)
                < sub.wire_unmap@.len(),
        replaced(c, sub, sub.spec_local_gates()) == c,
{
    let g = sub.gates@;
    let unmap = sub.wire_unmap@;
    let remap = sub.wire_remap@;
    assert(g =~= c.subrange(s, e));
    // Every pin is listed, and the remap sends it to its place in the list.
    assert forall|i: int, k: int| 0 <= i < g.len() && 0 <= k < 3 implies (#[trigger] g[i][k] as int) < remap.len()
        && (remap[g[i][k] as int] as int) < unmap.len() && unmap[remap[g[i][k] as int] as int] == g[i][k] by {
        let w = g[i][k];
        assert(crate::optimize::subcircuit::gate_has_wire(g[i], w));
        assert(crate::optimize::subcircuit::touches(g, w));
        assert(unmap.contains(w));
        let j = choose|j: int| 0 <= j < unmap.len() && unmap[j] == w;
        assert(remap[unmap[j] as int] == j);
        assert(unmap[j] <= unmap.last()) by {
            if j < unmap.len() - 1 {
                assert(unmap[j] < unmap[unmap.len() - 1]);
            }
        }
    }
    let local = sub.spec_local_gates();
    assert(unmap_gates(local, unmap) =~= g) by {
        assert forall|i: int| 0 <= i < g.len() implies #[trigger] unmap_gates(local, unmap)[i] == g[i] by {
            assert(local[i] == [remap[g[i][0] as int], remap[g[i][1] as int], remap[g[i][2] as int]]);
            assert(unmap[remap[g[i][0] as int] as int] == g[i][0]);
            assert(unmap[remap[g[i][1] as int] as int] == g[i][1]);
            assert(unmap[remap[g[i][2] as int] as int] == g[i][2]);
        }
    }
    // The positions, sorted in descending order, are the window backwards.
    let idx = index_range(s, e);
    let rev = idx.reverse();
    lemma_desc_total();
    idx.lemma_sort_by_ensures(|a: usize, b: usize| desc(a, b));
    idx.lemma_reverse_to_multiset();
    assert(sorted_by(rev, |a: usize, b: usize| desc(a, b)));
    vstd::seq_lib::lemma_sorted_unique(rev, sorted_desc(idx), |a: usize, b: usize| desc(a, b));
    lemma_remove_desc_range(c, s, e);
    let rest = c.take(s) + c.skip(e);
    assert(sub.original_indices@[0] as int == s);
    assert(rest.take(s) =~= c.take(s));
    assert(rest.skip(s) =~= c.skip(e));
    assert(c.take(s) + g + c.skip(e) =~= c);
}

/// For every input below `2^num_wires`, both circuits give the same output.
pub open spec fn agree_below(a: Seq<[u8; 3]>, b: Seq<[u8; 3]>, num_wires: nat) -> bool {
    forall|x: usize|
        (x as int) < vstd::arithmetic::power2::pow2(num_wires) ==> #[trigger] eval_gates(x, a)
            == eval_gates(x, b)
}

/// For every input below `2^num_wires`, the two circuits give different outputs.
pub open spec fn differ_below(a: Seq<[u8; 3]>, b: Seq<[u8; 3]>, num_wires: nat) -> bool {
    forall|x: usize|
        (x as int) < vstd::arithmetic::power2::pow2(num_wires) ==> #[trigger] eval_gates(x, a)
            != eval_gates(x, b)
}

/// `xs` are values returned by calls of `draw_below(n)`.
pub open spec fn drawn_below(xs: Seq<usize>, n: usize) -> bool {
    forall|i: int| 0 <= i < xs.len() ==> #[trigger] call_ensures(draw_below, (n,), xs[i])
}

/// The two circuits give the same output on every input of `xs`.
pub open spec fn agree_on(a: Seq<[u8; 3]>, b: Seq<[u8; 3]>, xs: Seq<usize>) -> bool {
    forall|i: int| 0 <= i < xs.len() ==> #[trigger] eval_gates(xs[i], a) == eval_gates(xs[i], b)
}

/// `r` is the answer of testing on the drawn inputs `xs` in order: `true`
/// when all `num_tests` of them agree; `false` when the last of them is the
/// first that tells the circuits apart.
pub open spec fn equivalence_tested(a: Seq<[u8; 3]>, b: Seq<[u8; 3]>, xs: Seq<usize>, num_tests: nat, r: bool) -> bool {
    &&& xs.len() <= num_tests
    &&& r ==> xs.len() == num_tests && agree_on(a, b, xs)
    &&& !r ==> xs.len() > 0 && agree_on(a, b, xs.drop_last()) && eval_gates(xs.last(), a) != eval_gates(
        xs.last(),
        b,
    )
}

/// Random testing of equivalence: `num_tests` inputs drawn uniformly below
/// `2^num_wires`, each by a call of `draw_below`; `false` as soon as one of
/// them tells the circuits apart.  A `false` is always a genuine difference;
/// with no tests the answer is `true`.
pub fn verify_equivalence(
    original: &CircuitSeq,
    modified: &CircuitSeq,
    num_wires: usize,
    num_tests: usize,
) -> (r: bool)
    requires
        num_wires < usize::BITS,
        gates_fit(original@),
        gates_fit(modified@),
    ensures
        agree_below(original@, modified@, num_wires as nat) ==> r,
        num_tests == 0 ==> r,
        num_tests > 0 && differ_below(original@, modified@, num_wires as nat) ==> !r,
        exists|xs: Seq<usize>|
            drawn_below(xs, vstd::arithmetic::power2::pow2(num_wires as nat) as usize) && #[trigger] equivalence_tested(
                original@,
                modified@,
                xs,
                num_tests as nat,
                r,
            ),
{
    let max_input: usize = 1usize << num_wires;
    proof {
        crate::infra::circuit::lemma_shift_is_pow2(num_wires);
        vstd::arithmetic::power2::lemma_pow2_pos(num_wires as nat);
    }
    let ghost mut xs: Seq<usize> = Seq::empty();
    let mut t: usize = 0;
    while t < num_tests
        invariant
            max_input == vstd::arithmetic::power2::pow2(num_wires as nat),
            max_input > 0,
            gates_fit(original@),
            gates_fit(modified@),
            t <= num_tests,
            xs.len() == t,
            drawn_below(xs, max_input),
            agree_on(original@, modified@, xs),
            differ_below(original@, modified@, num_wires as nat) ==> t == 0,
        decreases num_tests - t,
    {
        let input = draw_below(max_input);
        let ghost xs0 = xs;
        proof {
            xs = xs.push(input);
            assert(xs.drop_last() =~= xs0);
            assert forall|i: int| 0 <= i < xs.len() implies #[trigger] call_ensures(draw_below, (max_input,), xs[i]) by {
                if i < xs0.len() {
                    assert(xs[i] == xs0[i]);
                }
            }
        }
        let output_original = Gate::evaluate_index_list(input, original.gates.as_slice());
        let output_modified = Gate::evaluate_index_list(input, modified.gates.as_slice());
        if output_original != output_modified {
            proof {
                assert(equivalence_tested(original@, modified@, xs, num_tests as nat, false));
            }
            return false;
        }
        proof {
            assert forall|i: int| 0 <= i < xs.len() implies #[trigger] eval_gates(xs[i], original@) == eval_gates(
                xs[i],
                modified@,
            ) by {
                if i < xs0.len() {
                    assert(xs[i] == xs0[i]);
                }
            }
        }
        t += 1;
    }
    proof {
        assert(equivalence_tested(original@, modified@, xs, num_tests as nat, true));
    }
    true
}

/// What random equivalence testing answers: `true` only when every one of
/// `num_tests` inputs drawn below `2^num_wires` gives the same output on
/// both circuits, and `false` only with an input below `2^num_wires` that
/// tells them apart.
pub proof fn law_verify_equivalence_answers(
    a: &CircuitSeq,
    b: &CircuitSeq,
    num_wires: usize,
    num_tests: usize,
    r: bool,
)
    requires
        call_ensures(verify_equivalence, (a, b, num_wires, num_tests), r),
        num_wires < usize::BITS,
    ensures
        r ==> exists|xs: Seq<usize>|
            xs.len() == num_tests && drawn_below(xs, vstd::arithmetic::power2::pow2(num_wires as nat) as usize)
                && #[trigger] agree_on(a@, b@, xs),
        !r ==> exists|x: usize|
            (x as int) < vstd::arithmetic::power2::pow2(num_wires as nat) && #[trigger] eval_gates(x, a@)
                != eval_gates(x, b@),
{
    let m = vstd::arithmetic::power2::pow2(num_wires as nat) as usize;
    let xs = choose|xs: Seq<usize>| drawn_below(xs, m) && #[trigger] equivalence_tested(a@, b@, xs, num_tests as nat, r);
    if !r {
        let x = xs.last();
        assert(call_ensures(draw_below, (m,), xs[xs.len() - 1]));
        vstd::arithmetic::power2::lemma_pow2_pos(num_wires as nat);
        assert(x < m);
        assert(eval_gates(x, a@) != eval_gates(x, b@));
    } else {
        assert(agree_on(a@, b@, xs));
    }
}

/// Exhaustive equivalence check over all `2^num_wires` inputs; above 20
/// wires it falls back to 10000 random tests.
pub fn verify_equivalence_exhaustive(
    original: &CircuitSeq,
    modified: &CircuitSeq,
    num_wires: usize,
) -> (r: bool)
    requires
        num_wires < usize::BITS,
        gates_fit(original@),
        gates_fit(modified@),
    ensures
        num_wires <= 20 ==> (r == agree_below(original@, modified@, num_wires as nat)),
        num_wires > 20 ==> (agree_below(original@, modified@, num_wires as nat) ==> r),
{
    if num_wires > 20 {
        return verify_equivalence(original, modified, num_wires, 10000);
    }
    let max_input: usize = 1usize << num_wires;
    proof {
        crate::infra::circuit::lemma_shift_is_pow2(num_wires);
    }
    let mut input: usize = 0;
    while input < max_input
        invariant
            input <= max_input,
            max_input == vstd::arithmetic::power2::pow2(num_wires as nat),
            gates_fit(original@),
            gates_fit(modified@),
            forall|x: usize| x < input ==> #[trigger] eval_gates(x, original@) == eval_gates(
                x,
                modified@,
            ),
        decreases max_input - input,
    {
        let output_original = Gate::evaluate_index_list(input, original.gates.as_slice());
        let output_modified = Gate::evaluate_index_list(input, modified.gates.as_slice());
        if output_original != output_modified {
            return false;
        }
        input += 1;
    }
    true
}

} // verus!
