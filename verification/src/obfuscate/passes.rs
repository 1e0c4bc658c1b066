//! The obfuscation pass pipeline: segmentation, gadget injection at segment
//! boundaries, anti-reduction noise, and local cancellation.  Every step
//! keeps the function of the circuit.
use vstd::prelude::*;

use super::gadgets::{all_distinct_pins_below, commutator, lemma_distinct_pins_reversible};
use crate::infra::circuit::{
    copy_gates, eval_gates, gate_eq, gates_fit, gates_reversible, lemma_insert_identity,
    lemma_same_function_transitive, no_adjacent_equal, pow2_usize, same_function, CircuitSeq,
};
use crate::infra::random::{rng_usize_below, seeded_rng};

verus! {

/// Segment boundaries `min(i * (len / segs), len - 1)` for `i` in
/// `1 .. segs`, keeping the positive ones.
pub open spec fn spec_boundaries(circuit_len: nat, num_segments: nat, k: nat) -> Seq<usize>
    decreases k,
{
    if k <= 1 {
        Seq::empty()
    } else {
        let prev = spec_boundaries(circuit_len, num_segments, (k - 1) as nat);
        let i = k - 1;
        let seg = circuit_len / num_segments;
        let b = if i * seg < circuit_len - 1 {
            i * seg
        } else {
            circuit_len - 1
        };
        if b > 0 && b < circuit_len {
            prev.push(b as usize)
        } else {
            prev
        }
    }
}

/// Segment boundaries for splitting a circuit of `circuit_len` gates into
/// `num_segments` segments; none for an empty circuit or no segment.
pub fn compute_boundaries(circuit_len: usize, num_segments: usize) -> (r: Vec<usize>)
    ensures
        circuit_len == 0 || num_segments == 0 ==> r@.len() == 0,
        circuit_len > 0 && num_segments > 0 ==> r@ == spec_boundaries(
            circuit_len as nat,
            num_segments as nat,
            num_segments as nat,
        ),
        forall|j: int| 0 <= j < r@.len() ==> 0 < #[trigger] r@[j] < circuit_len,
{
    if circuit_len == 0 || num_segments == 0 {
        return Vec::new();
    }
    let segment_size = circuit_len / num_segments;
    let mut boundaries: Vec<usize> = Vec::with_capacity(num_segments - 1);
    let mut i: usize = 1;
    while i < num_segments
        invariant
            1 <= i <= num_segments,
            circuit_len > 0,
            segment_size == circuit_len / num_segments,
            boundaries@ == spec_boundaries(circuit_len as nat, num_segments as nat, i as nat),
            forall|j: int| 0 <= j < boundaries@.len() ==> 0 < #[trigger] boundaries@[j] < circuit_len,
        decreases num_segments - i,
    {
        proof {
            assert(i * segment_size <= circuit_len) by (nonlinear_arith)
                requires
                    i < num_segments,
                    segment_size == circuit_len / num_segments,
                    num_segments > 0,
            ;
        }
        let prod = i * segment_size;
        let boundary = if prod < circuit_len - 1 {
            prod
        } else {
            circuit_len - 1
        };
        if boundary > 0 && boundary < circuit_len {
            boundaries.push(boundary);
        }
        i += 1;
    }
    boundaries
}

/// The circuit keeps its function and stays made of reversible gates.
pub open spec fn preserves(c: Seq<[u8; 3]>, r: Seq<[u8; 3]>) -> bool {
    gates_reversible(r) && same_function(c, r)
}

/// Inserting a full gadget at `pos` keeps the function.
proof fn lemma_insert_gadget(c0: Seq<[u8; 3]>, before: Seq<[u8; 3]>, gadget: Seq<[u8; 3]>, first: Seq<[u8; 3]>, pos: int, n: u8)
    requires
        0 <= pos <= before.len(),
        preserves(c0, before),
        all_distinct_pins_below(first, n),
        gadget == first + first.reverse(),
        n as int <= usize::BITS,
    ensures
        preserves(c0, before.take(pos) + gadget + before.skip(pos)),
{
    lemma_distinct_pins_reversible(first, n);
    crate::infra::circuit::lemma_mirror_is_identity(first);
    lemma_insert_identity(before.take(pos), gadget, before.skip(pos));
    assert(before.take(pos) + before.skip(pos) =~= before);
    lemma_same_function_transitive(c0, before, before.take(pos) + gadget + before.skip(pos));
    let after = before.take(pos) + gadget + before.skip(pos);
    assert(gates_reversible(gadget)) by {
        assert forall|i: int| 0 <= i < gadget.len() implies #[trigger] crate::infra::circuit::gate_reversible(gadget[i]) by {
            if i < first.len() {
                assert(gadget[i] == first[i]);
            } else {
                assert(gadget[i] == first.reverse()[i - first.len()]);
                assert(first.reverse()[i - first.len()] == first[first.len() - 1 - (i - first.len())]);
            }
        }
    }
    assert forall|i: int| 0 <= i < after.len() implies #[trigger] crate::infra::circuit::gate_reversible(after[i]) by {
        if i < pos {
            assert(after[i] == before[i]);
        } else if i < pos + gadget.len() {
            assert(after[i] == gadget[i - pos]);
        } else {
            assert(after[i] == before[i - gadget.len()]);
        }
    }
}

/// `g` is a mirror gadget `X · X⁻¹` where `X` has `depth` gates, each with
/// three distinct pins below `n`.
pub open spec fn is_mirror(g: Seq<[u8; 3]>, depth: nat, n: u8) -> bool {
    exists|f: Seq<[u8; 3]>| #[trigger] all_distinct_pins_below(f, n) && f.len() == depth && g == f + f.reverse()
}

/// `c` after inserting `gs[0]` at `ps[0]`, then `gs[1]` at `ps[1]` in the
/// result, and so on.
pub open spec fn splice_gadgets(c: Seq<[u8; 3]>, ps: Seq<usize>, gs: Seq<Seq<[u8; 3]>>) -> Seq<[u8; 3]>
    decreases gs.len(),
{
    if gs.len() == 0 {
        c
    } else {
        let prev = splice_gadgets(c, ps.drop_last(), gs.drop_last());
        let p = ps.last() as int;
        prev.take(p) + gs.last() + prev.skip(p)
    }
}

/// `r` is `c` with one mirror gadget of depth `depth` inserted at each
/// position of `ps`, in that order.
pub open spec fn gadgets_spliced(c: Seq<[u8; 3]>, r: Seq<[u8; 3]>, ps: Seq<usize>, depth: nat, n: u8) -> bool {
    exists|gs: Seq<Seq<[u8; 3]>>|
        gs.len() == ps.len() && (forall|i: int| 0 <= i < gs.len() ==> #[trigger] is_mirror(gs[i], depth, n))
            && r == #[trigger] splice_gadgets(c, ps, gs)
}

/// Depth of a boundary gadget: `max(gadget_size / 2, 3)`.
pub open spec fn boundary_depth(gadget_size: usize) -> nat {
    if gadget_size / 2 > 3 {
        (gadget_size / 2) as nat
    } else {
        3
    }
}

/// Depth of a noise gadget: `max(gadget_size / 3, 2)`.
pub open spec fn noise_depth(gadget_size: usize) -> nat {
    if gadget_size / 3 > 2 {
        (gadget_size / 3) as nat
    } else {
        2
    }
}

/// The boundaries that `compute_boundaries` gives.
pub open spec fn obf_boundaries(circuit_len: nat, num_segments: nat) -> Seq<usize> {
    if circuit_len == 0 || num_segments == 0 {
        Seq::empty()
    } else {
        spec_boundaries(circuit_len, num_segments, num_segments)
    }
}

/// `r` is `c` with noise gadgets of depth `noise_depth(gadget_size)`
/// inserted one at a time until the length reaches `target_len`: none when
/// `c` is long enough already, and no more once it is.
pub open spec fn noise_added(c: Seq<[u8; 3]>, r: Seq<[u8; 3]>, target_len: nat, gadget_size: usize, n: u8) -> bool {
    &&& c.len() >= target_len ==> r == c
    &&& r.len() >= target_len
    &&& exists|ps: Seq<usize>|
        #[trigger] gadgets_spliced(c, r, ps, noise_depth(gadget_size), n) && (ps.len() > 0 ==> r.len()
            < target_len + 2 * noise_depth(gadget_size))
}

/// Injects a full identity gadget at every boundary (from the last boundary
/// to the first), each of depth `max(gadget_size / 2, 3)`.
pub fn inject_gadgets(
    c: &CircuitSeq,
    boundaries: &[usize],
    gadget_size: usize,
    num_wires: usize,
    rng: &mut rand::rngs::StdRng,
) -> (r: CircuitSeq)
    requires
        (num_wires as u8) >= 3,
        forall|j: int| 0 <= j < boundaries@.len() ==> #[trigger] boundaries@[j] <= c@.len(),
    ensures
        r@.len() >= c@.len(),
        r@.len() == c@.len() + boundaries@.len() * (2 * boundary_depth(gadget_size)),
        boundaries@.len() == 0 ==> r@ == c@,
        gadgets_spliced(c@, r@, boundaries@.reverse(), boundary_depth(gadget_size), num_wires as u8),
        gates_reversible(c@) && (num_wires as u8) as int <= usize::BITS ==> preserves(c@, r@),
{
    let mut result = CircuitSeq { gates: copy_gates(c.gates.as_slice()) };
    let ghost mut gs: Seq<Seq<[u8; 3]>> = Seq::empty();
    if boundaries.len() == 0 {
        proof {
            assert(boundaries@.reverse() =~= Seq::<usize>::empty());
            assert(result@ == splice_gadgets(c@, boundaries@.reverse(), gs));
        }
        return result;
    }
    let half = gadget_size / 2;
    let depth = if half > 3 {
        half
    } else {
        3
    };
    let ghost ok = gates_reversible(c@) && (num_wires as u8) as int <= usize::BITS;
    let n = boundaries.len();
    let mut k: usize = n;
    proof {
        assert(boundaries@.subrange(k as int, n as int).reverse() =~= Seq::<usize>::empty());
    }
    while k > 0
        invariant
            k <= n,
            n == boundaries@.len(),
            depth == boundary_depth(gadget_size),
            (num_wires as u8) >= 3,
            forall|j: int| 0 <= j < boundaries@.len() ==> #[trigger] boundaries@[j] <= c@.len(),
            result@.len() >= c@.len(),
            result@.len() == c@.len() + (n - k) * (2 * depth),
            gs.len() == n - k,
            forall|i: int| 0 <= i < gs.len() ==> #[trigger] is_mirror(gs[i], depth as nat, num_wires as u8),
            result@ == splice_gadgets(c@, boundaries@.subrange(k as int, n as int).reverse(), gs),
            ok == (gates_reversible(c@) && (num_wires as u8) as int <= usize::BITS),
            ok ==> preserves(c@, result@),
        decreases k,
    {
        k -= 1;
        let boundary = boundaries[k];
        let gadget = commutator(num_wires, depth, depth, rng);
        let ghost before = result@;
        let ghost ps0 = boundaries@.subrange(k + 1, n as int).reverse();
        result.splice(boundary, &gadget.full);
        proof {
            if ok {
                lemma_insert_gadget(c@, before, gadget.full@, gadget.first_half@, boundary as int, num_wires as u8);
            }
            assert(all_distinct_pins_below(gadget.first_half@, num_wires as u8));
            assert(is_mirror(gadget.full@, depth as nat, num_wires as u8));
            let gs1 = gs.push(gadget.full@);
            let ps1 = boundaries@.subrange(k as int, n as int).reverse();
            assert(ps1 =~= ps0.push(boundary));
            assert(ps1.drop_last() =~= ps0);
            assert(gs1.drop_last() =~= gs);
            assert(result@ == splice_gadgets(c@, ps1, gs1));
            assert forall|i: int| 0 <= i < gs1.len() implies #[trigger] is_mirror(gs1[i], depth as nat, num_wires as u8) by {
                if i < gs.len() {
                    assert(gs1[i] == gs[i]);
                }
            }
            assert((n - k) * (2 * depth) == (n - (k + 1)) * (2 * depth) + 2 * depth) by (nonlinear_arith);
            gs = gs1;
        }
    }
    proof {
        assert(boundaries@.subrange(0, n as int) =~= boundaries@);
        assert(result@ == splice_gadgets(c@, boundaries@.reverse(), gs));
    }
    result
}

/// Inserts full identity gadgets of depth `max(gadget_size / 3, 2)` at random
/// positions until the circuit has at least `target_len` gates.
pub fn add_noise(
    c: &CircuitSeq,
    target_len: usize,
    gadget_size: usize,
    num_wires: usize,
    rng: &mut rand::rngs::StdRng,
) -> (r: CircuitSeq)
    requires
        (num_wires as u8) >= 3,
    ensures
        r@.len() >= c@.len(),
        r@.len() >= target_len,
        c@.len() >= target_len ==> r@ == c@,
        noise_added(c@, r@, target_len as nat, gadget_size, num_wires as u8),
        gates_reversible(c@) && (num_wires as u8) as int <= usize::BITS ==> preserves(c@, r@),
{
    let mut result = CircuitSeq { gates: copy_gates(c.gates.as_slice()) };
    let ghost mut gs: Seq<Seq<[u8; 3]>> = Seq::empty();
    let ghost mut ps: Seq<usize> = Seq::empty();
    if c.gates.len() >= target_len {
        proof {
            assert(result@ == splice_gadgets(c@, ps, gs));
            assert(gadgets_spliced(c@, result@, ps, noise_depth(gadget_size), num_wires as u8));
        }
        return result;
    }
    let third = gadget_size / 3;
    let depth = if third > 2 {
        third
    } else {
        2
    };
    let ghost ok = gates_reversible(c@) && (num_wires as u8) as int <= usize::BITS;
    while result.gates.len() < target_len
        invariant
            (num_wires as u8) >= 3,
            depth >= 2,
            depth == noise_depth(gadget_size),
            c@.len() < target_len,
            result@.len() >= c@.len(),
            gs.len() == ps.len(),
            forall|i: int| 0 <= i < gs.len() ==> #[trigger] is_mirror(gs[i], depth as nat, num_wires as u8),
            result@ == splice_gadgets(c@, ps, gs),
            ps.len() > 0 ==> result@.len() < target_len + 2 * depth,
            ok == (gates_reversible(c@) && (num_wires as u8) as int <= usize::BITS),
            ok ==> preserves(c@, result@),
        decreases (if result@.len() < target_len { target_len - result@.len() } else { 0 }),
    {
        let gadget = commutator(num_wires, depth, depth, rng);
        let len = result.gates.len();
        let bound = if len > 1 {
            len
        } else {
            1
        };
        let pos = rng_usize_below(rng, bound);
        let ghost before = result@;
        proof {
            assert(gadget.full@.len() == 2 * depth);
        }
        result.splice(pos, &gadget.full);
        proof {
            assert(result@.len() == before.len() + 2 * depth);
            if ok {
                lemma_insert_gadget(c@, before, gadget.full@, gadget.first_half@, pos as int, num_wires as u8);
            }
            assert(all_distinct_pins_below(gadget.first_half@, num_wires as u8));
            assert(is_mirror(gadget.full@, depth as nat, num_wires as u8));
            let gs1 = gs.push(gadget.full@);
            let ps1 = ps.push(pos);
            assert(ps1.drop_last() =~= ps);
            assert(gs1.drop_last() =~= gs);
            assert(result@ == splice_gadgets(c@, ps1, gs1));
            assert forall|i: int| 0 <= i < gs1.len() implies #[trigger] is_mirror(gs1[i], depth as nat, num_wires as u8) by {
                if i < gs.len() {
                    assert(gs1[i] == gs[i]);
                }
            }
            gs = gs1;
            ps = ps1;
        }
    }
    proof {
        assert(gadgets_spliced(c@, result@, ps, noise_depth(gadget_size), num_wires as u8));
    }
    result
}

/// The gates kept when they are read in order and a gate equal to the last
/// one kept cancels it instead of being kept.
pub open spec fn stack_reduce(s: Seq<[u8; 3]>) -> Seq<[u8; 3]>
    decreases s.len(),
{
    if s.len() == 0 {
        s
    } else {
        let t = stack_reduce(s.drop_last());
        if t.len() > 0 && t.last() == s.last() {
            t.drop_last()
        } else {
            t.push(s.last())
        }
    }
}

/// The stack reduction has no equal neighbours, keeps the parity of the
/// length, never grows, keeps fitting pins, and on reversible gates keeps
/// the function.
pub proof fn lemma_stack_reduce(s: Seq<[u8; 3]>)
    ensures
        no_adjacent_equal(stack_reduce(s)),
        stack_reduce(s).len() <= s.len(),
        stack_reduce(s).len() % 2 == s.len() % 2,
        gates_fit(s) ==> gates_fit(stack_reduce(s)),
        gates_reversible(s) ==> preserves(s, stack_reduce(s)),
    decreases s.len(),
{
    if s.len() > 0 {
        let p = s.drop_last();
        let g = s.last();
        let t = stack_reduce(p);
        lemma_stack_reduce(p);
        assert(gates_fit(s) ==> gates_fit(p)) by {
            if gates_fit(s) {
                assert forall|i: int| 0 <= i < p.len() implies #[trigger] crate::infra::circuit::gate_fits(p[i]) by {
                    assert(p[i] == s[i]);
                }
            }
        }
        assert(gates_reversible(s) ==> gates_reversible(p)) by {
            if gates_reversible(s) {
                assert forall|i: int| 0 <= i < p.len() implies #[trigger] crate::infra::circuit::gate_reversible(p[i]) by {
                    assert(p[i] == s[i]);
                }
            }
        }
        let tp = t.push(g);
        assert(tp.drop_last() =~= t);
        if gates_reversible(s) {
            assert forall|x: usize| #[trigger] eval_gates(x, s) == eval_gates(x, tp) by {
                assert(eval_gates(x, p) == eval_gates(x, t));
            }
            assert(crate::infra::circuit::gate_reversible(s[s.len() - 1]));
        }
        if t.len() > 0 && t.last() == g {
            let r = t.drop_last();
            assert forall|j: int| 0 <= j && j + 1 < r.len() implies #[trigger] r[j] != r[j + 1] by {
                assert(r[j] == t[j] && r[j + 1] == t[j + 1]);
            }
            if gates_fit(s) {
                assert forall|i: int| 0 <= i < r.len() implies #[trigger] crate::infra::circuit::gate_fits(r[i]) by {
                    assert(r[i] == t[i]);
                }
            }
            if gates_reversible(s) {
                let i = t.len() - 1;
                assert(tp[i] == g && tp[i + 1] == g);
                crate::infra::circuit::lemma_cancel_adjacent(tp, i);
                assert(tp.take(i) + tp.skip(i + 2) =~= r);
                lemma_same_function_transitive(s, tp, r);
                assert forall|k: int| 0 <= k < r.len() implies #[trigger] crate::infra::circuit::gate_reversible(r[k]) by {
                    assert(r[k] == t[k]);
                }
            }
        } else {
            assert forall|j: int| 0 <= j && j + 1 < tp.len() implies #[trigger] tp[j] != tp[j + 1] by {
                if j + 1 < t.len() {
                    assert(tp[j] == t[j] && tp[j + 1] == t[j + 1]);
                } else {
                    assert(tp[j] == t.last());
                }
            }
            if gates_fit(s) {
                assert forall|i: int| 0 <= i < tp.len() implies #[trigger] crate::infra::circuit::gate_fits(tp[i]) by {
                    if i < t.len() {
                        assert(tp[i] == t[i]);
                    } else {
                        assert(tp[i] == s[s.len() - 1]);
                    }
                }
            }
            if gates_reversible(s) {
                assert forall|i: int| 0 <= i < tp.len() implies #[trigger] crate::infra::circuit::gate_reversible(tp[i]) by {
                    if i < t.len() {
                        assert(tp[i] == t[i]);
                    } else {
                        assert(tp[i] == s[s.len() - 1]);
                    }
                }
            }
        }
    }
}

/// A sequence without equal neighbours is its own stack reduction.
pub proof fn lemma_stack_reduce_fixed(s: Seq<[u8; 3]>)
    requires
        no_adjacent_equal(s),
    ensures
        stack_reduce(s) == s,
    decreases s.len(),
{
    if s.len() > 0 {
        let p = s.drop_last();
        assert forall|j: int| 0 <= j && j + 1 < p.len() implies #[trigger] p[j] != p[j + 1] by {
            assert(p[j] == s[j] && p[j + 1] == s[j + 1]);
        }
        lemma_stack_reduce_fixed(p);
        if p.len() > 0 {
            assert(s[p.len() - 1] != s[p.len() as int]);
        }
        assert(p.push(s.last()) =~= s);
    }
}

/// Compressing twice gives the same as compressing once.
pub proof fn lemma_simple_compress_idempotent(s: Seq<[u8; 3]>)
    ensures
        stack_reduce(stack_reduce(s)) == stack_reduce(s),
{
    lemma_stack_reduce(s);
    lemma_stack_reduce_fixed(stack_reduce(s));
}

/// Removes adjacent identical gates (every gate here is its own inverse),
/// stepping back after each removal to catch newly adjacent pairs: the
/// result is the stack reduction of the gates.
pub fn simple_compress(c: &CircuitSeq) -> (r: CircuitSeq)
    ensures
        r@ == stack_reduce(c@),
        stack_reduce(r@) == r@,
        r@.len() <= c@.len(),
        r@.len() % 2 == c@.len() % 2,
        no_adjacent_equal(r@),
        gates_fit(c@) ==> gates_fit(r@),
        gates_reversible(c@) ==> preserves(c@, r@),
{
    let mut out: Vec<[u8; 3]> = Vec::new();
    let n = c.gates.len();
    let mut i: usize = 0;
    while i < n
        invariant
            i <= n,
            n == c@.len(),
            out@ == stack_reduce(c@.take(i as int)),
        decreases n - i,
    {
        let g = c.gates[i];
        proof {
            assert(c@.take(i + 1).drop_last() =~= c@.take(i as int));
            assert(c@.take(i + 1).last() == g);
        }
        let len = out.len();
        if len > 0 && gate_eq(&out[len - 1], &g) {
            out.pop();
        } else {
            out.push(g);
        }
        i += 1;
    }
    proof {
        assert(c@.take(n as int) =~= c@);
        lemma_stack_reduce(c@);
        lemma_simple_compress_idempotent(c@);
    }
    CircuitSeq { gates: out }
}

/// Steps 1 to 6 of the pipeline, once: segment the circuit, inject identity
/// gadgets at the boundaries, add noise gadgets up to `target_len` gates, and
/// cancel adjacent identical gates.
pub fn obfuscate_circuit(
    c: &CircuitSeq,
    segments: usize,
    gadget_size: usize,
    num_wires: usize,
    target_len: usize,
    rng: &mut rand::rngs::StdRng,
) -> (r: CircuitSeq)
    requires
        (num_wires as u8) >= 3,
    ensures
        no_adjacent_equal(r@),
        stack_reduce(r@) == r@,
        gates_reversible(c@) && (num_wires as u8) as int <= usize::BITS ==> preserves(c@, r@),
        exists|injected: Seq<[u8; 3]>, noisy: Seq<[u8; 3]>|
            #![trigger gadgets_spliced(c@, injected, obf_boundaries(c@.len(), segments as nat).reverse(), boundary_depth(gadget_size), num_wires as u8), noise_added(injected, noisy, target_len as nat, gadget_size, num_wires as u8)]
            gadgets_spliced(
                c@,
                injected,
                obf_boundaries(c@.len(), segments as nat).reverse(),
                boundary_depth(gadget_size),
                num_wires as u8,
            ) && noise_added(injected, noisy, target_len as nat, gadget_size, num_wires as u8) && r@
                == stack_reduce(noisy),
{
    let ghost ok = gates_reversible(c@) && (num_wires as u8) as int <= usize::BITS;
    let boundaries = compute_boundaries(c.len(), segments);
    proof {
        assert(boundaries@ == obf_boundaries(c@.len(), segments as nat));
    }
    let injected = inject_gadgets(c, boundaries.as_slice(), gadget_size, num_wires, rng);
    let noisy = add_noise(&injected, target_len, gadget_size, num_wires, rng);
    proof {
        if ok {
            lemma_same_function_transitive(c@, injected@, noisy@);
        }
    }
    let result = simple_compress(&noisy);
    proof {
        if ok {
            lemma_same_function_transitive(c@, noisy@, result@);
        }
    }
    result
}

/// Verification fingerprint of a circuit: the full truth table for at most
/// 12 wires, otherwise 1000 sampled input/output pairs.
#[derive(Clone, Debug, PartialEq)]
pub enum Fingerprint {
    Full(Vec<usize>),
    Sampled(Vec<(u64, u64)>),
}

/// `Rng::random::<u64>()` on the standard generator.  Nothing is stated of
/// the outcome.
#[verifier::external_body]
fn rng_u64(rng: &mut rand::rngs::StdRng) -> (r: u64) {
    rand::Rng::random::<u64>(rng)
}

/// Fingerprint of `c` on `num_wires` wires.  For at most 12 wires, the truth
/// table; otherwise inputs drawn from a generator seeded with `0xDEADBEEF`,
/// masked to `num_wires` bits, each with its output.
pub fn fingerprint(c: &CircuitSeq, num_wires: usize) -> (r: Fingerprint)
    requires
        gates_fit(c@),
    ensures
        num_wires <= 12 ==> (r matches Fingerprint::Full(data) && data@.len() == pow2_usize(num_wires)
            && forall|x: int| 0 <= x < data@.len() ==> #[trigger] data@[x] == eval_gates(x as usize, c@)),
        num_wires > 12 ==> (r matches Fingerprint::Sampled(samples) && samples@.len() == 1000
            && forall|k: int| 0 <= k < samples@.len() ==> #[trigger] samples@[k].1 == eval_gates(samples@[k].0 as usize, c@) as u64),
{
    if num_wires <= 12 {
        let perm = c.permutation(num_wires);
        Fingerprint::Full(perm.data)
    } else {
        let mut rng = seeded_rng(0xDEADBEEF);
        let mask: u64 = if num_wires < 64 {
            proof {
                vstd::bits::lemma_u64_pow2_no_overflow(num_wires as nat);
                vstd::bits::lemma_u64_shl_is_mul(1u64, num_wires as u64);
                vstd::arithmetic::power2::lemma_pow2_pos(num_wires as nat);
            }
            (1u64 << (num_wires as u64)) - 1
        } else {
            u64::MAX
        };
        let mut samples: Vec<(u64, u64)> = Vec::new();
        let mut k: usize = 0;
        while k < 1000
            invariant
                k <= 1000,
                samples@.len() == k,
                gates_fit(c@),
                forall|j: int| 0 <= j < samples@.len() ==> #[trigger] samples@[j].1 == eval_gates(samples@[j].0 as usize, c@) as u64,
            decreases 1000 - k,
        {
            let input = rng_u64(&mut rng) & mask;
            let output = c.evaluate(input as usize) as u64;
            samples.push((input, output));
            k += 1;
        }
        Fingerprint::Sampled(samples)
    }
}

} // verus!
