//! Subcircuit extraction: a subset of a circuit's gates with its input and
//! output wires and a compact relabelling of the wires it touches.
use vstd::prelude::*;

use crate::infra::circuit::CircuitSeq;

verus! {

/// A subcircuit extracted from a larger circuit.
#[derive(Debug, Clone)]
pub struct SubCircuit {
    /// The gates, in order.
    pub gates: Vec<[u8; 3]>,
    /// Wires read before being written in the subcircuit.
    pub input_wires: Vec<u8>,
    /// Wires written (as targets) in the subcircuit.
    pub output_wires: Vec<u8>,
    /// Gate indices in the parent circuit.
    pub original_indices: Vec<usize>,
    /// Original wire -> local index (0..n).
    pub wire_remap: Vec<u8>,
    /// Local index -> original wire.
    pub wire_unmap: Vec<u8>,
}

/// `w` is one of the pins of `g`.
pub open spec fn gate_has_wire(g: [u8; 3], w: u8) -> bool {
    g[0] == w || g[1] == w || g[2] == w
}

/// `w` is a pin of some gate.
pub open spec fn touches(gates: Seq<[u8; 3]>, w: u8) -> bool {
    exists|i: int| 0 <= i < gates.len() && #[trigger] gate_has_wire(gates[i], w)
}

/// `w` is the target of some gate.
pub open spec fn writes(gates: Seq<[u8; 3]>, w: u8) -> bool {
    exists|i: int| 0 <= i < gates.len() && #[trigger] gates[i][0] == w
}

/// `w` is a pin of some gate and no earlier gate targets it: its value is
/// read before the subcircuit writes it.
pub open spec fn read_before_written(gates: Seq<[u8; 3]>, w: u8) -> bool {
    exists|i: int|
        0 <= i < gates.len() && #[trigger] gate_has_wire(gates[i], w) && !writes(gates.take(i), w)
}

/// Strictly increasing.
pub open spec fn strictly_sorted(s: Seq<u8>) -> bool {
    forall|i: int, j: int| 0 <= i < j < s.len() ==> s[i] < s[j]
}

/// `s` lists, in increasing order, exactly the bytes satisfying `p`.
pub open spec fn sorted_listing(s: Seq<u8>, p: spec_fn(u8) -> bool) -> bool {
    &&& strictly_sorted(s)
    &&& forall|w: u8| #[trigger] s.contains(w) <==> p(w)
}

/// The gates of `c` at positions `idx`, in that order.
pub open spec fn gates_at(c: Seq<[u8; 3]>, idx: Seq<usize>) -> Seq<[u8; 3]> {
    Seq::new(idx.len(), |i: int| c[idx[i] as int])
}

/// `sub` is the extraction of the gates of `c` at positions `idx`.
pub open spec fn is_extraction(c: Seq<[u8; 3]>, idx: Seq<usize>, sub: SubCircuit) -> bool {
    let g = gates_at(c, idx);
    &&& sub.gates@ == g
    &&& sub.original_indices@ == idx
    &&& sorted_listing(sub.wire_unmap@, |w: u8| touches(g, w))
    &&& sorted_listing(sub.input_wires@, |w: u8| read_before_written(g, w))
    &&& sorted_listing(sub.output_wires@, |w: u8| writes(g, w))
    &&& sub.wire_remap@.len() == (if sub.wire_unmap@.len() == 0 {
        1
    } else {
        sub.wire_unmap@.last() + 1
    })
    &&& forall|k: int| 0 <= k < sub.wire_unmap@.len() ==> sub.wire_remap@[#[trigger] sub.wire_unmap@[k] as int] == k
    &&& forall|w: u8| (w as int) < sub.wire_remap@.len() && !touches(g, w) ==> #[trigger] sub.wire_remap@[w as int] == 0
}

impl SubCircuit {
    /// Number of gates.
    pub fn num_gates(&self) -> (r: usize)
        ensures
            r == self.gates@.len(),
    {
        self.gates.len()
    }

    /// Number of input wires.
    pub fn num_inputs(&self) -> (r: usize)
        ensures
            r == self.input_wires@.len(),
    {
        self.input_wires.len()
    }

    /// Number of output wires.
    pub fn num_outputs(&self) -> (r: usize)
        ensures
            r == self.output_wires@.len(),
    {
        self.output_wires.len()
    }

    /// Every pin of every gate has a local index.
    pub open spec fn remap_covers_gates(&self) -> bool {
        forall|i: int, k: int|
            0 <= i < self.gates@.len() && 0 <= k < 3 ==> (#[trigger] self.gates@[i][k] as int)
                < self.wire_remap@.len()
    }

    /// The gates with every pin replaced by its local index.
    pub open spec fn spec_local_gates(&self) -> Seq<[u8; 3]> {
        Seq::new(
            self.gates@.len(),
            |i: int|
                [
                    self.wire_remap@[self.gates@[i][0] as int],
                    self.wire_remap@[self.gates@[i][1] as int],
                    self.wire_remap@[self.gates@[i][2] as int],
                ],
        )
    }

    /// The gates with local wire indices.
    pub fn local_gates(&self) -> (r: Vec<[u8; 3]>)
        requires
            self.remap_covers_gates(),
        ensures
            r@ == self.spec_local_gates(),
    {
        let mut r: Vec<[u8; 3]> = Vec::with_capacity(self.gates.len());
        let mut i: usize = 0;
        while i < self.gates.len()
            invariant
                i <= self.gates@.len(),
                self.remap_covers_gates(),
                r@ == self.spec_local_gates().take(i as int),
            decreases self.gates@.len() - i,
        {
            let g = self.gates[i];
            proof {
                assert((self.gates@[i as int][0] as int) < self.wire_remap@.len());
                assert((self.gates@[i as int][1] as int) < self.wire_remap@.len());
                assert((self.gates@[i as int][2] as int) < self.wire_remap@.len());
            }
            r.push(
                [
                    self.wire_remap[g[0] as usize],
                    self.wire_remap[g[1] as usize],
                    self.wire_remap[g[2] as usize],
                ],
            );
            i += 1;
            proof {
                assert(r@ =~= self.spec_local_gates().take(i as int));
            }
        }
        proof {
            assert(self.spec_local_gates().take(i as int) =~= self.spec_local_gates());
        }
        r
    }
}

/// The bytes `w < 256` with `flags[w]`, in increasing order.
fn flagged_bytes(flags: &Vec<bool>, Ghost(p): Ghost<spec_fn(u8) -> bool>) -> (r: Vec<u8>)
    requires
        flags@.len() == 256,
        forall|w: u8| #[trigger] flags@[w as int] == p(w),
    ensures
        sorted_listing(r@, p),
        r@.len() <= 256,
{
    let mut r: Vec<u8> = Vec::new();
    let mut w: usize = 0;
    while w < 256
        invariant
            w <= 256,
            r@.len() <= w,
            flags@.len() == 256,
            forall|u: u8| #[trigger] flags@[u as int] == p(u),
            strictly_sorted(r@),
            forall|k: int| 0 <= k < r@.len() ==> (#[trigger] r@[k] as int) < w,
            forall|u: u8| (u as int) < w ==> (#[trigger] r@.contains(u) <==> p(u)),
        decreases 256 - w,
    {
        let ghost r0 = r@;
        if flags[w] {
            proof {
                assert(flags@[(w as u8) as int] == p(w as u8));
            }
            r.push(w as u8);
            proof {
                assert forall|u: u8| (u as int) < w + 1 implies (#[trigger] r@.contains(u) <==> p(
                    u,
                )) by {
                    if u as int == w {
                        assert(r@[r0.len() as int] == u);
                    } else {
                        if r@.contains(u) {
                            let k = choose|k: int| 0 <= k < r@.len() && r@[k] == u;
                            assert(k < r0.len());
                            assert(r0[k] == u);
                            assert(r0.contains(u));
                        }
                        if r0.contains(u) {
                            let k = choose|k: int| 0 <= k < r0.len() && r0[k] == u;
                            assert(r@[k] == u);
                        }
                    }
                }
            }
        } else {
            proof {
                assert(flags@[(w as u8) as int] == p(w as u8));
                assert forall|u: u8| (u as int) < w + 1 implies (#[trigger] r@.contains(u) <==> p(
                    u,
                )) by {
                    if u as int == w {
                        if r@.contains(u) {
                            let k = choose|k: int| 0 <= k < r@.len() && r@[k] == u;
                        }
                    }
                }
            }
        }
        w += 1;
    }
    proof {
        assert forall|u: u8| #[trigger] r@.contains(u) <==> p(u) by {
            assert((u as int) < 256);
        }
    }
    r
}

/// Extracts the gates at `gate_indices` (in that order) as a subcircuit.
pub fn extract_by_indices(circuit: &CircuitSeq, gate_indices: &[usize]) -> (r: SubCircuit)
    requires
        forall|i: int| 0 <= i < gate_indices@.len() ==> (#[trigger] gate_indices@[i] as int) < circuit@.len(),
    ensures
        is_extraction(circuit@, gate_indices@, r),
{
    let ghost g = gates_at(circuit@, gate_indices@);
    // Gates, and flags for the wires touched, read first, and written.
    let mut gates: Vec<[u8; 3]> = Vec::with_capacity(gate_indices.len());
    let mut touched: Vec<bool> = vec![false; 256];
    let mut input: Vec<bool> = vec![false; 256];
    let mut written: Vec<bool> = vec![false; 256];
    let mut i: usize = 0;
    while i < gate_indices.len()
        invariant
            i <= gate_indices@.len(),
            g == gates_at(circuit@, gate_indices@),
            forall|j: int| 0 <= j < gate_indices@.len() ==> (#[trigger] gate_indices@[j] as int) < circuit@.len(),
            gates@ == g.take(i as int),
            touched@.len() == 256,
            input@.len() == 256,
            written@.len() == 256,
            forall|w: u8| #[trigger] touched@[w as int] == touches(g.take(i as int), w),
            forall|w: u8| #[trigger] input@[w as int] == read_before_written(g.take(i as int), w),
            forall|w: u8| #[trigger] written@[w as int] == writes(g.take(i as int), w),
        decreases gate_indices@.len() - i,
    {
        let gate = circuit.gates[gate_indices[i]];
        proof {
            assert(gate == g[i as int]);
        }
        let ghost pre = g.take(i as int);
        let ghost post = g.take(i + 1);
        proof {
            assert(post =~= pre.push(gate));
        }
        // Pins not yet written are read first.
        if !written[gate[1] as usize] {
            input.set(gate[1] as usize, true);
        }
        if !written[gate[2] as usize] {
            input.set(gate[2] as usize, true);
        }
        if !written[gate[0] as usize] {
            input.set(gate[0] as usize, true);
        }
        touched.set(gate[0] as usize, true);
        touched.set(gate[1] as usize, true);
        touched.set(gate[2] as usize, true);
        written.set(gate[0] as usize, true);
        gates.push(gate);
        proof {
            assert(post.take(i as int) =~= pre);
            assert forall|w: u8| #[trigger] touched@[w as int] == touches(post, w) by {
                if touches(pre, w) {
                    let j = choose|j: int| 0 <= j < pre.len() && gate_has_wire(pre[j], w);
                    assert(post[j] == pre[j]);
                }
                if touches(post, w) && !gate_has_wire(gate, w) {
                    let j = choose|j: int| 0 <= j < post.len() && gate_has_wire(post[j], w);
                    assert(j < pre.len());
                    assert(pre[j] == post[j]);
                }
                if gate_has_wire(gate, w) {
                    assert(gate_has_wire(post[i as int], w));
                }
            }
            assert forall|w: u8| #[trigger] written@[w as int] == writes(post, w) by {
                if writes(pre, w) {
                    let j = choose|j: int| 0 <= j < pre.len() && pre[j][0] == w;
                    assert(post[j] == pre[j]);
                }
                if writes(post, w) && gate[0] != w {
                    let j = choose|j: int| 0 <= j < post.len() && post[j][0] == w;
                    assert(j < pre.len());
                    assert(pre[j] == post[j]);
                }
                if gate[0] == w {
                    assert(post[i as int][0] == w);
                }
            }
            assert forall|w: u8| #[trigger] input@[w as int] == read_before_written(post, w) by {
                if read_before_written(pre, w) {
                    let j = choose|j: int|
                        0 <= j < pre.len() && gate_has_wire(pre[j], w) && !writes(pre.take(j), w);
                    assert(post[j] == pre[j]);
                    assert(post.take(j) =~= pre.take(j));
                    assert(gate_has_wire(post[j], w) && !writes(post.take(j), w));
                }
                if gate_has_wire(gate, w) && !writes(pre, w) {
                    assert(post.take(i as int) =~= pre);
                    assert(gate_has_wire(post[i as int], w) && !writes(post.take(i as int), w));
                }
                if read_before_written(post, w) {
                    let j = choose|j: int|
                        0 <= j < post.len() && gate_has_wire(post[j], w) && !writes(post.take(j), w);
                    if j < pre.len() {
                        assert(post[j] == pre[j]);
                        assert(post.take(j) =~= pre.take(j));
                        assert(read_before_written(pre, w));
                    } else {
                        assert(post.take(j) =~= pre);
                    }
                }
            }
        }
        i += 1;
    }
    proof {
        assert(g.take(i as int) =~= g);
    }
    let input_wires = flagged_bytes(&input, Ghost(|w: u8| read_before_written(g, w)));
    let output_wires = flagged_bytes(&written, Ghost(|w: u8| writes(g, w)));
    let sorted_wires = flagged_bytes(&touched, Ghost(|w: u8| touches(g, w)));
    // Original wire -> local index.
    let max_wire: usize = if sorted_wires.len() == 0 {
        0
    } else {
        sorted_wires[sorted_wires.len() - 1] as usize
    };
    let mut wire_remap: Vec<u8> = vec![0u8; max_wire + 1];
    let mut k: usize = 0;
    while k < sorted_wires.len()
        invariant
            k <= sorted_wires@.len(),
            sorted_listing(sorted_wires@, |w: u8| touches(g, w)),
            sorted_wires@.len() > 0 ==> max_wire == sorted_wires@.last(),
            sorted_wires@.len() <= 256,
            wire_remap@.len() == max_wire + 1,
            forall|j: int| 0 <= j < k ==> wire_remap@[#[trigger] sorted_wires@[j] as int] == j,
            forall|w: u8|
                (w as int) < wire_remap@.len() && !(exists|j: int|
                    0 <= j < k && sorted_wires@[j] == w) ==> #[trigger] wire_remap@[w as int] == 0,
        decreases sorted_wires@.len() - k,
    {
        let w = sorted_wires[k];
        proof {
            if k < sorted_wires@.len() - 1 {
                assert(sorted_wires@[k as int] < sorted_wires@.last());
            }
        }
        wire_remap.set(w as usize, k as u8);
        k += 1;
        proof {
            assert forall|j: int| 0 <= j < k implies wire_remap@[#[trigger] sorted_wires@[j] as int]
                == j by {
                if j < k - 1 {
                    assert(sorted_wires@[j] < sorted_wires@[k - 1]);
                }
            }
        }
    }
    proof {
        assert forall|w: u8| (w as int) < wire_remap@.len() && !touches(g, w) implies #[trigger] wire_remap@[w as int] == 0 by {
            if exists|j: int| 0 <= j < k && sorted_wires@[j] == w {
                let j = choose|j: int| 0 <= j < k && sorted_wires@[j] == w;
                assert(sorted_wires@.contains(w));
            }
        }
    }
    let original_indices = copy_indices(gate_indices);
    SubCircuit {
        gates,
        input_wires,
        output_wires,
        original_indices,
        wire_remap,
        wire_unmap: sorted_wires,
    }
}

/// A vector holding the same indices.
fn copy_indices(idx: &[usize]) -> (r: Vec<usize>)
    ensures
        r@ == idx@,
{
    let mut r: Vec<usize> = Vec::with_capacity(idx.len());
    let mut i: usize = 0;
    while i < idx.len()
        invariant
            i <= idx@.len(),
            r@ == idx@.take(i as int),
        decreases idx@.len() - i,
    {
        r.push(idx[i]);
        i += 1;
        proof {
            assert(r@ =~= idx@.take(i as int));
        }
    }
    proof {
        assert(idx@.take(i as int) =~= idx@);
    }
    r
}

/// The consecutive indices `start .. end`.
pub open spec fn index_range(start: int, end: int) -> Seq<usize> {
    Seq::new((if end > start { end - start } else { 0 }) as nat, |i: int| (start + i) as usize)
}

/// Extracts the window of `num_gates` consecutive gates from `start_gate`
/// (clipped at the end of the circuit).
pub fn extract_subcircuit(circuit: &CircuitSeq, start_gate: usize, num_gates: usize) -> (r:
    SubCircuit)
    requires
        start_gate + num_gates <= usize::MAX,
    ensures
        is_extraction(
            circuit@,
            index_range(
                start_gate as int,
                if start_gate + num_gates < circuit@.len() {
                    start_gate + num_gates
                } else {
                    circuit@.len() as int
                },
            ),
            r,
        ),
{
    let end_gate = if start_gate + num_gates < circuit.gates.len() {
        start_gate + num_gates
    } else {
        circuit.gates.len()
    };
    let mut gate_indices: Vec<usize> = Vec::new();
    let mut i: usize = start_gate;
    while i < end_gate
        invariant
            start_gate <= i <= end_gate || (i == start_gate && end_gate <= start_gate),
            end_gate <= circuit@.len(),
            gate_indices@ == index_range(start_gate as int, i as int),
        decreases end_gate - i,
    {
        gate_indices.push(i);
        i += 1;
        proof {
            assert(gate_indices@ =~= index_range(start_gate as int, i as int));
        }
    }
    proof {
        if end_gate <= start_gate {
            assert(index_range(start_gate as int, end_gate as int) =~= index_range(
                start_gate as int,
                i as int,
            ));
        }
    }
    extract_by_indices(circuit, gate_indices.as_slice())
}

/// The positions, from `start_gate` on, of the gates with a pin in the set,
/// at most `max_gates` of them.
pub open spec fn window_indices(
    c: Seq<[u8; 3]>,
    wires: Set<u8>,
    start: int,
    end: int,
    max_gates: nat,
) -> Seq<usize>
    decreases end - start,
{
    if end <= start {
        Seq::empty()
    } else {
        let prev = window_indices(c, wires, start, end - 1, max_gates);
        let g = c[end - 1];
        if prev.len() < max_gates && (wires.contains(g[0]) || wires.contains(g[1])
            || wires.contains(g[2])) {
            prev.push((end - 1) as usize)
        } else {
            prev
        }
    }
}

/// Extracts, scanning from `start_gate`, the first `max_gates` gates that
/// touch a wire of `wire_set`.
pub fn extract_by_wire_window(
    circuit: &CircuitSeq,
    wire_set: &std::collections::HashSet<u8>,
    start_gate: usize,
    max_gates: usize,
) -> (r: SubCircuit)
    ensures
        is_extraction(
            circuit@,
            window_indices(
                circuit@,
                wire_set@,
                start_gate as int,
                if start_gate <= circuit@.len() {
                    circuit@.len() as int
                } else {
                    start_gate as int
                },
                max_gates as nat,
            ),
            r,
        ),
{
    broadcast use vstd::std_specs::hash::group_hash_axioms;

    let n = circuit.gates.len();
    let mut gate_indices: Vec<usize> = Vec::new();
    let mut idx: usize = start_gate;
    let ghost end = if start_gate <= n {
        n as int
    } else {
        start_gate as int
    };
    while idx < n && gate_indices.len() < max_gates
        invariant
            n == circuit@.len(),
            start_gate <= idx,
            idx <= n || idx == start_gate,
            gate_indices@ == window_indices(
                circuit@,
                wire_set@,
                start_gate as int,
                idx as int,
                max_gates as nat,
            ),
            forall|j: int| 0 <= j < gate_indices@.len() ==> (#[trigger] gate_indices@[j] as int) < idx,
        decreases n - idx,
    {
        let gate = circuit.gates[idx];
        if wire_set.contains(&gate[0]) || wire_set.contains(&gate[1]) || wire_set.contains(
            &gate[2],
        ) {
            gate_indices.push(idx);
        }
        idx += 1;
    }
    proof {
        lemma_window_indices_saturate(
            circuit@,
            wire_set@,
            start_gate as int,
            idx as int,
            end,
            max_gates as nat,
        );
    }
    extract_by_indices(circuit, gate_indices.as_slice())
}

/// Once `max_gates` gates are found, scanning further adds none; and the
/// indices found are in range.
proof fn lemma_window_indices_saturate(
    c: Seq<[u8; 3]>,
    wires: Set<u8>,
    start: int,
    mid: int,
    end: int,
    max_gates: nat,
)
    requires
        start <= mid <= end || (mid == start && end <= start),
        mid == end || window_indices(c, wires, start, mid, max_gates).len() >= max_gates,
    ensures
        window_indices(c, wires, start, end, max_gates) == window_indices(
            c,
            wires,
            start,
            mid,
            max_gates,
        ),
    decreases end - mid,
{
    if mid < end {
        lemma_window_indices_saturate(c, wires, start, mid, end - 1, max_gates);
    }
}

} // verus!
