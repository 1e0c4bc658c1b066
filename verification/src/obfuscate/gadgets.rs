//! Identity gadget generators for obfuscation.
//!
//! All gadgets evaluate to the identity: every generated gate has three
//! distinct pins and is therefore its own inverse, so `X · X⁻¹ = I`.
use vstd::prelude::*;

use crate::infra::circuit::{
    gate_reversible, gates_reversible, is_identity_fn, lemma_mirror_is_identity, CircuitSeq,
};
use crate::infra::random::rng_u8_below;

verus! {

/// Pins below `n`, pairwise distinct.
pub open spec fn distinct_pins_below(g: [u8; 3], n: u8) -> bool {
    &&& g[0] < n
    &&& g[1] < n
    &&& g[2] < n
    &&& g[0] != g[1]
    &&& g[0] != g[2]
    &&& g[1] != g[2]
}

/// Every gate has pairwise distinct pins below `n`.
pub open spec fn all_distinct_pins_below(gates: Seq<[u8; 3]>, n: u8) -> bool {
    forall|i: int| 0 <= i < gates.len() ==> #[trigger] distinct_pins_below(gates[i], n)
}

/// Gates with distinct pins below a width that fits a `usize` are reversible.
pub proof fn lemma_distinct_pins_reversible(gates: Seq<[u8; 3]>, n: u8)
    requires
        all_distinct_pins_below(gates, n),
        n as int <= usize::BITS,
    ensures
        gates_reversible(gates),
{
    assert forall|i: int| 0 <= i < gates.len() implies #[trigger] gate_reversible(gates[i]) by {
        assert(distinct_pins_below(gates[i], n));
    }
}

/// Draws values below `n` until one differs from `a` and `b`, as rejection
/// sampling does.  Should 2^64 - 1 draws all be rejected, the smallest
/// admissible value is taken.
pub fn draw_distinct(rng: &mut rand::rngs::StdRng, n: u8, a: u8, b: u8) -> (r: u8)
    requires
        n >= 3,
    ensures
        r < n,
        r != a,
        r != b,
{
    let mut x = rng_u8_below(rng, n);
    let mut fuel: u64 = u64::MAX;
    while (x == a || x == b) && fuel > 0
        invariant
            x < n,
        decreases fuel,
    {
        x = rng_u8_below(rng, n);
        fuel -= 1;
    }
    if x == a || x == b {
        x = if 0 != a && 0 != b {
            0
        } else if 1 != a && 1 != b {
            1
        } else {
            2
        };
    }
    x
}

/// A random gate with distinct pins below `n`: target, then control 1
/// redrawn until it differs from the target, then control 2 redrawn until it
/// differs from both.
pub fn random_distinct_gate(rng: &mut rand::rngs::StdRng, n: u8) -> (g: [u8; 3])
    requires
        n >= 3,
    ensures
        distinct_pins_below(g, n),
{
    let t = rng_u8_below(rng, n);
    let c1 = draw_distinct(rng, n, t, t);
    let c2 = draw_distinct(rng, n, t, c1);
    [t, c1, c2]
}

/// A random circuit of `depth` gates with distinct pins on `num_wires` wires.
pub(crate) fn random_circuit_touching(num_wires: usize, depth: usize, rng: &mut rand::rngs::StdRng) -> (r:
    CircuitSeq)
    requires
        (num_wires as u8) >= 3,
    ensures
        r@.len() == depth,
        all_distinct_pins_below(r@, num_wires as u8),
{
    let mut gates: Vec<[u8; 3]> = Vec::with_capacity(depth);
    let n = num_wires as u8;
    let mut i: usize = 0;
    while i < depth
        invariant
            i <= depth,
            n == num_wires as u8,
            n >= 3,
            gates@.len() == i,
            all_distinct_pins_below(gates@, n),
        decreases depth - i,
    {
        let g = random_distinct_gate(rng, n);
        gates.push(g);
        i += 1;
        proof {
            assert forall|k: int| 0 <= k < gates@.len() implies #[trigger] distinct_pins_below(
                gates@[k],
                n,
            ) by {
                if k < gates@.len() - 1 {
                    assert(gates@[k] == gates@.drop_last()[k]);
                }
            }
        }
    }
    CircuitSeq { gates }
}

/// A commutator gadget with split halves for boundary injection.
#[derive(Clone, Debug)]
pub struct CommutatorGadget {
    pub full: CircuitSeq,
    pub first_half: CircuitSeq,
    pub second_half: CircuitSeq,
}

/// `X` has `depth` gates with distinct pins below `n`, the second half is
/// `X` reversed, and the full gadget is `X` followed by its reverse.
pub open spec fn is_mirror_gadget(g: CommutatorGadget, n: u8, depth: nat) -> bool {
    &&& g.first_half@.len() == depth
    &&& all_distinct_pins_below(g.first_half@, n)
    &&& g.second_half@ == g.first_half@.reverse()
    &&& g.full@ == g.first_half@ + g.second_half@
}

/// The full gadget of a mirror gadget computes the identity.
pub proof fn lemma_mirror_gadget_identity(g: CommutatorGadget, n: u8, depth: nat)
    requires
        is_mirror_gadget(g, n, depth),
        n as int <= usize::BITS,
    ensures
        is_identity_fn(g.full@),
{
    lemma_distinct_pins_reversible(g.first_half@, n);
    lemma_mirror_is_identity(g.first_half@);
}

/// Conjugate gadget `X · X⁻¹ = I` for a random `X` of depth `x_depth`; the
/// third argument is ignored.
pub fn commutator(num_wires: usize, x_depth: usize, _y_depth: usize, rng: &mut rand::rngs::StdRng) -> (r:
    CommutatorGadget)
    requires
        (num_wires as u8) >= 3,
    ensures
        is_mirror_gadget(r, num_wires as u8, x_depth as nat),
        (num_wires as u8) as int <= usize::BITS ==> is_identity_fn(r.full@),
{
    let x = random_circuit_touching(num_wires, x_depth, rng);
    let x_inv = x.inverse();
    let full = x.concat(&x_inv);
    let r = CommutatorGadget { full, first_half: x, second_half: x_inv };
    proof {
        if (num_wires as u8) as int <= usize::BITS {
            lemma_mirror_gadget_identity(r, num_wires as u8, x_depth as nat);
        }
    }
    r
}

/// Hidden inverse gadget: the same construction as [`commutator`].
pub fn hidden_inverse(num_wires: usize, g_depth: usize, h_depth: usize, rng: &mut rand::rngs::StdRng) -> (r:
    CommutatorGadget)
    requires
        (num_wires as u8) >= 3,
    ensures
        is_mirror_gadget(r, num_wires as u8, g_depth as nat),
        (num_wires as u8) as int <= usize::BITS ==> is_identity_fn(r.full@),
{
    commutator(num_wires, g_depth, h_depth, rng)
}

/// Simple identity gadget `G · G⁻¹` for a random `G` of `depth` gates.
pub fn simple_identity(num_wires: usize, depth: usize, rng: &mut rand::rngs::StdRng) -> (r: CircuitSeq)
    requires
        (num_wires as u8) >= 3,
    ensures
        r@.len() == 2 * depth,
        exists|g: Seq<[u8; 3]>|
            #![trigger all_distinct_pins_below(g, num_wires as u8)]
            g.len() == depth && all_distinct_pins_below(g, num_wires as u8) && r@ == g + g.reverse(),
        (num_wires as u8) as int <= usize::BITS ==> is_identity_fn(r@),
{
    let g = random_circuit_touching(num_wires, depth, rng);
    let g_inv = g.inverse();
    let r = g.concat(&g_inv);
    proof {
        assert(all_distinct_pins_below(g@, num_wires as u8));
        if (num_wires as u8) as int <= usize::BITS {
            lemma_distinct_pins_reversible(g@, num_wires as u8);
            lemma_mirror_is_identity(g@);
        }
    }
    r
}

/// Gate `j` of `a` followed by gate `j` of `b`, for every `j < k`, skipping
/// gates past the end of the shorter circuit.
pub open spec fn interleave_prefix(a: Seq<[u8; 3]>, b: Seq<[u8; 3]>, k: nat) -> Seq<[u8; 3]>
    decreases k,
{
    if k == 0 {
        Seq::empty()
    } else {
        let j = k - 1;
        let pa = if j < a.len() {
            seq![a[j]]
        } else {
            Seq::empty()
        };
        let pb = if j < b.len() {
            seq![b[j]]
        } else {
            Seq::empty()
        };
        interleave_prefix(a, b, (k - 1) as nat) + pa + pb
    }
}

/// The interleaving of two circuits, gate by gate.
pub open spec fn spec_interleave(a: Seq<[u8; 3]>, b: Seq<[u8; 3]>) -> Seq<[u8; 3]> {
    interleave_prefix(a, b, if a.len() >= b.len() { a.len() } else { b.len() })
}

/// Interleaves two circuits gate by gate: `a0 b0 a1 b1 ...`, then the rest of
/// the longer one.
pub fn interleave(a: &CircuitSeq, b: &CircuitSeq) -> (r: CircuitSeq)
    ensures
        r@ == spec_interleave(a@, b@),
{
    let n = if a.gates.len() >= b.gates.len() {
        a.gates.len()
    } else {
        b.gates.len()
    };
    let mut gates: Vec<[u8; 3]> = Vec::new();
    let mut j: usize = 0;
    while j < n
        invariant
            j <= n,
            n == if a@.len() >= b@.len() {
                a@.len()
            } else {
                b@.len()
            },
            gates@ == interleave_prefix(a@, b@, j as nat),
        decreases n - j,
    {
        let ghost before = gates@;
        if j < a.gates.len() {
            gates.push(a.gates[j]);
        }
        let ghost mid = gates@;
        if j < b.gates.len() {
            gates.push(b.gates[j]);
        }
        j += 1;
        proof {
            assert(gates@ =~= interleave_prefix(a@, b@, j as nat));
        }
    }
    CircuitSeq { gates }
}

} // verus!
