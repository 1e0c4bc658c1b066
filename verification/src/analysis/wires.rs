//! Per-wire gate statistics of a circuit.
use vstd::prelude::*;

use crate::algorithms::identity_growth::{lemma_counts_bounded, pin_count, pins_below};
use crate::infra::circuit::CircuitSeq;

verus! {

/// How often wire `w` is the target of a gate of `c`.
pub open spec fn target_count(c: Seq<[u8; 3]>, w: usize) -> nat
    decreases c.len(),
{
    if c.len() == 0 {
        0
    } else {
        target_count(c.drop_last(), w) + if c.last()[0] as usize == w {
            1nat
        } else {
            0nat
        }
    }
}

proof fn lemma_target_le_pins(c: Seq<[u8; 3]>, w: usize)
    ensures
        target_count(c, w) <= pin_count(c, w),
    decreases c.len(),
{
    if c.len() > 0 {
        lemma_target_le_pins(c.drop_last(), w);
    }
}

/// Gate touches per wire: for each wire below `num_wires`, how often it is a
/// pin of a gate (a gate that names a wire twice counts twice), and how often
/// it is the target.  Every pin must be below `num_wires`.
pub fn wire_touch_counts(circuit: &CircuitSeq, num_wires: usize) -> (r: (Vec<u32>, Vec<u32>))
    requires
        pins_below(circuit@, num_wires as nat),
        3 * circuit@.len() <= u32::MAX,
    ensures
        r.0@.len() == num_wires,
        r.1@.len() == num_wires,
        forall|w: int| 0 <= w < num_wires ==> #[trigger] r.0@[w] == pin_count(circuit@, w as usize),
        forall|w: int| 0 <= w < num_wires ==> #[trigger] r.1@[w] == target_count(circuit@, w as usize),
{
    let ghost c = circuit@;
    let mut total: Vec<u32> = Vec::with_capacity(num_wires);
    let mut active: Vec<u32> = Vec::with_capacity(num_wires);
    let mut w: usize = 0;
    while w < num_wires
        invariant
            w <= num_wires,
            total@ == Seq::new(w as nat, |i: int| 0u32),
            active@ == Seq::new(w as nat, |i: int| 0u32),
        decreases num_wires - w,
    {
        total.push(0);
        active.push(0);
        w += 1;
        proof {
            assert(total@ =~= Seq::new(w as nat, |i: int| 0u32));
            assert(active@ =~= Seq::new(w as nat, |i: int| 0u32));
        }
    }
    let n = circuit.gates.len();
    let mut k: usize = 0;
    proof {
        assert(c.take(0) =~= Seq::<[u8; 3]>::empty());
    }
    while k < n
        invariant
            k <= n,
            n == c.len(),
            c == circuit@,
            3 * n <= u32::MAX,
            pins_below(c, num_wires as nat),
            total@.len() == num_wires,
            active@.len() == num_wires,
            forall|v: int| 0 <= v < num_wires ==> #[trigger] total@[v] == pin_count(c.take(k as int), v as usize),
            forall|v: int| 0 <= v < num_wires ==> #[trigger] active@[v] == target_count(c.take(k as int), v as usize),
        decreases n - k,
    {
        let g = circuit.gates[k];
        proof {
            assert(c[k as int] == g);
            assert(c.take(k + 1).drop_last() =~= c.take(k as int));
            assert forall|v: int| 0 <= v < num_wires implies #[trigger] total@[v] <= 3 * k by {
                lemma_counts_bounded(c.take(k as int), v as usize, 0);
            }
            assert forall|v: int| 0 <= v < num_wires implies #[trigger] active@[v] <= 3 * k by {
                lemma_counts_bounded(c.take(k as int), v as usize, 0);
                lemma_target_le_pins(c.take(k as int), v as usize);
            }
        }
        let a = g[0] as usize;
        let b = g[1] as usize;
        let d = g[2] as usize;
        let ta = total[a];
        total.set(a, ta + 1);
        let tb = total[b];
        total.set(b, tb + 1);
        let td = total[d];
        total.set(d, td + 1);
        let aa = active[a];
        active.set(a, aa + 1);
        k += 1;
        proof {
            assert forall|v: int| 0 <= v < num_wires implies #[trigger] total@[v] == pin_count(
                c.take(k as int),
                v as usize,
            ) by {
                assert(c.take(k as int).last() == g);
            }
            assert forall|v: int| 0 <= v < num_wires implies #[trigger] active@[v] == target_count(
                c.take(k as int),
                v as usize,
            ) by {
                assert(c.take(k as int).last() == g);
            }
        }
    }
    proof {
        assert(c.take(n as int) =~= c);
    }
    (total, active)
}

} // verus!
