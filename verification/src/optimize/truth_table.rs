//! Truth tables of subcircuits, computed by simulating every input
//! combination.
use vstd::prelude::*;

use super::subcircuit::SubCircuit;
use crate::infra::circuit::{bit, eval_gates, gates_fit, Gate};

verus! {

/// The state in which input `b` (in the order of `ins`) holds bit `b` of `x`,
/// placed on its local wire; every other wire is 0.
pub open spec fn input_state(x: usize, ins: Seq<u8>, remap: Seq<u8>) -> usize
    decreases ins.len(),
{
    if ins.len() == 0 {
        0
    } else {
        input_state(x, ins.drop_last(), remap) | (((x >> ((ins.len() - 1) as usize)) & 1usize) << (
        remap[ins.last() as int] as usize))
    }
}

/// Inputs, outputs and gates of `sub` all have local wires that address a
/// bit of a `usize` state, and there are fewer inputs than bits.
pub open spec fn simulable(sub: SubCircuit) -> bool {
    &&& sub.input_wires@.len() < usize::BITS
    &&& sub.remap_covers_gates()
    &&& gates_fit(sub.spec_local_gates())
    &&& forall|b: int|
        0 <= b < sub.input_wires@.len() ==> (#[trigger] sub.input_wires@[b] as int)
            < sub.wire_remap@.len() && (sub.wire_remap@[sub.input_wires@[b] as int] as int)
            < usize::BITS
    &&& forall|o: int|
        0 <= o < sub.output_wires@.len() ==> (#[trigger] sub.output_wires@[o] as int)
            < sub.wire_remap@.len() && (sub.wire_remap@[sub.output_wires@[o] as int] as int)
            < usize::BITS
}

/// Entry `x` of the truth table of output `o`: the value of that output after
/// simulating the local gates from the state given by `x`.
pub open spec fn table_entry(sub: SubCircuit, o: int, x: usize) -> char {
    let out = eval_gates(
        input_state(x, sub.input_wires@, sub.wire_remap@),
        sub.spec_local_gates(),
    );
    if bit(out, sub.wire_remap@[sub.output_wires@[o] as int]) {
        '1'
    } else {
        '0'
    }
}

/// The truth tables of the output wires: one string of `2^n` characters
/// `'0'`/`'1'` per output wire, for `n` input wires, entry `x` giving the
/// output for the input combination `x`.
pub fn compute_truth_tables(subcircuit: &SubCircuit) -> (r: Vec<String>)
    requires
        simulable(*subcircuit),
    ensures
        r@.len() == subcircuit.output_wires@.len(),
        forall|o: int|
            0 <= o < r@.len() ==> (#[trigger] r@[o])@.len() == vstd::arithmetic::power2::pow2(
                subcircuit.input_wires@.len(),
            ),
        forall|o: int, x: int|
            0 <= o < r@.len() && 0 <= x < r@[o]@.len() ==> #[trigger] r@[o]@[x] == table_entry(
                *subcircuit,
                o,
                x as usize,
            ),
{
    let n = subcircuit.num_inputs();
    let num_combinations: usize = 1usize << n;
    proof {
        crate::infra::circuit::lemma_shift_is_pow2(n);
    }
    let local_gates = subcircuit.local_gates();
    // Final state of every input combination.
    let mut finals: Vec<usize> = Vec::with_capacity(num_combinations);
    let mut x: usize = 0;
    while x < num_combinations
        invariant
            x <= num_combinations,
            n == subcircuit.input_wires@.len(),
            simulable(*subcircuit),
            local_gates@ == subcircuit.spec_local_gates(),
            finals@.len() == x,
            forall|y: int|
                0 <= y < x ==> #[trigger] finals@[y] == eval_gates(
                    input_state(y as usize, subcircuit.input_wires@, subcircuit.wire_remap@),
                    local_gates@,
                ),
        decreases num_combinations - x,
    {
        let mut state: usize = 0;
        let mut b: usize = 0;
        while b < n
            invariant
                b <= n,
                n == subcircuit.input_wires@.len(),
                n < usize::BITS,
                simulable(*subcircuit),
                state == input_state(x, subcircuit.input_wires@.take(b as int), subcircuit.wire_remap@),
            decreases n - b,
        {
            proof {
                assert((subcircuit.input_wires@[b as int] as int) < subcircuit.wire_remap@.len());
            }
            let bit_value = (x >> b) & 1;
            let local_wire = subcircuit.wire_remap[subcircuit.input_wires[b] as usize] as usize;
            state = state | (bit_value << local_wire);
            b += 1;
            proof {
                assert(subcircuit.input_wires@.take(b as int).drop_last() =~= subcircuit.input_wires@.take(b - 1));
            }
        }
        proof {
            assert(subcircuit.input_wires@.take(b as int) =~= subcircuit.input_wires@);
        }
        let out = Gate::evaluate_index_list(state, local_gates.as_slice());
        finals.push(out);
        x += 1;
    }
    let mut truth_tables: Vec<String> = Vec::new();
    let mut o: usize = 0;
    while o < subcircuit.output_wires.len()
        invariant
            o <= subcircuit.output_wires@.len(),
            n == subcircuit.input_wires@.len(),
            num_combinations == vstd::arithmetic::power2::pow2(n as nat),
            simulable(*subcircuit),
            local_gates@ == subcircuit.spec_local_gates(),
            finals@.len() == num_combinations,
            forall|y: int|
                0 <= y < num_combinations ==> #[trigger] finals@[y] == eval_gates(
                    input_state(y as usize, subcircuit.input_wires@, subcircuit.wire_remap@),
                    local_gates@,
                ),
            truth_tables@.len() == o,
            forall|p: int|
                0 <= p < o ==> (#[trigger] truth_tables@[p])@.len() == num_combinations,
            forall|p: int, y: int|
                0 <= p < o && 0 <= y < truth_tables@[p]@.len() ==> #[trigger] truth_tables@[p]@[y]
                    == table_entry(*subcircuit, p, y as usize),
        decreases subcircuit.output_wires@.len() - o,
    {
        proof {
            assert((subcircuit.output_wires@[o as int] as int) < subcircuit.wire_remap@.len());
        }
        let local_wire = subcircuit.wire_remap[subcircuit.output_wires[o] as usize] as usize;
        let mut table = String::new();
        let mut y: usize = 0;
        while y < num_combinations
            invariant
                y <= num_combinations,
                o < subcircuit.output_wires@.len(),
                local_wire == subcircuit.wire_remap@[subcircuit.output_wires@[o as int] as int],
                local_wire < usize::BITS,
                simulable(*subcircuit),
                local_gates@ == subcircuit.spec_local_gates(),
                finals@.len() == num_combinations,
                forall|z: int|
                    0 <= z < num_combinations ==> #[trigger] finals@[z] == eval_gates(
                        input_state(z as usize, subcircuit.input_wires@, subcircuit.wire_remap@),
                        local_gates@,
                    ),
                table@.len() == y,
                forall|z: int| 0 <= z < y ==> #[trigger] table@[z] == table_entry(
                    *subcircuit,
                    o as int,
                    z as usize,
                ),
            decreases num_combinations - y,
        {
            let output_bit = (finals[y] >> local_wire) & 1;
            let ghost before = table@;
            if output_bit == 1 {
                table.append("1");
                proof {
                    reveal_strlit("1");
                }
            } else {
                table.append("0");
                proof {
                    reveal_strlit("0");
                }
            }
            proof {
                assert(table@[y as int] == table_entry(*subcircuit, o as int, y as usize));
                assert forall|z: int| 0 <= z < y + 1 implies #[trigger] table@[z] == table_entry(
                    *subcircuit,
                    o as int,
                    z as usize,
                ) by {
                    if z < y {
                        assert(table@[z] == before[z]);
                    }
                }
            }
            y += 1;
        }
        truth_tables.push(table);
        o += 1;
    }
    truth_tables
}

/// Truth tables with the original wire semantics: over the wires the
/// subcircuit uses, the same as [`compute_truth_tables`].
pub fn compute_truth_tables_original(subcircuit: &SubCircuit, num_wires: usize) -> (r: Vec<String>)
    requires
        simulable(*subcircuit),
    ensures
        r@.len() == subcircuit.output_wires@.len(),
        forall|o: int|
            0 <= o < r@.len() ==> (#[trigger] r@[o])@.len() == vstd::arithmetic::power2::pow2(
                subcircuit.input_wires@.len(),
            ),
        forall|o: int, x: int|
            0 <= o < r@.len() && 0 <= x < r@[o]@.len() ==> #[trigger] r@[o]@[x] == table_entry(
                *subcircuit,
                o,
                x as usize,
            ),
{
    compute_truth_tables(subcircuit)
}

} // verus!
