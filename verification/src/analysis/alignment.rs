//! State traces of a circuit, the input of trace alignment, and the walk
//! back through the alignment's table of directions.
use vstd::prelude::*;

use crate::infra::circuit::{eval_gates, gates_fit, CircuitSeq, Gate};

verus! {

/// The states of every input after each prefix of the circuit: row `0`
/// holds the inputs and row `i` their images under the first `i` gates (a
/// state is taken as a `usize`).
pub fn trace_states(circuit: &CircuitSeq, inputs: &[u64]) -> (r: Vec<Vec<u64>>)
    requires
        gates_fit(circuit@),
    ensures
        r@.len() == circuit@.len() + 1,
        r@[0]@ == inputs@,
        forall|i: int|
            1 <= i <= circuit@.len() ==> (#[trigger] r@[i])@.len() == inputs@.len() && forall|k: int|
                0 <= k < inputs@.len() ==> #[trigger] r@[i]@[k] == eval_gates(
                    inputs@[k] as usize,
                    circuit@.take(i),
                ) as u64,
{
    let m = circuit.gates.len();
    let n_inputs = inputs.len();
    let ghost c = circuit@;
    let mut first: Vec<u64> = Vec::with_capacity(n_inputs);
    let mut k: usize = 0;
    while k < n_inputs
        invariant
            k <= n_inputs,
            n_inputs == inputs@.len(),
            first@ == inputs@.take(k as int),
        decreases n_inputs - k,
    {
        first.push(inputs[k]);
        k += 1;
        proof {
            assert(first@ =~= inputs@.take(k as int));
        }
    }
    proof {
        assert(first@ =~= inputs@);
    }
    let mut states: Vec<Vec<u64>> = Vec::new();
    states.push(first);
    let mut i: usize = 0;
    while i < m
        invariant
            i <= m,
            m == c.len(),
            c == circuit@,
            gates_fit(c),
            n_inputs == inputs@.len(),
            states@.len() == i + 1,
            states@[0]@ == inputs@,
            forall|j: int|
                1 <= j <= i ==> (#[trigger] states@[j])@.len() == n_inputs && forall|q: int|
                    0 <= q < n_inputs ==> #[trigger] states@[j]@[q] == eval_gates(
                        inputs@[q] as usize,
                        c.take(j),
                    ) as u64,
        decreases m - i,
    {
        let gate = circuit.gates[i];
        proof {
            assert(c[i as int] == gate);
            assert(gates_fit(c) ==> crate::infra::circuit::gate_fits(c[i as int]));
        }
        let mut next: Vec<u64> = Vec::with_capacity(n_inputs);
        let mut q: usize = 0;
        while q < n_inputs
            invariant
                q <= n_inputs,
                n_inputs == inputs@.len(),
                i < m,
                m == c.len(),
                gate == c[i as int],
                crate::infra::circuit::gate_fits(gate),
                states@.len() == i + 1,
                states@[0]@ == inputs@,
                forall|j: int|
                    1 <= j <= i ==> (#[trigger] states@[j])@.len() == n_inputs && forall|w: int|
                        0 <= w < n_inputs ==> #[trigger] states@[j]@[w] == eval_gates(
                            inputs@[w] as usize,
                            c.take(j),
                        ) as u64,
                next@.len() == q,
                forall|w: int|
                    0 <= w < q ==> #[trigger] next@[w] == eval_gates(inputs@[w] as usize, c.take(i + 1))
                        as u64,
            decreases n_inputs - q,
        {
            let prev = states[i][q];
            proof {
                if i > 0 {
                    assert(states@[i as int]@[q as int] == eval_gates(
                        inputs@[q as int] as usize,
                        c.take(i as int),
                    ) as u64);
                } else {
                    assert(c.take(0) =~= Seq::<[u8; 3]>::empty());
                }
                assert(c.take(i + 1).drop_last() =~= c.take(i as int));
                assert(c.take(i + 1).last() == gate);
            }
            let out = Gate::evaluate_index(prev as usize, gate);
            proof {
                let x = inputs@[q as int] as usize;
                crate::infra::circuit::lemma_eval_push(x, c.take(i as int), gate);
                assert(c.take(i as int).push(gate) =~= c.take(i + 1));
                assert(prev as usize == eval_gates(x, c.take(i as int)));
            }
            next.push(out as u64);
            q += 1;
        }
        states.push(next);
        i += 1;
        proof {
            assert forall|j: int| 1 <= j <= i implies (#[trigger] states@[j])@.len() == n_inputs
                && forall|w: int| 0 <= w < n_inputs ==> #[trigger] states@[j]@[w] == eval_gates(
                inputs@[w] as usize,
                c.take(j),
            ) as u64 by {}
        }
    }
    states
}


/// One step back from cell `p` along direction `d`: `0` diagonal, `1`
/// vertical (previous row), `2` horizontal (previous column).
pub open spec fn step_back(p: (usize, usize), d: u8) -> (usize, usize) {
    if d == 0 {
        ((p.0 - 1) as usize, (p.1 - 1) as usize)
    } else if d == 1 {
        ((p.0 - 1) as usize, p.1)
    } else {
        (p.0, (p.1 - 1) as usize)
    }
}

/// The direction stored for cell `p`.
pub open spec fn dir_at(b: Seq<Vec<u8>>, p: (usize, usize)) -> u8 {
    b[p.0 as int]@[p.1 as int]
}

/// A table of directions of `ma >= 1` rows and `mb >= 1` columns, each 0, 1
/// or 2, that points left along the first row and up along the first
/// column, so that every walk back stays in the table.
pub open spec fn directions_ok(b: Seq<Vec<u8>>, mb: nat) -> bool {
    &&& b.len() >= 1
    &&& mb >= 1
    &&& forall|i: int| 0 <= i < b.len() ==> (#[trigger] b[i])@.len() == mb
    &&& forall|i: int, j: int| 0 <= i < b.len() && 0 <= j < mb ==> #[trigger] b[i]@[j] <= 2
    &&& forall|j: int| 1 <= j < mb ==> #[trigger] b[0]@[j] == 2
    &&& forall|i: int| 1 <= i < b.len() ==> #[trigger] b[i]@[0] == 1
}

/// The cell lies in a table of `ma` rows and `mb` columns.
pub open spec fn in_table(p: (usize, usize), ma: nat, mb: nat) -> bool {
    p.0 < ma && p.1 < mb
}

/// Cell `k + 1` of the walk `s` is one step back from cell `k`, which is not
/// the first cell of the table.
pub open spec fn back_linked(s: Seq<(usize, usize)>, b: Seq<Vec<u8>>, k: int) -> bool {
    s[k] != (0usize, 0usize) && s[k + 1] == step_back(s[k], dir_at(b, s[k]))
}

/// Cell `k` of the path `p` is one step back from cell `k + 1`, which is
/// not the first cell of the table.
pub open spec fn stepped_from(p: Seq<(usize, usize)>, b: Seq<Vec<u8>>, k: int) -> bool {
    p[k + 1] != (0usize, 0usize) && p[k] == step_back(p[k + 1], dir_at(b, p[k + 1]))
}

/// The walk back from the last cell to the first along the stored
/// directions, last cell first.
fn walk_back(backptr: &Vec<Vec<u8>>, mb: usize) -> (rev: Vec<(usize, usize)>)
    requires
        directions_ok(backptr@, mb as nat),
    ensures
        rev@.len() >= 1,
        rev@[0] == ((backptr@.len() - 1) as usize, (mb - 1) as usize),
        rev@.last() == (0usize, 0usize),
        forall|k: int| 0 <= k < rev@.len() ==> #[trigger] in_table(rev@[k], backptr@.len(), mb as nat),
        forall|k: int| 0 <= k < rev@.len() - 1 ==> #[trigger] back_linked(rev@, backptr@, k),
{
    let ghost b = backptr@;
    let ma = backptr.len();
    let mut rev: Vec<(usize, usize)> = Vec::new();
    let mut i: usize = ma - 1;
    let mut j: usize = mb - 1;
    rev.push((i, j));
    while i > 0 || j > 0
        invariant
            b == backptr@,
            directions_ok(b, mb as nat),
            ma == b.len(),
            i < ma,
            j < mb,
            rev@.len() >= 1,
            rev@[0] == ((ma - 1) as usize, (mb - 1) as usize),
            rev@.last() == (i, j),
            forall|k: int| 0 <= k < rev@.len() ==> #[trigger] in_table(rev@[k], ma as nat, mb as nat),
            forall|k: int| 0 <= k < rev@.len() - 1 ==> #[trigger] back_linked(rev@, b, k),
        decreases i + j,
    {
        let d = backptr[i][j];
        proof {
            assert(b[i as int]@[j as int] == d);
            if i == 0 {
                assert(b[0]@[j as int] == 2);
            }
            if j == 0 {
                assert(b[i as int]@[0] == 1);
            }
        }
        let ghost old_rev = rev@;
        let ghost prev = (i, j);
        if d == 0 {
            i -= 1;
            j -= 1;
        } else if d == 1 {
            i -= 1;
        } else {
            j -= 1;
        }
        rev.push((i, j));
        proof {
            assert(rev@ == old_rev.push((i, j)));
            assert forall|k: int| 0 <= k < rev@.len() - 1 implies #[trigger] back_linked(rev@, b, k) by {
                if k < old_rev.len() - 1 {
                    assert(back_linked(old_rev, b, k));
                    assert(rev@[k] == old_rev[k]);
                    assert(rev@[k + 1] == old_rev[k + 1]);
                } else {
                    assert(k == old_rev.len() - 1);
                    assert(rev@[k] == prev);
                    assert(rev@[k + 1] == (i, j));
                }
            }
        }
    }
    rev
}

/// The alignment path: from the last cell back to the first along the
/// stored directions, returned first cell first.  Every cell of the path
/// but the first is reached from its predecessor by the direction stored
/// at it.
pub fn alignment_path(backptr: &Vec<Vec<u8>>, mb: usize) -> (r: Vec<(usize, usize)>)
    requires
        directions_ok(backptr@, mb as nat),
    ensures
        r@.len() >= 1,
        r@[0] == (0usize, 0usize),
        r@.last() == ((backptr@.len() - 1) as usize, (mb - 1) as usize),
        forall|k: int| 0 <= k < r@.len() ==> #[trigger] in_table(r@[k], backptr@.len(), mb as nat),
        forall|k: int| 0 <= k < r@.len() - 1 ==> #[trigger] stepped_from(r@, backptr@, k),
{
    let rev = walk_back(backptr, mb);
    let ghost b = backptr@;
    let n = rev.len();
    let mut path: Vec<(usize, usize)> = Vec::with_capacity(n);
    let mut k: usize = 0;
    while k < n
        invariant
            k <= n,
            n == rev@.len(),
            path@.len() == k,
            forall|t: int| 0 <= t < k ==> #[trigger] path@[t] == rev@[n - 1 - t],
        decreases n - k,
    {
        path.push(rev[n - 1 - k]);
        k += 1;
    }
    proof {
        assert(path@[0] == rev@[n - 1]);
        assert(path@.last() == rev@[0]);
        assert forall|t: int| 0 <= t < path@.len() implies #[trigger] in_table(path@[t], b.len(), mb as nat) by {
            assert(path@[t] == rev@[n - 1 - t]);
        }
        assert forall|t: int| 0 <= t < path@.len() - 1 implies #[trigger] stepped_from(path@, b, t) by {
            assert(back_linked(rev@, b, n - 2 - t));
            assert(path@[t] == rev@[n - 1 - t]);
            assert(path@[t + 1] == rev@[n - 2 - t]);
        }
    }
    path
}

} // verus!
