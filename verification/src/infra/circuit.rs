//! Circuits of ORNB gates.
//!
//! A gate `[t, c1, c2]` flips wire `t` exactly when `c1 | !c2` holds.  A
//! circuit is a sequence of gates applied left to right to a bit-vector
//! state held in a `usize` (wire `w` is bit `w`).
use vstd::prelude::*;

verus! {

/// Bit `w` of the state `s`.
pub open spec fn bit(s: usize, w: u8) -> bool {
    (s >> (w as usize)) & 1usize == 1usize
}

/// All three pins of `g` address a bit of a `usize` state.
pub open spec fn gate_fits(g: [u8; 3]) -> bool {
    &&& (g[0] as int) < usize::BITS
    &&& (g[1] as int) < usize::BITS
    &&& (g[2] as int) < usize::BITS
}

/// A gate that fits and whose target is neither of its controls; such a gate
/// is its own inverse.
pub open spec fn gate_reversible(g: [u8; 3]) -> bool {
    &&& gate_fits(g)
    &&& g[0] != g[1]
    &&& g[0] != g[2]
}

/// Every gate of the sequence fits a `usize` state.
pub open spec fn gates_fit(gates: Seq<[u8; 3]>) -> bool {
    forall|i: int| 0 <= i < gates.len() ==> #[trigger] gate_fits(gates[i])
}

/// Every gate of the sequence is reversible.
pub open spec fn gates_reversible(gates: Seq<[u8; 3]>) -> bool {
    forall|i: int| 0 <= i < gates.len() ==> #[trigger] gate_reversible(gates[i])
}

/// The ORNB condition of `g` on state `s`.
pub open spec fn gate_fires(s: usize, g: [u8; 3]) -> bool {
    bit(s, g[1]) || !bit(s, g[2])
}

/// The state after applying gate `g` to `s`.
pub open spec fn apply_gate(s: usize, g: [u8; 3]) -> usize {
    if gate_fires(s, g) {
        s ^ (1usize << (g[0] as usize))
    } else {
        s
    }
}

/// The state after applying `gates` in order to `s`.
pub open spec fn eval_gates(s: usize, gates: Seq<[u8; 3]>) -> usize
    decreases gates.len(),
{
    if gates.len() == 0 {
        s
    } else {
        apply_gate(eval_gates(s, gates.drop_last()), gates.last())
    }
}

/// Two gate sequences compute the same function on every state.
pub open spec fn same_function(a: Seq<[u8; 3]>, b: Seq<[u8; 3]>) -> bool {
    forall|s: usize| #[trigger] eval_gates(s, a) == eval_gates(s, b)
}

/// The sequence computes the identity on every state.
pub open spec fn is_identity_fn(a: Seq<[u8; 3]>) -> bool {
    forall|s: usize| #[trigger] eval_gates(s, a) == s
}

proof fn lemma_ornb_step(s: usize, t: usize, a: usize, b: usize)
    by (bit_vector)
    requires
        t < usize::BITS,
        a < usize::BITS,
        b < usize::BITS,
    ensures
        (s ^ ((((s >> a) & 1usize) | ((!((s >> b) & 1usize)) & 1usize)) << t)) == (if ((s >> a)
            & 1usize == 1usize || !((s >> b) & 1usize == 1usize)) {
            s ^ (1usize << t)
        } else {
            s
        }),
{
}

proof fn lemma_flip_keeps_other_bit(s: usize, t: usize, c: usize)
    by (bit_vector)
    requires
        t < usize::BITS,
        c < usize::BITS,
        t != c,
    ensures
        ((s ^ (1usize << t)) >> c) & 1usize == (s >> c) & 1usize,
{
}

proof fn lemma_double_flip(s: usize, t: usize)
    by (bit_vector)
    requires
        t < usize::BITS,
    ensures
        (s ^ (1usize << t)) ^ (1usize << t) == s,
{
}

/// A reversible gate undoes itself.
pub proof fn lemma_gate_self_inverse(s: usize, g: [u8; 3])
    requires
        gate_reversible(g),
    ensures
        apply_gate(apply_gate(s, g), g) == s,
{
    let t = g[0] as usize;
    lemma_flip_keeps_other_bit(s, t, g[1] as usize);
    lemma_flip_keeps_other_bit(s, t, g[2] as usize);
    lemma_double_flip(s, t);
}

/// Evaluation of a concatenation is evaluation of the parts in turn.
pub proof fn lemma_eval_concat(s: usize, a: Seq<[u8; 3]>, b: Seq<[u8; 3]>)
    ensures
        eval_gates(s, a + b) == eval_gates(eval_gates(s, a), b),
    decreases b.len(),
{
    if b.len() == 0 {
        assert(a + b =~= a);
    } else {
        assert((a + b).drop_last() =~= a + b.drop_last());
        lemma_eval_concat(s, a, b.drop_last());
    }
}

/// Evaluating one gate more.
pub proof fn lemma_eval_push(s: usize, a: Seq<[u8; 3]>, g: [u8; 3])
    ensures
        eval_gates(s, a.push(g)) == apply_gate(eval_gates(s, a), g),
{
    assert(a.push(g).drop_last() =~= a);
}

/// Evaluating a single gate.
pub proof fn lemma_eval_single(s: usize, g: [u8; 3])
    ensures
        eval_gates(s, seq![g]) == apply_gate(s, g),
{
    assert(seq![g].drop_last() =~= Seq::<[u8; 3]>::empty());
    assert(eval_gates(s, Seq::<[u8; 3]>::empty()) == s);
    assert(seq![g].last() == g);
}

/// Running a reversible sequence and then its reverse gives back the state.
pub proof fn lemma_eval_reverse_undoes(s: usize, a: Seq<[u8; 3]>)
    requires
        gates_reversible(a),
    ensures
        eval_gates(eval_gates(s, a), a.reverse()) == s,
    decreases a.len(),
{
    if a.len() > 0 {
        let dl = a.drop_last();
        let g = a.last();
        assert(gates_reversible(dl)) by {
            assert forall|i: int| 0 <= i < dl.len() implies #[trigger] gate_reversible(dl[i]) by {
                assert(dl[i] == a[i]);
            }
        }
        assert(gate_reversible(a[a.len() - 1]));
        assert(a.reverse() =~= seq![g] + dl.reverse());
        let m = eval_gates(s, dl);
        lemma_eval_concat(eval_gates(s, a), seq![g], dl.reverse());
        lemma_eval_single(eval_gates(s, a), g);
        lemma_gate_self_inverse(m, g);
        lemma_eval_reverse_undoes(s, dl);
    }
}

/// A sequence followed by its reverse is the identity function.
pub proof fn lemma_mirror_is_identity(a: Seq<[u8; 3]>)
    requires
        gates_reversible(a),
    ensures
        is_identity_fn(a + a.reverse()),
{
    assert forall|s: usize| #[trigger] eval_gates(s, a + a.reverse()) == s by {
        lemma_eval_concat(s, a, a.reverse());
        lemma_eval_reverse_undoes(s, a);
    }
}

/// Replacing a middle part by one with the same function keeps the function
/// of the whole.
pub proof fn lemma_replace_middle(
    pre: Seq<[u8; 3]>,
    m1: Seq<[u8; 3]>,
    m2: Seq<[u8; 3]>,
    post: Seq<[u8; 3]>,
)
    requires
        same_function(m1, m2),
    ensures
        same_function(pre + m1 + post, pre + m2 + post),
{
    assert forall|s: usize| #[trigger] eval_gates(s, pre + m1 + post) == eval_gates(
        s,
        pre + m2 + post,
    ) by {
        lemma_eval_concat(s, pre + m1, post);
        lemma_eval_concat(s, pre, m1);
        lemma_eval_concat(s, pre + m2, post);
        lemma_eval_concat(s, pre, m2);
        assert(eval_gates(eval_gates(s, pre), m1) == eval_gates(eval_gates(s, pre), m2));
    }
}

/// Inserting a part that computes the identity keeps the function.
pub proof fn lemma_insert_identity(pre: Seq<[u8; 3]>, m: Seq<[u8; 3]>, post: Seq<[u8; 3]>)
    requires
        is_identity_fn(m),
    ensures
        same_function(pre + post, pre + m + post),
{
    let e = Seq::<[u8; 3]>::empty();
    assert forall|s: usize| #[trigger] eval_gates(s, e) == eval_gates(s, m) by {
        assert(eval_gates(s, m) == s);
    }
    lemma_replace_middle(pre, e, m, post);
    assert(pre + e =~= pre);
}

/// `same_function` is symmetric.
pub proof fn lemma_same_function_symmetric(a: Seq<[u8; 3]>, b: Seq<[u8; 3]>)
    requires
        same_function(a, b),
    ensures
        same_function(b, a),
{
}

/// `same_function` is transitive.
pub proof fn lemma_same_function_transitive(a: Seq<[u8; 3]>, b: Seq<[u8; 3]>, c: Seq<[u8; 3]>)
    requires
        same_function(a, b),
        same_function(b, c),
    ensures
        same_function(a, c),
{
    assert forall|s: usize| #[trigger] eval_gates(s, a) == eval_gates(s, c) by {
        assert(eval_gates(s, a) == eval_gates(s, b));
    }
}

/// Two equal adjacent reversible gates compute the identity.
pub proof fn lemma_pair_is_identity(g: [u8; 3])
    requires
        gate_reversible(g),
    ensures
        is_identity_fn(seq![g, g]),
{
    let gg = seq![g, g];
    assert forall|s: usize| #[trigger] eval_gates(s, gg) == s by {
        assert(gg =~= seq![g] + seq![g]);
        lemma_eval_concat(s, seq![g], seq![g]);
        lemma_eval_single(s, g);
        lemma_eval_single(apply_gate(s, g), g);
        lemma_gate_self_inverse(s, g);
    }
}

/// Removing two equal adjacent reversible gates keeps the function.
pub proof fn lemma_cancel_adjacent(a: Seq<[u8; 3]>, i: int)
    requires
        0 <= i,
        i + 1 < a.len(),
        a[i] == a[i + 1],
        gate_reversible(a[i]),
    ensures
        same_function(a, a.take(i) + a.skip(i + 2)),
{
    let g = a[i];
    lemma_pair_is_identity(g);
    lemma_insert_identity(a.take(i), seq![g, g], a.skip(i + 2));
    assert(a.take(i) + seq![g, g] + a.skip(i + 2) =~= a);
}

/// Two gates whose targets are not controls of each other: applying them in
/// either order gives the same state.
pub open spec fn pins_commute(g1: [u8; 3], g2: [u8; 3]) -> bool {
    &&& g1[0] != g2[1]
    &&& g1[0] != g2[2]
    &&& g2[0] != g1[1]
    &&& g2[0] != g1[2]
}

proof fn lemma_flip_flip_commute(s: usize, t1: usize, t2: usize)
    by (bit_vector)
    requires
        t1 < usize::BITS,
        t2 < usize::BITS,
    ensures
        (s ^ (1usize << t1)) ^ (1usize << t2) == (s ^ (1usize << t2)) ^ (1usize << t1),
{
}

/// Gates that do not write each other's controls commute.
pub proof fn lemma_gates_commute(s: usize, g1: [u8; 3], g2: [u8; 3])
    requires
        gate_fits(g1),
        gate_fits(g2),
        pins_commute(g1, g2),
    ensures
        apply_gate(apply_gate(s, g1), g2) == apply_gate(apply_gate(s, g2), g1),
{
    let t1 = g1[0] as usize;
    let t2 = g2[0] as usize;
    lemma_flip_keeps_other_bit(s, t1, g2[1] as usize);
    lemma_flip_keeps_other_bit(s, t1, g2[2] as usize);
    lemma_flip_keeps_other_bit(s, t2, g1[1] as usize);
    lemma_flip_keeps_other_bit(s, t2, g1[2] as usize);
    lemma_flip_flip_commute(s, t1, t2);
}

/// Swapping two adjacent commuting gates keeps the function.
pub proof fn lemma_swap_adjacent(a: Seq<[u8; 3]>, i: int)
    requires
        0 <= i,
        i + 1 < a.len(),
        gate_fits(a[i]),
        gate_fits(a[i + 1]),
        pins_commute(a[i], a[i + 1]),
    ensures
        same_function(a, a.update(i, a[i + 1]).update(i + 1, a[i])),
{
    let g1 = a[i];
    let g2 = a[i + 1];
    let b = a.update(i, g2).update(i + 1, g1);
    let p12 = seq![g1, g2];
    let p21 = seq![g2, g1];
    assert forall|s: usize| #[trigger] eval_gates(s, p12) == eval_gates(s, p21) by {
        assert(p12 =~= seq![g1] + seq![g2]);
        assert(p21 =~= seq![g2] + seq![g1]);
        lemma_eval_concat(s, seq![g1], seq![g2]);
        lemma_eval_concat(s, seq![g2], seq![g1]);
        lemma_eval_single(s, g1);
        lemma_eval_single(s, g2);
        lemma_eval_single(apply_gate(s, g1), g2);
        lemma_eval_single(apply_gate(s, g2), g1);
        lemma_gates_commute(s, g1, g2);
    }
    lemma_replace_middle(a.take(i), seq![g1, g2], seq![g2, g1], a.skip(i + 2));
    assert(a.take(i) + seq![g1, g2] + a.skip(i + 2) =~= a);
    assert(a.take(i) + seq![g2, g1] + a.skip(i + 2) =~= b);
}

/// Removing a window that computes the identity keeps the function.
pub proof fn lemma_remove_identity_window(a: Seq<[u8; 3]>, i: int, j: int)
    requires
        0 <= i <= j <= a.len(),
        is_identity_fn(a.subrange(i, j)),
    ensures
        same_function(a, a.take(i) + a.skip(j)),
{
    lemma_insert_identity(a.take(i), a.subrange(i, j), a.skip(j));
    assert(a.take(i) + a.subrange(i, j) + a.skip(j) =~= a);
}

/// `b` is `a` with the `len` gates from position `start` removed.
pub open spec fn window_removed(a: Seq<[u8; 3]>, b: Seq<[u8; 3]>, start: int, len: int) -> bool {
    &&& 0 <= start
    &&& 0 <= len
    &&& start + len <= a.len()
    &&& b == a.take(start) + a.skip(start + len)
}

/// Dropping a window keeps every remaining gate reversible.
pub proof fn lemma_reversible_drop_window(a: Seq<[u8; 3]>, i: int, j: int)
    requires
        gates_reversible(a),
        0 <= i <= j <= a.len(),
    ensures
        gates_reversible(a.take(i) + a.skip(j)),
{
    let b = a.take(i) + a.skip(j);
    assert forall|k: int| 0 <= k < b.len() implies #[trigger] gate_reversible(b[k]) by {
        if k < i {
            assert(b[k] == a[k]);
        } else {
            assert(b[k] == a[k - i + j]);
        }
    }
}

/// Dropping a window keeps every remaining gate fitting.
pub proof fn lemma_fit_drop_window(a: Seq<[u8; 3]>, i: int, j: int)
    requires
        gates_fit(a),
        0 <= i <= j <= a.len(),
    ensures
        gates_fit(a.take(i) + a.skip(j)),
{
    let b = a.take(i) + a.skip(j);
    assert forall|k: int| 0 <= k < b.len() implies #[trigger] gate_fits(b[k]) by {
        if k < i {
            assert(b[k] == a[k]);
        } else {
            assert(b[k] == a[k - i + j]);
        }
    }
}

/// Exchanging two neighbours keeps every gate reversible.
pub proof fn lemma_reversible_swap(a: Seq<[u8; 3]>, i: int)
    requires
        gates_reversible(a),
        0 <= i,
        i + 1 < a.len(),
    ensures
        gates_reversible(a.update(i, a[i + 1]).update(i + 1, a[i])),
{
    let b = a.update(i, a[i + 1]).update(i + 1, a[i]);
    assert forall|k: int| 0 <= k < b.len() implies #[trigger] gate_reversible(b[k]) by {
        if k == i {
            assert(b[k] == a[i + 1]);
        } else if k == i + 1 {
            assert(b[k] == a[i]);
        } else {
            assert(b[k] == a[k]);
        }
    }
}

/// No two neighbouring gates are equal.
pub open spec fn no_adjacent_equal(s: Seq<[u8; 3]>) -> bool {
    forall|j: int| 0 <= j && j + 1 < s.len() ==> #[trigger] s[j] != s[j + 1]
}

/// Repeatedly removes pairs of equal neighbouring gates, stepping back one
/// position after each removal so that pairs brought together are removed
/// too.  Returns whether anything was removed.
pub fn cancel_adjacent_pairs(gates: &mut Vec<[u8; 3]>) -> (changed: bool)
    ensures
        final(gates)@.len() <= old(gates)@.len(),
        changed <==> final(gates)@.len() < old(gates)@.len(),
        no_adjacent_equal(final(gates)@),
        gates_fit(old(gates)@) ==> gates_fit(final(gates)@),
        gates_reversible(old(gates)@) ==> gates_reversible(final(gates)@) && same_function(
            old(gates)@,
            final(gates)@,
        ),
{
    let ghost g0 = gates@;
    let mut changed = false;
    let mut i: usize = 0;
    proof {
        assert(same_function(g0, gates@));
    }
    while i < gates.len().saturating_sub(1)
        invariant
            gates@.len() <= g0.len(),
            changed <==> gates@.len() < g0.len(),
            i <= gates@.len(),
            forall|j: int| 0 <= j < i && j + 1 < gates@.len() ==> #[trigger] gates@[j] != gates@[j + 1],
            gates_fit(g0) ==> gates_fit(gates@),
            gates_reversible(g0) ==> gates_reversible(gates@) && same_function(g0, gates@),
        decreases 2 * gates@.len() - i,
    {
        if gate_eq(&gates[i], &gates[i + 1]) {
            let ghost before = gates@;
            gates.remove(i + 1);
            gates.remove(i);
            proof {
                assert(gates@ =~= before.take(i as int) + before.skip(i + 2));
                if gates_fit(g0) {
                    lemma_fit_drop_window(before, i as int, i + 2);
                }
                if gates_reversible(g0) {
                    assert(gate_reversible(before[i as int]));
                    lemma_cancel_adjacent(before, i as int);
                    lemma_same_function_transitive(g0, before, gates@);
                    lemma_reversible_drop_window(before, i as int, i + 2);
                }
                assert forall|j: int| 0 <= j < i - 1 && j + 1 < gates@.len() implies #[trigger] gates@[j]
                    != gates@[j + 1] by {
                    assert(gates@[j] == before[j]);
                    assert(gates@[j + 1] == before[j + 1]);
                }
            }
            changed = true;
            if i > 0 {
                i -= 1;
            }
        } else {
            i += 1;
        }
    }
    changed
}

/// Reversible gates fit.
pub proof fn lemma_reversible_fit(a: Seq<[u8; 3]>)
    requires
        gates_reversible(a),
    ensures
        gates_fit(a),
{
    assert forall|i: int| 0 <= i < a.len() implies #[trigger] gate_fits(a[i]) by {
        assert(gate_reversible(a[i]));
    }
}

/// A gate given by its three pins.
#[derive(Clone, Copy, Debug, PartialEq, Eq)]
pub struct Gate {
    pub pins: [usize; 3],
}

impl Gate {
    /// Applies `gate` to `state`.
    pub fn evaluate_index(state: usize, gate: [u8; 3]) -> (r: usize)
        requires
            gate_fits(gate),
        ensures
            r == apply_gate(state, gate),
    {
        let t = gate[0] as usize;
        let a = gate[1] as usize;
        let b = gate[2] as usize;
        let c1 = (state >> a) & 1;
        let c2 = (state >> b) & 1;
        proof {
            lemma_ornb_step(state, t, a, b);
        }
        state ^ ((c1 | ((!c2) & 1)) << t)
    }

    /// Applies every gate of `gates` in order to `state`.
    pub fn evaluate_index_list(state: usize, gates: &[[u8; 3]]) -> (r: usize)
        requires
            gates_fit(gates@),
        ensures
            r == eval_gates(state, gates@),
    {
        let mut s = state;
        let mut i: usize = 0;
        while i < gates.len()
            invariant
                i <= gates.len(),
                gates_fit(gates@),
                s == eval_gates(state, gates@.take(i as int)),
            decreases gates.len() - i,
        {
            proof {
                assert(gates@.take(i + 1).drop_last() =~= gates@.take(i as int));
                assert(gate_fits(gates@[i as int]));
            }
            s = Gate::evaluate_index(s, gates[i]);
            i += 1;
        }
        proof {
            assert(gates@.take(i as int) =~= gates@);
        }
        s
    }
}

/// Gate equality, pin by pin.
pub fn gate_eq(a: &[u8; 3], b: &[u8; 3]) -> (r: bool)
    ensures
        r == (*a == *b),
{
    proof {
        broadcast use vstd::array::group_array_axioms;

        if a[0] == b[0] && a[1] == b[1] && a[2] == b[2] {
            assert(*a =~= *b);
        }
    }
    a[0] == b[0] && a[1] == b[1] && a[2] == b[2]
}

/// A fresh vector holding the same gates.
pub fn copy_gates(gates: &[[u8; 3]]) -> (r: Vec<[u8; 3]>)
    ensures
        r@ == gates@,
{
    let mut r: Vec<[u8; 3]> = Vec::with_capacity(gates.len());
    let mut i: usize = 0;
    while i < gates.len()
        invariant
            i <= gates.len(),
            r@ == gates@.take(i as int),
        decreases gates.len() - i,
    {
        r.push(gates[i]);
        i += 1;
        proof {
            assert(r@ =~= gates@.take(i as int));
        }
    }
    proof {
        assert(gates@.take(i as int) =~= gates@);
    }
    r
}

/// The truth table of a circuit on `n` wires: entry `x` is the image of `x`.
#[derive(Clone, Debug, PartialEq, Eq)]
pub struct Permutation {
    pub data: Vec<usize>,
}

/// A sequence of gates, applied left to right.
#[derive(Clone, Debug, PartialEq, Eq)]
pub struct CircuitSeq {
    pub gates: Vec<[u8; 3]>,
}

impl View for CircuitSeq {
    type V = Seq<[u8; 3]>;

    open spec fn view(&self) -> Seq<[u8; 3]> {
        self.gates@
    }
}

impl CircuitSeq {
    /// Number of gates.
    pub fn len(&self) -> (r: usize)
        ensures
            r == self@.len(),
    {
        self.gates.len()
    }

    /// Whether the circuit has no gate.
    pub fn is_empty(&self) -> (r: bool)
        ensures
            r == (self@.len() == 0),
    {
        self.gates.len() == 0
    }

    /// The image of `input` under the circuit.
    pub fn evaluate(&self, input: usize) -> (r: usize)
        requires
            gates_fit(self@),
        ensures
            r == eval_gates(input, self@),
    {
        Gate::evaluate_index_list(input, self.gates.as_slice())
    }

    /// The inverse circuit: since every gate is its own inverse, the gates in
    /// reverse order.
    pub fn inverse(&self) -> (r: CircuitSeq)
        ensures
            r@ == self@.reverse(),
    {
        let n = self.gates.len();
        let mut gates: Vec<[u8; 3]> = Vec::with_capacity(n);
        let mut i: usize = n;
        while i > 0
            invariant
                i <= n,
                n == self@.len(),
                gates@ == self@.skip(i as int).reverse(),
            decreases i,
        {
            i -= 1;
            gates.push(self.gates[i]);
            proof {
                assert(gates@ =~= self@.skip(i as int).reverse());
            }
        }
        proof {
            assert(self@.skip(0) =~= self@);
        }
        CircuitSeq { gates }
    }

    /// This circuit followed by `other`.
    pub fn concat(&self, other: &CircuitSeq) -> (r: CircuitSeq)
        ensures
            r@ == self@ + other@,
    {
        let mut gates = copy_gates(self.gates.as_slice());
        let mut i: usize = 0;
        while i < other.gates.len()
            invariant
                i <= other@.len(),
                gates@ == self@ + other@.take(i as int),
            decreases other@.len() - i,
        {
            gates.push(other.gates[i]);
            i += 1;
            proof {
                assert(gates@ =~= self@ + other@.take(i as int));
            }
        }
        proof {
            assert(other@.take(i as int) =~= other@);
        }
        CircuitSeq { gates }
    }

    /// Inserts the gates of `other` before position `pos`.
    pub fn splice(&mut self, pos: usize, other: &CircuitSeq)
        requires
            pos <= old(self)@.len(),
        ensures
            final(self)@ == old(self)@.take(pos as int) + other@ + old(self)@.skip(pos as int),
    {
        let ghost old_gates = self@;
        let n = self.gates.len();
        let mut gates: Vec<[u8; 3]> = Vec::with_capacity(n);
        let mut i: usize = 0;
        while i < pos
            invariant
                i <= pos,
                pos <= n,
                n == old_gates.len(),
                self@ == old_gates,
                gates@ == old_gates.take(i as int),
            decreases pos - i,
        {
            gates.push(self.gates[i]);
            i += 1;
            proof {
                assert(gates@ =~= old_gates.take(i as int));
            }
        }
        let mut j: usize = 0;
        while j < other.gates.len()
            invariant
                j <= other@.len(),
                gates@ == old_gates.take(pos as int) + other@.take(j as int),
            decreases other@.len() - j,
        {
            gates.push(other.gates[j]);
            j += 1;
            proof {
                assert(gates@ =~= old_gates.take(pos as int) + other@.take(j as int));
            }
        }
        let mut k: usize = pos;
        while k < n
            invariant
                pos <= k <= n,
                n == old_gates.len(),
                self@ == old_gates,
                gates@ == old_gates.take(pos as int) + other@ + old_gates.subrange(
                    pos as int,
                    k as int,
                ),
            decreases n - k,
        {
            proof {
                assert(other@.take(other@.len() as int) =~= other@);
            }
            gates.push(self.gates[k]);
            k += 1;
            proof {
                assert(gates@ =~= old_gates.take(pos as int) + other@ + old_gates.subrange(
                    pos as int,
                    k as int,
                ));
            }
        }
        proof {
            assert(other@.take(other@.len() as int) =~= other@);
            assert(old_gates.subrange(pos as int, n as int) =~= old_gates.skip(pos as int));
        }
        self.gates = gates;
    }

    /// The truth table of the circuit on `n` wires: entry `x` is the image of
    /// `x`, for every `x < 2^n`.
    pub fn permutation(&self, n: usize) -> (r: Permutation)
        requires
            gates_fit(self@),
            n < usize::BITS,
        ensures
            r.data@.len() == pow2_usize(n),
            forall|x: int| 0 <= x < r.data@.len() ==> r.data@[x] == eval_gates(x as usize, self@),
    {
        let size: usize = 1usize << n;
        proof {
            lemma_shift_is_pow2(n);
        }
        let mut data: Vec<usize> = Vec::with_capacity(size);
        let mut x: usize = 0;
        while x < size
            invariant
                x <= size,
                gates_fit(self@),
                data@.len() == x,
                forall|y: int| 0 <= y < x ==> data@[y] == eval_gates(y as usize, self@),
            decreases size - x,
        {
            let out = self.evaluate(x);
            data.push(out);
            x += 1;
        }
        Permutation { data }
    }
}

/// `2^n` as a number, for `n` below the width of `usize`.
pub open spec fn pow2_usize(n: usize) -> int {
    vstd::arithmetic::power2::pow2(n as nat) as int
}

/// `1 << n` is `2^n` for every `n` below the width of `usize`.
pub proof fn lemma_shift_is_pow2(n: usize)
    requires
        n < usize::BITS,
    ensures
        (1usize << n) as int == pow2_usize(n),
{
    vstd::bits::lemma_usize_pow2_no_overflow(n as nat);
    vstd::bits::lemma_usize_shl_is_mul(1usize, n);
}

} // verus!
