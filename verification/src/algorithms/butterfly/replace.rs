//! Random identities `R R⁻¹`, the butterfly obfuscation that wraps every
//! gate in one, random windows of a circuit, stored identities, and the
//! taxonomy of how two gates share wires.
use vstd::prelude::*;

use crate::infra::circuit::{
    gates_fit, gates_reversible, is_identity_fn, lemma_insert_identity, lemma_mirror_is_identity,
    lemma_replace_middle, lemma_same_function_transitive, same_function, CircuitSeq,
};
use crate::algorithms::identity_growth::record_gates;
use crate::infra::ids_index::slice_window;
use crate::infra::random::{random_below, random_u64, seeded_rng};
use crate::infra::store::reader::{has_encoding, TemplateDB};
use crate::infra::store::schema::TemplateRecord;
use crate::obfuscate::gadgets::{
    all_distinct_pins_below, lemma_distinct_pins_reversible, random_circuit_touching,
};

verus! {

/// A random circuit of `m` gates with distinct pins below `n`, and its
/// reverse; together they compute the identity.
pub fn random_id(n: u8, m: usize) -> (r: (CircuitSeq, CircuitSeq))
    requires
        n >= 3,
    ensures
        r.0@.len() == m,
        all_distinct_pins_below(r.0@, n),
        r.1@ == r.0@.reverse(),
        n as int <= usize::BITS ==> is_identity_fn(r.0@ + r.1@),
{
    let mut rng = seeded_rng(random_u64());
    let circuit = random_circuit_touching(n as usize, m, &mut rng);
    let rev = circuit.inverse();
    proof {
        if n as int <= usize::BITS {
            lemma_distinct_pins_reversible(circuit@, n);
            lemma_mirror_is_identity(circuit@);
        }
    }
    (circuit, rev)
}

/// Every gate of `c` preceded by `r r⁻¹`.
pub open spec fn wrapped_gates(c: Seq<[u8; 3]>, r: Seq<[u8; 3]>) -> Seq<[u8; 3]>
    decreases c.len(),
{
    if c.len() == 0 {
        Seq::empty()
    } else {
        wrapped_gates(c.drop_last(), r) + r + r.reverse() + seq![c.last()]
    }
}

/// Inserting a sequence that computes the identity before the last gate,
/// after a prefix computing the same as `a`, keeps the function.
proof fn lemma_wrap_step(a: Seq<[u8; 3]>, w: Seq<[u8; 3]>, id: Seq<[u8; 3]>, g: [u8; 3])
    requires
        same_function(a, w),
        is_identity_fn(id),
    ensures
        same_function(a + seq![g], w + id + seq![g]),
{
    let e = Seq::<[u8; 3]>::empty();
    lemma_replace_middle(e, a, w, seq![g]);
    assert(e + a =~= a);
    assert(e + w =~= w);
    lemma_insert_identity(w, id, seq![g]);
    lemma_same_function_transitive(a + seq![g], w + seq![g], w + id + seq![g]);
}

/// Wraps every gate of `c` in a random identity `R R⁻¹` of 3 to 25 gates
/// on `num_wires` wires (the same `R` throughout), ending with one more
/// `R R⁻¹`; returns the circuit and the positions where each `R⁻¹` starts.
/// An empty circuit gives two empty results.
pub fn obfuscate(c: &CircuitSeq, num_wires: usize) -> (r: (CircuitSeq, Vec<usize>))
    requires
        (num_wires as u8) >= 3,
        (c@.len() + 1) * 51 <= usize::MAX,
    ensures
        c@.len() == 0 ==> r.0@.len() == 0 && r.1@.len() == 0,
        c@.len() > 0 ==> exists|id: Seq<[u8; 3]>|
            #![trigger wrapped_gates(c@, id)]
            3 <= id.len() <= 25 && all_distinct_pins_below(id, num_wires as u8) && r.0@
                == wrapped_gates(c@, id) + id + id.reverse() && r.1@.len() == c@.len() + 1
                && forall|i: int|
                0 <= i <= c@.len() ==> #[trigger] r.1@[i] == i * (2 * id.len() + 1) + id.len(),
        gates_fit(c@) && (num_wires as u8) as int <= usize::BITS ==> same_function(c@, r.0@),
{
    if c.gates.len() == 0 {
        return (CircuitSeq { gates: Vec::new() }, Vec::new());
    }
    let m = 3 + random_below(23);
    let (rc, rinv) = random_id(num_wires as u8, m);
    let ghost id = rc@;
    let ghost fits = gates_fit(c@) && (num_wires as u8) as int <= usize::BITS;
    proof {
        if fits {
            lemma_distinct_pins_reversible(id, num_wires as u8);
            lemma_mirror_is_identity(id);
        }
    }
    let n = c.gates.len();
    let step: usize = 2 * m + 1;
    let mut gates: Vec<[u8; 3]> = Vec::new();
    let mut starts: Vec<usize> = Vec::new();
    let mut i: usize = 0;
    while i < n
        invariant
            i <= n,
            n == c@.len(),
            (n + 1) * 51 <= usize::MAX,
            3 <= m <= 25,
            step == 2 * m + 1,
            id == rc@,
            rinv@ == id.reverse(),
            id.len() == m,
            fits ==> is_identity_fn(id + id.reverse()),
            fits == (gates_fit(c@) && (num_wires as u8) as int <= usize::BITS),
            gates@ == wrapped_gates(c@.take(i as int), id),
            gates@.len() == i * step,
            starts@.len() == i,
            forall|j: int| 0 <= j < i ==> #[trigger] starts@[j] == j * step + m,
            fits ==> same_function(c@.take(i as int), gates@),
        decreases n - i,
    {
        proof {
            assert((i + 1) * step <= (n + 1) * 51) by (nonlinear_arith)
                requires
                    i < n,
                    step <= 51,
            ;
            assert((i + 1) * step == i * step + step) by (nonlinear_arith);
        }
        let ghost before = gates@;
        let mut k: usize = 0;
        while k < m
            invariant
                k <= m,
                m == rc@.len(),
                gates@ == before + rc@.take(k as int),
            decreases m - k,
        {
            gates.push(rc.gates[k]);
            k += 1;
            proof {
                assert(gates@ =~= before + rc@.take(k as int));
            }
        }
        starts.push(gates.len());
        let mut k: usize = 0;
        while k < m
            invariant
                k <= m,
                m == rinv@.len(),
                m == rc@.len(),
                gates@ == before + rc@ + rinv@.take(k as int),
            decreases m - k,
        {
            proof {
                assert(rc@.take(m as int) =~= rc@);
            }
            gates.push(rinv.gates[k]);
            k += 1;
            proof {
                assert(gates@ =~= before + rc@ + rinv@.take(k as int));
            }
        }
        let g = c.gates[i];
        gates.push(g);
        proof {
            assert(rc@.take(m as int) =~= rc@);
            assert(rinv@.take(m as int) =~= rinv@);
            let t = c@.take(i + 1);
            assert(t.drop_last() =~= c@.take(i as int));
            assert(t.last() == g);
            assert(gates@ =~= before + id + id.reverse() + seq![g]);
            assert(gates@ == wrapped_gates(t, id));
            assert(t =~= c@.take(i as int) + seq![g]);
            if fits {
                assert(before + id + id.reverse() + seq![g] =~= before + (id + id.reverse()) + seq![g]);
                lemma_wrap_step(c@.take(i as int), before, id + id.reverse(), g);
            }
        }
        i += 1;
    }
    let ghost body = gates@;
    let mut k: usize = 0;
    while k < m
        invariant
            k <= m,
            m == rc@.len(),
            gates@ == body + rc@.take(k as int),
        decreases m - k,
    {
        gates.push(rc.gates[k]);
        k += 1;
        proof {
            assert(gates@ =~= body + rc@.take(k as int));
        }
    }
    proof {
        assert((n + 1) * step <= (n + 1) * 51) by (nonlinear_arith)
            requires
                step <= 51,
        ;
        assert(n * step + m < (n + 1) * step) by (nonlinear_arith)
            requires
                step == 2 * m + 1,
        ;
    }
    starts.push(gates.len());
    let mut k: usize = 0;
    while k < m
        invariant
            k <= m,
            m == rinv@.len(),
            m == rc@.len(),
            gates@ == body + rc@ + rinv@.take(k as int),
        decreases m - k,
    {
        proof {
            assert(rc@.take(m as int) =~= rc@);
        }
        gates.push(rinv.gates[k]);
        k += 1;
        proof {
            assert(gates@ =~= body + rc@ + rinv@.take(k as int));
        }
    }
    proof {
        assert(rc@.take(m as int) =~= rc@);
        assert(rinv@.take(m as int) =~= rinv@);
        assert(c@.take(n as int) =~= c@);
        assert(gates@ =~= body + id + id.reverse());
        if fits {
            let e = Seq::<[u8; 3]>::empty();
            lemma_insert_identity(body, id + id.reverse(), e);
            assert(body + e =~= body);
            assert(body + (id + id.reverse()) + e =~= gates@);
            lemma_same_function_transitive(c@, body, gates@);
        }
        assert forall|j: int| 0 <= j <= n implies #[trigger] starts@[j] == j * (2 * id.len() + 1)
            + id.len() by {}
    }
    (CircuitSeq { gates }, starts)
}

/// Where a pin of one gate falls on another gate.
#[derive(Debug, Clone, Copy, PartialEq, Eq, Hash, Structural)]
pub enum CollisionType {
    OnActive,
    OnCtrl1,
    OnCtrl2,
    OnNew,
}

/// Where each pin of `pin`'s gate falls on `g`: its target, first control,
/// second control, or none of them (checked in that order).
pub open spec fn collision_of(g: [u8; 3], pin: u8) -> CollisionType {
    if pin == g[0] {
        CollisionType::OnActive
    } else if pin == g[1] {
        CollisionType::OnCtrl1
    } else if pin == g[2] {
        CollisionType::OnCtrl2
    } else {
        CollisionType::OnNew
    }
}

/// Where the target and the two controls of a second gate fall on a first.
#[derive(Debug, Clone, Copy, PartialEq, Eq, Hash, Structural)]
pub struct GatePair {
    a: CollisionType,
    c1: CollisionType,
    c2: CollisionType,
}

impl GatePair {
    /// The collisions of the target, the first and the second control.
    pub closed spec fn kinds(self) -> (CollisionType, CollisionType, CollisionType) {
        (self.a, self.c1, self.c2)
    }

    /// No pin of the second gate lies on the first.
    pub fn is_none(gate_pair: &Self) -> (r: bool)
        ensures
            r == (gate_pair.kinds() == (
                CollisionType::OnNew,
                CollisionType::OnNew,
                CollisionType::OnNew,
            )),
    {
        gate_pair.a == CollisionType::OnNew && gate_pair.c1 == CollisionType::OnNew && gate_pair.c2
            == CollisionType::OnNew
    }
}

/// A number for each kind of collision.
pub open spec fn collision_code(c: CollisionType) -> nat {
    match c {
        CollisionType::OnActive => 0,
        CollisionType::OnCtrl1 => 1,
        CollisionType::OnCtrl2 => 2,
        CollisionType::OnNew => 3,
    }
}

/// A number below 64 for each taxonomy of a gate pair.
pub open spec fn pair_code(k: (CollisionType, CollisionType, CollisionType)) -> nat {
    16 * collision_code(k.0) + 4 * collision_code(k.1) + collision_code(k.2)
}

/// The taxonomy of the pair `(g1, g2)`.
pub open spec fn pair_kinds(g1: [u8; 3], g2: [u8; 3]) -> (CollisionType, CollisionType, CollisionType) {
    (collision_of(g1, g2[0]), collision_of(g1, g2[1]), collision_of(g1, g2[2]))
}

fn collision_number(c: CollisionType) -> (r: usize)
    ensures
        r == collision_code(c),
{
    match c {
        CollisionType::OnActive => 0,
        CollisionType::OnCtrl1 => 1,
        CollisionType::OnCtrl2 => 2,
        CollisionType::OnNew => 3,
    }
}

impl GatePair {
    /// The number of this taxonomy among the 64.
    pub fn code(&self) -> (r: usize)
        ensures
            r == pair_code(self.kinds()),
            r < 64,
    {
        16 * collision_number(self.a) + 4 * collision_number(self.c1) + collision_number(self.c2)
    }
}

/// Where `pin` falls on `g1`.
pub fn get_collision_type(g1: &[u8; 3], pin: u8) -> (r: CollisionType)
    ensures
        r == collision_of(*g1, pin),
{
    if pin == g1[0] {
        CollisionType::OnActive
    } else if pin == g1[1] {
        CollisionType::OnCtrl1
    } else if pin == g1[2] {
        CollisionType::OnCtrl2
    } else {
        CollisionType::OnNew
    }
}

/// Where the pins of `g2` fall on `g1`.
pub fn gate_pair_taxonomy(g1: &[u8; 3], g2: &[u8; 3]) -> (r: GatePair)
    ensures
        r.kinds() == (collision_of(*g1, g2[0]), collision_of(*g1, g2[1]), collision_of(*g1, g2[2])),
{
    GatePair {
        a: get_collision_type(g1, g2[0]),
        c1: get_collision_type(g1, g2[1]),
        c2: get_collision_type(g1, g2[2]),
    }
}


/// A random window of a nonempty circuit: a start `a` drawn below the
/// length and an end `a + 1 + x` with `x` drawn below 1, 2, 4 or 8 (each
/// bound equally likely), cut at the length.  Returns the gates of the
/// window with its start and (exclusive) end; an empty circuit gives an
/// empty window at 0.
pub fn random_subcircuit(circuit: &CircuitSeq) -> (r: (CircuitSeq, usize, usize))
    ensures
        circuit@.len() == 0 ==> r.0@.len() == 0 && r.1 == 0 && r.2 == 0,
        circuit@.len() > 0 ==> r.1 < r.2 <= circuit@.len() && r.2 - r.1 <= 8,
        r.0@ == circuit@.subrange(r.1 as int, r.2 as int),
{
    let len = circuit.gates.len();
    if len == 0 {
        return (CircuitSeq { gates: Vec::new() }, 0, 0);
    }
    let a = random_below(len);
    let shift = random_below(4);
    let upper: usize = if shift == 0 {
        1
    } else if shift == 1 {
        2
    } else if shift == 2 {
        4
    } else {
        8
    };
    let step = 1 + random_below(upper);
    let mut b = if step > len - a {
        len
    } else {
        a + step
    };
    if a == b {
        if b < len - 1 {
            b += 1;
        } else {
            b -= 1;
        }
    }
    let start = if a < b {
        a
    } else {
        b
    };
    let end = if a < b {
        b
    } else {
        a
    };
    let gates = slice_window(circuit.gates.as_slice(), start, end);
    (CircuitSeq { gates }, start, end)
}

/// A random window of at most `max_len` gates (but at least one) of a
/// nonempty circuit: a start drawn below the length and a length of 1, 2,
/// 4 or 8 (each equally likely), cut to what remains and to `max_len`.
/// Returns the gates of the window with its start and (exclusive) end; an
/// empty circuit gives an empty window at 0.
pub fn random_subcircuit_max(circuit: &CircuitSeq, max_len: usize) -> (r: (CircuitSeq, usize, usize))
    ensures
        circuit@.len() == 0 ==> r.0@.len() == 0 && r.1 == 0 && r.2 == 0,
        circuit@.len() > 0 ==> r.1 < r.2 <= circuit@.len() && r.2 - r.1 <= 8 && (r.2 - r.1 <= max_len
            || r.2 - r.1 == 1),
        r.0@ == circuit@.subrange(r.1 as int, r.2 as int),
{
    let len = circuit.gates.len();
    if len == 0 {
        return (CircuitSeq { gates: Vec::new() }, 0, 0);
    }
    let start = random_below(len);
    let remaining = len - start;
    let allowed_len = if remaining < max_len {
        remaining
    } else {
        max_len
    };
    let shift = random_below(4);
    let mut sub_len: usize = if shift == 0 {
        1
    } else if shift == 1 {
        2
    } else if shift == 2 {
        4
    } else {
        8
    };
    if sub_len > allowed_len {
        sub_len = allowed_len;
    }
    if sub_len < 1 {
        sub_len = 1;
    }
    let end = start + sub_len;
    let gates = slice_window(circuit.gates.as_slice(), start, end);
    (CircuitSeq { gates }, start, end)
}

/// A stored identity of width `width` from the template database: up to
/// five tries, each at a gate count drawn among the stored counts from 6
/// to 40.
pub fn random_stored_id(db: &TemplateDB, width: u8) -> (r: Option<CircuitSeq>)
    ensures
        r matches Some(c) ==> exists|rec: TemplateRecord| has_encoding(rec) && #[trigger] record_gates(rec) == c@,
{
    let valid_counts = db.get_available_gate_counts(width);
    let mut candidates: Vec<u16> = Vec::new();
    let mut i: usize = 0;
    while i < valid_counts.len()
        invariant
            i <= valid_counts@.len(),
        decreases valid_counts@.len() - i,
    {
        let gc = valid_counts[i];
        if gc >= 6 && gc <= 40 {
            candidates.push(gc);
        }
        i += 1;
    }
    if candidates.len() == 0 {
        return None;
    }
    let mut attempt: usize = 0;
    while attempt < 5
        invariant
            attempt <= 5,
            candidates@.len() > 0,
        decreases 5 - attempt,
    {
        attempt += 1;
        let idx = random_below(candidates.len());
        let gc = candidates[idx];
        match db.get_random_identity(width, gc) {
            Some(record) => {
                let c = record.to_circuit_seq();
                proof {
                    assert(record_gates(record) =~= c@);
                }
                return Some(c);
            },
            None => {},
        }
    }
    None
}

} // verus!
