//! Annealing moves and scores on circuits.  The schedule, the energies and
//! the acceptance test work on floating-point numbers and are not part of
//! this library.
use vstd::prelude::*;

use crate::infra::circuit::{
    eval_gates, gate_eq, gate_fits, gates_fit, is_identity_fn, lemma_insert_identity, lemma_pair_is_identity,
    lemma_same_function_transitive, lemma_swap_adjacent, pins_commute, same_function, CircuitSeq,
};
use crate::infra::random::{rng_usize_below, rng_usize_inclusive};
use crate::obfuscate::gadgets::{distinct_pins_below, random_distinct_gate};
use crate::reducer::budget::{gates_commute, spec_gates_commute};

verus! {

/// Types of annealing moves.
#[derive(Clone, Debug, PartialEq, Eq, Hash)]
pub enum MoveType {
    InsertTemplate,
    CommuteSwap,
    PatchPair,
}

impl MoveType {
    /// The name of the move.
    pub fn name(&self) -> (r: &'static str)
        ensures
            *self == MoveType::InsertTemplate ==> r@ == "insert_template"@,
            *self == MoveType::CommuteSwap ==> r@ == "commute_swap"@,
            *self == MoveType::PatchPair ==> r@ == "patch_pair"@,
    {
        match self {
            MoveType::InsertTemplate => "insert_template",
            MoveType::CommuteSwap => "commute_swap",
            MoveType::PatchPair => "patch_pair",
        }
    }
}

/// Number of positions `j < k` with `s[j] == s[j + 1]`.
pub open spec fn adjacent_pairs_upto(s: Seq<[u8; 3]>, k: int) -> nat
    decreases k,
{
    if k <= 0 {
        0
    } else {
        adjacent_pairs_upto(s, k - 1) + if s[k - 1] == s[k] {
            1nat
        } else {
            0nat
        }
    }
}

/// Number of adjacent identical (cancelling) pairs.
pub open spec fn adjacent_pairs(s: Seq<[u8; 3]>) -> nat {
    adjacent_pairs_upto(s, s.len() - 1)
}

/// Counts adjacent identical gate pairs (pairs that cancel).
pub fn count_adjacent_cancels(c: &CircuitSeq) -> (r: usize)
    ensures
        r == adjacent_pairs(c@),
{
    let mut count: usize = 0;
    let n = c.gates.len();
    if n < 2 {
        return 0;
    }
    let mut i: usize = 0;
    while i < n - 1
        invariant
            n == c@.len(),
            n >= 2,
            i <= n - 1,
            count == adjacent_pairs_upto(c@, i as int),
            count <= i,
        decreases n - 1 - i,
    {
        if gate_eq(&c.gates[i], &c.gates[i + 1]) {
            count += 1;
        }
        i += 1;
    }
    count
}

/// Number of positions `i` in `lo .. hi` whose gate does not commute with `g`.
pub open spec fn non_commuting_in(g: [u8; 3], c: Seq<[u8; 3]>, lo: int, hi: int) -> nat
    decreases hi - lo,
{
    if hi <= lo {
        0
    } else {
        non_commuting_in(g, c, lo, hi - 1) + if !spec_gates_commute(g, c[hi - 1]) {
            1nat
        } else {
            0nat
        }
    }
}

/// Stickiness score of inserting `template` at `pos`: over the template's
/// gates, the circuit gates within `window` positions before `pos` and up to
/// `window` positions after the inserted template that do not commute with
/// it.
pub open spec fn stickiness(c: Seq<[u8; 3]>, template: Seq<[u8; 3]>, pos: int, window: int, k: int) -> nat
    decreases k,
{
    if k <= 0 {
        0
    } else {
        let start = if pos >= window {
            pos - window
        } else {
            0
        };
        let end_raw = pos + template.len() + window;
        let end = if end_raw < c.len() {
            end_raw
        } else {
            c.len() as int
        };
        let before = if pos < c.len() {
            pos
        } else {
            c.len() as int
        };
        let g = template[k - 1];
        stickiness(c, template, pos, window, k - 1) + non_commuting_in(g, c, start, before)
            + non_commuting_in(g, c, pos, end)
    }
}

proof fn lemma_non_commuting_bound(g: [u8; 3], c: Seq<[u8; 3]>, lo: int, hi: int)
    ensures
        non_commuting_in(g, c, lo, hi) <= if hi > lo {
            hi - lo
        } else {
            0
        },
    decreases hi - lo,
{
    if hi > lo {
        lemma_non_commuting_bound(g, c, lo, hi - 1);
    }
}

/// Scores a template by how many non-commuting pairs it forms with the gates
/// around its insertion point; higher means harder to reduce.
pub fn score_template_stickiness(
    c: &CircuitSeq,
    template: &[[u8; 3]],
    pos: usize,
    window: usize,
) -> (r: usize)
    requires
        pos + template@.len() + window <= usize::MAX,
        stickiness(c@, template@, pos as int, window as int, template@.len() as int) <= usize::MAX,
    ensures
        r == stickiness(c@, template@, pos as int, window as int, template@.len() as int),
{
    let mut score: usize = 0;
    let start = pos.saturating_sub(window);
    let end_raw = pos + template.len() + window;
    let n = c.gates.len();
    let end = if end_raw < n {
        end_raw
    } else {
        n
    };
    let before = if pos < n {
        pos
    } else {
        n
    };
    let mut t: usize = 0;
    while t < template.len()
        invariant
            t <= template@.len(),
            n == c@.len(),
            start == (if pos >= window { pos - window } else { 0 }),
            end == (if end_raw < n { end_raw as int } else { n as int }),
            end_raw == pos + template@.len() + window,
            before == (if pos < n { pos as int } else { n as int }),
            score == stickiness(c@, template@, pos as int, window as int, t as int),
            stickiness(c@, template@, pos as int, window as int, template@.len() as int) <= usize::MAX,
        decreases template@.len() - t,
    {
        let t_gate = template[t];
        proof {
            lemma_stickiness_monotone(c@, template@, pos as int, window as int, t + 1, template@.len() as int);
        }
        let mut i: usize = start;
        let ghost base = score;
        while i < before
            invariant
                start <= i <= before || (i == start && before <= start),
                before <= n,
                n == c@.len(),
                score == base + non_commuting_in(t_gate, c@, start as int, i as int),
                base + non_commuting_in(t_gate, c@, start as int, before as int) <= usize::MAX,
            decreases before - i,
        {
            proof {
                lemma_non_commuting_mono(t_gate, c@, start as int, i + 1, before as int);
            }
            if !gates_commute(&t_gate, &c.gates[i]) {
                score += 1;
            }
            i += 1;
        }
        proof {
            if before <= start {
                assert(non_commuting_in(t_gate, c@, start as int, i as int) == non_commuting_in(t_gate, c@, start as int, before as int));
            }
        }
        let ghost mid = score;
        let mut i: usize = pos;
        while i < end
            invariant
                pos <= i <= end || (i == pos && end <= pos),
                end <= n,
                n == c@.len(),
                score == mid + non_commuting_in(t_gate, c@, pos as int, i as int),
                mid + non_commuting_in(t_gate, c@, pos as int, end as int) <= usize::MAX,
            decreases end - i,
        {
            proof {
                lemma_non_commuting_mono(t_gate, c@, pos as int, i + 1, end as int);
            }
            if !gates_commute(&t_gate, &c.gates[i]) {
                score += 1;
            }
            i += 1;
        }
        proof {
            if end <= pos {
                assert(non_commuting_in(t_gate, c@, pos as int, i as int) == non_commuting_in(t_gate, c@, pos as int, end as int));
            }
        }
        t += 1;
    }
    score
}

proof fn lemma_non_commuting_mono(g: [u8; 3], c: Seq<[u8; 3]>, lo: int, a: int, b: int)
    requires
        a <= b,
    ensures
        non_commuting_in(g, c, lo, a) <= non_commuting_in(g, c, lo, b),
    decreases b - a,
{
    if a < b {
        lemma_non_commuting_mono(g, c, lo, a, b - 1);
    }
}

proof fn lemma_stickiness_monotone(c: Seq<[u8; 3]>, template: Seq<[u8; 3]>, pos: int, window: int, a: int, b: int)
    requires
        a <= b,
    ensures
        stickiness(c, template, pos, window, a) <= stickiness(c, template, pos, window, b),
    decreases b - a,
{
    if a < b {
        lemma_stickiness_monotone(c, template, pos, window, a, b - 1);
    }
}

/// The stickiness of a template of two gates is at most twice the length of
/// the circuit.
proof fn lemma_pair_stickiness_bound(c: Seq<[u8; 3]>, t: Seq<[u8; 3]>, pos: int, window: int)
    requires
        t.len() == 2,
        pos >= 0,
        window >= 0,
    ensures
        stickiness(c, t, pos, window, 2) <= 2 * c.len(),
{
    let start = if pos >= window { pos - window } else { 0 };
    let end_raw = pos + t.len() + window;
    let end = if end_raw < c.len() { end_raw } else { c.len() as int };
    let before = if pos < c.len() { pos } else { c.len() as int };
    lemma_non_commuting_bound(t[0], c, start, before);
    lemma_non_commuting_bound(t[0], c, pos, end);
    lemma_non_commuting_bound(t[1], c, start, before);
    lemma_non_commuting_bound(t[1], c, pos, end);
    assert(stickiness(c, t, pos, window, 0) == 0);
    assert(stickiness(c, t, pos, window, 1) == non_commuting_in(t[0], c, start, before)
        + non_commuting_in(t[0], c, pos, end));
    assert(stickiness(c, t, pos, window, 2) == stickiness(c, t, pos, window, 1)
        + non_commuting_in(t[1], c, start, before) + non_commuting_in(t[1], c, pos, end));
}

/// Stickiness of the identity pair `[g, g]` inserted at `pos`.
pub open spec fn pair_score(c: Seq<[u8; 3]>, g: [u8; 3], pos: int, window: int) -> nat {
    stickiness(c, seq![g, g], pos, window, 2)
}

/// `i` is the first of the candidates whose pair is stickiest.
pub open spec fn first_stickiest(c: Seq<[u8; 3]>, cands: Seq<[u8; 3]>, pos: int, window: int, i: int) -> bool {
    &&& 0 <= i < cands.len()
    &&& forall|j: int| 0 <= j < cands.len() ==> #[trigger] pair_score(c, cands[j], pos, window) <= pair_score(
        c,
        cands[i],
        pos,
        window,
    )
    &&& forall|j: int| 0 <= j < i ==> #[trigger] pair_score(c, cands[j], pos, window) < pair_score(
        c,
        cands[i],
        pos,
        window,
    )
}

/// The identity pair `[g, g]` of the stickiest candidate gate `g` (the first
/// among equals); empty when there is no candidate.
pub fn stickiest_pair(c: &CircuitSeq, candidates: &Vec<[u8; 3]>, pos: usize, window: usize) -> (r: Vec<[u8; 3]>)
    requires
        pos + 2 + window <= usize::MAX,
        c@.len() <= usize::MAX / 2,
    ensures
        candidates@.len() == 0 ==> r@.len() == 0,
        candidates@.len() > 0 ==> exists|i: int|
            #[trigger] first_stickiest(c@, candidates@, pos as int, window as int, i) && r@ == seq![
                candidates@[i],
                candidates@[i],
            ],
{
    let mut best_template: Vec<[u8; 3]> = Vec::new();
    let mut best_score: usize = 0;
    let ghost mut bi: int = 0;
    let mut k: usize = 0;
    while k < candidates.len()
        invariant
            k <= candidates@.len(),
            pos + 2 + window <= usize::MAX,
            c@.len() <= usize::MAX / 2,
            k == 0 ==> best_template@.len() == 0,
            k > 0 ==> 0 <= bi < k && best_template@ == seq![candidates@[bi], candidates@[bi]] && best_score
                == pair_score(c@, candidates@[bi], pos as int, window as int),
            k > 0 ==> forall|j: int| 0 <= j < k ==> #[trigger] pair_score(c@, candidates@[j], pos as int, window as int)
                <= best_score,
            k > 0 ==> forall|j: int| 0 <= j < bi ==> #[trigger] pair_score(c@, candidates@[j], pos as int, window as int)
                < best_score,
        decreases candidates@.len() - k,
    {
        let gate = candidates[k];
        let mut candidate: Vec<[u8; 3]> = Vec::new();
        candidate.push(gate);
        candidate.push(gate);
        proof {
            assert(candidate@ =~= seq![gate, gate]);
            lemma_pair_stickiness_bound(c@, candidate@, pos as int, window as int);
        }
        let score = score_template_stickiness(c, candidate.as_slice(), pos, window);
        if score > best_score || best_template.len() == 0 {
            best_score = score;
            best_template = candidate;
            proof {
                bi = k as int;
            }
        }
        k += 1;
    }
    proof {
        if k > 0 {
            assert(first_stickiest(c@, candidates@, pos as int, window as int, bi));
        }
    }
    best_template
}

/// The stickiest pair beats every candidate: its stickiness is at least that
/// of the pair of any candidate, and it is the pair of a candidate.
pub proof fn law_stickiest_pair_is_maximal(
    c: &CircuitSeq,
    candidates: &Vec<[u8; 3]>,
    pos: usize,
    window: usize,
    r: Vec<[u8; 3]>,
)
    requires
        call_ensures(stickiest_pair, (c, candidates, pos, window), r),
        candidates@.len() > 0,
    ensures
        forall|j: int|
            0 <= j < candidates@.len() ==> #[trigger] pair_score(c@, candidates@[j], pos as int, window as int)
                <= stickiness(c@, r@, pos as int, window as int, 2),
        exists|i: int| 0 <= i < candidates@.len() && r@ == #[trigger] seq![candidates@[i], candidates@[i]],
{
    let i = choose|i: int|
        #[trigger] first_stickiest(c@, candidates@, pos as int, window as int, i) && r@ == seq![
            candidates@[i],
            candidates@[i],
        ];
    assert forall|j: int| 0 <= j < candidates@.len() implies #[trigger] pair_score(
        c@,
        candidates@[j],
        pos as int,
        window as int,
    ) <= stickiness(c@, r@, pos as int, window as int, 2) by {
        assert(pair_score(c@, candidates@[j], pos as int, window as int) <= pair_score(
            c@,
            candidates@[i],
            pos as int,
            window as int,
        ));
    }
}

/// Draws `k_candidates` random gates with distinct pins and keeps the
/// identity pair `[g, g]` of the stickiest (the first drawn among equals),
/// as `stickiest_pair` picks it.
pub fn select_adversarial_template(
    c: &CircuitSeq,
    pos: usize,
    n_wires: usize,
    k_candidates: usize,
    window: usize,
    rng: &mut rand::rngs::StdRng,
) -> (r: Vec<[u8; 3]>)
    requires
        k_candidates > 0 ==> (n_wires as u8) >= 3,
        pos + 2 + window <= usize::MAX,
        c@.len() <= usize::MAX / 2,
    ensures
        k_candidates == 0 ==> r@.len() == 0,
        k_candidates > 0 ==> r@.len() == 2 && r@[0] == r@[1] && distinct_pins_below(r@[0], n_wires as u8),
        exists|cands: Seq<[u8; 3]>|
            cands.len() == k_candidates && (forall|i: int|
                0 <= i < cands.len() ==> #[trigger] distinct_pins_below(cands[i], n_wires as u8)) && (
            k_candidates > 0 ==> exists|i: int|
                #[trigger] first_stickiest(c@, cands, pos as int, window as int, i) && r@ == seq![cands[i], cands[i]]),
{
    let mut candidates: Vec<[u8; 3]> = Vec::new();
    let mut k: usize = 0;
    while k < k_candidates
        invariant
            k <= k_candidates,
            k_candidates > 0 ==> (n_wires as u8) >= 3,
            candidates@.len() == k,
            forall|i: int| 0 <= i < k ==> #[trigger] distinct_pins_below(candidates@[i], n_wires as u8),
        decreases k_candidates - k,
    {
        let gate = random_distinct_gate(rng, n_wires as u8);
        candidates.push(gate);
        k += 1;
    }
    let r = stickiest_pair(c, &candidates, pos, window);
    proof {
        if k_candidates > 0 {
            let i = choose|i: int|
                #[trigger] first_stickiest(c@, candidates@, pos as int, window as int, i) && r@ == seq![
                    candidates@[i],
                    candidates@[i],
                ];
            assert(distinct_pins_below(candidates@[i], n_wires as u8));
        }
    }
    r
}

/// `new` is `old` with the commuting neighbours at `p` and `p + 1` swapped.
pub open spec fn swapped_at(old: Seq<[u8; 3]>, new: Seq<[u8; 3]>, p: int) -> bool {
    &&& 0 <= p
    &&& p + 1 < old.len()
    &&& spec_gates_commute(old[p], old[p + 1])
    &&& new == old.update(p, old[p + 1]).update(p + 1, old[p])
}

/// Every two neighbouring gates of `s` commute.
pub open spec fn all_neighbours_commute(s: Seq<[u8; 3]>) -> bool {
    forall|i: int| 0 <= i < s.len() - 1 ==> #[trigger] spec_gates_commute(s[i], s[i + 1])
}

/// Move: swaps two random adjacent gates when they commute.  Returns whether
/// it swapped; a swap keeps the function of the circuit.  Fewer than two
/// gates never swap; when every neighbouring pair commutes a swap always
/// happens, and a swap always changes the sequence.
pub fn move_commute_swap(c: &mut CircuitSeq, rng: &mut rand::rngs::StdRng) -> (r: bool)
    ensures
        !r ==> final(c)@ == old(c)@,
        r ==> exists|p: int| #[trigger] swapped_at(old(c)@, final(c)@, p),
        r <==> final(c)@ != old(c)@,
        old(c)@.len() < 2 ==> !r,
        old(c)@.len() >= 2 && all_neighbours_commute(old(c)@) ==> r,
        gates_fit(old(c)@) ==> same_function(old(c)@, final(c)@),
{
    let n = c.gates.len();
    if n < 2 {
        return false;
    }
    let pos = rng_usize_below(rng, n - 1);
    if gates_commute(&c.gates[pos], &c.gates[pos + 1]) {
        let ghost before = c@;
        let a = c.gates[pos];
        let b = c.gates[pos + 1];
        c.gates.set(pos, b);
        c.gates.set(pos + 1, a);
        proof {
            assert(c@ == before.update(pos as int, before[pos + 1]).update(pos + 1, before[pos as int]));
            assert(swapped_at(before, c@, pos as int));
            assert(c@[pos as int] != before[pos as int]);
            if gates_fit(before) {
                lemma_swap_adjacent(before, pos as int);
            }
        }
        true
    } else {
        proof {
            assert(!spec_gates_commute(c@[pos as int], c@[pos + 1]));
        }
        false
    }
}

/// `old` with `g` inserted at `p1`, then `g` again at `p2` in the result,
/// where every gate between the two copies commutes with `g`.
pub open spec fn pair_inserted(old: Seq<[u8; 3]>, new: Seq<[u8; 3]>, g: [u8; 3], p1: int, p2: int) -> bool {
    &&& 0 <= p1 < p2 <= old.len() + 1
    &&& forall|j: int| p1 <= j < p2 - 1 ==> #[trigger] pins_commute(g, old[j])
    &&& new == old.insert(p1, g).insert(p2, g)
}

/// A gate commuting with every gate of `m` can move past all of them.
pub proof fn lemma_gate_slides(g: [u8; 3], m: Seq<[u8; 3]>)
    requires
        gate_fits(g),
        gates_fit(m),
        forall|j: int| 0 <= j < m.len() ==> #[trigger] pins_commute(g, m[j]),
    ensures
        same_function(seq![g] + m, m + seq![g]),
    decreases m.len(),
{
    if m.len() == 0 {
        assert(seq![g] + m =~= m + seq![g]);
    } else {
        let h = m[0];
        let rest = m.drop_first();
        let a = seq![g] + m;
        assert(a[0] == g && a[1] == h);
        assert(pins_commute(g, h));
        lemma_swap_adjacent(a, 0);
        let b = a.update(0, h).update(1, g);
        assert(b =~= seq![h] + (seq![g] + rest));
        assert forall|j: int| 0 <= j < rest.len() implies #[trigger] pins_commute(g, rest[j]) by {
            assert(rest[j] == m[j + 1]);
        }
        assert(gates_fit(rest)) by {
            assert forall|j: int| 0 <= j < rest.len() implies #[trigger] gate_fits(rest[j]) by {
                assert(rest[j] == m[j + 1]);
            }
        }
        lemma_gate_slides(g, rest);
        crate::infra::circuit::lemma_replace_middle(seq![h], seq![g] + rest, rest + seq![g], Seq::<[u8; 3]>::empty());
        assert(seq![h] + (seq![g] + rest) + Seq::<[u8; 3]>::empty() =~= b);
        assert(seq![h] + (rest + seq![g]) + Seq::<[u8; 3]>::empty() =~= m + seq![g]);
        lemma_same_function_transitive(a, b, m + seq![g]);
    }
}

/// A pair of copies of a reversible gate with only commuting gates between
/// them computes what the gates between compute.
proof fn lemma_pair_inserted_keeps(old: Seq<[u8; 3]>, new: Seq<[u8; 3]>, g: [u8; 3], p1: int, p2: int)
    requires
        pair_inserted(old, new, g, p1, p2),
        gates_fit(old),
        crate::infra::circuit::gate_reversible(g),
    ensures
        same_function(old, new),
{
    let pre = old.take(p1);
    let mid = old.subrange(p1, p2 - 1);
    let post = old.skip(p2 - 1);
    assert(new =~= pre + (seq![g] + mid) + (seq![g] + post));
    assert forall|j: int| 0 <= j < mid.len() implies #[trigger] pins_commute(g, mid[j]) by {
        assert(mid[j] == old[p1 + j]);
        assert(pins_commute(g, old[p1 + j]));
    }
    assert(gates_fit(mid)) by {
        assert forall|j: int| 0 <= j < mid.len() implies #[trigger] gate_fits(mid[j]) by {
            assert(mid[j] == old[p1 + j]);
        }
    }
    lemma_gate_slides(g, mid);
    crate::infra::circuit::lemma_replace_middle(pre, seq![g] + mid, mid + seq![g], seq![g] + post);
    let n2 = pre + (mid + seq![g]) + (seq![g] + post);
    let i: int = (pre.len() + mid.len()) as int;
    assert(n2[i] == g && n2[i + 1] == g);
    crate::infra::circuit::lemma_cancel_adjacent(n2, i);
    assert(n2.take(i) + n2.skip(i + 2) =~= old);
    lemma_same_function_transitive(new, n2, old);
    assert(same_function(old, new)) by {
        assert forall|x: usize| #[trigger] eval_gates(x, old) == eval_gates(x, new) by {
            assert(eval_gates(x, new) == eval_gates(x, old));
        }
    }
}

/// Move: inserts two copies of a random gate with distinct pins, which
/// together compute the identity.  The second copy aims at a later,
/// non-adjacent place (or the end), picked at random; it moves there while
/// every gate it passes commutes with that gate and stops before the first
/// that does not, so the function is kept.  Does nothing and returns
/// `false` with fewer than 3 wires.
pub fn move_insert_template(c: &mut CircuitSeq, n_wires: usize, rng: &mut rand::rngs::StdRng) -> (r: bool)
    requires
        n_wires < 3 || (n_wires as u8) >= 3,
        old(c)@.len() + 2 <= usize::MAX,
    ensures
        r == (n_wires >= 3),
        !r ==> final(c)@ == old(c)@,
        r ==> exists|g: [u8; 3], p1: int, p2: int|
            distinct_pins_below(g, n_wires as u8) && #[trigger] pair_inserted(old(c)@, final(c)@, g, p1, p2),
        r ==> final(c)@.len() == old(c)@.len() + 2,
        gates_fit(old(c)@) && n_wires as u8 as int <= usize::BITS ==> same_function(old(c)@, final(c)@),
{
    if n_wires < 3 {
        return false;
    }
    let gate = random_distinct_gate(rng, n_wires as u8);
    let n = c.gates.len();
    let pos = if n == 0 {
        0
    } else {
        rng_usize_inclusive(rng, 0, n)
    };
    let ghost c0 = c@;
    c.gates.insert(pos, gate);
    let len = c.gates.len();
    let drawn = if len <= 2 {
        len
    } else {
        let min_dist: usize = if 2 < len - 1 {
            2
        } else {
            len - 1
        };
        let range_start = if pos + min_dist < len {
            pos + min_dist
        } else {
            len
        };
        if range_start >= len {
            len
        } else {
            rng_usize_inclusive(rng, range_start, len)
        }
    };
    let mut pos2 = pos + 1;
    while pos2 < drawn && pos2 < len
        invariant
            pos < pos2 <= len,
            len == c@.len(),
            c@ == c0.insert(pos as int, gate),
            forall|j: int| pos < j < pos2 ==> #[trigger] pins_commute(gate, c@[j]),
        decreases len - pos2,
    {
        let h = c.gates[pos2];
        if !(gate[0] != h[1] && gate[0] != h[2] && h[0] != gate[1] && h[0] != gate[2]) {
            break;
        }
        pos2 += 1;
    }
    c.gates.insert(pos2, gate);
    proof {
        assert forall|j: int| pos <= j < pos2 - 1 implies #[trigger] pins_commute(gate, c0[j]) by {
            assert(c0.insert(pos as int, gate)[j + 1] == c0[j]);
        }
        assert(pair_inserted(c0, c@, gate, pos as int, pos2 as int));
        if gates_fit(c0) && n_wires as u8 as int <= usize::BITS {
            assert(crate::infra::circuit::gate_reversible(gate));
            lemma_pair_inserted_keeps(c0, c@, gate, pos as int, pos2 as int);
        }
    }
    true
}

/// `s` with `m` inserted before position `p`.
pub open spec fn inserted_at(s: Seq<[u8; 3]>, p: int, m: Seq<[u8; 3]>) -> Seq<[u8; 3]> {
    s.take(p) + m + s.skip(p)
}

/// `new` is `old` with the cancelling pair `g g` inserted before `p1` and
/// again before `p2` of the result, where the second pair lies at least two
/// positions after the first unless it goes to the very end.
pub open spec fn pairs_inserted(old: Seq<[u8; 3]>, new: Seq<[u8; 3]>, g: [u8; 3], p1: int, p2: int) -> bool {
    let mid = inserted_at(old, p1, seq![g, g]);
    &&& 0 <= p1 <= old.len()
    &&& (p1 + 4 <= p2 <= mid.len() || p2 == mid.len())
    &&& new == inserted_at(mid, p2, seq![g, g])
}

/// Inserting a sequence that computes the identity keeps the function.
proof fn lemma_inserted_identity(s: Seq<[u8; 3]>, p: int, m: Seq<[u8; 3]>)
    requires
        0 <= p <= s.len(),
        is_identity_fn(m),
    ensures
        same_function(s, inserted_at(s, p, m)),
{
    lemma_insert_identity(s.take(p), m, s.skip(p));
    assert(s.take(p) + s.skip(p) =~= s);
}

/// Move: inserts the stickiest of `k_candidates` cancelling pairs `g g` at a
/// random position and a second copy of the pair at a later position.
/// Returns `false`, doing nothing, with fewer than 3 wires or no candidate.
/// Both inserted pairs cancel, so the function of the circuit is kept.
pub fn move_insert_template_adversarial(
    c: &mut CircuitSeq,
    n_wires: usize,
    k_candidates: usize,
    window: usize,
    rng: &mut rand::rngs::StdRng,
) -> (r: bool)
    requires
        n_wires < 3 || (n_wires as u8) >= 3,
        old(c)@.len() + 4 + window <= usize::MAX,
        old(c)@.len() <= usize::MAX / 2,
    ensures
        r == (n_wires >= 3 && k_candidates > 0),
        !r ==> final(c)@ == old(c)@,
        r ==> exists|g: [u8; 3], p1: int, p2: int|
            distinct_pins_below(g, n_wires as u8) && #[trigger] pairs_inserted(old(c)@, final(c)@, g, p1, p2),
        gates_fit(old(c)@) && gates_fit(final(c)@) ==> same_function(old(c)@, final(c)@),
{
    if n_wires < 3 {
        return false;
    }
    let n = c.gates.len();
    let pos = if n == 0 {
        0
    } else {
        rng_usize_inclusive(rng, 0, n)
    };
    let template = select_adversarial_template(c, pos, n_wires, k_candidates, window, rng);
    if template.len() == 0 {
        return false;
    }
    let ghost before = c@;
    let ghost g = template@[0];
    let tlen = template.len();
    let first = CircuitSeq { gates: template };
    proof {
        assert(first@ =~= seq![g, g]);
    }
    c.splice(pos, &first);
    let ghost mid = c@;
    let len = c.gates.len();
    let pos2 = if len <= tlen + 2 {
        len
    } else {
        let range_start = if pos + tlen + 2 < len {
            pos + tlen + 2
        } else {
            len
        };
        if range_start >= len {
            len
        } else {
            rng_usize_inclusive(rng, range_start, len)
        }
    };
    let second = first.inverse();
    proof {
        assert(second@ =~= seq![g, g]);
    }
    c.splice(pos2, &second);
    proof {
        assert(mid == inserted_at(before, pos as int, seq![g, g]));
        assert(pairs_inserted(before, c@, g, pos as int, pos2 as int));
        if gates_fit(before) && gates_fit(c@) {
            assert(mid[pos as int] == g);
            assert(c@.take(pos as int) == mid.take(pos as int)) by {
                assert forall|i: int| 0 <= i < pos implies c@[i] == mid[i] by {}
            }
            assert(gate_fits(g)) by {
                if pos2 > pos {
                    assert(c@[pos as int] == mid[pos as int]);
                } else {
                    assert(c@[pos2 as int] == g);
                }
            }
            lemma_pair_is_identity(g);
            lemma_inserted_identity(before, pos as int, seq![g, g]);
            lemma_inserted_identity(mid, pos2 as int, seq![g, g]);
            lemma_same_function_transitive(before, mid, c@);
        }
    }
    true
}

/// `new` is `old` with `patch` inserted before `p1` and the reversed patch
/// inserted before `p2` of the result, at or after the end of the patch.
pub open spec fn patch_inserted(old: Seq<[u8; 3]>, new: Seq<[u8; 3]>, patch: Seq<[u8; 3]>, p1: int, p2: int) -> bool {
    let mid = inserted_at(old, p1, patch);
    &&& 0 <= p1 <= old.len()
    &&& p1 + patch.len() <= p2 <= mid.len()
    &&& new == inserted_at(mid, p2, patch.reverse())
}

/// Every gate of the patch has distinct pins below `n`.
pub open spec fn patch_gates_valid(patch: Seq<[u8; 3]>, n: u8) -> bool {
    forall|i: int| 0 <= i < patch.len() ==> #[trigger] distinct_pins_below(patch[i], n)
}

/// Move: draws a patch of 2 to 4 random gates with distinct pins, inserts it
/// at a random position and its reverse at a random position at or after
/// its end.  Does nothing and returns `false` with fewer than 3 wires.
pub fn move_patch_pair(c: &mut CircuitSeq, n_wires: usize, rng: &mut rand::rngs::StdRng) -> (r: bool)
    requires
        n_wires < 3 || (n_wires as u8) >= 3,
        old(c)@.len() + 8 <= usize::MAX,
    ensures
        r == (n_wires >= 3),
        !r ==> final(c)@ == old(c)@,
        r ==> exists|patch: Seq<[u8; 3]>, p1: int, p2: int|
            2 <= patch.len() <= 4 && patch_gates_valid(patch, n_wires as u8)
                && #[trigger] patch_inserted(old(c)@, final(c)@, patch, p1, p2),
{
    if n_wires < 3 {
        return false;
    }
    let patch_len = rng_usize_inclusive(rng, 2, 4);
    let mut patch: Vec<[u8; 3]> = Vec::with_capacity(patch_len);
    let mut k: usize = 0;
    while k < patch_len
        invariant
            k <= patch_len,
            (n_wires as u8) >= 3,
            patch@.len() == k,
            patch_gates_valid(patch@, n_wires as u8),
        decreases patch_len - k,
    {
        let g = random_distinct_gate(rng, n_wires as u8);
        patch.push(g);
        k += 1;
    }
    let ghost before = c@;
    let n = c.gates.len();
    let pos1 = if n == 0 {
        0
    } else {
        rng_usize_inclusive(rng, 0, n)
    };
    let first = CircuitSeq { gates: patch };
    c.splice(pos1, &first);
    let len = c.gates.len();
    let pos2 = if len <= patch_len {
        len
    } else {
        let range_start = if pos1 + patch_len < len {
            pos1 + patch_len
        } else {
            len
        };
        rng_usize_inclusive(rng, range_start, len)
    };
    let second = first.inverse();
    c.splice(pos2, &second);
    proof {
        assert(patch_inserted(before, c@, first@, pos1 as int, pos2 as int));
    }
    true
}

} // verus!
