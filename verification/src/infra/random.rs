//! Random draws, and gate shooting.
//!
//! The draws come from `rand`; of a draw only its range is stated.
use vstd::prelude::*;

use crate::infra::circuit::{eval_gates, gates_fit, lemma_swap_adjacent, pins_commute, same_function};

verus! {

#[verifier::external_type_specification]
#[verifier::external_body]
pub struct ExStdRng(rand::rngs::StdRng);

/// `rand::SeedableRng::seed_from_u64` for the standard generator.
#[verifier::external_body]
pub(crate) fn seeded_rng(seed: u64) -> (r: rand::rngs::StdRng) {
    <rand::rngs::StdRng as rand::SeedableRng>::seed_from_u64(seed)
}

/// `rand::random::<u64>()`: a fresh random `u64`.
#[verifier::external_body]
pub(crate) fn random_u64() -> (r: u64) {
    rand::random::<u64>()
}

/// `Rng::fill` on the thread-local generator: 32 random bytes.  Nothing is
/// stated of them.
#[verifier::external_body]
pub(crate) fn random_bytes32() -> (r: [u8; 32]) {
    let mut bytes = [0u8; 32];
    rand::Rng::fill(&mut rand::rng(), &mut bytes);
    bytes
}

/// `Rng::random_range(0..n)` on the thread-local generator: a value below
/// `n` (the range must not be empty).
#[verifier::external_body]
pub(crate) fn random_below(n: usize) -> (r: usize)
    requires
        n > 0,
    ensures
        r < n,
{
    rand::Rng::random_range(&mut rand::rng(), 0..n)
}

/// One uniform draw below `n` from the thread-local generator.  A value
/// stated to come from a call of this function (by `call_ensures`) is a
/// value it actually returned.
pub fn draw_below(n: usize) -> (r: usize)
    requires
        n > 0,
    ensures
        r < n,
{
    random_below(n)
}

/// `Rng::random_range(0..n)` on a `u8` range: a value below `n`.
#[verifier::external_body]
pub(crate) fn rng_u8_below(rng: &mut rand::rngs::StdRng, n: u8) -> (r: u8)
    requires
        n > 0,
    ensures
        r < n,
{
    rand::Rng::random_range(rng, 0..n)
}

/// `Rng::random_range(0..n)` on a `usize` range: a value below `n`.
#[verifier::external_body]
pub(crate) fn rng_usize_below(rng: &mut rand::rngs::StdRng, n: usize) -> (r: usize)
    requires
        n > 0,
    ensures
        r < n,
{
    rand::Rng::random_range(rng, 0..n)
}

/// `Rng::random_range(lo..=hi)` on `usize`: a value in `lo ..= hi`.
#[verifier::external_body]
pub(crate) fn rng_usize_inclusive(rng: &mut rand::rngs::StdRng, lo: usize, hi: usize) -> (r: usize)
    requires
        lo <= hi,
    ensures
        lo <= r <= hi,
{
    rand::Rng::random_range(rng, lo..=hi)
}

/// `Rng::random_ratio(numerator, denominator)`: `true` with probability
/// `numerator / denominator`.  Nothing is stated of the outcome.
#[verifier::external_body]
pub(crate) fn rng_ratio(rng: &mut rand::rngs::StdRng, numerator: u32, denominator: u32) -> (r: bool)
    requires
        0 < denominator,
        numerator <= denominator,
{
    rand::Rng::random_ratio(rng, numerator, denominator)
}

/// `SliceRandom::shuffle` on the first `k` items of `v`: they are permuted
/// in place (which permutation is up to the generator); the rest stay.
#[verifier::external_body]
pub(crate) fn shuffle_prefix(v: &mut Vec<usize>, k: usize, rng: &mut rand::rngs::StdRng)
    requires
        k <= old(v)@.len(),
    ensures
        final(v)@.len() == old(v)@.len(),
        final(v)@.skip(k as int) == old(v)@.skip(k as int),
        final(v)@.take(k as int).to_multiset() == old(v)@.take(k as int).to_multiset(),
{
    rand::seq::SliceRandom::shuffle(&mut v[..k], rng)
}

/// Two gates collide when the target of one is a control of the other.
pub open spec fn spec_collides(a: [u8; 3], b: [u8; 3]) -> bool {
    a[0] == b[1] || a[0] == b[2] || a[1] == b[0] || a[2] == b[0]
}

/// `old` with its gate at `idx` moved to position `to` (`to <= idx`).
pub open spec fn moved_left(old: Seq<[u8; 3]>, idx: int, to: int) -> Seq<[u8; 3]> {
    old.take(to) + seq![old[idx]] + old.subrange(to, idx) + old.skip(idx + 1)
}

/// Moves gate `idx` left past every gate it does not collide with,
/// stopping just right of the first colliding gate (or at the front), and
/// returns its new position.
pub fn shoot_left_vec(gates: &mut Vec<[u8; 3]>, idx: usize) -> (r: usize)
    requires
        idx < old(gates)@.len(),
    ensures
        r <= idx,
        final(gates)@ == moved_left(old(gates)@, idx as int, r as int),
        forall|j: int| r <= j < idx ==> !spec_collides(#[trigger] old(gates)@[j], old(gates)@[idx as int]),
        r > 0 ==> spec_collides(old(gates)@[r - 1], old(gates)@[idx as int]),
        gates_fit(old(gates)@) ==> same_function(old(gates)@, final(gates)@),
{
    let ghost g0 = gates@;
    let g = gates[idx];
    let mut j: usize = idx;
    let mut moving = true;
    proof {
        assert(moved_left(g0, idx as int, idx as int) =~= g0);
    }
    while j > 0 && moving
        invariant
            j <= idx,
            !moving ==> j > 0 && spec_collides(g0[j - 1], g),
            idx < g0.len(),
            g == g0[idx as int],
            gates@ == moved_left(g0, idx as int, j as int),
            forall|k: int| j <= k < idx ==> !spec_collides(#[trigger] g0[k], g),
            gates_fit(g0) ==> same_function(g0, gates@),
        decreases j, (if moving { 1int } else { 0int }),
    {
        let prev = gates[j - 1];
        proof {
            assert(gates@[j - 1] == g0[j - 1]);
            assert(gates@[j as int] == g);
        }
        if prev[0] == g[1] || prev[0] == g[2] || prev[1] == g[0] || prev[2] == g[0] {
            moving = false;
        } else {
            let ghost before = gates@;
            gates.set(j - 1, g);
            gates.set(j, prev);
            proof {
                assert(gates@ =~= moved_left(g0, idx as int, j - 1));
                if gates_fit(g0) {
                    assert(gates_fit(before)) by {
                        assert forall|k: int| 0 <= k < before.len() implies #[trigger] crate::infra::circuit::gate_fits(before[k]) by {
                            if k < j - 1 {
                                assert(before[k] == g0[k]);
                            } else if k == j {
                                assert(before[k] == g0[idx as int]);
                            } else if k == j - 1 {
                                assert(before[k] == g0[k]);
                            } else if k <= idx {
                                assert(before[k] == g0[k - 1]);
                            } else {
                                assert(before[k] == g0[k]);
                            }
                        }
                    }
                    assert(pins_commute(before[j - 1], before[j as int]));
                    lemma_swap_adjacent(before, j - 1);
                    assert(before.update(j - 1, before[j as int]).update(j as int, before[j - 1])
                        =~= gates@);
                    crate::infra::circuit::lemma_same_function_transitive(g0, before, gates@);
                }
            }
            j -= 1;
        }
    }
    j
}

} // verus!
