//! Random mixer circuits: wide, hard-to-reduce circuits for conjugation.
use vstd::prelude::*;

use super::gadgets::{all_distinct_pins_below, distinct_pins_below, draw_distinct, random_distinct_gate};
use crate::infra::circuit::CircuitSeq;
use crate::infra::random::{rng_ratio, rng_u8_below};

verus! {

/// Locality mode for mixer generation.
#[derive(Clone, Copy, Debug, PartialEq, Eq)]
pub enum MixerLocality {
    /// Gates prefer nearby wires.
    Local,
    /// Gates can use any wires.
    Global,
    /// Mix of local and global gates.
    Mixed,
}

impl Default for MixerLocality {
    fn default() -> (r: Self)
        ensures
            r == MixerLocality::Mixed,
    {
        MixerLocality::Mixed
    }
}

/// The local gate of layer `layer` before any redraw of its second control:
/// target `layer mod n`, controls the next two wires (mod `n`).
pub open spec fn local_pins(n: u8, layer: usize) -> (u8, u8, u8) {
    let base = (layer % (n as usize)) as u8;
    (base, ((base + 1) % (n as int)) as u8, ((base + 2) % (n as int)) as u8)
}

/// Reduction of a value below twice the modulus.
proof fn lemma_mod_once(x: int, n: int)
    requires
        0 < n,
        0 <= x < 2 * n,
    ensures
        x % n == if x < n {
            x
        } else {
            x - n
        },
{
    if x < n {
        vstd::arithmetic::div_mod::lemma_fundamental_div_mod_converse(x, n, 0, x);
    } else {
        vstd::arithmetic::div_mod::lemma_fundamental_div_mod_converse(x, n, 1, x - n);
    }
}

/// A gate on nearby wires: target `layer mod n`, control 1 the next wire;
/// control 2 the wire after, or, with probability 3/10, a random wire
/// different from both.
pub fn generate_local_gate(n: u8, layer: usize, rng: &mut rand::rngs::StdRng) -> (g: [u8; 3])
    requires
        n >= 3,
        (layer % (n as usize)) + 2 <= 255,
    ensures
        distinct_pins_below(g, n),
        g[0] == local_pins(n, layer).0,
        g[1] == local_pins(n, layer).1,
{
    let base = (layer % (n as usize)) as u8;
    let t = base;
    proof {
        lemma_mod_once(base + 1, n as int);
        lemma_mod_once(base + 2, n as int);
    }
    let c1 = (base + 1) % n;
    let mut c2 = (base + 2) % n;
    if rng_ratio(rng, 3, 10) {
        c2 = draw_distinct(rng, n, t, c1);
    }
    [t, c1, c2]
}

/// A gate on random wires: target, then controls redrawn until all three
/// pins differ.
pub fn generate_global_gate(n: u8, rng: &mut rand::rngs::StdRng) -> (g: [u8; 3])
    requires
        n >= 3,
    ensures
        distinct_pins_below(g, n),
{
    random_distinct_gate(rng, n)
}

/// A random mixer of `depth` gates on `num_wires` wires; with `Mixed`
/// locality each gate is local or global with probability 1/2.
pub fn random_mixer(
    num_wires: usize,
    depth: usize,
    locality: MixerLocality,
    rng: &mut rand::rngs::StdRng,
) -> (r: CircuitSeq)
    requires
        (num_wires as u8) >= 3,
        locality == MixerLocality::Global || (num_wires as u8) < 255 || depth <= 254,
    ensures
        r@.len() == depth,
        all_distinct_pins_below(r@, num_wires as u8),
        locality == MixerLocality::Local ==> forall|i: int|
            0 <= i < depth ==> (#[trigger] r@[i])[0] == local_pins(num_wires as u8, i as usize).0,
{
    let n = num_wires as u8;
    let mut gates: Vec<[u8; 3]> = Vec::with_capacity(depth);
    let mut i: usize = 0;
    while i < depth
        invariant
            i <= depth,
            n == num_wires as u8,
            n >= 3,
            locality == MixerLocality::Global || n < 255 || depth <= 254,
            gates@.len() == i,
            all_distinct_pins_below(gates@, n),
            locality == MixerLocality::Local ==> forall|j: int|
                0 <= j < i ==> (#[trigger] gates@[j])[0] == local_pins(n, j as usize).0,
        decreases depth - i,
    {
        proof {
            if n < 255 {
                assert((i % (n as usize)) < n as usize);
            } else if locality != MixerLocality::Global {
                vstd::arithmetic::div_mod::lemma_small_mod(i as nat, 255);
            }
        }
        let gate = match locality {
            MixerLocality::Local => generate_local_gate(n, i, rng),
            MixerLocality::Global => generate_global_gate(n, rng),
            MixerLocality::Mixed => {
                if rng_ratio(rng, 1, 2) {
                    generate_local_gate(n, i, rng)
                } else {
                    generate_global_gate(n, rng)
                }
            },
        };
        let ghost before = gates@;
        gates.push(gate);
        proof {
            assert forall|k: int| 0 <= k < gates@.len() implies #[trigger] distinct_pins_below(gates@[k], n) by {
                if k < before.len() {
                    assert(gates@[k] == before[k]);
                }
            }
            if locality == MixerLocality::Local {
                assert forall|j: int| 0 <= j < i + 1 implies (#[trigger] gates@[j])[0] == local_pins(n, j as usize).0 by {
                    if j < i {
                        assert(gates@[j] == before[j]);
                    }
                }
            }
        }
        i += 1;
    }
    CircuitSeq { gates }
}

/// Number of positions `j < k` whose gate has the same target as the next.
pub open spec fn same_target_upto(s: Seq<[u8; 3]>, k: int) -> nat
    decreases k,
{
    if k <= 0 {
        0
    } else {
        same_target_upto(s, k - 1) + if s[k - 1][0] == s[k][0] {
            1nat
        } else {
            0nat
        }
    }
}

/// Number of neighbouring gates with the same target, a reduction
/// opportunity that the reducibility estimate weighs.
pub fn count_same_target_neighbours(c: &CircuitSeq) -> (r: usize)
    ensures
        r == (if c@.len() < 2 { 0 } else { same_target_upto(c@, c@.len() - 1) }),
{
    let n = c.gates.len();
    if n < 2 {
        return 0;
    }
    let mut count: usize = 0;
    let mut i: usize = 0;
    while i < n - 1
        invariant
            n == c@.len(),
            n >= 2,
            i <= n - 1,
            count == same_target_upto(c@, i as int),
            count <= i,
        decreases n - 1 - i,
    {
        if c.gates[i][0] == c.gates[i + 1][0] {
            count += 1;
        }
        i += 1;
    }
    count
}

} // verus!
