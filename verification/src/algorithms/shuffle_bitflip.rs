//! Wire shuffle with bit-flips.  A permutation `w` of the wires `0..n` and a
//! mask `s` define `β_{w,s}(x)_i = x_{w(i)} ⊕ s_i`; this module composes and
//! inverts such pairs and builds circuits that compute them.
use vstd::prelude::*;

use crate::config::FlipMode;
use crate::infra::circuit::CircuitSeq;
use crate::infra::random::rng_usize_below;

verus! {

/// `p` is a permutation of `0..n`.
pub open spec fn is_permutation(p: Seq<usize>, n: nat) -> bool {
    &&& p.len() == n
    &&& forall|i: int| 0 <= i < n ==> (#[trigger] p[i] as nat) < n
    &&& forall|i: int, j: int| 0 <= i < n && 0 <= j < n && i != j ==> #[trigger] p[i] != #[trigger] p[j]
    &&& forall|v: usize| (v as nat) < n ==> #[trigger] p.contains(v)
}

/// Every entry of the mask is 0 or 1.
pub open spec fn mask01(s: Seq<u8>) -> bool {
    forall|i: int| 0 <= i < s.len() ==> #[trigger] s[i] <= 1
}

/// The last position below `k` where `w` holds `v`, or 0 when none does.
pub open spec fn last_index_of(w: Seq<usize>, k: int, v: usize) -> usize
    decreases k,
{
    if k <= 0 {
        0
    } else if w[k - 1] == v {
        (k - 1) as usize
    } else {
        last_index_of(w, k - 1, v)
    }
}

/// The last position below `k > 0` is below `k`.
pub proof fn lemma_last_index_below(w: Seq<usize>, k: int, v: usize)
    requires
        0 < k <= usize::MAX,
    ensures
        (last_index_of(w, k, v) as int) < k,
    decreases k,
{
    if w[k - 1] != v {
        if k > 1 {
            lemma_last_index_below(w, k - 1, v);
        } else {
            assert(last_index_of(w, 0, v) == 0);
        }
    }
}

/// `β_{w,s}` on a bit string: position `i < n` takes bit `w(i)`, flipped
/// where `s_i` is nonzero; positions from `n` on are kept.
pub open spec fn beta(x: Seq<bool>, w: Seq<usize>, s: Seq<u8>, n: nat) -> Seq<bool> {
    Seq::new(
        x.len(),
        |i: int|
            if i < n {
                x[w[i] as int] != (s[i] != 0)
            } else {
                x[i]
            },
    )
}

/// Permutation of `(w, s)` followed by `(w', s')`: `i ↦ w(w'(i))`.
pub open spec fn composed_perm(w: Seq<usize>, wp: Seq<usize>) -> Seq<usize> {
    Seq::new(w.len(), |i: int| w[wp[i] as int])
}

/// Mask of `(w, s)` followed by `(w', s')`: `i ↦ s(w'(i)) ⊕ s'(i)`.
pub open spec fn composed_mask(w: Seq<usize>, s: Seq<u8>, wp: Seq<usize>, sp: Seq<u8>) -> Seq<u8> {
    Seq::new(w.len(), |i: int| s[wp[i] as int] ^ sp[i])
}

/// Inverse permutation: `v ↦` the last `i` with `w(i) = v`.
pub open spec fn inverse_perm(w: Seq<usize>) -> Seq<usize> {
    Seq::new(w.len(), |v: int| last_index_of(w, w.len() as int, v as usize))
}

/// Mask of the inverse pair: `v ↦ s(w⁻¹(v))`.
pub open spec fn inverse_mask(w: Seq<usize>, s: Seq<u8>) -> Seq<u8> {
    Seq::new(w.len(), |v: int| s[inverse_perm(w)[v] as int])
}

/// The identity permutation of `0..n`.
pub open spec fn identity_perm(n: nat) -> Seq<usize> {
    Seq::new(n, |i: int| i as usize)
}

/// The mask of `n` zeros.
pub open spec fn zero_mask(n: nat) -> Seq<u8> {
    Seq::new(n, |i: int| 0u8)
}

/// Where `w` holds `v` below `k`, the last such position holds `v`.
proof fn lemma_last_index_hits(w: Seq<usize>, k: int, v: usize, j: int)
    requires
        0 <= j < k <= w.len(),
        w[j] == v,
        k <= usize::MAX,
    ensures
        w[last_index_of(w, k, v) as int] == v,
        j <= last_index_of(w, k, v),
    decreases k,
{
    if w[k - 1] != v {
        lemma_last_index_hits(w, k - 1, v, j);
    }
}

/// In a sequence without repeats, the last position of `w[i]` is `i`.
proof fn lemma_last_index_unique(w: Seq<usize>, i: int)
    requires
        0 <= i < w.len() <= usize::MAX,
        forall|a: int, b: int| 0 <= a < w.len() && 0 <= b < w.len() && a != b ==> #[trigger] w[a] != #[trigger] w[b],
    ensures
        last_index_of(w, w.len() as int, w[i]) == i,
{
    lemma_last_index_hits(w, w.len() as int, w[i], i);
    lemma_last_index_below(w, w.len() as int, w[i]);
}

/// A pair composed with its inverse, in either order, is the identity:
/// no wire moves and no bit flips.
pub proof fn lemma_compose_inverse_is_identity(w: Seq<usize>, s: Seq<u8>)
    requires
        is_permutation(w, w.len()),
        w.len() <= usize::MAX,
        s.len() == w.len(),
    ensures
        composed_perm(w, inverse_perm(w)) == identity_perm(w.len()),
        composed_mask(w, s, inverse_perm(w), inverse_mask(w, s)) == zero_mask(w.len()),
        composed_perm(inverse_perm(w), w) == identity_perm(w.len()),
        composed_mask(inverse_perm(w), inverse_mask(w, s), w, s) == zero_mask(w.len()),
{
    let n = w.len();
    let inv = inverse_perm(w);
    assert forall|v: int| 0 <= v < n implies w[#[trigger] inv[v] as int] == v && (inv[v] as int)
        < n by {
        assert(w.contains(v as usize));
        let j = choose|j: int| 0 <= j < n && w[j] == v as usize;
        lemma_last_index_hits(w, n as int, v as usize, j);
        lemma_last_index_below(w, n as int, v as usize);
    }
    assert forall|i: int| 0 <= i < n implies #[trigger] inv[w[i] as int] == i by {
        lemma_last_index_unique(w, i);
    }
    assert forall|x: u8| #[trigger] (x ^ x) == 0u8 by {
        assert(x ^ x == 0u8) by (bit_vector);
    }
    assert(composed_perm(w, inv) =~= identity_perm(n));
    assert(composed_mask(w, s, inv, inverse_mask(w, s)) =~= zero_mask(n));
    assert(composed_perm(inv, w) =~= identity_perm(n));
    assert(composed_mask(inv, inverse_mask(w, s), w, s) =~= zero_mask(n));
}

/// Applying `(w, s)` and then `(w', s')` is `β` of the composed pair, for
/// masks of zeros and ones.
pub proof fn lemma_compose_semantics(
    x: Seq<bool>,
    w: Seq<usize>,
    s: Seq<u8>,
    wp: Seq<usize>,
    sp: Seq<u8>,
)
    requires
        w.len() <= x.len(),
        s.len() == w.len(),
        wp.len() == w.len(),
        sp.len() == w.len(),
        mask01(s),
        mask01(sp),
        forall|i: int| 0 <= i < w.len() ==> (#[trigger] w[i] as int) < w.len(),
        forall|i: int| 0 <= i < w.len() ==> (#[trigger] wp[i] as int) < w.len(),
    ensures
        beta(beta(x, w, s, w.len()), wp, sp, w.len()) == beta(
            x,
            composed_perm(w, wp),
            composed_mask(w, s, wp, sp),
            w.len(),
        ),
{
    let n = w.len();
    let lhs = beta(beta(x, w, s, n), wp, sp, n);
    let rhs = beta(x, composed_perm(w, wp), composed_mask(w, s, wp, sp), n);
    assert forall|i: int| 0 <= i < x.len() implies lhs[i] == rhs[i] by {
        if i < n {
            let a = s[wp[i] as int];
            let b = sp[i];
            assert(a <= 1 && b <= 1);
            assert(((a ^ b) != 0) == ((a != 0) != (b != 0))) by (bit_vector)
                requires
                    a <= 1,
                    b <= 1,
            ;
        }
    }
    assert(lhs =~= rhs);
}

/// Cumulative shuffle and flip mask.
#[derive(Debug, Clone)]
pub struct ShuffleBitflipState {
    pub permutation: Vec<usize>,
    pub flip_mask: Vec<u8>,
}

impl ShuffleBitflipState {
    /// The identity on `width` wires: no move, no flip.
    pub fn identity(width: usize) -> (r: Self)
        ensures
            r.permutation@ == identity_perm(width as nat),
            r.flip_mask@ == zero_mask(width as nat),
    {
        let mut permutation: Vec<usize> = Vec::with_capacity(width);
        let mut flip_mask: Vec<u8> = Vec::with_capacity(width);
        let mut i: usize = 0;
        while i < width
            invariant
                i <= width,
                permutation@ == Seq::new(i as nat, |j: int| j as usize),
                flip_mask@ == Seq::new(i as nat, |j: int| 0u8),
            decreases width - i,
        {
            permutation.push(i);
            flip_mask.push(0);
            i += 1;
            proof {
                assert(permutation@ =~= Seq::new(i as nat, |j: int| j as usize));
                assert(flip_mask@ =~= Seq::new(i as nat, |j: int| 0u8));
            }
        }
        proof {
            assert(permutation@ =~= identity_perm(width as nat));
            assert(flip_mask@ =~= zero_mask(width as nat));
        }
        ShuffleBitflipState { permutation, flip_mask }
    }

    /// This pair followed by `(w', s')`: `β_{w',s'} ∘ β_{w,s}`, whose
    /// permutation is `i ↦ w(w'(i))` and mask `i ↦ s(w'(i)) ⊕ s'(i)`.
    pub fn compose(&self, w_prime: &[usize], s_prime: &[u8]) -> (r: Self)
        requires
            self.flip_mask@.len() >= self.permutation@.len(),
            w_prime@.len() >= self.permutation@.len(),
            s_prime@.len() >= self.permutation@.len(),
            forall|i: int|
                0 <= i < self.permutation@.len() ==> (#[trigger] w_prime@[i] as nat)
                    < self.permutation@.len(),
        ensures
            r.permutation@ == composed_perm(self.permutation@, w_prime@),
            r.flip_mask@ == composed_mask(self.permutation@, self.flip_mask@, w_prime@, s_prime@),
    {
        let n = self.permutation.len();
        let mut w_new: Vec<usize> = Vec::with_capacity(n);
        let mut s_new: Vec<u8> = Vec::with_capacity(n);
        let mut i: usize = 0;
        while i < n
            invariant
                i <= n,
                n == self.permutation@.len(),
                self.flip_mask@.len() >= n,
                w_prime@.len() >= n,
                s_prime@.len() >= n,
                forall|j: int| 0 <= j < n ==> (#[trigger] w_prime@[j] as nat) < n,
                w_new@ == Seq::new(i as nat, |j: int| self.permutation@[w_prime@[j] as int]),
                s_new@ == Seq::new(i as nat, |j: int| self.flip_mask@[w_prime@[j] as int] ^ s_prime@[j]),
            decreases n - i,
        {
            let wp = w_prime[i];
            w_new.push(self.permutation[wp]);
            s_new.push(self.flip_mask[wp] ^ s_prime[i]);
            i += 1;
            proof {
                assert(w_new@ =~= Seq::new(i as nat, |j: int| self.permutation@[w_prime@[j] as int]));
                assert(s_new@ =~= Seq::new(
                    i as nat,
                    |j: int| self.flip_mask@[w_prime@[j] as int] ^ s_prime@[j],
                ));
            }
        }
        proof {
            assert(w_new@ =~= composed_perm(self.permutation@, w_prime@));
            assert(s_new@ =~= composed_mask(self.permutation@, self.flip_mask@, w_prime@, s_prime@));
        }
        ShuffleBitflipState { permutation: w_new, flip_mask: s_new }
    }

    /// The inverse pair `β_{w⁻¹, w⁻¹(s)}`: position `v` of the permutation
    /// takes the (last) `i` with `w(i) = v`, and the mask at `v` is `s` at
    /// that position.
    pub fn inverse(&self) -> (r: Self)
        requires
            self.flip_mask@.len() >= self.permutation@.len(),
            forall|i: int|
                0 <= i < self.permutation@.len() ==> (#[trigger] self.permutation@[i] as nat)
                    < self.permutation@.len(),
        ensures
            r.permutation@ == inverse_perm(self.permutation@),
            r.flip_mask@ == inverse_mask(self.permutation@, self.flip_mask@),
    {
        let n = self.permutation.len();
        let ghost w = self.permutation@;
        let mut w_inv: Vec<usize> = Vec::with_capacity(n);
        let mut k: usize = 0;
        while k < n
            invariant
                k <= n,
                w_inv@ == Seq::new(k as nat, |j: int| 0usize),
            decreases n - k,
        {
            w_inv.push(0);
            k += 1;
            proof {
                assert(w_inv@ =~= Seq::new(k as nat, |j: int| 0usize));
            }
        }
        let mut i: usize = 0;
        while i < n
            invariant
                i <= n,
                n == w.len(),
                w == self.permutation@,
                forall|j: int| 0 <= j < n ==> (#[trigger] w[j] as nat) < n,
                w_inv@.len() == n,
                forall|v: int| 0 <= v < n ==> #[trigger] w_inv@[v] == last_index_of(w, i as int, v as usize),
            decreases n - i,
        {
            let target = self.permutation[i];
            w_inv.set(target, i);
            i += 1;
            proof {
                assert forall|v: int| 0 <= v < n implies #[trigger] w_inv@[v] == last_index_of(
                    w,
                    i as int,
                    v as usize,
                ) by {
                    assert(last_index_of(w, i as int, v as usize) == if w[i - 1] == v as usize {
                        (i - 1) as usize
                    } else {
                        last_index_of(w, i - 1, v as usize)
                    });
                }
            }
        }
        proof {
            assert forall|j: int| 0 <= j < n implies (#[trigger] w_inv@[j] as nat) < n by {
                lemma_last_index_below(w, n as int, j as usize);
            }
            assert(w_inv@ =~= Seq::new(n as nat, |j: int| last_index_of(w, n as int, j as usize)));
        }
        let mut s_inv: Vec<u8> = Vec::with_capacity(n);
        let mut v: usize = 0;
        while v < n
            invariant
                v <= n,
                n == w.len(),
                w == self.permutation@,
                self.flip_mask@.len() >= n,
                w_inv@ == Seq::new(n as nat, |j: int| last_index_of(w, n as int, j as usize)),
                forall|j: int| 0 <= j < n ==> (#[trigger] w_inv@[j] as nat) < n,
                s_inv@ == Seq::new(v as nat, |j: int| self.flip_mask@[w_inv@[j] as int]),
            decreases n - v,
        {
            s_inv.push(self.flip_mask[w_inv[v]]);
            v += 1;
            proof {
                assert(s_inv@ =~= Seq::new(v as nat, |j: int| self.flip_mask@[w_inv@[j] as int]));
            }
        }
        proof {
            assert(w_inv@ =~= inverse_perm(w));
            assert(s_inv@ =~= inverse_mask(w, self.flip_mask@));
        }
        ShuffleBitflipState { permutation: w_inv, flip_mask: s_inv }
    }
}

/// One ORNB gate on a bit string: the target flips when the first control
/// is set or the second is clear.
pub open spec fn gate_on_bits(st: Seq<bool>, g: [u8; 3]) -> Seq<bool> {
    st.update(g[0] as int, st[g[0] as int] != (st[g[1] as int] || !st[g[2] as int]))
}

/// The gates applied in order to a bit string.
pub open spec fn run_bits(st: Seq<bool>, gates: Seq<[u8; 3]>) -> Seq<bool>
    decreases gates.len(),
{
    if gates.len() == 0 {
        st
    } else {
        gate_on_bits(run_bits(st, gates.drop_last()), gates.last())
    }
}

/// Running `a` then `b` is running `a + b`.
pub proof fn lemma_run_concat(st: Seq<bool>, a: Seq<[u8; 3]>, b: Seq<[u8; 3]>)
    ensures
        run_bits(st, a + b) == run_bits(run_bits(st, a), b),
    decreases b.len(),
{
    if b.len() == 0 {
        assert(a + b =~= a);
    } else {
        lemma_run_concat(st, a, b.drop_last());
        assert((a + b).drop_last() =~= a + b.drop_last());
        assert((a + b).last() == b.last());
    }
}

/// `s` with the entries at `a` and `b` exchanged.
pub open spec fn swap_at<A>(s: Seq<A>, a: int, b: int) -> Seq<A> {
    s.update(a, s[b]).update(b, s[a])
}

/// The swaps applied in order.
pub open spec fn apply_swaps<A>(s: Seq<A>, sw: Seq<(usize, usize)>) -> Seq<A>
    decreases sw.len(),
{
    if sw.len() == 0 {
        s
    } else {
        swap_at(apply_swaps(s, sw.drop_last()), sw.last().0 as int, sw.last().1 as int)
    }
}

/// Both positions of every swap are below `m`.
pub open spec fn swaps_below(sw: Seq<(usize, usize)>, m: nat) -> bool {
    forall|k: int| 0 <= k < sw.len() ==> ((#[trigger] sw[k]).0 as nat) < m && (sw[k].1 as nat) < m
}

/// Swapping positions of a sequence is reading it through the same swaps
/// applied to the positions `0..m`; positions from `m` on stay.
pub proof fn lemma_apply_swaps_pull<A>(st: Seq<A>, sw: Seq<(usize, usize)>, m: nat)
    requires
        m <= st.len(),
        m <= usize::MAX,
        swaps_below(sw, m),
    ensures
        apply_swaps(st, sw).len() == st.len(),
        apply_swaps(identity_perm(m), sw).len() == m,
        forall|p: int| 0 <= p < m ==> (#[trigger] apply_swaps(identity_perm(m), sw)[p] as nat) < m,
        forall|p: int|
            0 <= p < m ==> #[trigger] apply_swaps(st, sw)[p] == st[apply_swaps(
                identity_perm(m),
                sw,
            )[p] as int],
        forall|p: int| m <= p < st.len() ==> #[trigger] apply_swaps(st, sw)[p] == st[p],
    decreases sw.len(),
{
    if sw.len() == 0 {
        assert forall|p: int| 0 <= p < m implies #[trigger] identity_perm(m)[p] as int == p by {}
    } else {
        let prev = sw.drop_last();
        assert(swaps_below(prev, m)) by {
            assert forall|k: int| 0 <= k < prev.len() implies ((#[trigger] prev[k]).0 as nat) < m
                && (prev[k].1 as nat) < m by {
                assert(prev[k] == sw[k]);
            }
        }
        lemma_apply_swaps_pull(st, prev, m);
        assert(sw[sw.len() - 1] == sw.last());
        let a = sw.last().0 as int;
        let b = sw.last().1 as int;
        let pp = apply_swaps(st, prev);
        let qq = apply_swaps(identity_perm(m), prev);
        assert(apply_swaps(st, sw) == swap_at(pp, a, b));
        assert(apply_swaps(identity_perm(m), sw) == swap_at(qq, a, b));
        assert forall|p: int| 0 <= p < m implies (#[trigger] apply_swaps(identity_perm(m), sw)[p]
            as nat) < m && apply_swaps(st, sw)[p] == st[apply_swaps(identity_perm(m), sw)[p] as int] by {
            if p == b {
                assert(swap_at(qq, a, b)[p] == qq[a]);
                assert(swap_at(pp, a, b)[p] == pp[a]);
            } else if p == a {
                assert(swap_at(qq, a, b)[p] == qq[b]);
                assert(swap_at(pp, a, b)[p] == pp[b]);
            } else {
                assert(swap_at(qq, a, b)[p] == qq[p]);
                assert(swap_at(pp, a, b)[p] == pp[p]);
            }
        }
        assert forall|p: int| m <= p < st.len() implies #[trigger] apply_swaps(st, sw)[p] == st[p] by {
            assert(swap_at(pp, a, b)[p] == pp[p]);
        }
    }
}

/// The six ORNB gates that exchange wires `a` and `b` using wire `x`.
pub open spec fn swap_gates(a: u8, b: u8, x: u8) -> Seq<[u8; 3]> {
    seq![[a, x, b], [a, b, x], [b, a, x], [b, x, a], [a, b, x], [a, x, b]]
}

/// The six gates exchange the bits on `a` and `b` and keep every other bit.
pub proof fn lemma_swap_gates(st: Seq<bool>, a: u8, b: u8, x: u8)
    requires
        (a as int) < st.len(),
        (b as int) < st.len(),
        (x as int) < st.len(),
        a != b,
        a != x,
        b != x,
    ensures
        run_bits(st, swap_gates(a, b, x)) == swap_at(st, a as int, b as int),
{
    let g = swap_gates(a, b, x);
    reveal_with_fuel(run_bits, 7);
    assert(g.drop_last().drop_last().drop_last().drop_last().drop_last().drop_last() =~= Seq::<
        [u8; 3],
    >::empty());
    assert(run_bits(st, g) =~= swap_at(st, a as int, b as int));
}

/// `gadget` on local wires `0`, `1`, `2` with each wire `w` replaced by `m[w]`.
pub open spec fn map_gadget(gadget: Seq<[u8; 3]>, m: Seq<u8>) -> Seq<[u8; 3]> {
    Seq::new(
        gadget.len(),
        |i: int| [m[gadget[i][0] as int], m[gadget[i][1] as int], m[gadget[i][2] as int]],
    )
}

/// The plain swap of `a` and `b` through `aux`, then a flip of `a` when `s0`
/// is nonzero and of `b` when `s1` is nonzero; a flip's two controls are one
/// wire other than its target.
pub open spec fn plain_swap_flip(a: usize, b: usize, aux: usize, s0: u8, s1: u8) -> Seq<[u8; 3]> {
    let base = swap_gates(a as u8, b as u8, aux as u8);
    let ca: usize = if aux != a { aux } else { b };
    let cb: usize = if aux != b { aux } else { a };
    let with_a = if s0 != 0 { base.push([a as u8, ca as u8, ca as u8]) } else { base };
    if s1 != 0 { with_a.push([b as u8, cb as u8, cb as u8]) } else { with_a }
}

/// The bucket of a flip mask `(s0, s1)`: bit 0 of `s0`, then bit 0 of `s1`.
pub open spec fn mask_index(s0: u8, s1: u8) -> int {
    ((s0 & 1) | ((s1 & 1) << 1u8)) as int
}

proof fn lemma_mask_index_below(s0: u8, s1: u8)
    ensures
        0 <= mask_index(s0, s1) < 4,
{
    assert(((s0 & 1) | ((s1 & 1) << 1u8)) < 4) by (bit_vector);
}

fn mask_to_index(s0: u8, s1: u8) -> (r: usize)
    ensures
        r == mask_index(s0, s1),
        r < 4,
{
    let v: u8 = (s0 & 1) | ((s1 & 1) << 1u8);
    assert(((s0 & 1) | ((s1 & 1) << 1u8)) < 4) by (bit_vector);
    v as usize
}

/// A swap-with-flip gadget of a library file: its gates on the local wires
/// `0, 1, 2`, the flips it embeds on wires 0 and 1, and an optional name.
#[derive(Debug, Clone)]
pub struct SwapFlipGadget {
    pub gates: Vec<[u8; 3]>,
    pub flip_mask: [u8; 2],
    pub flip_name: String,
}

/// Swap-with-flip gadgets on the local wires `0, 1` (swapped) and `2`
/// (auxiliary), grouped by the flip mask they embed.
#[derive(Debug, Clone)]
pub struct SwapFlipLibrary {
    mask0: Vec<Vec<[u8; 3]>>,
    mask1: Vec<Vec<[u8; 3]>>,
    mask2: Vec<Vec<[u8; 3]>>,
    mask3: Vec<Vec<[u8; 3]>>,
}

impl Default for SwapFlipLibrary {
    fn default() -> (r: Self)
        ensures
            forall|i: int| 0 <= i < 4 ==> #[trigger] r.bucket(i).len() == 0,
    {
        SwapFlipLibrary { mask0: Vec::new(), mask1: Vec::new(), mask2: Vec::new(), mask3: Vec::new() }
    }
}

impl SwapFlipLibrary {
    /// The gadgets of bucket `i`.
    pub closed spec fn bucket(&self, i: int) -> Seq<Vec<[u8; 3]>> {
        if i == 0 {
            self.mask0@
        } else if i == 1 {
            self.mask1@
        } else if i == 2 {
            self.mask2@
        } else {
            self.mask3@
        }
    }

    /// Every gadget only uses the local wires `0`, `1` and `2`.
    pub closed spec fn wf(&self) -> bool {
        forall|i: int, k: int|
            0 <= i < 4 && 0 <= k < self.bucket(i).len() ==> pins_lt(
                #[trigger] self.bucket(i)[k]@,
                3,
            )
    }

    fn bucket_ref(&self, i: usize) -> (r: &Vec<Vec<[u8; 3]>>)
        requires
            i < 4,
        ensures
            r@ == self.bucket(i as int),
    {
        if i == 0 {
            &self.mask0
        } else if i == 1 {
            &self.mask1
        } else if i == 2 {
            &self.mask2
        } else {
            &self.mask3
        }
    }

    /// Adds a gadget under the flip mask `(s0, s1)`.
    pub fn add_gadget(&mut self, s0: u8, s1: u8, gates: Vec<[u8; 3]>)
        ensures
            final(self).wf() == (old(self).wf() && pins_lt(gates@, 3)),
            final(self).bucket(mask_index(s0, s1)) == old(self).bucket(mask_index(s0, s1)).push(gates),
            forall|i: int|
                0 <= i < 4 && i != mask_index(s0, s1) ==> #[trigger] final(self).bucket(i) == old(
                    self,
                ).bucket(i),
    {
        let i = mask_to_index(s0, s1);
        let ghost g = gates;
        let ghost old_self = *self;
        if i == 0 {
            self.mask0.push(gates);
        } else if i == 1 {
            self.mask1.push(gates);
        } else if i == 2 {
            self.mask2.push(gates);
        } else {
            self.mask3.push(gates);
        }
        proof {
            let mi = mask_index(s0, s1);
            if old_self.wf() && pins_lt(g@, 3) {
                assert forall|b: int, k: int|
                    0 <= b < 4 && 0 <= k < self.bucket(b).len() implies pins_lt(
                    #[trigger] self.bucket(b)[k]@,
                    3,
                ) by {
                    if b == mi && k == old_self.bucket(b).len() {
                        assert(self.bucket(b)[k] == g);
                    } else {
                        assert(self.bucket(b)[k] == old_self.bucket(b)[k]);
                    }
                }
            }
            if self.wf() {
                assert(self.bucket(mi)[old_self.bucket(mi).len() as int] == g);
                assert(pins_lt(g@, 3));
                assert forall|b: int, k: int|
                    0 <= b < 4 && 0 <= k < old_self.bucket(b).len() implies pins_lt(
                    #[trigger] old_self.bucket(b)[k]@,
                    3,
                ) by {
                    assert(self.bucket(b)[k] == old_self.bucket(b)[k]);
                }
            }
        }
    }

    /// Whether some gadget embeds the flip mask `(s0, s1)`.
    pub fn has_mask(&self, s0: u8, s1: u8) -> (r: bool)
        ensures
            r == (self.bucket(mask_index(s0, s1)).len() > 0),
    {
        self.bucket_ref(mask_to_index(s0, s1)).len() > 0
    }

    /// A gadget for the flip mask `(s0, s1)` drawn at random, `None` when
    /// there is none.
    pub fn random_gadget(&self, s0: u8, s1: u8, rng: &mut rand::rngs::StdRng) -> (r: Option<&Vec<[u8; 3]>>)
        ensures
            r is None <==> self.bucket(mask_index(s0, s1)).len() == 0,
            r matches Some(g) ==> self.bucket(mask_index(s0, s1)).contains(*g),
    {
        let candidates = self.bucket_ref(mask_to_index(s0, s1));
        if candidates.len() == 0 {
            None
        } else {
            let k = rng_usize_below(rng, candidates.len());
            proof {
                assert(candidates@[k as int] == self.bucket(mask_index(s0, s1))[k as int]);
            }
            Some(&candidates[k])
        }
    }

    /// The number of gadgets over all masks.
    pub fn total_count(&self) -> (r: usize)
        requires
            self.bucket(0).len() + self.bucket(1).len() + self.bucket(2).len() + self.bucket(3).len()
                <= usize::MAX,
        ensures
            r == self.bucket(0).len() + self.bucket(1).len() + self.bucket(2).len() + self.bucket(
                3,
            ).len(),
    {
        self.mask0.len() + self.mask1.len() + self.mask2.len() + self.mask3.len()
    }
}

/// Every pin of every gate is below `m`.
pub open spec fn pins_lt(gates: Seq<[u8; 3]>, m: nat) -> bool {
    forall|k: int|
        0 <= k < gates.len() ==> ((#[trigger] gates[k])[0] as nat) < m && (gates[k][1] as nat) < m
            && (gates[k][2] as nat) < m
}

/// Gates whose pins address the bit string keep its length.
pub proof fn lemma_run_len(st: Seq<bool>, gates: Seq<[u8; 3]>)
    requires
        pins_lt(gates, st.len()),
    ensures
        run_bits(st, gates).len() == st.len(),
    decreases gates.len(),
{
    if gates.len() > 0 {
        let prev = gates.drop_last();
        assert(pins_lt(prev, st.len())) by {
            assert forall|k: int| 0 <= k < prev.len() implies ((#[trigger] prev[k])[0] as nat)
                < st.len() && (prev[k][1] as nat) < st.len() && (prev[k][2] as nat) < st.len() by {
                assert(prev[k] == gates[k]);
            }
        }
        lemma_run_len(st, prev);
        assert(gates[gates.len() - 1] == gates.last());
    }
}

/// Data bits `i < n` flipped where the mask is nonzero.
pub open spec fn flip_bits(x: Seq<bool>, s: Seq<u8>, n: nat) -> Seq<bool> {
    Seq::new(x.len(), |i: int| if i < n { x[i] != (s[i] != 0) } else { x[i] })
}

/// Appends the six gates that exchange wires `a` and `b` through `aux`.
fn push_swap(gates: &mut Vec<[u8; 3]>, a: usize, b: usize, aux: usize)
    ensures
        final(gates)@ == old(gates)@ + swap_gates(a as u8, b as u8, aux as u8),
{
    let wa = a as u8;
    let wb = b as u8;
    let wx = aux as u8;
    gates.push([wa, wx, wb]);
    gates.push([wa, wb, wx]);
    gates.push([wb, wa, wx]);
    gates.push([wb, wx, wa]);
    gates.push([wa, wb, wx]);
    gates.push([wa, wx, wb]);
    proof {
        assert(final(gates)@ =~= old(gates)@ + swap_gates(a as u8, b as u8, aux as u8));
    }
}

/// Appends an unconditional flip of each data wire `w < n` whose mask
/// entry is nonzero, controlled by the auxiliary wire `n`.
fn push_flips(gates: &mut Vec<[u8; 3]>, mask: &[u8], n: usize)
    requires
        mask@.len() >= n,
    ensures
        n <= 255 && pins_lt(old(gates)@, (n + 1) as nat) ==> pins_lt(final(gates)@, (n + 1) as nat),
        n <= 255 && pins_lt(old(gates)@, (n + 1) as nat) ==> forall|st: Seq<bool>|
            st.len() == n + 1 ==> #[trigger] run_bits(st, final(gates)@) == flip_bits(
                run_bits(st, old(gates)@),
                mask@,
                n as nat,
            ),
{
    let ghost g0 = gates@;
    let ghost good = n <= 255 && pins_lt(g0, (n + 1) as nat);
    let aux = n;
    let mut wire: usize = 0;
    while wire < n
        invariant
            wire <= n,
            aux == n,
            mask@.len() >= n,
            good == (n <= 255 && pins_lt(g0, (n + 1) as nat)),
            good ==> pins_lt(gates@, (n + 1) as nat),
            good ==> forall|st: Seq<bool>|
                st.len() == n + 1 ==> #[trigger] run_bits(st, gates@) == flip_bits(
                    run_bits(st, g0),
                    mask@,
                    wire as nat,
                ),
        decreases n - wire,
    {
        if mask[wire] != 0 {
            let ctrl = if aux != wire {
                aux
            } else {
                (wire + 1) % (n + 1)
            };
            let ghost before = gates@;
            let g: [u8; 3] = [wire as u8, ctrl as u8, ctrl as u8];
            gates.push(g);
            proof {
                if good {
                    assert forall|st: Seq<bool>| st.len() == n + 1 implies #[trigger] run_bits(
                        st,
                        gates@,
                    ) == flip_bits(run_bits(st, g0), mask@, (wire + 1) as nat) by {
                        assert(gates@.drop_last() =~= before);
                        lemma_run_len(st, g0);
                        let cur = run_bits(st, before);
                        assert(run_bits(st, gates@) == gate_on_bits(cur, g));
                        assert(gate_on_bits(cur, g) =~= flip_bits(
                            run_bits(st, g0),
                            mask@,
                            (wire + 1) as nat,
                        ));
                    }
                    assert forall|k: int| 0 <= k < gates@.len() implies ((#[trigger] gates@[k])[0]
                        as nat) < n + 1 && (gates@[k][1] as nat) < n + 1 && (gates@[k][2] as nat)
                        < n + 1 by {
                        if k < before.len() {
                            assert(gates@[k] == before[k]);
                        }
                    }
                }
            }
        } else {
            proof {
                if good {
                    assert forall|st: Seq<bool>| st.len() == n + 1 implies #[trigger] run_bits(
                        st,
                        gates@,
                    ) == flip_bits(run_bits(st, g0), mask@, (wire + 1) as nat) by {
                        lemma_run_len(st, g0);
                        assert(flip_bits(run_bits(st, g0), mask@, wire as nat) =~= flip_bits(
                            run_bits(st, g0),
                            mask@,
                            (wire + 1) as nat,
                        ));
                    }
                }
            }
        }
        wire += 1;
    }
    proof {
        if good {
            assert forall|st: Seq<bool>| st.len() == n + 1 implies #[trigger] run_bits(st, gates@)
                == flip_bits(run_bits(st, g0), mask@, n as nat) by {}
        }
    }
}

/// Running the swaps' gates on every bit string of length `n + 1` is
/// exchanging the swapped positions.
pub open spec fn runs_as_swaps(gates: Seq<[u8; 3]>, sw: Seq<(usize, usize)>, n: nat) -> bool {
    forall|st: Seq<bool>| st.len() == n + 1 ==> #[trigger] run_bits(st, gates) == apply_swaps(st, sw)
}

/// Builds circuits for `β_{w,s}` on `width` data wires, using wire `width`
/// as auxiliary.
pub struct ShuffleBitflipGenerator {
    width: usize,
    flip_mode: FlipMode,
    library: Option<SwapFlipLibrary>,
}

impl ShuffleBitflipGenerator {
    /// The number of data wires.
    pub closed spec fn data_width(&self) -> nat {
        self.width as nat
    }

    /// How flips are integrated.
    pub closed spec fn mode(&self) -> FlipMode {
        self.flip_mode
    }

    /// Whether a gadget library is loaded.
    pub closed spec fn has_library(&self) -> bool {
        self.library is Some
    }

    /// A generator for `width` data wires.
    pub fn new(width: usize, flip_mode: FlipMode, library: Option<SwapFlipLibrary>) -> (r: Self)
        ensures
            r.data_width() == width,
            r.mode() == flip_mode,
            r.has_library() == (library is Some),
    {
        ShuffleBitflipGenerator { width, flip_mode, library }
    }

    /// Selection-sort decomposition of a permutation into swaps: for each
    /// output position in turn, the wire it needs is swapped in from where
    /// it currently is.
    fn decompose_permutation(&self, permutation: &[usize]) -> (r: Vec<(usize, usize)>)
        requires
            permutation@.len() >= self.width,
            forall|i: int| 0 <= i < self.width ==> (#[trigger] permutation@[i] as nat) < self.width,
        ensures
            swaps_below(r@, self.width as nat),
            forall|k: int| 0 <= k < r@.len() ==> (#[trigger] r@[k]).0 != r@[k].1,
            permutation@.len() == self.width && is_permutation(permutation@, self.width as nat)
                ==> apply_swaps(identity_perm(self.width as nat), r@) == permutation@,
    {
        let n = self.width;
        let ghost perm = permutation@;
        let ghost is_perm = permutation@.len() == n && is_permutation(perm, n as nat);
        let mut current: Vec<usize> = Vec::with_capacity(n);
        let mut k: usize = 0;
        while k < n
            invariant
                k <= n,
                current@ == identity_perm(k as nat),
            decreases n - k,
        {
            current.push(k);
            k += 1;
            proof {
                assert(current@ =~= identity_perm(k as nat));
            }
        }
        let mut swaps: Vec<(usize, usize)> = Vec::new();
        proof {
            assert forall|v: usize| (v as nat) < n implies #[trigger] current@.contains(v) by {
                assert(current@[v as int] == v);
            }
        }
        let mut pos: usize = 0;
        while pos < n
            invariant
                pos <= n,
                n == self.width,
                perm == permutation@,
                perm.len() >= n,
                is_perm == (permutation@.len() == n && is_permutation(perm, n as nat)),
                forall|i: int| 0 <= i < n ==> (#[trigger] perm[i] as nat) < n,
                current@.len() == n,
                current@ == apply_swaps(identity_perm(n as nat), swaps@),
                forall|i: int| 0 <= i < n ==> (#[trigger] current@[i] as nat) < n,
                forall|v: usize| (v as nat) < n ==> #[trigger] current@.contains(v),
                is_perm ==> forall|i: int| 0 <= i < pos ==> #[trigger] current@[i] == perm[i],
                swaps_below(swaps@, n as nat),
                forall|q: int| 0 <= q < swaps@.len() ==> (#[trigger] swaps@[q]).0 != swaps@[q].1,
            decreases n - pos,
        {
            let needed = permutation[pos];
            proof {
                assert(current@.contains(needed));
            }
            let ghost kw = choose|q: int| 0 <= q < current@.len() && current@[q] == needed;
            let mut j: usize = 0;
            while current[j] != needed
                invariant
                    j <= kw,
                    current@.len() == n,
                    0 <= kw < current@.len(),
                    current@[kw] == needed,
                    forall|q: int| 0 <= q < j ==> #[trigger] current@[q] != needed,
                decreases kw - j,
            {
                j += 1;
            }
            proof {
                if is_perm {
                    assert forall|i: int| 0 <= i < pos implies current@[i] != needed by {
                        assert(current@[i] == perm[i]);
                        assert(perm[i] != perm[pos as int]);
                    }
                    if j < pos {
                        assert(current@[j as int] != needed);
                    }
                }
            }
            if j != pos {
                let ghost before = current@;
                let ghost sw0 = swaps@;
                let cp = current[pos];
                let cj = current[j];
                current.set(pos, cj);
                current.set(j, cp);
                swaps.push((pos, j));
                proof {
                    assert(swaps@.drop_last() =~= sw0);
                    assert(current@ =~= swap_at(before, pos as int, j as int));
                    assert forall|v: usize| (v as nat) < n implies #[trigger] current@.contains(v) by {
                        assert(before.contains(v));
                        let q = choose|q: int| 0 <= q < before.len() && before[q] == v;
                        if q == pos {
                            assert(current@[j as int] == v);
                        } else if q == j {
                            assert(current@[pos as int] == v);
                        } else {
                            assert(current@[q] == v);
                        }
                    }
                    assert forall|q: int| 0 <= q < swaps@.len() implies ((#[trigger] swaps@[q]).0
                        as nat) < n && (swaps@[q].1 as nat) < n by {
                        if q < sw0.len() {
                            assert(swaps@[q] == sw0[q]);
                        }
                    }
                    assert forall|q: int| 0 <= q < swaps@.len() implies (#[trigger] swaps@[q]).0
                        != swaps@[q].1 by {
                        if q < sw0.len() {
                            assert(swaps@[q] == sw0[q]);
                        }
                    }
                    if is_perm {
                        assert forall|i: int| 0 <= i < pos + 1 implies #[trigger] current@[i]
                            == perm[i] by {
                            if i < pos {
                                assert(current@[i] == before[i]);
                            }
                        }
                    }
                }
            }
            pos += 1;
        }
        proof {
            if is_perm {
                assert(current@ =~= perm);
            }
        }
        swaps
    }

    /// The swaps of the permutation as gates: six per swap.
    fn generate_shuffle_only(&self, permutation: &[usize]) -> (r: CircuitSeq)
        requires
            permutation@.len() >= self.width,
            forall|i: int| 0 <= i < self.width ==> (#[trigger] permutation@[i] as nat) < self.width,
        ensures
            self.width <= 255 ==> pins_lt(r@, (self.width + 1) as nat),
            self.width <= 255 && permutation@.len() == self.width && is_permutation(
                permutation@,
                self.width as nat,
            ) ==> forall|st: Seq<bool>|
                st.len() == self.width + 1 ==> #[trigger] run_bits(st, r@) == beta(
                    st,
                    permutation@,
                    zero_mask(self.width as nat),
                    self.width as nat,
                ),
    {
        let n = self.width;
        let aux = n;
        let swaps = self.decompose_permutation(permutation);
        let mut gates: Vec<[u8; 3]> = Vec::new();
        let mut k: usize = 0;
        proof {
            assert(swaps@.take(0) =~= Seq::<(usize, usize)>::empty());
        }
        while k < swaps.len()
            invariant
                k <= swaps@.len(),
                n == self.width,
                aux == n,
                swaps_below(swaps@, n as nat),
                forall|q: int| 0 <= q < swaps@.len() ==> (#[trigger] swaps@[q]).0 != swaps@[q].1,
                n <= 255 ==> pins_lt(gates@, (n + 1) as nat),
                n <= 255 ==> runs_as_swaps(gates@, swaps@.take(k as int), n as nat),
            decreases swaps@.len() - k,
        {
            let (a, b) = swaps[k];
            let ghost before = gates@;
            push_swap(&mut gates, a, b, aux);
            proof {
                if n <= 255 {
                    assert(swaps@[k as int] == (a, b));
                    let t1 = swaps@.take(k + 1);
                    assert(t1.drop_last() =~= swaps@.take(k as int));
                    assert(t1.last() == (a, b));
                    assert(swaps_below(swaps@.take(k as int), n as nat)) by {
                        assert forall|q: int| 0 <= q < k implies ((#[trigger] swaps@.take(k as int)[q]).0
                            as nat) < n && (swaps@.take(k as int)[q].1 as nat) < n by {
                            assert(swaps@.take(k as int)[q] == swaps@[q]);
                        }
                    }
                    assert forall|st: Seq<bool>| st.len() == n + 1 implies #[trigger] run_bits(st, gates@)
                        == apply_swaps(st, t1) by {
                        lemma_run_concat(st, before, swap_gates(a as u8, b as u8, aux as u8));
                        lemma_apply_swaps_pull(st, swaps@.take(k as int), n as nat);
                        lemma_swap_gates(run_bits(st, before), a as u8, b as u8, aux as u8);
                    }
                    assert forall|q: int| 0 <= q < gates@.len() implies ((#[trigger] gates@[q])[0] as nat)
                        < n + 1 && (gates@[q][1] as nat) < n + 1 && (gates@[q][2] as nat) < n + 1 by {
                        if q < before.len() {
                            assert(gates@[q] == before[q]);
                        }
                    }
                }
            }
            k += 1;
        }
        proof {
            assert(swaps@.take(swaps@.len() as int) =~= swaps@);
            if n <= 255 && permutation@.len() == n && is_permutation(permutation@, n as nat) {
                assert forall|st: Seq<bool>| st.len() == n + 1 implies #[trigger] run_bits(st, gates@)
                    == beta(st, permutation@, zero_mask(n as nat), n as nat) by {
                    lemma_apply_swaps_pull(st, swaps@, n as nat);
                    assert(apply_swaps(st, swaps@) =~= beta(
                        st,
                        permutation@,
                        zero_mask(n as nat),
                        n as nat,
                    ));
                }
            }
        }
        CircuitSeq { gates }
    }

    /// The shuffle followed by a flip of every data wire whose mask entry is
    /// nonzero.
    fn generate_style_a(&self, permutation: &[usize], flip_mask: &[u8]) -> (r: CircuitSeq)
        requires
            permutation@.len() >= self.width,
            flip_mask@.len() >= self.width,
            forall|i: int| 0 <= i < self.width ==> (#[trigger] permutation@[i] as nat) < self.width,
        ensures
            self.width <= 255 ==> pins_lt(r@, (self.width + 1) as nat),
            self.width <= 255 && permutation@.len() == self.width && is_permutation(
                permutation@,
                self.width as nat,
            ) ==> forall|st: Seq<bool>|
                st.len() == self.width + 1 ==> #[trigger] run_bits(st, r@) == beta(
                    st,
                    permutation@,
                    flip_mask@,
                    self.width as nat,
                ),
    {
        let n = self.width;
        let mut circuit = self.generate_shuffle_only(permutation);
        let ghost shuffled = circuit@;
        push_flips(&mut circuit.gates, flip_mask, n);
        proof {
            if n <= 255 && permutation@.len() == n && is_permutation(permutation@, n as nat) {
                assert forall|st: Seq<bool>| st.len() == n + 1 implies #[trigger] run_bits(
                    st,
                    circuit@,
                ) == beta(st, permutation@, flip_mask@, n as nat) by {
                    assert(run_bits(st, shuffled) == beta(
                        st,
                        permutation@,
                        zero_mask(n as nat),
                        n as nat,
                    ));
                    assert(flip_bits(beta(st, permutation@, zero_mask(n as nat), n as nat), flip_mask@, n as nat)
                        =~= beta(st, permutation@, flip_mask@, n as nat));
                }
            }
        }
        circuit
    }

    /// A swap of `a` and `b` that also flips them by `(s0, s1)`: a gadget of
    /// the library mapped onto `a`, `b`, `aux` when there is one, else the
    /// plain swap followed by explicit flips.
    fn generate_swap_flip(
        &self,
        wire_a: usize,
        wire_b: usize,
        aux: usize,
        s0: u8,
        s1: u8,
        rng: &mut rand::rngs::StdRng,
    ) -> (r: Vec<[u8; 3]>)
        requires
            self.library matches Some(l) ==> l.wf(),
        ensures
            (self.library matches Some(l) ==> l.bucket(mask_index(s0, s1)).len() == 0) ==> r@
                == plain_swap_flip(wire_a, wire_b, aux, s0, s1),
            self.library is Some && self.library->0.bucket(mask_index(s0, s1)).len() > 0 ==> exists|k: int|
                0 <= k < self.library->0.bucket(mask_index(s0, s1)).len() && r@ == map_gadget(
                    (#[trigger] self.library->0.bucket(mask_index(s0, s1))[k])@,
                    seq![wire_a as u8, wire_b as u8, aux as u8],
                ),
            self.width <= 255 && wire_a < self.width && wire_b < self.width && aux == self.width ==> pins_lt(
                r@,
                (self.width + 1) as nat,
            ),
    {
        let ghost good = self.width <= 255 && wire_a < self.width && wire_b < self.width && aux
            == self.width;
        if let Some(library) = &self.library {
            if let Some(gadget) = library.random_gadget(s0, s1, rng) {
                let wire_map: [u8; 3] = [wire_a as u8, wire_b as u8, aux as u8];
                let mut out: Vec<[u8; 3]> = Vec::with_capacity(gadget.len());
                let ghost bucket = library.bucket(mask_index(s0, s1));
                proof {
                    lemma_mask_index_below(s0, s1);
                    let k = choose|k: int| 0 <= k < bucket.len() && bucket[k] == *gadget;
                    assert(pins_lt(bucket[k]@, 3));
                }
                let mut i: usize = 0;
                while i < gadget.len()
                    invariant
                        i <= gadget@.len(),
                        pins_lt(gadget@, 3),
                        good == (self.width <= 255 && wire_a < self.width && wire_b < self.width && aux
                            == self.width),
                        wire_map@ == seq![wire_a as u8, wire_b as u8, aux as u8],
                        good ==> pins_lt(out@, (self.width + 1) as nat),
                        out@ == map_gadget(gadget@, wire_map@).take(i as int),
                    decreases gadget@.len() - i,
                {
                    let g = gadget[i];
                    proof {
                        assert(gadget@[i as int] == g);
                    }
                    let ghost before = out@;
                    out.push([wire_map[g[0] as usize], wire_map[g[1] as usize], wire_map[g[2] as usize]]);
                    proof {
                        if good {
                            assert forall|q: int| 0 <= q < out@.len() implies ((#[trigger] out@[q])[0]
                                as nat) < self.width + 1 && (out@[q][1] as nat) < self.width + 1 && (
                            out@[q][2] as nat) < self.width + 1 by {
                                if q < before.len() {
                                    assert(out@[q] == before[q]);
                                }
                            }
                        }
                    }
                    i += 1;
                    proof {
                        assert(out@ =~= map_gadget(gadget@, wire_map@).take(i as int));
                    }
                }
                proof {
                    assert(out@ =~= map_gadget(gadget@, wire_map@));
                    let k = choose|k: int| 0 <= k < bucket.len() && bucket[k] == *gadget;
                    assert(map_gadget(bucket[k]@, seq![wire_a as u8, wire_b as u8, aux as u8]) == out@);
                }
                return out;
            }
        }
        let mut gates: Vec<[u8; 3]> = Vec::new();
        push_swap(&mut gates, wire_a, wire_b, aux);
        proof {
            assert(gates@ =~= swap_gates(wire_a as u8, wire_b as u8, aux as u8));
        }
        let ghost base = gates@;
        if s0 != 0 {
            let ctrl = if aux != wire_a {
                aux
            } else {
                wire_b
            };
            let ghost before = gates@;
            gates.push([wire_a as u8, ctrl as u8, ctrl as u8]);
            proof {
                if good {
                    assert forall|q: int| 0 <= q < gates@.len() implies ((#[trigger] gates@[q])[0] as nat)
                        < self.width + 1 && (gates@[q][1] as nat) < self.width + 1 && (gates@[q][2] as nat)
                        < self.width + 1 by {
                        if q < before.len() {
                            assert(gates@[q] == before[q]);
                        }
                    }
                }
            }
        }
        if s1 != 0 {
            let ctrl = if aux != wire_b {
                aux
            } else {
                wire_a
            };
            let ghost before = gates@;
            gates.push([wire_b as u8, ctrl as u8, ctrl as u8]);
            proof {
                if good {
                    assert forall|q: int| 0 <= q < gates@.len() implies ((#[trigger] gates@[q])[0] as nat)
                        < self.width + 1 && (gates@[q][1] as nat) < self.width + 1 && (gates@[q][2] as nat)
                        < self.width + 1 by {
                        if q < before.len() {
                            assert(gates@[q] == before[q]);
                        }
                    }
                }
            }
        }
        proof {
            let ca: usize = if aux != wire_a { aux } else { wire_b };
            let with_a = if s0 != 0 { base.push([wire_a as u8, ca as u8, ca as u8]) } else { base };
            assert(s1 == 0 ==> gates@ =~= with_a);
            assert(gates@ =~= plain_swap_flip(wire_a, wire_b, aux, s0, s1));
        }
        gates
    }

    /// Swaps with embedded flips where the library has a gadget for the two
    /// pending flips; plain swaps otherwise; then explicit flips for what is
    /// left.  Without a library this is the shuffle followed by the flips.
    fn generate_style_b(&self, permutation: &[usize], flip_mask: &[u8], rng: &mut rand::rngs::StdRng) -> (r:
        CircuitSeq)
        requires
            permutation@.len() >= self.width,
            flip_mask@.len() >= self.width,
            forall|i: int| 0 <= i < self.width ==> (#[trigger] permutation@[i] as nat) < self.width,
            self.library matches Some(l) ==> l.wf(),
        ensures
            self.width <= 255 ==> pins_lt(r@, (self.width + 1) as nat),
            self.library is None && self.width <= 255 && permutation@.len() == self.width
                && is_permutation(permutation@, self.width as nat) ==> forall|st: Seq<bool>|
                st.len() == self.width + 1 ==> #[trigger] run_bits(st, r@) == beta(
                    st,
                    permutation@,
                    flip_mask@,
                    self.width as nat,
                ),
    {
        let n = self.width;
        let aux = n;
        let swaps = self.decompose_permutation(permutation);
        let mut gates: Vec<[u8; 3]> = Vec::new();
        let mut remaining: Vec<u8> = Vec::with_capacity(flip_mask.len());
        let mut c: usize = 0;
        while c < flip_mask.len()
            invariant
                c <= flip_mask@.len(),
                remaining@ == flip_mask@.take(c as int),
            decreases flip_mask@.len() - c,
        {
            remaining.push(flip_mask[c]);
            c += 1;
            proof {
                assert(remaining@ =~= flip_mask@.take(c as int));
            }
        }
        proof {
            assert(flip_mask@.take(flip_mask@.len() as int) =~= flip_mask@);
        }
        let ghost plain = self.library is None && n <= 255;
        let mut k: usize = 0;
        proof {
            assert(swaps@.take(0) =~= Seq::<(usize, usize)>::empty());
        }
        while k < swaps.len()
            invariant
                k <= swaps@.len(),
                n == self.width,
                aux == n,
                remaining@.len() == flip_mask@.len(),
                flip_mask@.len() >= n,
                self.library matches Some(l) ==> l.wf(),
                plain == (self.library is None && n <= 255),
                swaps_below(swaps@, n as nat),
                forall|q: int| 0 <= q < swaps@.len() ==> (#[trigger] swaps@[q]).0 != swaps@[q].1,
                plain ==> remaining@ == flip_mask@,
                n <= 255 ==> pins_lt(gates@, (n + 1) as nat),
                plain ==> runs_as_swaps(gates@, swaps@.take(k as int), n as nat),
            decreases swaps@.len() - k,
        {
            let (a, b) = swaps[k];
            proof {
                assert(swaps@[k as int] == (a, b));
            }
            let s0 = remaining[a];
            let s1 = remaining[b];
            let use_gadget = match &self.library {
                Some(l) => l.has_mask(s0, s1),
                None => false,
            };
            let ghost before = gates@;
            if use_gadget {
                remaining.set(a, 0);
                remaining.set(b, 0);
                let more = self.generate_swap_flip(a, b, aux, s0, s1, rng);
                let mut i: usize = 0;
                while i < more.len()
                    invariant
                        i <= more@.len(),
                        n == self.width,
                        n <= 255 ==> pins_lt(more@, (n + 1) as nat),
                        n <= 255 ==> pins_lt(gates@, (n + 1) as nat),
                    decreases more@.len() - i,
                {
                    let ghost prev = gates@;
                    gates.push(more[i]);
                    proof {
                        if n <= 255 {
                            assert(gates@[gates@.len() - 1] == more@[i as int]);
                            assert forall|q: int| 0 <= q < gates@.len() implies ((#[trigger] gates@[q])[0]
                                as nat) < n + 1 && (gates@[q][1] as nat) < n + 1 && (gates@[q][2] as nat)
                                < n + 1 by {
                                if q < prev.len() {
                                    assert(gates@[q] == prev[q]);
                                }
                            }
                        }
                    }
                    i += 1;
                }
            } else {
                push_swap(&mut gates, a, b, aux);
                proof {
                    if n <= 255 {
                        assert forall|q: int| 0 <= q < gates@.len() implies ((#[trigger] gates@[q])[0]
                            as nat) < n + 1 && (gates@[q][1] as nat) < n + 1 && (gates@[q][2] as nat)
                            < n + 1 by {
                            if q < before.len() {
                                assert(gates@[q] == before[q]);
                            }
                        }
                    }
                    if plain {
                        let t1 = swaps@.take(k + 1);
                        assert(t1.drop_last() =~= swaps@.take(k as int));
                        assert(t1.last() == (a, b));
                        assert(swaps_below(swaps@.take(k as int), n as nat)) by {
                            assert forall|q: int| 0 <= q < k implies ((#[trigger] swaps@.take(
                                k as int,
                            )[q]).0 as nat) < n && (swaps@.take(k as int)[q].1 as nat) < n by {
                                assert(swaps@.take(k as int)[q] == swaps@[q]);
                            }
                        }
                        assert forall|st: Seq<bool>| st.len() == n + 1 implies #[trigger] run_bits(
                            st,
                            gates@,
                        ) == apply_swaps(st, t1) by {
                            lemma_run_concat(st, before, swap_gates(a as u8, b as u8, aux as u8));
                            lemma_apply_swaps_pull(st, swaps@.take(k as int), n as nat);
                            lemma_swap_gates(run_bits(st, before), a as u8, b as u8, aux as u8);
                        }
                        assert forall|q: int| 0 <= q < gates@.len() implies ((#[trigger] gates@[q])[0]
                            as nat) < n + 1 && (gates@[q][1] as nat) < n + 1 && (gates@[q][2] as nat)
                            < n + 1 by {
                            if q < before.len() {
                                assert(gates@[q] == before[q]);
                            }
                        }
                    }
                }
            }
            k += 1;
        }
        let ghost shuffled = gates@;
        push_flips(&mut gates, remaining.as_slice(), n);
        proof {
            assert(swaps@.take(swaps@.len() as int) =~= swaps@);
            if plain && permutation@.len() == n && is_permutation(permutation@, n as nat) {
                assert forall|st: Seq<bool>| st.len() == n + 1 implies #[trigger] run_bits(st, gates@)
                    == beta(st, permutation@, flip_mask@, n as nat) by {
                    lemma_apply_swaps_pull(st, swaps@, n as nat);
                    assert(run_bits(st, shuffled) == apply_swaps(st, swaps@));
                    assert(flip_bits(apply_swaps(st, swaps@), flip_mask@, n as nat) =~= beta(
                        st,
                        permutation@,
                        flip_mask@,
                        n as nat,
                    ));
                }
            }
        }
        CircuitSeq { gates }
    }

    /// The circuit of `B_{w,s}`: the shuffle alone, the shuffle then flips,
    /// or swaps with embedded flips, by the flip mode.  Its data wires are
    /// `0..width` and its auxiliary wire `width`.
    pub fn generate(&self, permutation: &[usize], flip_mask: &[u8], rng: &mut rand::rngs::StdRng) -> (r:
        CircuitSeq)
        requires
            permutation@.len() == self.data_width(),
            flip_mask@.len() == self.data_width(),
            forall|i: int|
                0 <= i < self.data_width() ==> (#[trigger] permutation@[i] as nat) < self.data_width(),
            self.library_wf(),
        ensures
            self.data_width() <= 255 ==> pins_lt(r@, self.data_width() + 1),
            self.data_width() <= 255 && is_permutation(permutation@, self.data_width())
                ==> forall|st: Seq<bool>|
                st.len() == self.data_width() + 1 ==> {
                    &&& self.mode() == FlipMode::NoFlips ==> #[trigger] run_bits(st, r@) == beta(
                        st,
                        permutation@,
                        zero_mask(self.data_width()),
                        self.data_width(),
                    )
                    &&& self.mode() == FlipMode::Separate ==> run_bits(st, r@) == beta(
                        st,
                        permutation@,
                        flip_mask@,
                        self.data_width(),
                    )
                    &&& self.mode() == FlipMode::Embedded && !self.has_library() ==> run_bits(st, r@)
                        == beta(st, permutation@, flip_mask@, self.data_width())
                },
    {
        match self.flip_mode {
            FlipMode::NoFlips => self.generate_shuffle_only(permutation),
            FlipMode::Separate => self.generate_style_a(permutation, flip_mask),
            FlipMode::Embedded => self.generate_style_b(permutation, flip_mask, rng),
        }
    }

    /// The library, if any, only holds gadgets on the local wires `0..3`.
    pub closed spec fn library_wf(&self) -> bool {
        self.library matches Some(l) ==> l.wf()
    }

    /// The circuit of the inverse pair `β_{w⁻¹, w⁻¹(s)}`.
    pub fn generate_inverse(&self, permutation: &[usize], flip_mask: &[u8], rng: &mut rand::rngs::StdRng) -> (r:
        CircuitSeq)
        requires
            permutation@.len() == self.data_width(),
            flip_mask@.len() == self.data_width(),
            forall|i: int|
                0 <= i < self.data_width() ==> (#[trigger] permutation@[i] as nat) < self.data_width(),
            self.library_wf(),
        ensures
            self.data_width() <= 255 ==> pins_lt(r@, self.data_width() + 1),
            self.data_width() <= 255 && is_permutation(permutation@, self.data_width())
                ==> forall|st: Seq<bool>|
                st.len() == self.data_width() + 1 ==> {
                    &&& self.mode() == FlipMode::NoFlips ==> #[trigger] run_bits(st, r@) == beta(
                        st,
                        inverse_perm(permutation@),
                        zero_mask(self.data_width()),
                        self.data_width(),
                    )
                    &&& self.mode() == FlipMode::Separate ==> run_bits(st, r@) == beta(
                        st,
                        inverse_perm(permutation@),
                        inverse_mask(permutation@, flip_mask@),
                        self.data_width(),
                    )
                    &&& self.mode() == FlipMode::Embedded && !self.has_library() ==> run_bits(st, r@)
                        == beta(
                        st,
                        inverse_perm(permutation@),
                        inverse_mask(permutation@, flip_mask@),
                        self.data_width(),
                    )
                },
    {
        let mut p: Vec<usize> = Vec::with_capacity(permutation.len());
        let mut f: Vec<u8> = Vec::with_capacity(flip_mask.len());
        let mut i: usize = 0;
        while i < permutation.len()
            invariant
                i <= permutation@.len(),
                permutation@.len() == flip_mask@.len(),
                p@ == permutation@.take(i as int),
                f@ == flip_mask@.take(i as int),
            decreases permutation@.len() - i,
        {
            p.push(permutation[i]);
            f.push(flip_mask[i]);
            i += 1;
            proof {
                assert(p@ =~= permutation@.take(i as int));
                assert(f@ =~= flip_mask@.take(i as int));
            }
        }
        proof {
            assert(p@ =~= permutation@);
            assert(f@ =~= flip_mask@);
        }
        let state = ShuffleBitflipState { permutation: p, flip_mask: f };
        let inv = state.inverse();
        proof {
            let n = permutation@.len();
            assert forall|v: int| 0 <= v < n implies (#[trigger] inv.permutation@[v] as nat) < n by {
                lemma_last_index_below(permutation@, n as int, v as usize);
            }
            if is_permutation(permutation@, n) {
                lemma_inverse_is_permutation(permutation@);
            }
        }
        self.generate(inv.permutation.as_slice(), inv.flip_mask.as_slice(), rng)
    }
}

/// The inverse of a permutation is a permutation.
pub proof fn lemma_inverse_is_permutation(w: Seq<usize>)
    requires
        is_permutation(w, w.len()),
        w.len() <= usize::MAX,
    ensures
        is_permutation(inverse_perm(w), w.len()),
{
    let n = w.len();
    let inv = inverse_perm(w);
    assert forall|v: int| 0 <= v < n implies w[#[trigger] inv[v] as int] == v && (inv[v] as int)
        < n by {
        assert(w.contains(v as usize));
        let j = choose|j: int| 0 <= j < n && w[j] == v as usize;
        lemma_last_index_hits(w, n as int, v as usize, j);
        lemma_last_index_below(w, n as int, v as usize);
    }
    assert forall|i: int, j: int| 0 <= i < n && 0 <= j < n && i != j implies #[trigger] inv[i]
        != #[trigger] inv[j] by {
        assert(w[inv[i] as int] == i);
        assert(w[inv[j] as int] == j);
    }
    assert forall|v: usize| (v as nat) < n implies #[trigger] inv.contains(v) by {
        lemma_last_index_unique(w, v as int);
        assert(inv[w[v as int] as int] == v);
    }
}

/// The inverse pair undoes the pair: `β_{w⁻¹, w⁻¹(s)}(β_{w,s}(x)) = x` for a
/// permutation `w` and a mask of zeros and ones.
pub proof fn lemma_beta_inverse_undoes(x: Seq<bool>, w: Seq<usize>, s: Seq<u8>)
    requires
        is_permutation(w, w.len()),
        w.len() <= usize::MAX,
        s.len() == w.len(),
        mask01(s),
        w.len() <= x.len(),
    ensures
        beta(beta(x, w, s, w.len()), inverse_perm(w), inverse_mask(w, s), w.len()) == x,
{
    let n = w.len();
    lemma_inverse_is_permutation(w);
    let inv = inverse_perm(w);
    let ims = inverse_mask(w, s);
    assert(mask01(ims)) by {
        assert forall|i: int| 0 <= i < ims.len() implies #[trigger] ims[i] <= 1 by {
            lemma_last_index_below(w, n as int, i as usize);
        }
    }
    lemma_compose_semantics(x, w, s, inv, ims);
    lemma_compose_inverse_is_identity(w, s);
    assert(beta(x, identity_perm(n), zero_mask(n), n) =~= x);
}

/// A circuit for `β_{w,s}` followed by a circuit for the inverse pair leaves
/// every bit string unchanged: the shuffle stage and its inverse cancel.
pub proof fn lemma_shuffle_then_inverse_is_identity(
    c: Seq<[u8; 3]>,
    c_inv: Seq<[u8; 3]>,
    w: Seq<usize>,
    s: Seq<u8>,
)
    requires
        is_permutation(w, w.len()),
        w.len() <= usize::MAX,
        s.len() == w.len(),
        mask01(s),
        forall|st: Seq<bool>| st.len() == w.len() + 1 ==> #[trigger] run_bits(st, c) == beta(st, w, s, w.len()),
        forall|st: Seq<bool>|
            st.len() == w.len() + 1 ==> #[trigger] run_bits(st, c_inv) == beta(
                st,
                inverse_perm(w),
                inverse_mask(w, s),
                w.len(),
            ),
    ensures
        forall|st: Seq<bool>| st.len() == w.len() + 1 ==> #[trigger] run_bits(st, c + c_inv) == st,
{
    assert forall|st: Seq<bool>| st.len() == w.len() + 1 implies #[trigger] run_bits(st, c + c_inv) == st by {
        lemma_run_concat(st, c, c_inv);
        let mid = run_bits(st, c);
        assert(mid == beta(st, w, s, w.len()));
        assert(mid.len() == st.len());
        assert(run_bits(mid, c_inv) == beta(mid, inverse_perm(w), inverse_mask(w, s), w.len()));
        lemma_beta_inverse_undoes(st, w, s);
    }
}

/// A bit as the byte 0 or 1.
pub open spec fn bit_u8(b: bool) -> u8 {
    if b {
        1u8
    } else {
        0u8
    }
}

/// The low `m` bits of `x`, least significant first.
pub open spec fn bits_of(x: u64, m: nat) -> Seq<bool> {
    Seq::new(m, |b: int| (x >> (b as u64)) & 1u64 == 1u64)
}

/// Bit `w` of `x` as a byte.
pub open spec fn input_bit(x: u64, w: usize) -> u8 {
    ((x >> (w as u64)) & 1u64) as u8
}

/// On input `x`, the circuit leaves on data wire `o < dw` bit `w(o)` of the
/// input xor `s(o)`, and keeps the wires from `dw` to `cw`.
pub open spec fn implements_on(
    c: Seq<[u8; 3]>,
    w: Seq<usize>,
    s: Seq<u8>,
    dw: nat,
    cw: nat,
    x: u64,
) -> bool {
    let out = run_bits(bits_of(x, cw), c);
    &&& forall|o: int| 0 <= o < dw ==> #[trigger] bit_u8(out[o]) == input_bit(x, w[o]) ^ s[o]
    &&& forall|v: int| dw <= v < cw ==> #[trigger] bit_u8(out[v]) == input_bit(x, v as usize)
}

proof fn lemma_gate_step_u8(t: u8, a: u8, b: u8)
    requires
        t <= 1,
        a <= 1,
        b <= 1,
    ensures
        (t ^ (a | (1u8 - b) as u8)) == bit_u8((t == 1) != ((a == 1) || !(b == 1))),
        (t ^ (a | (1u8 - b) as u8)) <= 1,
{
    assert((t ^ (a | (1u8 - b) as u8)) == (if (t == 1) != ((a == 1) || !(b == 1)) {
        1u8
    } else {
        0u8
    })) by (bit_vector)
        requires
            t <= 1,
            a <= 1,
            b <= 1,
    ;
}

proof fn lemma_input_bit(x: u64, w: usize)
    requires
        w < 64,
    ensures
        input_bit(x, w) == bit_u8((x >> (w as u64)) & 1u64 == 1u64),
        input_bit(x, w) <= 1,
{
    let v = (x >> (w as u64)) & 1u64;
    assert(v <= 1) by (bit_vector)
        requires
            v == (x >> (w as u64)) & 1u64,
    ;
}

/// Checks on every input of `circuit_width` bits that the circuit computes
/// `β_{w,s}` on the first `data_width` wires and keeps the others.
pub fn verify_shuffle_bitflip(
    circuit: &CircuitSeq,
    permutation: &[usize],
    flip_mask: &[u8],
    data_width: usize,
    circuit_width: usize,
) -> (r: bool)
    requires
        circuit_width < 64,
        data_width <= circuit_width,
        permutation@.len() >= data_width,
        flip_mask@.len() >= data_width,
        forall|o: int| 0 <= o < data_width ==> (#[trigger] permutation@[o]) < 64,
        pins_lt(circuit@, circuit_width as nat),
    ensures
        r == forall|x: u64|
            x < (1u64 << (circuit_width as u64)) ==> #[trigger] implements_on(
                circuit@,
                permutation@,
                flip_mask@,
                data_width as nat,
                circuit_width as nat,
                x,
            ),
{
    let cw = circuit_width;
    let dw = data_width;
    let limit: u64 = 1u64 << (cw as u64);
    let ghost c = circuit@;
    let mut input: u64 = 0;
    while input < limit
        invariant
            cw < 64,
            dw <= cw,
            cw == circuit_width,
            dw == data_width,
            limit == 1u64 << (cw as u64),
            c == circuit@,
            permutation@.len() >= dw,
            flip_mask@.len() >= dw,
            forall|o: int| 0 <= o < dw ==> (#[trigger] permutation@[o]) < 64,
            pins_lt(c, cw as nat),
            forall|x: u64|
                x < input ==> #[trigger] implements_on(c, permutation@, flip_mask@, dw as nat, cw as nat, x),
        decreases limit - input,
    {
        let ghost bits = bits_of(input, cw as nat);
        let mut state: Vec<u8> = Vec::with_capacity(cw);
        let mut b: usize = 0;
        while b < cw
            invariant
                b <= cw,
                cw < 64,
                bits == bits_of(input, cw as nat),
                state@.len() == b,
                forall|i: int| 0 <= i < b ==> #[trigger] state@[i] == bit_u8(bits[i]),
            decreases cw - b,
        {
            proof {
                lemma_input_bit(input, b);
            }
            state.push(((input >> (b as u64)) & 1) as u8);
            b += 1;
        }
        let n = circuit.gates.len();
        let mut k: usize = 0;
        proof {
            assert(c.take(0) =~= Seq::<[u8; 3]>::empty());
        }
        while k < n
            invariant
                k <= n,
                n == c.len(),
                c == circuit@,
                pins_lt(c, cw as nat),
                state@.len() == cw,
                bits.len() == cw,
                run_bits(bits, c.take(k as int)).len() == cw,
                forall|i: int| 0 <= i < cw ==> #[trigger] state@[i] == bit_u8(
                    run_bits(bits, c.take(k as int))[i],
                ),
            decreases n - k,
        {
            let g = circuit.gates[k];
            proof {
                assert(c[k as int] == g);
            }
            let t = g[0] as usize;
            let c1 = g[1] as usize;
            let c2 = g[2] as usize;
            let ghost cur = run_bits(bits, c.take(k as int));
            proof {
                lemma_gate_step_u8(state@[t as int], state@[c1 as int], state@[c2 as int]);
                assert(state@[t as int] <= 1 && state@[c1 as int] <= 1 && state@[c2 as int] <= 1);
            }
            let a = state[c1];
            let bb = state[c2];
            let flip = a | (1 - bb);
            let nt = state[t] ^ flip;
            state.set(t, nt);
            k += 1;
            proof {
                let t1 = c.take(k as int);
                assert(t1.drop_last() =~= c.take(k - 1));
                assert(t1.last() == g);
                assert(run_bits(bits, t1) == gate_on_bits(cur, g));
                assert forall|i: int| 0 <= i < cw implies #[trigger] state@[i] == bit_u8(
                    run_bits(bits, t1)[i],
                ) by {
                    if i == t as int {
                        lemma_gate_step_u8(bit_u8(cur[t as int]), bit_u8(cur[c1 as int]), bit_u8(cur[c2 as int]));
                    }
                }
            }
        }
        proof {
            assert(c.take(n as int) =~= c);
        }
        let ghost out = run_bits(bits, c);
        let mut o: usize = 0;
        while o < dw
            invariant
                o <= dw,
                dw <= cw,
                cw < 64,
                input < limit,
                limit == 1u64 << (cw as u64),
                cw == circuit_width,
                dw == data_width,
                c == circuit@,
                out == run_bits(bits_of(input, cw as nat), c),
                state@.len() == cw,
                out.len() == cw,
                forall|i: int| 0 <= i < cw ==> #[trigger] state@[i] == bit_u8(out[i]),
                permutation@.len() >= dw,
                flip_mask@.len() >= dw,
                forall|q: int| 0 <= q < dw ==> (#[trigger] permutation@[q]) < 64,
                forall|q: int|
                    0 <= q < o ==> #[trigger] bit_u8(out[q]) == input_bit(input, permutation@[q])
                        ^ flip_mask@[q],
            decreases dw - o,
        {
            let in_wire = permutation[o];
            let expected = (((input >> (in_wire as u64)) & 1) as u8) ^ flip_mask[o];
            if state[o] != expected {
                proof {
                    assert(bit_u8(out[o as int]) != input_bit(input, permutation@[o as int])
                        ^ flip_mask@[o as int]);
                    assert(!implements_on(c, permutation@, flip_mask@, dw as nat, cw as nat, input));
                }
                return false;
            }
            o += 1;
        }
        let mut v: usize = dw;
        while v < cw
            invariant
                dw <= v <= cw,
                cw < 64,
                input < limit,
                limit == 1u64 << (cw as u64),
                cw == circuit_width,
                dw == data_width,
                c == circuit@,
                out == run_bits(bits_of(input, cw as nat), c),
                state@.len() == cw,
                out.len() == cw,
                forall|i: int| 0 <= i < cw ==> #[trigger] state@[i] == bit_u8(out[i]),
                forall|q: int|
                    dw <= q < v ==> #[trigger] bit_u8(out[q]) == input_bit(input, q as usize),
            decreases cw - v,
        {
            if state[v] != (((input >> (v as u64)) & 1) as u8) {
                proof {
                    assert(bit_u8(out[v as int]) != input_bit(input, v));
                    assert(!implements_on(c, permutation@, flip_mask@, dw as nat, cw as nat, input));
                }
                return false;
            }
            v += 1;
        }
        proof {
            assert(implements_on(c, permutation@, flip_mask@, dw as nat, cw as nat, input));
        }
        input += 1;
    }
    true
}

/// A circuit that computes `β_{w,s}` on every bit string passes the
/// exhaustive check on every input, for a mask of zeros and ones: what
/// `generate` builds is accepted by `verify_shuffle_bitflip`.
pub proof fn lemma_beta_circuit_passes_check(c: Seq<[u8; 3]>, w: Seq<usize>, s: Seq<u8>, n: nat, x: u64)
    requires
        n + 1 < 64,
        w.len() >= n,
        s.len() >= n,
        mask01(s),
        forall|i: int| 0 <= i < n ==> (#[trigger] w[i] as nat) < n,
        forall|st: Seq<bool>| st.len() == n + 1 ==> #[trigger] run_bits(st, c) == beta(st, w, s, n),
    ensures
        implements_on(c, w, s, n, n + 1, x),
{
    let bits = bits_of(x, n + 1);
    let out = run_bits(bits, c);
    assert(out == beta(bits, w, s, n));
    assert(((1u8 ^ 1u8) == 0u8) && ((1u8 ^ 0u8) == 1u8) && ((0u8 ^ 1u8) == 1u8) && ((0u8 ^ 0u8) == 0u8))
        by (bit_vector);
    assert forall|o: int| 0 <= o < n implies #[trigger] bit_u8(out[o]) == input_bit(x, w[o]) ^ s[o] by {
        lemma_input_bit(x, w[o]);
        assert(s[o] <= 1);
    }
    assert forall|v: int| n <= v < n + 1 implies #[trigger] bit_u8(out[v]) == input_bit(x, v as usize) by {
        lemma_input_bit(x, v as usize);
    }
}

} // verus!
