//! Helpers of the butterfly mixing pipeline: pin statistics and random
//! chunking of a circuit.
use vstd::prelude::*;

use crate::algorithms::identity_growth::{pin_count, pins_below};
use crate::infra::circuit::CircuitSeq;
use crate::infra::random::rng_usize_inclusive;

verus! {

/// How often each wire `0..num_wires` is a pin of some gate.  Every pin must
/// be below `num_wires`.
pub fn pin_counts(circuit: &CircuitSeq, num_wires: usize) -> (r: Vec<usize>)
    requires
        pins_below(circuit@, num_wires as nat),
        3 * circuit@.len() <= usize::MAX,
    ensures
        r@.len() == num_wires,
        forall|w: int| 0 <= w < num_wires ==> #[trigger] r@[w] == pin_count(circuit@, w as usize),
{
    let ghost c = circuit@;
    let mut counts: Vec<usize> = Vec::with_capacity(num_wires);
    let mut w: usize = 0;
    while w < num_wires
        invariant
            w <= num_wires,
            counts@ == Seq::new(w as nat, |i: int| 0usize),
        decreases num_wires - w,
    {
        counts.push(0);
        w += 1;
        proof {
            assert(counts@ =~= Seq::new(w as nat, |i: int| 0usize));
        }
    }
    let n = circuit.gates.len();
    let mut k: usize = 0;
    proof {
        assert(c.take(0) =~= Seq::<[u8; 3]>::empty());
    }
    while k < n
        invariant
            k <= n,
            n == c.len(),
            c == circuit@,
            3 * n <= usize::MAX,
            pins_below(c, num_wires as nat),
            counts@.len() == num_wires,
            forall|v: int| 0 <= v < num_wires ==> #[trigger] counts@[v] == pin_count(c.take(k as int), v as usize),
        decreases n - k,
    {
        let g = circuit.gates[k];
        proof {
            assert(c[k as int] == g);
            assert(c.take(k + 1).drop_last() =~= c.take(k as int));
            assert forall|v: int| 0 <= v < num_wires implies #[trigger] counts@[v] <= 3 * k by {
                crate::algorithms::identity_growth::lemma_counts_bounded(c.take(k as int), v as usize, 0);
            }
        }
        let a = g[0] as usize;
        let b = g[1] as usize;
        let d = g[2] as usize;
        let ca = counts[a];
        counts.set(a, ca + 1);
        let cb = counts[b];
        counts.set(b, cb + 1);
        let cd = counts[d];
        counts.set(d, cd + 1);
        k += 1;
        proof {
            assert forall|v: int| 0 <= v < num_wires implies #[trigger] counts@[v] == pin_count(
                c.take(k as int),
                v as usize,
            ) by {
                assert(c.take(k as int).last() == g);
            }
        }
    }
    proof {
        assert(c.take(n as int) =~= c);
    }
    counts
}

/// Clones of the items `lo..hi`.
fn clone_range<T: Clone>(v: &[T], lo: usize, hi: usize) -> (r: Vec<T>)
    requires
        lo <= hi <= v@.len(),
    ensures
        r@.len() == hi - lo,
        forall|i: int| 0 <= i < hi - lo ==> cloned(v@[lo + i], #[trigger] r@[i]),
{
    let mut r: Vec<T> = Vec::with_capacity(hi - lo);
    let mut i: usize = lo;
    while i < hi
        invariant
            lo <= i <= hi,
            hi <= v@.len(),
            r@.len() == i - lo,
            forall|j: int| 0 <= j < i - lo ==> cloned(v@[lo + j], #[trigger] r@[j]),
        decreases hi - i,
    {
        let x = v[i].clone();
        r.push(x);
        proof {
            assert(cloned(v@[i as int], r@[i - lo]));
        }
        i += 1;
    }
    r
}

/// `b` cuts `0..n` into at most `k` consecutive chunks (at least one), each
/// of at least 100 items when `k > 1` and `n > 1`.
pub open spec fn chunk_bounds(b: Seq<usize>, n: nat, k: nat) -> bool {
    &&& b.len() >= 2
    &&& b[0] == 0
    &&& b.last() == n
    &&& b.len() - 1 <= if k >= 1 { k } else { 1 }
    &&& forall|j: int| 0 <= j < b.len() - 1 ==> #[trigger] b[j] <= b[j + 1]
    &&& k > 1 && n > 1 ==> forall|j: int| 0 <= j < b.len() - 1 ==> #[trigger] b[j] + 100 <= b[j + 1]
}

/// Random cut points: each at least 100 after the previous one (the first
/// at least 100), leaving room for 100 items per remaining chunk: `k - 1` of
/// them, or none when exactly `100 * k` items leave no room for a first cut.
fn random_cuts(n: usize, k: usize, rng: &mut rand::rngs::StdRng) -> (cuts: Vec<usize>)
    requires
        k > 1,
        n > 1,
        n == 100 * k || n >= 100 * (k + 1),
    ensures
        chunk_bounds(seq![0usize] + cuts@ + seq![n], n as nat, k as nat),
        cuts@.len() == if n == 100 * k { 0 } else { k - 1 },
{
    let min_size: usize = 100;
    let max_chunks = k;
    let mut cuts: Vec<usize> = Vec::new();
    let mut start: usize = 0;
    let mut t: usize = 0;
    while t < max_chunks - 1
        invariant
            max_chunks == k,
            k > 1,
            n > 1,
            min_size == 100,
            n == 100 * k || n >= 100 * (k + 1),
            t <= max_chunks - 1,
            cuts@.len() == t,
            t == 0 ==> start == 0,
            t > 0 ==> start == cuts@[t - 1] && start + (k - t + 1) * 100 <= n,
            t > 0 ==> cuts@[0] >= 100,
            forall|j: int| 0 <= j < t - 1 ==> #[trigger] cuts@[j] + 100 <= cuts@[j + 1],
            n == 100 * k ==> t == 0,
        ensures
            cuts@.len() == t,
            t == 0 ==> start == 0,
            t > 0 ==> start == cuts@[t - 1] && start + (k - t + 1) * 100 <= n,
            t > 0 ==> cuts@[0] >= 100,
            forall|j: int| 0 <= j < t - 1 ==> #[trigger] cuts@[j] + 100 <= cuts@[j + 1],
            t == if n == 100 * k { 0 } else { k - 1 },
        decreases max_chunks - 1 - t,
    {
        let remaining = max_chunks - cuts.len();
        proof {
            assert(remaining * 100 <= n) by (nonlinear_arith)
                requires
                    remaining <= k,
                    n >= 100 * k,
            ;
        }
        let max_cut = n - remaining * min_size;
        proof {
            assert(remaining * min_size == (k - t) * 100);
            if t > 0 {
                assert((k - t + 1) * 100 == (k - t) * 100 + 100);
            } else if n != 100 * k {
                assert(n >= 100 * k + 100);
            }
        }
        if start >= max_cut {
            proof {
                assert(t == 0 && n == 100 * k);
            }
            break;
        }
        proof {
            if t == 0 {
                assert(n >= 100 * (k + 1));
                assert(remaining == k);
            }
        }
        let cut = rng_usize_inclusive(rng, start + min_size, max_cut);
        let ghost before = cuts@;
        cuts.push(cut);
        start = cut;
        t += 1;
        proof {
            assert(cuts@[t - 1] == cut);
            assert forall|j: int| 0 <= j < t - 1 implies #[trigger] cuts@[j] + 100 <= cuts@[j + 1] by {
                if j + 1 < t - 1 {
                    assert(cuts@[j] == before[j] && cuts@[j + 1] == before[j + 1]);
                } else {
                    assert(cuts@[j] == before[j]);
                }
            }
            if t > 1 {
                assert(cuts@[0] == before[0]);
            }
        }
    }
    proof {
        let b = seq![0usize] + cuts@ + seq![n];
        let tt = cuts@.len() as int;
        assert(b.len() == tt + 2);
        assert(b[0] == 0);
        assert(b.last() == n);
        assert forall|j: int| 0 <= j < b.len() - 1 implies #[trigger] b[j] + 100 <= b[j + 1] by {
            if j == 0 {
                if tt > 0 {
                    assert(b[1] == cuts@[0]);
                }
            } else if j < tt {
                assert(b[j] == cuts@[j - 1] && b[j + 1] == cuts@[j]);
            } else {
                assert(b[j] == cuts@[tt - 1]);
            }
        }
        assert forall|j: int| 0 <= j < b.len() - 1 implies #[trigger] b[j] <= b[j + 1] by {
            assert(b[j] + 100 <= b[j + 1]);
        }
    }
    cuts
}

/// `chunk` holds clones of the items of `v` from bound `j` to bound `j + 1`.
pub open spec fn chunk_ok<T: Clone>(v: Seq<T>, b: Seq<usize>, j: int, chunk: Seq<T>) -> bool {
    &&& chunk.len() == b[j + 1] - b[j]
    &&& forall|i: int| 0 <= i < chunk.len() ==> cloned(v[b[j] + i], #[trigger] chunk[i])
}

/// The chunks of `v` between consecutive bounds, as clones.
fn chunks_between<T: Clone>(v: &[T], bounds: &Vec<usize>, k: Ghost<nat>) -> (r: Vec<Vec<T>>)
    requires
        chunk_bounds(bounds@, v@.len(), k@),
    ensures
        r@.len() == bounds@.len() - 1,
        forall|j: int| 0 <= j < r@.len() ==> #[trigger] chunk_ok(v@, bounds@, j, r@[j]@),
{
    let ghost b = bounds@;
    let n = v.len();
    let mut out: Vec<Vec<T>> = Vec::new();
    let nb = bounds.len();
    let mut j: usize = 0;
    proof {
        assert forall|x: int| 0 <= x < b.len() implies #[trigger] b[x] <= n by {
            lemma_bounds_below(b, n as nat, k@, x);
        }
    }
    while j + 1 < nb
        invariant
            nb == b.len(),
            bounds@ == b,
            chunk_bounds(b, n as nat, k@),
            forall|x: int| 0 <= x < b.len() ==> #[trigger] b[x] <= n,
            n == v@.len(),
            j + 1 <= nb,
            out@.len() == j,
            forall|a: int| 0 <= a < j ==> #[trigger] chunk_ok(v@, b, a, out@[a]@),
        decreases nb - j,
    {
        proof {
            assert(b[j as int] <= b[j + 1]);
            assert(b[j + 1] <= n);
        }
        let chunk = clone_range(v, bounds[j], bounds[j + 1]);
        proof {
            assert(chunk_ok(v@, b, j as int, chunk@));
        }
        let ghost before = out@;
        out.push(chunk);
        proof {
            assert forall|a: int| 0 <= a < j + 1 implies #[trigger] chunk_ok(v@, b, a, out@[a]@) by {
                if a < j {
                    assert(out@[a] == before[a]);
                }
            }
        }
        j += 1;
    }
    out
}

/// Splits `v` into at most `k` consecutive chunks of at least 100 items, at
/// random cut points; with `k <= 1` or at most one item, one chunk holds all.
/// The cuts must be possible: `v` holds exactly `100 k` items (one chunk)
/// or at least `100 (k + 1)`.
pub fn split_into_random_chunks<T: Clone>(v: &[T], k: usize, rng: &mut rand::rngs::StdRng) -> (r: Vec<Vec<T>>)
    requires
        k <= 1 || v@.len() <= 1 || v@.len() == 100 * k || v@.len() >= 100 * (k + 1),
    ensures
        k <= 1 || v@.len() <= 1 ==> r@.len() == 1,
        exists|b: Seq<usize>|
            #[trigger] chunk_bounds(b, v@.len(), k as nat) && r@.len() == b.len() - 1 && forall|j: int|
                0 <= j < r@.len() ==> #[trigger] chunk_ok(v@, b, j, r@[j]@),
{
    let n = v.len();
    let mut bounds: Vec<usize> = Vec::new();
    bounds.push(0);
    if k <= 1 || n <= 1 {
        bounds.push(n);
        proof {
            assert(bounds@ =~= seq![0usize, n]);
            assert(chunk_bounds(bounds@, n as nat, k as nat));
        }
    } else {
        let cuts = random_cuts(n, k, rng);
        let mut q: usize = 0;
        while q < cuts.len()
            invariant
                q <= cuts@.len(),
                bounds@ == seq![0usize] + cuts@.take(q as int),
            decreases cuts@.len() - q,
        {
            bounds.push(cuts[q]);
            q += 1;
            proof {
                assert(bounds@ =~= seq![0usize] + cuts@.take(q as int));
            }
        }
        bounds.push(n);
        proof {
            assert(cuts@.take(cuts@.len() as int) =~= cuts@);
            assert(bounds@ =~= seq![0usize] + cuts@ + seq![n]);
        }
    }
    let r = chunks_between(v, &bounds, Ghost(k as nat));
    proof {
        assert(chunk_bounds(bounds@, v@.len(), k as nat));
    }
    r
}

/// Every bound is at most `n`.
proof fn lemma_bounds_below(b: Seq<usize>, n: nat, k: nat, x: int)
    requires
        chunk_bounds(b, n, k),
        0 <= x < b.len(),
    ensures
        b[x] <= n,
    decreases b.len() - x,
{
    if x < b.len() - 1 {
        lemma_bounds_below(b, n, k, x + 1);
    }
}

} // verus!
