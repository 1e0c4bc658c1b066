//! Template-seeded identity growth: the wire-interaction skeleton that
//! guides where identity templates are placed, the rewiring of a template
//! onto chosen wires, and the bounded compression between rounds.
use vstd::prelude::*;

use std::collections::HashMap;

use crate::algorithms::annealing::local::{reduce_circuit, reduce_fixpoint, ReduceConfig};
use crate::obfuscate::passes::{lemma_stack_reduce, simple_compress, stack_reduce};
use crate::infra::circuit::{
    copy_gates, gates_reversible, same_function, lemma_same_function_transitive,
    CircuitSeq,
};
use crate::infra::random::{rng_ratio, rng_usize_below, rng_usize_inclusive, shuffle_prefix};
use crate::infra::store::reader::{has_encoding, TemplateDB};
use crate::infra::store::schema::TemplateRecord;

verus! {

broadcast use vstd::std_specs::hash::group_hash_axioms;

/// Source for identity templates.
#[derive(Debug, Clone, Copy, PartialEq, Eq, Structural)]
pub enum TemplateSource {
    /// Canonical identities from the permutation tables.
    PermTables,
    /// Identities from the template database.
    TemplateDB,
    /// Either of the two, chosen at random.
    Mixed,
}

impl Default for TemplateSource {
    fn default() -> (r: Self)
        ensures
            r == TemplateSource::PermTables,
    {
        TemplateSource::PermTables
    }
}

/// Wire selection strategy for the skeleton graph.
#[derive(Debug, Clone, Copy, PartialEq, Eq, Structural)]
pub enum SkeletonMode {
    /// Prefer low-degree wires to spread coverage.
    Balanced,
    /// Any wires, allowing overlap and dense interaction regions.
    Dense,
    /// Untouched wires where there are enough of them.
    Sparse,
}

impl Default for SkeletonMode {
    fn default() -> (r: Self)
        ensures
            r == SkeletonMode::Balanced,
    {
        SkeletonMode::Balanced
    }
}

/// The key under which the pair of wires `a <= b` is counted.
pub open spec fn edge_key(a: u8, b: u8) -> usize {
    if a < b {
        ((a as usize) * 256 + (b as usize)) as usize
    } else {
        ((b as usize) * 256 + (a as usize)) as usize
    }
}

/// How often wire `w` is a pin of `g`.
pub open spec fn gate_pins(g: [u8; 3], w: usize) -> nat {
    (if g[0] as usize == w { 1nat } else { 0nat }) + (if g[1] as usize == w {
        1nat
    } else {
        0nat
    }) + (if g[2] as usize == w {
        1nat
    } else {
        0nat
    })
}

/// How often the wire pair with key `k` is among the three pin pairs of `g`.
pub open spec fn gate_pairs(g: [u8; 3], k: usize) -> nat {
    (if edge_key(g[0], g[1]) == k { 1nat } else { 0nat }) + (if edge_key(g[0], g[2]) == k {
        1nat
    } else {
        0nat
    }) + (if edge_key(g[1], g[2]) == k {
        1nat
    } else {
        0nat
    })
}

/// How often wire `w` occurs among the pins of the gates of `c`.
pub open spec fn pin_count(c: Seq<[u8; 3]>, w: usize) -> nat
    decreases c.len(),
{
    if c.len() == 0 {
        0
    } else {
        pin_count(c.drop_last(), w) + gate_pins(c.last(), w)
    }
}

/// How often the wire pair with key `k` occurs among the three pin pairs of
/// the gates of `c`.
pub open spec fn pair_count(c: Seq<[u8; 3]>, k: usize) -> nat
    decreases c.len(),
{
    if c.len() == 0 {
        0
    } else {
        pair_count(c.drop_last(), k) + gate_pairs(c.last(), k)
    }
}

/// Each gate adds at most three to either count.
pub proof fn lemma_counts_bounded(c: Seq<[u8; 3]>, w: usize, k: usize)
    ensures
        pin_count(c, w) <= 3 * c.len(),
        pair_count(c, k) <= 3 * c.len(),
    decreases c.len(),
{
    if c.len() > 0 {
        lemma_counts_bounded(c.drop_last(), w, k);
    }
}

/// The count under key `k`, zero where there is none.
pub open spec fn count_or_zero(m: Map<usize, usize>, k: usize) -> nat {
    if m.contains_key(k) {
        m[k] as nat
    } else {
        0
    }
}

/// Wire `v` comes before wire `w` in the order by degree, ties by number.
pub open spec fn wire_before(deg: Seq<usize>, v: usize, w: usize) -> bool {
    deg[v as int] < deg[w as int] || (deg[v as int] == deg[w as int] && v < w)
}

/// The wires below `k` of degree zero, in increasing order.
pub open spec fn untouched_upto(deg: Seq<usize>, k: int) -> Seq<usize>
    decreases k,
{
    if k <= 0 {
        Seq::empty()
    } else if deg[k - 1] == 0 {
        untouched_upto(deg, k - 1).push((k - 1) as usize)
    } else {
        untouched_upto(deg, k - 1)
    }
}

/// The untouched wires are increasing, below `k` and of degree zero.
proof fn lemma_untouched(deg: Seq<usize>, k: int)
    requires
        0 <= k <= deg.len(),
        k <= usize::MAX + 1,
    ensures
        forall|i: int, j: int|
            0 <= i < j < untouched_upto(deg, k).len() ==> #[trigger] untouched_upto(deg, k)[i]
                < #[trigger] untouched_upto(deg, k)[j],
        forall|i: int|
            0 <= i < untouched_upto(deg, k).len() ==> (#[trigger] untouched_upto(deg, k)[i] as int)
                < k && deg[untouched_upto(deg, k)[i] as int] == 0,
    decreases k,
{
    if k > 0 {
        lemma_untouched(deg, k - 1);
        let prev = untouched_upto(deg, k - 1);
        let cur = untouched_upto(deg, k);
        if deg[k - 1] == 0 {
            assert(cur == prev.push((k - 1) as usize));
            assert forall|i: int| 0 <= i < cur.len() implies (#[trigger] cur[i] as int) < k
                && deg[cur[i] as int] == 0 by {
                if i < prev.len() {
                    assert(cur[i] == prev[i]);
                }
            }
            assert forall|i: int, j: int| 0 <= i < j < cur.len() implies #[trigger] cur[i]
                < #[trigger] cur[j] by {
                assert(cur[i] == prev[i]);
                if j < prev.len() {
                    assert(cur[j] == prev[j]);
                }
            }
        } else {
            assert(cur == prev);
        }
    }
}

/// `min(2 * size, n)`: how many of the lowest-degree wires the balanced
/// selection draws from.
pub open spec fn pool_size(size: nat, n: nat) -> nat {
    if 2 * size <= n {
        2 * size
    } else {
        n
    }
}

/// `pool` holds `p` distinct wires below `n`, and every wire below `n`
/// outside it comes after each of them in the order by degree.
pub open spec fn lowest_pool(pool: Seq<usize>, deg: Seq<usize>, n: nat, p: nat) -> bool {
    &&& pool.len() == p
    &&& pool.no_duplicates()
    &&& forall|i: int| 0 <= i < p ==> (#[trigger] pool[i] as nat) < n
    &&& forall|v: usize, i: int|
        (v as nat) < n && !pool.contains(v) && 0 <= i < p ==> #[trigger] wire_before(deg, pool[i], v)
}

/// Every wire of `r` comes from the `p` lowest wires in the order by degree.
pub open spec fn drawn_from_lowest(r: Seq<usize>, deg: Seq<usize>, n: nat, p: nat) -> bool {
    exists|pool: Seq<usize>|
        #[trigger] lowest_pool(pool, deg, n, p) && forall|i: int|
            0 <= i < r.len() ==> pool.contains(#[trigger] r[i])
}

/// After a shuffle of the first `k` items, those items are distinct again
/// and each was among the first `k` before.
pub proof fn lemma_shuffled_prefix(before: Seq<usize>, after: Seq<usize>, k: int)
    requires
        0 <= k <= before.len(),
        k <= after.len(),
        after.take(k).to_multiset() == before.take(k).to_multiset(),
        before.take(k).no_duplicates(),
    ensures
        after.take(k).no_duplicates(),
        forall|i: int| 0 <= i < k ==> before.take(k).contains(#[trigger] after[i]),
{
    let a = after.take(k);
    let b = before.take(k);
    a.to_multiset_ensures();
    b.to_multiset_ensures();
    b.lemma_multiset_has_no_duplicates();
    assert forall|i: int| 0 <= i < k implies b.contains(#[trigger] after[i]) by {
        assert(a[i] == after[i]);
        assert(a.contains(a[i]));
        assert(a.to_multiset().count(a[i]) > 0);
    }
    assert forall|x: usize| a.to_multiset().contains(x) implies a.to_multiset().count(x) == 1 by {
        assert(b.to_multiset().count(x) > 0);
        assert(b.contains(x));
    }
    a.lemma_multiset_has_no_duplicates_conv();
}

/// The first `k` items of `v`.
pub fn take_prefix(v: &Vec<usize>, k: usize) -> (r: Vec<usize>)
    requires
        k <= v@.len(),
    ensures
        r@ == v@.take(k as int),
{
    let mut r: Vec<usize> = Vec::with_capacity(k);
    let mut i: usize = 0;
    while i < k
        invariant
            i <= k,
            k <= v@.len(),
            r@ == v@.take(i as int),
        decreases k - i,
    {
        r.push(v[i]);
        i += 1;
        proof {
            assert(r@ =~= v@.take(i as int));
        }
    }
    r
}

/// The number of wires below `k` of nonzero degree.
pub open spec fn touched_upto(deg: Seq<usize>, k: int) -> nat
    decreases k,
{
    if k <= 0 {
        0
    } else {
        touched_upto(deg, k - 1) + if deg[k - 1] > 0 {
            1nat
        } else {
            0nat
        }
    }
}

/// Every pin of every gate of `c` is below `n`.
pub open spec fn pins_below(c: Seq<[u8; 3]>, n: nat) -> bool {
    forall|i: int|
        0 <= i < c.len() ==> (#[trigger] c[i])[0] < n && c[i][1] < n && c[i][2] < n
}

/// Tracks wire-to-wire interaction for placement guidance: how often each
/// pair of wires shared a gate, and the degree of each wire (each gate adds
/// two to the degree of each of its pins).
#[derive(Debug, Clone)]
pub struct SkeletonGraph {
    num_wires: usize,
    edges: HashMap<usize, usize>,
    degrees: Vec<usize>,
}

impl SkeletonGraph {
    /// Well-formedness: one degree per wire.
    pub closed spec fn wf(&self) -> bool {
        self.degrees@.len() == self.num_wires
    }

    /// The number of wires.
    pub closed spec fn wires(&self) -> nat {
        self.num_wires as nat
    }

    /// The degree of each wire.
    pub closed spec fn degree_seq(&self) -> Seq<usize> {
        self.degrees@
    }

    /// The interaction count of each wire pair, by `edge_key`.
    pub closed spec fn edge_counts(&self) -> Map<usize, usize> {
        self.edges@
    }

    /// An empty skeleton on `num_wires` wires.
    pub fn new(num_wires: usize) -> (r: Self)
        ensures
            r.wf(),
            r.wires() == num_wires,
            r.degree_seq() == Seq::new(num_wires as nat, |i: int| 0usize),
            r.edge_counts() == Map::<usize, usize>::empty(),
    {
        let mut degrees: Vec<usize> = Vec::with_capacity(num_wires);
        let mut i: usize = 0;
        while i < num_wires
            invariant
                i <= num_wires,
                degrees@ == Seq::new(i as nat, |j: int| 0usize),
            decreases num_wires - i,
        {
            degrees.push(0);
            i += 1;
            proof {
                assert(degrees@ =~= Seq::new(i as nat, |j: int| 0usize));
            }
        }
        SkeletonGraph { num_wires, edges: HashMap::new(), degrees }
    }

    /// The number of wires.
    pub fn num_wires(&self) -> (r: usize)
        ensures
            r == self.wires(),
    {
        self.num_wires
    }

    /// Adds one to the count of the pair `a`, `b` and to the degrees of both.
    fn add_pair(&mut self, a: u8, b: u8)
        requires
            old(self).wf(),
            (a as nat) < old(self).wires(),
            (b as nat) < old(self).wires(),
            count_or_zero(old(self).edge_counts(), edge_key(a, b)) < usize::MAX,
            a != b ==> old(self).degree_seq()[a as int] + 1 <= usize::MAX
                && old(self).degree_seq()[b as int] + 1 <= usize::MAX,
            a == b ==> old(self).degree_seq()[a as int] + 2 <= usize::MAX,
        ensures
            final(self).wf(),
            final(self).wires() == old(self).wires(),
            final(self).edge_counts() == old(self).edge_counts().insert(
                edge_key(a, b),
                (count_or_zero(old(self).edge_counts(), edge_key(a, b)) + 1) as usize,
            ),
            final(self).degree_seq().len() == old(self).degree_seq().len(),
            forall|w: int|
                0 <= w < old(self).degree_seq().len() ==> #[trigger] final(self).degree_seq()[w]
                    == old(self).degree_seq()[w] + (if w == a as int { 1int } else { 0int }) + (
                if w == b as int {
                    1int
                } else {
                    0int
                }),
    {
        let key: usize = if a < b {
            (a as usize) * 256 + (b as usize)
        } else {
            (b as usize) * 256 + (a as usize)
        };
        let prev: usize = match self.edges.get(&key) {
            Some(v) => *v,
            None => 0,
        };
        self.edges.insert(key, prev + 1);
        let ai = a as usize;
        let bi = b as usize;
        let da = self.degrees[ai];
        self.degrees.set(ai, da + 1);
        let db = self.degrees[bi];
        self.degrees.set(bi, db + 1);
    }

    /// Adds the three pin pairs of `g`.
    fn add_gate(&mut self, g: [u8; 3])
        requires
            old(self).wf(),
            (g[0] as nat) < old(self).wires(),
            (g[1] as nat) < old(self).wires(),
            (g[2] as nat) < old(self).wires(),
            forall|k: usize|
                #![trigger gate_pairs(g, k)]
                gate_pairs(g, k) > 0 ==> count_or_zero(old(self).edge_counts(), k) + 3
                    <= usize::MAX,
            forall|w: int|
                0 <= w < old(self).wires() ==> #[trigger] old(self).degree_seq()[w] + 6
                    <= usize::MAX,
        ensures
            final(self).wf(),
            final(self).wires() == old(self).wires(),
            forall|w: int|
                0 <= w < old(self).wires() ==> #[trigger] final(self).degree_seq()[w]
                    == old(self).degree_seq()[w] + 2 * gate_pins(g, w as usize),
            forall|k: usize|
                #[trigger] final(self).edge_counts().contains_key(k) <==> (old(
                    self,
                ).edge_counts().contains_key(k) || gate_pairs(g, k) > 0),
            forall|k: usize|
                #[trigger] final(self).edge_counts().contains_key(k) ==> final(self).edge_counts()[k]
                    == count_or_zero(old(self).edge_counts(), k) + gate_pairs(g, k),
    {
        let ghost e0 = self.edge_counts();
        let ghost d0 = self.degree_seq();
        assert(gate_pairs(g, edge_key(g[0], g[1])) > 0);
        self.add_pair(g[0], g[1]);
        let ghost e1 = self.edge_counts();
        assert(gate_pairs(g, edge_key(g[0], g[2])) > 0);
        self.add_pair(g[0], g[2]);
        let ghost e2 = self.edge_counts();
        assert(gate_pairs(g, edge_key(g[1], g[2])) > 0);
        self.add_pair(g[1], g[2]);
        proof {
            assert forall|k: usize| #[trigger]
                self.edge_counts().contains_key(k) implies self.edge_counts()[k] == count_or_zero(
                e0,
                k,
            ) + gate_pairs(g, k) by {}
        }
    }

    /// Adds the pin pairs of every gate of `circuit`: each pair of pins of a
    /// gate counts once for its wire pair and once for the degree of each
    /// of the two wires.  Every pin must be one of the graph's wires.
    pub fn update_from_circuit(&mut self, circuit: &CircuitSeq)
        requires
            old(self).wf(),
            pins_below(circuit@, old(self).wires()),
            forall|w: int|
                0 <= w < old(self).wires() ==> #[trigger] old(self).degree_seq()[w] + 6
                    * circuit@.len() <= usize::MAX,
            forall|k: usize|
                #[trigger] old(self).edge_counts().contains_key(k) ==> old(self).edge_counts()[k] + 3
                    * circuit@.len() <= usize::MAX,
        ensures
            final(self).wf(),
            final(self).wires() == old(self).wires(),
            forall|w: int|
                0 <= w < old(self).wires() ==> #[trigger] final(self).degree_seq()[w]
                    == old(self).degree_seq()[w] + 2 * pin_count(circuit@, w as usize),
            forall|k: usize|
                #[trigger] final(self).edge_counts().contains_key(k) <==> (old(
                    self,
                ).edge_counts().contains_key(k) || pair_count(circuit@, k) > 0),
            forall|k: usize|
                #[trigger] final(self).edge_counts().contains_key(k) ==> final(self).edge_counts()[k]
                    == count_or_zero(old(self).edge_counts(), k) + pair_count(circuit@, k),
    {
        let ghost e0 = self.edge_counts();
        let ghost d0 = self.degree_seq();
        let ghost n = self.wires();
        let ghost c = circuit@;
        let len = circuit.gates.len();
        proof {
            if len > 0 {
                assert(c[0][0] < n);
                assert(d0[c[0][0] as int] + 6 * c.len() <= usize::MAX);
            }
        }
        let mut i: usize = 0;
        while i < len
            invariant
                i <= len,
                len == c.len(),
                c == circuit@,
                len > 0 ==> 6 * len <= usize::MAX,
                self.wf(),
                self.wires() == n,
                pins_below(c, n),
                forall|w: int| 0 <= w < n ==> #[trigger] d0[w] + 6 * c.len() <= usize::MAX,
                forall|k: usize| #[trigger] e0.contains_key(k) ==> e0[k] + 3 * c.len() <= usize::MAX,
                forall|w: int|
                    0 <= w < n ==> #[trigger] self.degree_seq()[w] == d0[w] + 2 * pin_count(
                        c.take(i as int),
                        w as usize,
                    ),
                forall|k: usize|
                    #[trigger] self.edge_counts().contains_key(k) <==> (e0.contains_key(k)
                        || pair_count(c.take(i as int), k) > 0),
                forall|k: usize|
                    #[trigger] self.edge_counts().contains_key(k) ==> self.edge_counts()[k]
                        == count_or_zero(e0, k) + pair_count(c.take(i as int), k),
            decreases len - i,
        {
            let g = circuit.gates[i];
            proof {
                assert(c.take(i + 1).drop_last() =~= c.take(i as int));
                assert(c.take(i + 1).last() == g);
                assert(g == c[i as int]);
                assert forall|k: usize| #![trigger gate_pairs(g, k)]
                    gate_pairs(g, k) > 0 implies count_or_zero(self.edge_counts(), k) + 3
                    <= usize::MAX by {
                    lemma_counts_bounded(c.take(i as int), 0, k);
                    if e0.contains_key(k) {
                        assert(e0[k] + 3 * c.len() <= usize::MAX);
                    }
                }
                assert forall|w: int| 0 <= w < n implies #[trigger] self.degree_seq()[w] + 6
                    <= usize::MAX by {
                    lemma_counts_bounded(c.take(i as int), w as usize, 0);
                    assert(d0[w] + 6 * c.len() <= usize::MAX);
                }
            }
            self.add_gate(g);
            i += 1;
            proof {
                assert forall|w: int| 0 <= w < n implies #[trigger] self.degree_seq()[w] == d0[w]
                    + 2 * pin_count(c.take(i as int), w as usize) by {
                    assert(pin_count(c.take(i as int), w as usize) == pin_count(
                        c.take(i - 1),
                        w as usize,
                    ) + gate_pins(g, w as usize));
                }
                assert forall|k: usize| #[trigger]
                    self.edge_counts().contains_key(k) implies self.edge_counts()[k]
                    == count_or_zero(e0, k) + pair_count(c.take(i as int), k) by {
                    assert(pair_count(c.take(i as int), k) == pair_count(c.take(i - 1), k)
                        + gate_pairs(g, k));
                }
                assert forall|k: usize| #![trigger self.edge_counts().contains_key(k)]
                    e0.contains_key(k) || pair_count(c.take(i as int), k) > 0 implies
                    self.edge_counts().contains_key(k) by {
                    assert(pair_count(c.take(i as int), k) == pair_count(c.take(i - 1), k)
                        + gate_pairs(g, k));
                }
            }
        }
        proof {
            assert(c.take(len as int) =~= c);
        }
    }

    /// The wires sorted by degree, ties by wire number (a stable sort of
    /// `0..n` by degree).
    fn sorted_by_degree(&self) -> (r: Vec<usize>)
        requires
            self.wf(),
        ensures
            r@.len() == self.wires(),
            r@.no_duplicates(),
            forall|v: usize| r@.contains(v) <==> (v as nat) < self.wires(),
            forall|i: int, j: int|
                0 <= i < j < r@.len() ==> wire_before(self.degree_seq(), #[trigger] r@[i], #[trigger] r@[j]),
    {
        let n = self.num_wires;
        let ghost deg = self.degree_seq();
        let mut sorted: Vec<usize> = Vec::with_capacity(n);
        let mut w: usize = 0;
        while w < n
            invariant
                w <= n,
                n == self.wires(),
                self.wf(),
                deg == self.degree_seq(),
                sorted@.len() == w,
                sorted@.no_duplicates(),
                forall|v: usize| sorted@.contains(v) <==> v < w,
                forall|i: int, j: int|
                    0 <= i < j < sorted@.len() ==> wire_before(deg, #[trigger] sorted@[i], #[trigger] sorted@[j]),
            decreases n - w,
        {
            proof {
                assert forall|j: int| 0 <= j < sorted@.len() implies #[trigger] sorted@[j] < w by {
                    assert(sorted@.contains(sorted@[j]));
                }
            }
            let mut pos: usize = 0;
            while pos < sorted.len() && self.degrees[sorted[pos]] <= self.degrees[w]
                invariant
                    pos <= sorted@.len(),
                    w < n,
                    n == self.wires(),
                    self.wf(),
                    deg == self.degree_seq(),
                    forall|v: usize| sorted@.contains(v) <==> v < w,
                    forall|j: int| 0 <= j < sorted@.len() ==> #[trigger] sorted@[j] < w,
                    forall|j: int| 0 <= j < pos ==> deg[#[trigger] sorted@[j] as int] <= deg[w as int],
                decreases sorted@.len() - pos,
            {
                proof {
                    assert(sorted@.contains(sorted@[pos as int]));
                }
                pos += 1;
            }
            let ghost before = sorted@;
            proof {
                assert forall|j: int| 0 <= j < before.len() implies #[trigger] before[j] < w by {
                    assert(before.contains(before[j]));
                }
            }
            sorted.insert(pos, w);
            proof {
                before.insert_ensures(pos as int, w);
                let now = sorted@;
                assert forall|i: int, j: int| 0 <= i < j < now.len() implies wire_before(
                    deg,
                    #[trigger] now[i],
                    #[trigger] now[j],
                ) by {
                    if j < pos {
                        assert(now[i] == before[i] && now[j] == before[j]);
                    } else if j == pos {
                        assert(now[i] == before[i]);
                    } else if i < pos {
                        assert(now[i] == before[i] && now[j] == before[j - 1]);
                    } else if i == pos {
                        assert(now[j] == before[j - 1]);
                        assert(deg[before[pos as int] as int] > deg[w as int]);
                        if j - 1 > pos {
                            assert(wire_before(deg, before[pos as int], before[j - 1]));
                        }
                    } else {
                        assert(now[i] == before[i - 1] && now[j] == before[j - 1]);
                    }
                }
                assert forall|a: int, b: int|
                    0 <= a < now.len() && 0 <= b < now.len() && a != b implies now[a] != now[b] by {
                    if a < b {
                        assert(wire_before(deg, now[a], now[b]));
                    } else {
                        assert(wire_before(deg, now[b], now[a]));
                    }
                }
                assert forall|v: usize| now.contains(v) <==> v < w + 1 by {
                    if v < w {
                        assert(before.contains(v));
                        let k = choose|k: int| 0 <= k < before.len() && before[k] == v;
                        if k < pos {
                            assert(now[k] == v);
                        } else {
                            assert(now[k + 1] == v);
                        }
                    } else if v == w {
                        assert(now[pos as int] == v);
                    }
                    if now.contains(v) {
                        let k = choose|k: int| 0 <= k < now.len() && now[k] == v;
                        if k < pos {
                            assert(before[k] == v);
                        } else if k > pos {
                            assert(before[k - 1] == v);
                        }
                    }
                }
            }
            w += 1;
        }
        sorted
    }

    /// The wires of degree zero, in increasing order.
    fn untouched_wires(&self) -> (r: Vec<usize>)
        requires
            self.wf(),
        ensures
            r@ == untouched_upto(self.degree_seq(), self.wires() as int),
    {
        let n = self.num_wires;
        let mut r: Vec<usize> = Vec::new();
        let mut w: usize = 0;
        while w < n
            invariant
                w <= n,
                self.wf(),
                n == self.wires(),
                r@ == untouched_upto(self.degree_seq(), w as int),
            decreases n - w,
        {
            if self.degrees[w] == 0 {
                r.push(w);
            }
            w += 1;
        }
        r
    }

    /// Shuffles the lowest `min(2 * size, n)` wires in the order by degree
    /// and takes the first `size` of them.
    fn select_balanced(&self, size: usize, rng: &mut rand::rngs::StdRng) -> (r: Vec<usize>)
        requires
            self.wf(),
            size <= self.wires(),
        ensures
            r@.len() == size,
            r@.no_duplicates(),
            forall|i: int| 0 <= i < size ==> (#[trigger] r@[i] as nat) < self.wires(),
            drawn_from_lowest(r@, self.degree_seq(), self.wires(), pool_size(size as nat, self.wires())),
    {
        let n = self.num_wires;
        let ghost deg = self.degree_seq();
        let mut wires = self.sorted_by_degree();
        let ghost sorted = wires@;
        let p: usize = if size <= n - size {
            2 * size
        } else {
            n
        };
        let ghost pool = sorted.take(p as int);
        proof {
            assert forall|i: int, j: int|
                0 <= i < pool.len() && 0 <= j < pool.len() && i != j implies pool[i] != pool[j] by {
                assert(pool[i] == sorted[i] && pool[j] == sorted[j]);
            }
        }
        shuffle_prefix(&mut wires, p, rng);
        proof {
            lemma_shuffled_prefix(sorted, wires@, p as int);
        }
        let r = take_prefix(&wires, size);
        proof {
            let a = wires@.take(p as int);
            assert forall|i: int| 0 <= i < size implies pool.contains(#[trigger] r@[i]) by {
                assert(r@[i] == wires@[i]);
            }
            assert forall|i: int, j: int|
                0 <= i < r@.len() && 0 <= j < r@.len() && i != j implies r@[i] != r@[j] by {
                assert(r@[i] == a[i] && r@[j] == a[j]);
            }
            assert forall|i: int| 0 <= i < pool.len() implies (#[trigger] pool[i] as nat) < n by {
                assert(sorted.contains(sorted[i]));
            }
            assert forall|i: int| 0 <= i < size implies (#[trigger] r@[i] as nat) < n by {
                assert(pool.contains(r@[i]));
                let k = choose|k: int| 0 <= k < pool.len() && pool[k] == r@[i];
                assert((pool[k] as nat) < n);
            }
            assert forall|v: usize, i: int|
                (v as nat) < n && !pool.contains(v) && 0 <= i < p implies #[trigger] wire_before(
                deg,
                pool[i],
                v,
            ) by {
                assert(sorted.contains(v));
                let j = choose|j: int| 0 <= j < sorted.len() && sorted[j] == v;
                if j < p {
                    assert(pool[j] == v);
                }
                assert(pool[i] == sorted[i]);
            }
            assert(lowest_pool(pool, deg, n as nat, p as nat));
        }
        r
    }

    /// Selects `size` distinct wires for a template placement: in balanced
    /// mode at random among the `min(2 * size, n)` lowest in the order by
    /// degree (ties by wire number); in dense mode at random among all; in
    /// sparse mode at random among the untouched wires where there are at
    /// least `size` of them, else as in balanced mode.
    pub fn select_subset(&self, size: usize, mode: SkeletonMode, rng: &mut rand::rngs::StdRng) -> (r: Vec<usize>)
        requires
            self.wf(),
            size <= self.wires(),
        ensures
            r@.len() == size,
            r@.no_duplicates(),
            forall|i: int| 0 <= i < size ==> (#[trigger] r@[i] as nat) < self.wires(),
            mode == SkeletonMode::Balanced ==> drawn_from_lowest(
                r@,
                self.degree_seq(),
                self.wires(),
                pool_size(size as nat, self.wires()),
            ),
            mode == SkeletonMode::Sparse ==> if untouched_upto(self.degree_seq(), self.wires() as int).len() >= size {
                forall|i: int| 0 <= i < size ==> self.degree_seq()[#[trigger] r@[i] as int] == 0
            } else {
                drawn_from_lowest(r@, self.degree_seq(), self.wires(), pool_size(size as nat, self.wires()))
            },
    {
        let n = self.num_wires;
        match mode {
            SkeletonMode::Balanced => self.select_balanced(size, rng),
            SkeletonMode::Dense => {
                let mut wires: Vec<usize> = Vec::with_capacity(n);
                let mut w: usize = 0;
                while w < n
                    invariant
                        w <= n,
                        wires@ == Seq::new(w as nat, |i: int| i as usize),
                    decreases n - w,
                {
                    wires.push(w);
                    w += 1;
                    proof {
                        assert(wires@ =~= Seq::new(w as nat, |i: int| i as usize));
                    }
                }
                let ghost all = wires@;
                proof {
                    assert(all.take(n as int) =~= all);
                }
                shuffle_prefix(&mut wires, n, rng);
                proof {
                    lemma_shuffled_prefix(all, wires@, n as int);
                }
                let r = take_prefix(&wires, size);
                proof {
                    let a = wires@.take(n as int);
                    assert forall|i: int, j: int|
                        0 <= i < r@.len() && 0 <= j < r@.len() && i != j implies r@[i] != r@[j] by {
                        assert(r@[i] == a[i] && r@[j] == a[j]);
                    }
                    assert forall|i: int| 0 <= i < size implies (#[trigger] r@[i] as nat) < n by {
                        assert(r@[i] == wires@[i]);
                        assert(all.contains(wires@[i]));
                    }
                }
                r
            },
            SkeletonMode::Sparse => {
                let mut untouched = self.untouched_wires();
                let ghost u = untouched@;
                let m = untouched.len();
                proof {
                    lemma_untouched(self.degree_seq(), n as int);
                    assert(u.take(m as int) =~= u);
                }
                if m >= size {
                    shuffle_prefix(&mut untouched, m, rng);
                    proof {
                        lemma_shuffled_prefix(u, untouched@, m as int);
                    }
                    let r = take_prefix(&untouched, size);
                    proof {
                        let a = untouched@.take(m as int);
                        assert forall|i: int, j: int|
                            0 <= i < r@.len() && 0 <= j < r@.len() && i != j implies r@[i] != r@[j] by {
                            assert(r@[i] == a[i] && r@[j] == a[j]);
                        }
                        assert forall|i: int| 0 <= i < size implies (#[trigger] r@[i] as nat) < n
                            && self.degree_seq()[r@[i] as int] == 0 by {
                            assert(r@[i] == untouched@[i]);
                            assert(u.contains(untouched@[i]));
                            let k = choose|k: int| 0 <= k < u.len() && u[k] == r@[i];
                            assert(u[k] < n);
                        }
                    }
                    r
                } else {
                    self.select_balanced(size, rng)
                }
            },
        }
    }

    /// The number of wires that some gate has touched (nonzero degree).
    pub fn touched_wires(&self) -> (r: usize)
        requires
            self.wf(),
        ensures
            r == touched_upto(self.degree_seq(), self.wires() as int),
    {
        let n = self.num_wires;
        let mut count: usize = 0;
        let mut w: usize = 0;
        while w < n
            invariant
                w <= n,
                self.wf(),
                n == self.wires(),
                count == touched_upto(self.degree_seq(), w as int),
                count <= w,
            decreases n - w,
        {
            if self.degrees[w] > 0 {
                count += 1;
            }
            w += 1;
        }
        count
    }
}

/// `g` with each pin `i` replaced by the wire `target[i]`, cut to a byte.
pub open spec fn rewired_gate(g: [u8; 3], target: Seq<usize>) -> [u8; 3] {
    [target[g[0] as int] as u8, target[g[1] as int] as u8, target[g[2] as int] as u8]
}

/// Rewires a template on wires `0..k` onto the given wires: pin `i` becomes
/// `target_wires[i]`.  Every pin of the template must be below `k`.
pub fn rewire_to_subset(template: &CircuitSeq, target_wires: &[usize], _target_width: usize) -> (r:
    CircuitSeq)
    requires
        pins_below(template@, target_wires@.len()),
    ensures
        r@.len() == template@.len(),
        forall|i: int| 0 <= i < r@.len() ==> #[trigger] r@[i] == rewired_gate(template@[i], target_wires@),
{
    let n = template.gates.len();
    let mut gates: Vec<[u8; 3]> = Vec::with_capacity(n);
    let mut i: usize = 0;
    while i < n
        invariant
            i <= n,
            n == template@.len(),
            pins_below(template@, target_wires@.len()),
            gates@.len() == i,
            forall|j: int| 0 <= j < i ==> #[trigger] gates@[j] == rewired_gate(template@[j], target_wires@),
        decreases n - i,
    {
        let g = template.gates[i];
        proof {
            assert(template@[i as int] == g);
        }
        let a = target_wires[g[0] as usize] as u8;
        let b = target_wires[g[1] as usize] as u8;
        let c = target_wires[g[2] as usize] as u8;
        gates.push([a, b, c]);
        proof {
            assert(gates@[i as int] =~= rewired_gate(g, target_wires@));
        }
        i += 1;
    }
    CircuitSeq { gates }
}

/// The compression step between rounds: removes cancelling neighbours, then
/// runs the local reducer with `compression_budget` passes and the same
/// stall limit.  An empty circuit or a zero budget is returned unchanged;
/// otherwise, unless the reducer shortened the circuit left by the
/// cancellation (`stack_reduce`), neither cancellation nor template deletion
/// has anything left to remove.
pub fn bounded_compress(circuit: &CircuitSeq, compression_budget: usize) -> (r: CircuitSeq)
    ensures
        r@.len() <= circuit@.len(),
        circuit@.len() == 0 || compression_budget == 0 ==> r@ == circuit@,
        circuit@.len() > 0 && compression_budget > 0 ==> r@.len() <= stack_reduce(circuit@).len(),
        circuit@.len() > 0 && compression_budget > 0 && r@.len() == stack_reduce(circuit@).len()
            ==> reduce_fixpoint(r@),
        circuit@.len() > 0 && compression_budget > 0 && r@.len() == circuit@.len() ==> reduce_fixpoint(r@),
        gates_reversible(circuit@) ==> gates_reversible(r@) && same_function(circuit@, r@),
{
    if circuit.gates.len() == 0 || compression_budget == 0 {
        return CircuitSeq { gates: copy_gates(circuit.gates.as_slice()) };
    }
    let mut reduced = simple_compress(circuit);
    let ghost mid = reduced@;
    proof {
        lemma_stack_reduce(circuit@);
    }
    let cfg = ReduceConfig { max_passes: compression_budget, max_stall: compression_budget };
    reduce_circuit(&mut reduced, &cfg);
    proof {
        if gates_reversible(circuit@) {
            lemma_same_function_transitive(circuit@, mid, reduced@);
        }
    }
    reduced
}

/// Bounded compression really runs the reducer after the cancellation: on a
/// non-empty circuit with a positive budget the result is either shorter
/// than the cancelled circuit `stack_reduce(c)` or has nothing left that
/// cancellation or template deletion could remove.
pub proof fn law_bounded_compress_reduces(c: &CircuitSeq, budget: usize, r: CircuitSeq)
    requires
        call_ensures(bounded_compress, (c, budget), r),
        c@.len() > 0,
        budget > 0,
    ensures
        r@.len() < stack_reduce(c@).len() || reduce_fixpoint(r@),
        r@.len() <= stack_reduce(c@).len(),
{
}

/// The two bounds in increasing order.
pub open spec fn spec_normalized(min: usize, max: usize) -> (usize, usize) {
    if min <= max {
        (min, max)
    } else {
        (max, min)
    }
}

/// The two bounds in increasing order.
pub fn normalized_range(min: usize, max: usize) -> (r: (usize, usize))
    ensures
        r == spec_normalized(min, max),
{
    if min <= max {
        (min, max)
    } else {
        (max, min)
    }
}

/// The widths a template may have: the configured range, put in order and
/// capped at the target width.
pub open spec fn width_bounds(width_min: usize, width_max: usize, target_width: usize) -> (usize, usize) {
    let (lo, hi) = spec_normalized(width_min, width_max);
    let mx = if hi <= target_width {
        hi
    } else {
        target_width
    };
    let mn = if lo <= mx {
        lo
    } else {
        mx
    };
    (mn, mx)
}

/// A template width drawn from `width_bounds` (without a draw when the
/// range holds one width).
pub fn select_template_width(
    width_min: usize,
    width_max: usize,
    target_width: usize,
    rng: &mut rand::rngs::StdRng,
) -> (r: usize)
    ensures
        width_bounds(width_min, width_max, target_width).0 <= r <= width_bounds(
            width_min,
            width_max,
            target_width,
        ).1,
{
    let (min_raw, max_raw) = normalized_range(width_min, width_max);
    let max = if max_raw <= target_width {
        max_raw
    } else {
        target_width
    };
    let min = if min_raw <= max {
        min_raw
    } else {
        max
    };
    if min == max {
        min
    } else {
        rng_usize_inclusive(rng, min, max)
    }
}

/// The source to draw a template from: the configured one, except that
/// `Mixed` picks the template database with probability one half when
/// there is one, and the permutation tables otherwise.
pub fn select_template_source(
    source: TemplateSource,
    template_db: Option<&TemplateDB>,
    rng: &mut rand::rngs::StdRng,
) -> (r: TemplateSource)
    ensures
        source != TemplateSource::Mixed ==> r == source,
        source == TemplateSource::Mixed ==> r == TemplateSource::TemplateDB || r
            == TemplateSource::PermTables,
        source == TemplateSource::Mixed && template_db is None ==> r == TemplateSource::PermTables,
{
    match source {
        TemplateSource::Mixed => {
            if template_db.is_some() && rng_ratio(rng, 1, 2) {
                TemplateSource::TemplateDB
            } else {
                TemplateSource::PermTables
            }
        },
        other => other,
    }
}

/// Whether a gate count lies in the configured range, put in order.
pub fn gate_count_in_range(count: usize, gate_count_min: usize, gate_count_max: usize) -> (r: bool)
    ensures
        r == (spec_normalized(gate_count_min, gate_count_max).0 <= count <= spec_normalized(
            gate_count_min,
            gate_count_max,
        ).1),
{
    let (min, max) = normalized_range(gate_count_min, gate_count_max);
    count >= min && count <= max
}

/// `x - y`, or 0 below zero.
pub open spec fn sat_sub(x: usize, y: usize) -> usize {
    if x >= y {
        (x - y) as usize
    } else {
        0
    }
}

/// `2 x`, or `usize::MAX` above it.
pub open spec fn sat_double(x: usize) -> usize {
    if 2 * x <= usize::MAX {
        (2 * x) as usize
    } else {
        usize::MAX
    }
}

/// Stored gate counts that may be drawn: the configured
/// range, widened by the conjugation that will wrap the template (twice
/// the depth on each side), capped at 65535.
pub open spec fn stored_count_bounds(
    gate_count_min: usize,
    gate_count_max: usize,
    conj_min: usize,
    conj_max: usize,
) -> (usize, usize) {
    let (lo, hi) = spec_normalized(gate_count_min, gate_count_max);
    let base_min = sat_sub(lo, sat_double(conj_max));
    let base_max = sat_sub(hi, sat_double(conj_min));
    let mx = if base_max <= 65535 {
        base_max
    } else {
        65535usize
    };
    let mn = if base_min <= mx {
        base_min
    } else {
        mx
    };
    (mn, mx)
}

/// Some gate count in `counts` lies in `lo ..= hi`.
pub open spec fn has_count_in(counts: Seq<u16>, lo: usize, hi: usize) -> bool {
    exists|i: int| 0 <= i < counts.len() && lo <= #[trigger] counts[i] <= hi
}

/// The gates of a stored template.
pub open spec fn record_gates(rec: TemplateRecord) -> Seq<[u8; 3]> {
    Seq::new(rec.gates@.len(), |i: int| [rec.gates@[i].target, rec.gates@[i].c1, rec.gates@[i].c2])
}

fn double_saturating(x: usize) -> (r: usize)
    ensures
        r == sat_double(x),
{
    if x <= usize::MAX / 2 {
        x * 2
    } else {
        usize::MAX
    }
}

/// Those gate counts in `lo ..= hi`, in their order in `counts`.
fn counts_in_range(counts: &Vec<u16>, lo: usize, hi: usize) -> (r: Vec<u16>)
    ensures
        forall|i: int| 0 <= i < r@.len() ==> lo <= #[trigger] r@[i] <= hi,
        r@.len() > 0 <==> has_count_in(counts@, lo, hi),
{
    let mut r: Vec<u16> = Vec::new();
    let mut i: usize = 0;
    while i < counts.len()
        invariant
            i <= counts@.len(),
            forall|j: int| 0 <= j < r@.len() ==> lo <= #[trigger] r@[j] <= hi,
            r@.len() > 0 <==> exists|j: int| 0 <= j < i && lo <= #[trigger] counts@[j] <= hi,
        decreases counts@.len() - i,
    {
        let gc = counts[i];
        if (gc as usize) >= lo && (gc as usize) <= hi {
            r.push(gc);
        }
        i += 1;
    }
    r
}

/// An identity template of `width` wires from the template database, with
/// a stored gate count that leaves room for the conjugation wrapped around
/// it (see `stored_count_bounds`).  The counts available per width are
/// looked up once and kept in `gate_count_cache`; up to three stored
/// counts, drawn among those in range, are tried.
pub fn sample_template_from_db(
    db: &TemplateDB,
    width: usize,
    gate_count_min: usize,
    gate_count_max: usize,
    conj_min: usize,
    conj_max: usize,
    rng: &mut rand::rngs::StdRng,
    gate_count_cache: &mut HashMap<usize, Vec<u16>>,
) -> (r: Option<CircuitSeq>)
    ensures
        width > 255 ==> r is None && final(gate_count_cache)@ == old(gate_count_cache)@,
        width <= 255 ==> final(gate_count_cache)@.contains_key(width),
        width <= 255 && old(gate_count_cache)@.contains_key(width) ==> final(gate_count_cache)@
            == old(gate_count_cache)@,
        forall|k: usize|
            k != width ==> (#[trigger] final(gate_count_cache)@.contains_key(k) == old(gate_count_cache)@.contains_key(k)),
        forall|k: usize|
            k != width && old(gate_count_cache)@.contains_key(k) ==> #[trigger] final(gate_count_cache)@[k] == old(gate_count_cache)@[k],
        r is Some ==> width <= 255 && has_count_in(
            final(gate_count_cache)@[width]@,
            stored_count_bounds(gate_count_min, gate_count_max, conj_min, conj_max).0 as usize,
            stored_count_bounds(gate_count_min, gate_count_max, conj_min, conj_max).1 as usize,
        ),
        r matches Some(c) ==> exists|rec: TemplateRecord|
            has_encoding(rec) && #[trigger] record_gates(rec) == c@,
{
    if width > 255 {
        return None;
    }
    let width_u8 = width as u8;
    let (lo, hi) = normalized_range(gate_count_min, gate_count_max);
    let base_min = lo.saturating_sub(double_saturating(conj_max));
    let base_max = hi.saturating_sub(double_saturating(conj_min));
    let max_gc = if base_max <= 65535 {
        base_max
    } else {
        65535usize
    };
    let min_gc = if base_min <= max_gc {
        base_min
    } else {
        max_gc
    };
    let candidates = match gate_count_cache.get(&width) {
        Some(counts) => counts_in_range(counts, min_gc, max_gc),
        None => {
            let counts = db.get_available_gate_counts(width_u8);
            let c = counts_in_range(&counts, min_gc, max_gc);
            gate_count_cache.insert(width, counts);
            c
        },
    };
    if candidates.len() == 0 {
        return None;
    }
    draw_stored_template(db, width_u8, &candidates, rng)
}

/// Up to three draws of a stored gate count among `candidates`, each
/// followed by a lookup of a template of that width and count; the first
/// hit answers.
fn draw_stored_template(db: &TemplateDB, width: u8, candidates: &Vec<u16>, rng: &mut rand::rngs::StdRng) -> (r:
    Option<CircuitSeq>)
    requires
        candidates@.len() > 0,
    ensures
        r matches Some(c) ==> exists|rec: TemplateRecord|
            has_encoding(rec) && #[trigger] record_gates(rec) == c@,
{
    let mut attempt: usize = 0;
    while attempt < 3
        invariant
            attempt <= 3,
            candidates@.len() > 0,
        decreases 3 - attempt,
    {
        attempt += 1;
        let idx = rng_usize_below(rng, candidates.len());
        let gc = candidates[idx];
        match db.get_random_identity(width, gc) {
            Some(record) => {
                let c = record.to_circuit_seq();
                proof {
                    assert(record_gates(record) =~= c@);
                }
                return Some(c);
            },
            None => {},
        }
    }
    None
}

} // verus!
