//! Identities inserted inside gate pairs: the gates of a circuit are read as
//! pairs `(g[2i], g[2i + 1])`, and a block may be inserted between the two
//! gates of each pair.  Blocks that compute the identity keep the function.
use vstd::prelude::*;

use crate::algorithms::butterfly::replace::{
    gate_pair_taxonomy, get_collision_type, pair_code, pair_kinds, random_stored_id, CollisionType,
};
use crate::infra::circuit::{
    copy_gates, gate_fits, gates_fit, is_identity_fn, lemma_insert_identity, lemma_replace_middle,
    lemma_same_function_transitive, same_function, CircuitSeq,
};
use crate::infra::random::{rng_usize_below, rng_usize_inclusive};
use crate::infra::store::reader::TemplateDB;
use crate::optimize::replacement::verify_equivalence;

verus! {

/// The first `k` pairs of `g`, each with its block between its two gates.
pub open spec fn interleave_pairs(g: Seq<[u8; 3]>, blocks: Seq<Seq<[u8; 3]>>, k: nat) -> Seq<[u8; 3]>
    decreases k,
{
    if k == 0 {
        Seq::empty()
    } else {
        interleave_pairs(g, blocks, (k - 1) as nat) + seq![g[2 * (k - 1)]] + blocks[k - 1] + seq![
            g[2 * k - 1],
        ]
    }
}

/// `g` with `blocks[i]` inserted between `g[2i]` and `g[2i + 1]`; a last
/// unpaired gate stays at the end.
pub open spec fn spec_insert_between(g: Seq<[u8; 3]>, blocks: Seq<Seq<[u8; 3]>>) -> Seq<[u8; 3]> {
    interleave_pairs(g, blocks, g.len() / 2) + g.skip(2 * ((g.len() / 2) as int))
}

/// With identity blocks the first `k` interleaved pairs compute what the
/// first `2k` gates compute.
proof fn lemma_interleave_identity(g: Seq<[u8; 3]>, blocks: Seq<Seq<[u8; 3]>>, k: nat)
    requires
        2 * k <= g.len(),
        k <= blocks.len(),
        forall|i: int| 0 <= i < blocks.len() ==> #[trigger] is_identity_fn(blocks[i]),
    ensures
        same_function(g.take(2 * (k as int)), interleave_pairs(g, blocks, k)),
    decreases k,
{
    if k == 0 {
        assert(g.take(0) =~= interleave_pairs(g, blocks, 0));
    } else {
        let k1 = (k - 1) as nat;
        lemma_interleave_identity(g, blocks, k1);
        let prev = interleave_pairs(g, blocks, k1);
        let a = seq![g[2 * (k1 as int)]];
        let c = seq![g[2 * (k as int) - 1]];
        let e = Seq::<[u8; 3]>::empty();
        lemma_replace_middle(e, g.take(2 * (k1 as int)), prev, a + c);
        assert(e + g.take(2 * (k1 as int)) + (a + c) =~= g.take(2 * (k as int)));
        assert(e + prev + (a + c) =~= (prev + a) + c);
        assert(is_identity_fn(blocks[k1 as int]));
        lemma_insert_identity(prev + a, blocks[k1 as int], c);
        assert(prev + a + blocks[k1 as int] + c =~= interleave_pairs(g, blocks, k));
        lemma_same_function_transitive(g.take(2 * (k as int)), (prev + a) + c, interleave_pairs(g, blocks, k));
    }
}

/// Inserting blocks that compute the identity inside the pairs keeps the
/// function of the circuit.
pub proof fn lemma_insert_between_keeps_function(g: Seq<[u8; 3]>, blocks: Seq<Seq<[u8; 3]>>)
    requires
        blocks.len() == g.len() / 2,
        forall|i: int| 0 <= i < blocks.len() ==> #[trigger] is_identity_fn(blocks[i]),
    ensures
        same_function(g, spec_insert_between(g, blocks)),
{
    let k: nat = g.len() / 2;
    lemma_interleave_identity(g, blocks, k);
    let tail = g.skip(2 * (k as int));
    let e = Seq::<[u8; 3]>::empty();
    lemma_replace_middle(e, g.take(2 * (k as int)), interleave_pairs(g, blocks, k), tail);
    assert(e + g.take(2 * (k as int)) + tail =~= g);
    assert(e + interleave_pairs(g, blocks, k) + tail =~= spec_insert_between(g, blocks));
}

/// `gates` with `blocks[i]` inserted between the two gates of pair `i`.
pub fn insert_between_pairs(gates: &Vec<[u8; 3]>, blocks: &Vec<Vec<[u8; 3]>>) -> (r: Vec<[u8; 3]>)
    requires
        blocks@.len() == gates@.len() / 2,
    ensures
        r@ == spec_insert_between(gates@, blocks@.map_values(|b: Vec<[u8; 3]>| b@)),
{
    let ghost bl = blocks@.map_values(|b: Vec<[u8; 3]>| b@);
    let n = gates.len();
    let pairs = n / 2;
    let mut out: Vec<[u8; 3]> = Vec::new();
    let mut k: usize = 0;
    while k < pairs
        invariant
            k <= pairs,
            pairs == n / 2,
            n == gates@.len(),
            blocks@.len() == pairs,
            bl == blocks@.map_values(|b: Vec<[u8; 3]>| b@),
            out@ == interleave_pairs(gates@, bl, k as nat),
        decreases pairs - k,
    {
        let ghost before = out@;
        out.push(gates[2 * k]);
        let block = &blocks[k];
        let mut j: usize = 0;
        while j < block.len()
            invariant
                j <= block@.len(),
                out@ == before + seq![gates@[2 * k as int]] + block@.take(j as int),
            decreases block@.len() - j,
        {
            out.push(block[j]);
            j += 1;
            proof {
                assert(out@ =~= before + seq![gates@[2 * k as int]] + block@.take(j as int));
            }
        }
        out.push(gates[2 * k + 1]);
        proof {
            assert(block@.take(j as int) =~= block@);
            assert(bl[k as int] == block@);
            assert(out@ =~= interleave_pairs(gates@, bl, (k + 1) as nat));
        }
        k += 1;
    }
    if n % 2 == 1 {
        out.push(gates[n - 1]);
    }
    proof {
        assert(out@ =~= spec_insert_between(gates@, bl));
    }
    out
}

/// The pair starting at `i` is a pair of `g` (`i` even) whose taxonomy has
/// code `k`.
pub open spec fn pair_at(g: Seq<[u8; 3]>, i: int, k: int) -> bool {
    &&& 0 <= i
    &&& i % 2 == 0
    &&& i + 1 < g.len()
    &&& pair_code(pair_kinds(g[i], g[i + 1])) == k
}

/// Every entry `(code, start)` names a pair of `g` with that code.
pub open spec fn entries_wf(e: Seq<(usize, usize)>, g: Seq<[u8; 3]>) -> bool {
    forall|j: int| 0 <= j < e.len() ==> pair_at(g, (#[trigger] e[j]).1 as int, e[j].0 as int)
}

/// Some entry has code `k`.
pub open spec fn has_code(e: Seq<(usize, usize)>, k: int) -> bool {
    exists|j: int| 0 <= j < e.len() && (#[trigger] e[j]).0 == k
}

/// The pairs `(g[i], g[i + 1])`, `i` even, whose second gate touches the
/// first, each as `(taxonomy code, i)`, in order.
pub fn collect_pairs(gates: &Vec<[u8; 3]>) -> (r: Vec<(usize, usize)>)
    ensures
        entries_wf(r@, gates@),
        forall|i: int|
            0 <= i && i % 2 == 0 && i + 1 < gates@.len() && pair_code(pair_kinds(gates@[i], gates@[i + 1])) != 63
                ==> #[trigger] r@.contains((pair_code(pair_kinds(gates@[i], gates@[i + 1])) as usize, i as usize)),
{
    let mut r: Vec<(usize, usize)> = Vec::new();
    let m = gates.len();
    let mut i: usize = 0;
    while i + 1 < m
        invariant
            m == gates@.len(),
            i % 2 == 0,
            i <= m + 1,
            entries_wf(r@, gates@),
            forall|q: int|
                0 <= q < i && q % 2 == 0 && q + 1 < gates@.len() && pair_code(pair_kinds(gates@[q], gates@[q + 1])) != 63
                    ==> #[trigger] r@.contains((pair_code(pair_kinds(gates@[q], gates@[q + 1])) as usize, q as usize)),
        decreases m + 1 - i,
    {
        let tax = gate_pair_taxonomy(&gates[i], &gates[i + 1]);
        let code = tax.code();
        let ghost before = r@;
        if code != 63 {
            r.push((code, i));
            proof {
                assert(r@[r@.len() - 1] == (code, i));
            }
        }
        proof {
            assert forall|j: int| 0 <= j < r@.len() implies pair_at(gates@, (#[trigger] r@[j]).1 as int, r@[j].0 as int) by {
                if j < before.len() {
                    assert(r@[j] == before[j]);
                }
            }
            assert forall|q: int|
                0 <= q < i + 2 && q % 2 == 0 && q + 1 < gates@.len() && pair_code(pair_kinds(gates@[q], gates@[q + 1])) != 63
                    implies #[trigger] r@.contains((pair_code(pair_kinds(gates@[q], gates@[q + 1])) as usize, q as usize)) by {
                let x = (pair_code(pair_kinds(gates@[q], gates@[q + 1])) as usize, q as usize);
                if q < i {
                    assert(before.contains(x));
                    let j = choose|j: int| 0 <= j < before.len() && before[j] == x;
                    assert(r@[j] == before[j]);
                    assert(r@[j] == x);
                } else {
                    assert(q == i);
                    assert(r@[r@.len() - 1] == (code, i));
                }
            }
        }
        i += 2;
    }
    r
}

/// How many entries have code `k`.
pub open spec fn code_count(e: Seq<(usize, usize)>, k: int) -> nat
    decreases e.len(),
{
    if e.len() == 0 {
        0
    } else {
        code_count(e.drop_last(), k) + if e.last().0 == k {
            1nat
        } else {
            0nat
        }
    }
}

proof fn lemma_code_count_zero(e: Seq<(usize, usize)>, k: int)
    ensures
        code_count(e, k) == 0 <==> !has_code(e, k),
    decreases e.len(),
{
    if e.len() > 0 {
        lemma_code_count_zero(e.drop_last(), k);
        if has_code(e.drop_last(), k) {
            let j = choose|j: int| 0 <= j < e.drop_last().len() && (#[trigger] e.drop_last()[j]).0 == k;
            assert(e[j] == e.drop_last()[j]);
        }
        if has_code(e, k) {
            let j = choose|j: int| 0 <= j < e.len() && (#[trigger] e[j]).0 == k;
            if j < e.len() - 1 {
                assert(e.drop_last()[j] == e[j]);
            }
        }
        if e.last().0 == k {
            assert(e[e.len() - 1].0 == k);
        }
    }
}

/// Position of the `n`-th entry with code `k` (counting from 0).
fn nth_with_code(e: &Vec<(usize, usize)>, k: usize, n: usize) -> (r: Option<usize>)
    ensures
        r matches Some(p) ==> p < e@.len() && e@[p as int].0 == k,
        n < code_count(e@, k as int) ==> r is Some,
{
    let mut seen: usize = 0;
    let mut p: usize = 0;
    while p < e.len()
        invariant
            p <= e@.len(),
            seen == code_count(e@.take(p as int), k as int),
            seen <= n,
        decreases e@.len() - p,
    {
        proof {
            assert(e@.take(p + 1).drop_last() =~= e@.take(p as int));
        }
        if e[p].0 == k {
            if seen == n {
                return Some(p);
            }
            seen += 1;
        }
        p += 1;
    }
    proof {
        assert(e@.take(p as int) =~= e@);
    }
    None
}

/// How many entries have code `k`.
fn count_code(e: &Vec<(usize, usize)>, k: usize) -> (r: usize)
    ensures
        r == code_count(e@, k as int),
        r == 0 <==> !has_code(e@, k as int),
{
    let mut c: usize = 0;
    let mut p: usize = 0;
    while p < e.len()
        invariant
            p <= e@.len(),
            c <= p,
            c == code_count(e@.take(p as int), k as int),
        decreases e@.len() - p,
    {
        proof {
            assert(e@.take(p + 1).drop_last() =~= e@.take(p as int));
        }
        if e[p].0 == k {
            c += 1;
        }
        p += 1;
    }
    proof {
        assert(e@.take(p as int) =~= e@);
        lemma_code_count_zero(e@, k as int);
    }
    c
}

/// `to_replace` with entry `i` set to `block`.
pub open spec fn with_block(to_replace: Seq<Seq<[u8; 3]>>, i: int, block: Seq<[u8; 3]>) -> Seq<Seq<[u8; 3]>> {
    to_replace.update(i, block)
}

/// Offers a stored identity `id` to the pairs still waiting: a random
/// waiting pair whose taxonomy is that of the first two gates of `id` takes
/// `id`; failing that, one whose taxonomy is that of the last two gates of
/// `id` read backwards takes `id` reversed.  The pair leaves the list.
/// Returns whether a pair took it.
pub fn offer_identity(
    entries: &mut Vec<(usize, usize)>,
    to_replace: &mut Vec<Vec<[u8; 3]>>,
    gates: &Vec<[u8; 3]>,
    id: &Vec<[u8; 3]>,
    rng: &mut rand::rngs::StdRng,
) -> (r: bool)
    requires
        entries_wf(old(entries)@, gates@),
        old(to_replace)@.len() == gates@.len() / 2,
        id@.len() >= 2,
    ensures
        entries_wf(final(entries)@, gates@),
        final(to_replace)@.len() == old(to_replace)@.len(),
        r == (has_code(old(entries)@, pair_code(pair_kinds(id@[0], id@[1])) as int) || has_code(
            old(entries)@,
            pair_code(pair_kinds(id@[id@.len() - 1], id@[id@.len() - 2])) as int,
        )),
        !r ==> final(entries)@ == old(entries)@ && final(to_replace)@ == old(to_replace)@,
        r ==> exists|j: int|
            0 <= j < old(entries)@.len() && final(entries)@ == old(entries)@.update(j, old(entries)@.last()).drop_last()
                && ((#[trigger] old(entries)@[j]).0 == pair_code(pair_kinds(id@[0], id@[1])) && final(to_replace)@.map_values(
                |v: Vec<[u8; 3]>| v@,
            ) == old(to_replace)@.map_values(|v: Vec<[u8; 3]>| v@).update((old(entries)@[j].1 / 2) as int, id@)
                || !has_code(old(entries)@, pair_code(pair_kinds(id@[0], id@[1])) as int) && old(entries)@[j].0
                == pair_code(pair_kinds(id@[id@.len() - 1], id@[id@.len() - 2])) && final(to_replace)@.map_values(
                |v: Vec<[u8; 3]>| v@,
            ) == old(to_replace)@.map_values(|v: Vec<[u8; 3]>| v@).update((old(entries)@[j].1 / 2) as int, id@.reverse())),
{
    let n = id.len();
    let front = gate_pair_taxonomy(&id[0], &id[1]).code();
    let back = gate_pair_taxonomy(&id[n - 1], &id[n - 2]).code();
    let c1 = count_code(entries, front);
    let (code, block) = if c1 > 0 {
        (front, copy_gates(id.as_slice()))
    } else {
        let c2 = count_code(entries, back);
        if c2 == 0 {
            return false;
        }
        let mut rev: Vec<[u8; 3]> = Vec::with_capacity(n);
        let mut q: usize = n;
        while q > 0
            invariant
                q <= n,
                n == id@.len(),
                rev@ == id@.reverse().take((n - q) as int),
            decreases q,
        {
            q -= 1;
            rev.push(id[q]);
            proof {
                assert(rev@ =~= id@.reverse().take((n - q) as int));
            }
        }
        proof {
            assert(id@.reverse().take(n as int) =~= id@.reverse());
        }
        (back, rev)
    };
    let count = count_code(entries, code);
    let pick = rng_usize_below(rng, count);
    let p = match nth_with_code(entries, code, pick) {
        Some(p) => p,
        None => {
            proof {
                assert(false);
            }
            return false;
        },
    };
    let ghost e0 = entries@;
    let ghost t0 = to_replace@.map_values(|v: Vec<[u8; 3]>| v@);
    let (_, start) = entries.swap_remove(p);
    proof {
        assert(pair_at(gates@, e0[p as int].1 as int, e0[p as int].0 as int));
        assert forall|j: int| 0 <= j < entries@.len() implies pair_at(gates@, (#[trigger] entries@[j]).1 as int, entries@[j].0 as int) by {
            if j == p {
                assert(entries@[j] == e0.last());
                assert(pair_at(gates@, e0[e0.len() - 1].1 as int, e0[e0.len() - 1].0 as int));
            } else {
                assert(entries@[j] == e0[j]);
            }
        }
    }
    to_replace.set(start / 2, block);
    proof {
        assert(to_replace@.map_values(|v: Vec<[u8; 3]>| v@) =~= t0.update((start / 2) as int, block@));
        assert(has_code(e0, code as int));
    }
    true
}

/// `rep` with every wire `v` replaced by `wires[v]`.
pub open spec fn spec_rewire_block(rep: Seq<[u8; 3]>, wires: Seq<u8>) -> Seq<[u8; 3]> {
    Seq::new(
        rep.len(),
        |i: int| [wires[rep[i][0] as int], wires[rep[i][1] as int], wires[rep[i][2] as int]],
    )
}

/// `block` is empty, or is `rep` (of at least two gates) placed on distinct
/// wires.
pub open spec fn block_ok(rep: Seq<[u8; 3]>, block: Seq<[u8; 3]>) -> bool {
    block.len() == 0 || (rep.len() >= 2 && exists|w: Seq<u8>|
        w.no_duplicates() && pins_in(rep, w.len()) && block == #[trigger] spec_rewire_block(rep, w))
}

/// Every pin of `rep` is below `n`.
pub open spec fn pins_in(rep: Seq<[u8; 3]>, n: nat) -> bool {
    forall|i: int, k: int| 0 <= i < rep.len() && 0 <= k < 3 ==> (#[trigger] rep[i][k] as int) < n
}

/// How many of the blocks are not empty.
pub open spec fn count_nonempty(bl: Seq<Seq<[u8; 3]>>) -> nat
    decreases bl.len(),
{
    if bl.len() == 0 {
        0
    } else {
        count_nonempty(bl.drop_last()) + if bl.last().len() > 0 {
            1nat
        } else {
            0nat
        }
    }
}

/// Filling an empty block adds one to the count.
proof fn lemma_count_fill(bl: Seq<Seq<[u8; 3]>>, k: int, x: Seq<[u8; 3]>)
    requires
        0 <= k < bl.len(),
        bl[k].len() == 0,
        x.len() > 0,
    ensures
        count_nonempty(bl.update(k, x)) == count_nonempty(bl) + 1,
    decreases bl.len(),
{
    let u = bl.update(k, x);
    if k == bl.len() - 1 {
        assert(u.drop_last() =~= bl.drop_last());
    } else {
        lemma_count_fill(bl.drop_last(), k, x);
        assert(u.drop_last() =~= bl.drop_last().update(k, x));
    }
}

/// Blocks that are all empty count nothing.
proof fn lemma_count_empty(bl: Seq<Seq<[u8; 3]>>)
    requires
        forall|i: int| 0 <= i < bl.len() ==> (#[trigger] bl[i]).len() == 0,
    ensures
        count_nonempty(bl) == 0,
    decreases bl.len(),
{
    if bl.len() > 0 {
        assert forall|i: int| 0 <= i < bl.drop_last().len() implies (#[trigger] bl.drop_last()[i]).len() == 0 by {
            assert(bl.drop_last()[i] == bl[i]);
        }
        lemma_count_empty(bl.drop_last());
    }
}

/// The block has at least two gates and its first two gates have the
/// taxonomy of pair `i` of `g`.
pub open spec fn pair_matched(g: Seq<[u8; 3]>, i: int, block: Seq<[u8; 3]>) -> bool {
    &&& block.len() >= 2
    &&& pair_code(pair_kinds(block[0], block[1])) == pair_code(pair_kinds(g[2 * i], g[2 * i + 1]))
}

/// Placing a pair on distinct wires keeps its taxonomy.
proof fn lemma_rename_keeps_kinds(a: [u8; 3], b: [u8; 3], w: Seq<u8>)
    requires
        w.no_duplicates(),
        (a[0] as int) < w.len() && (a[1] as int) < w.len() && (a[2] as int) < w.len(),
        (b[0] as int) < w.len() && (b[1] as int) < w.len() && (b[2] as int) < w.len(),
    ensures
        pair_kinds(
            [w[a[0] as int], w[a[1] as int], w[a[2] as int]],
            [w[b[0] as int], w[b[1] as int], w[b[2] as int]],
        ) == pair_kinds(a, b),
{
    assert forall|x: int, y: int| 0 <= x < w.len() && 0 <= y < w.len() && w[x] == w[y] implies x == y by {
        if x != y {
            assert(w[x] != w[y]);
        }
    }
}

/// The largest pin of `rep` (0 when empty).
fn max_wire(rep: &Vec<[u8; 3]>) -> (r: usize)
    ensures
        r < 256,
        forall|i: int, k: int| 0 <= i < rep@.len() && 0 <= k < 3 ==> (#[trigger] rep@[i][k] as int) <= r,
{
    let mut m: u8 = 0;
    let mut i: usize = 0;
    while i < rep.len()
        invariant
            i <= rep@.len(),
            forall|q: int, k: int| 0 <= q < i && 0 <= k < 3 ==> (#[trigger] rep@[q][k]) <= m,
        decreases rep@.len() - i,
    {
        let g = rep[i];
        if g[0] > m {
            m = g[0];
        }
        if g[1] > m {
            m = g[1];
        }
        if g[2] > m {
            m = g[2];
        }
        proof {
            assert(rep@[i as int] == g);
        }
        i += 1;
    }
    m as usize
}

/// Whether `x` is one of `w`.
fn contains_wire(w: &Vec<u8>, x: u8) -> (r: bool)
    ensures
        r == w@.contains(x),
{
    let mut i: usize = 0;
    while i < w.len()
        invariant
            i <= w@.len(),
            forall|q: int| 0 <= q < i ==> w@[q] != x,
        decreases w@.len() - i,
    {
        if w[i] == x {
            proof {
                assert(w@[i as int] == x);
            }
            return true;
        }
        i += 1;
    }
    false
}

/// Whether two entries of `w` are equal.
fn has_duplicate(w: &Vec<u8>) -> (r: bool)
    ensures
        r == !w@.no_duplicates(),
{
    let n = w.len();
    let mut i: usize = 0;
    while i < n
        invariant
            i <= n,
            n == w@.len(),
            forall|a: int, b: int| 0 <= a < i && 0 <= b < n && a != b ==> w@[a] != w@[b],
        decreases n - i,
    {
        let mut j: usize = 0;
        while j < n
            invariant
                j <= n,
                i < n,
                n == w@.len(),
                forall|a: int, b: int| 0 <= a < i && 0 <= b < n && a != b ==> w@[a] != w@[b],
                forall|b: int| 0 <= b < j && b != i ==> w@[i as int] != w@[b],
            decreases n - j,
        {
            if j != i && w[i] == w[j] {
                return true;
            }
            j += 1;
        }
        i += 1;
    }
    false
}

/// `rep` placed on `wires`.
fn rewire_block(rep: &Vec<[u8; 3]>, wires: &Vec<u8>) -> (r: Vec<[u8; 3]>)
    requires
        forall|i: int, k: int| 0 <= i < rep@.len() && 0 <= k < 3 ==> (#[trigger] rep@[i][k] as int) < wires@.len(),
    ensures
        r@ == spec_rewire_block(rep@, wires@),
{
    let mut out: Vec<[u8; 3]> = Vec::new();
    let mut i: usize = 0;
    while i < rep.len()
        invariant
            i <= rep@.len(),
            forall|q: int, k: int| 0 <= q < rep@.len() && 0 <= k < 3 ==> (#[trigger] rep@[q][k] as int) < wires@.len(),
            out@ == spec_rewire_block(rep@, wires@).take(i as int),
        decreases rep@.len() - i,
    {
        let g = rep[i];
        proof {
            assert(rep@[i as int] == g);
            assert((g[0] as int) < wires@.len() && (g[1] as int) < wires@.len() && (g[2] as int) < wires@.len());
        }
        out.push([wires[g[0] as usize], wires[g[1] as usize], wires[g[2] as usize]]);
        i += 1;
        proof {
            assert(out@ =~= spec_rewire_block(rep@, wires@).take(i as int));
        }
    }
    proof {
        assert(spec_rewire_block(rep@, wires@).take(i as int) =~= spec_rewire_block(rep@, wires@));
    }
    out
}

/// Whether every pin of `g` addresses a bit of a machine word.
fn fits_word(g: &Vec<[u8; 3]>) -> (r: bool)
    ensures
        r == gates_fit(g@),
{
    let mut i: usize = 0;
    while i < g.len()
        invariant
            i <= g@.len(),
            forall|q: int| 0 <= q < i ==> #[trigger] gate_fits(g@[q]),
        decreases g@.len() - i,
    {
        let x = g[i];
        if !((x[0] as u32) < usize::BITS && (x[1] as u32) < usize::BITS && (x[2] as u32) < usize::BITS) {
            proof {
                assert(!gate_fits(g@[i as int]));
            }
            return false;
        }
        i += 1;
    }
    true
}

/// Wires for placing `rep` inside the pair `(g1, g2)`: the wires of the
/// first gate of `rep` become those of `g1`, each pin of the second gate of
/// `rep` whose wire is new to `g1` becomes that pin of `g2`, and every other
/// wire is drawn below `num_wires` among those not used yet (up to 101
/// draws each; a wire that finds none keeps the marker `num_wires + 1`).
fn wires_for_pair(
    rep: &Vec<[u8; 3]>,
    g1: [u8; 3],
    g2: [u8; 3],
    num_wires: usize,
    rng: &mut rand::rngs::StdRng,
) -> (w: Vec<u8>)
    requires
        rep@.len() >= 2,
        0 < num_wires < 255,
    ensures
        forall|i: int, k: int| 0 <= i < rep@.len() && 0 <= k < 3 ==> (#[trigger] rep@[i][k] as int) < w@.len(),
{
    let marker = (num_wires + 1) as u8;
    let size = max_wire(rep) + 1;
    let mut used: Vec<u8> = Vec::new();
    let mut q: usize = 0;
    while q < size
        invariant
            q <= size,
            used@.len() == q,
        decreases size - q,
    {
        used.push(marker);
        q += 1;
    }
    let r0 = rep[0];
    let r1 = rep[1];
    proof {
        assert(rep@[0] == r0 && rep@[1] == r1);
        assert((r0[0] as int) < size && (r0[1] as int) < size && (r0[2] as int) < size);
        assert((r1[0] as int) < size && (r1[1] as int) < size && (r1[2] as int) < size);
    }
    used.set(r0[0] as usize, g1[0]);
    used.set(r0[1] as usize, g1[1]);
    used.set(r0[2] as usize, g1[2]);
    if get_collision_type(&g1, g2[0]) == CollisionType::OnNew {
        used.set(r1[0] as usize, g2[0]);
    }
    if get_collision_type(&g1, g2[1]) == CollisionType::OnNew {
        used.set(r1[1] as usize, g2[1]);
    }
    if get_collision_type(&g1, g2[2]) == CollisionType::OnNew {
        used.set(r1[2] as usize, g2[2]);
    }
    let mut i: usize = 0;
    while i < used.len()
        invariant
            i <= used@.len(),
            used@.len() == size,
            0 < num_wires < 255,
        decreases used@.len() - i,
    {
        if used[i] == marker {
            let mut attempts: usize = 0;
            let mut placed = false;
            while !placed && attempts <= 100
                invariant
                    i < used@.len(),
                    used@.len() == size,
                    0 < num_wires < 255,
                decreases 101 - attempts, (if placed { 0int } else { 1int }),
            {
                let wire = rng_usize_below(rng, num_wires) as u8;
                if !contains_wire(&used, wire) {
                    used.set(i, wire);
                    placed = true;
                } else {
                    attempts += 1;
                }
            }
        }
        i += 1;
    }
    used
}

/// Places each waiting identity inside its pair, last pair first: the wires
/// come from `wires_for_pair`; a placement with a repeated wire, a pin
/// beyond a machine word, or that 100 random inputs tell apart from the
/// empty circuit is dropped.  Returns how many were placed.
pub fn apply_pair_replacements(
    circuit: &mut CircuitSeq,
    to_replace: &Vec<Vec<[u8; 3]>>,
    num_wires: usize,
    rng: &mut rand::rngs::StdRng,
) -> (placed: usize)
    requires
        to_replace@.len() == old(circuit)@.len() / 2,
        0 < num_wires < usize::BITS,
    ensures
        placed <= to_replace@.len(),
        exists|blocks: Seq<Seq<[u8; 3]>>|
            blocks.len() == to_replace@.len() && (forall|i: int|
                0 <= i < blocks.len() ==> #[trigger] block_ok(to_replace@[i]@, blocks[i])) && final(circuit)@
                == #[trigger] spec_insert_between(old(circuit)@, blocks) && placed == count_nonempty(blocks),
{
    let pairs = to_replace.len();
    let mut blocks: Vec<Vec<[u8; 3]>> = Vec::new();
    let mut q: usize = 0;
    while q < pairs
        invariant
            q <= pairs,
            blocks@.len() == q,
            forall|a: int| 0 <= a < q ==> (#[trigger] blocks@[a])@.len() == 0,
        decreases pairs - q,
    {
        blocks.push(Vec::new());
        q += 1;
    }
    proof {
        let bl0 = blocks@.map_values(|b: Vec<[u8; 3]>| b@);
        assert forall|i: int| 0 <= i < bl0.len() implies (#[trigger] bl0[i]).len() == 0 by {
            assert(bl0[i] == blocks@[i]@);
        }
        lemma_count_empty(bl0);
    }
    let mut placed: usize = 0;
    let mut k: usize = pairs;
    while k > 0
        invariant
            k <= pairs,
            pairs == to_replace@.len(),
            pairs == circuit@.len() / 2,
            circuit@ == old(circuit)@,
            0 < num_wires < usize::BITS,
            blocks@.len() == pairs,
            placed <= pairs - k,
            placed == count_nonempty(blocks@.map_values(|b: Vec<[u8; 3]>| b@)),
            forall|a: int| 0 <= a < k ==> (#[trigger] blocks@[a])@.len() == 0,
            forall|a: int| 0 <= a < pairs ==> #[trigger] block_ok(to_replace@[a]@, blocks@[a]@),
        decreases k,
    {
        k -= 1;
        let rep = &to_replace[k];
        if rep.len() >= 2 {
            let clen = circuit.gates.len();
            proof {
                assert(2 * k + 1 < clen);
            }
            let first: usize = k + k;
            let g1 = circuit.gates[first];
            let g2 = circuit.gates[first + 1];
            let wires = wires_for_pair(rep, g1, g2, num_wires, rng);
            if !has_duplicate(&wires) {
                let fin = rewire_block(rep, &wires);
                if fits_word(&fin) {
                    let candidate = CircuitSeq { gates: fin };
                    let empty = CircuitSeq { gates: Vec::new() };
                    if verify_equivalence(&candidate, &empty, num_wires, 100) {
                        let ghost b0 = blocks@;
                        let ghost bv0 = blocks@.map_values(|b: Vec<[u8; 3]>| b@);
                        proof {
                            assert(block_ok(to_replace@[k as int]@, candidate.gates@));
                            assert(bv0[k as int] == b0[k as int]@);
                            assert(candidate.gates@.len() > 0);
                            lemma_count_fill(bv0, k as int, candidate.gates@);
                        }
                        blocks.set(k, candidate.gates);
                        proof {
                            assert(blocks@.map_values(|b: Vec<[u8; 3]>| b@) =~= bv0.update(k as int, candidate.gates@));
                            assert forall|a: int| 0 <= a < pairs implies #[trigger] block_ok(to_replace@[a]@, blocks@[a]@) by {
                                if a != k {
                                    assert(blocks@[a] == b0[a]);
                                }
                            }
                            assert forall|a: int| 0 <= a < k implies (#[trigger] blocks@[a])@.len() == 0 by {
                                assert(blocks@[a] == b0[a]);
                            }
                        }
                        placed += 1;
                    }
                }
            }
        }
    }
    let ghost bl = blocks@.map_values(|b: Vec<[u8; 3]>| b@);
    let gates = insert_between_pairs(&circuit.gates, &blocks);
    circuit.gates = gates;
    proof {
        assert forall|i: int| 0 <= i < bl.len() implies #[trigger] block_ok(to_replace@[i]@, bl[i]) by {
            assert(bl[i] == blocks@[i]@);
        }
    }
    placed
}

/// Replaces gate pairs by identities from the template database: the pairs
/// whose second gate touches the first are listed by taxonomy; identities
/// of width 3 to 5 are drawn and offered (`offer_identity`) until no pair
/// waits or 100 draws in all failed to give a taken identity; then
/// the identities are placed inside their pairs (`apply_pair_replacements`).
/// Each placed block opens with a pair of the taxonomy of the pair it sits
/// in; when the blocks compute the identity, the circuit keeps its
/// function.  Returns how many were placed.
pub fn replace_pairs(
    circuit: &mut CircuitSeq,
    num_wires: usize,
    template_db: &TemplateDB,
    rng: &mut rand::rngs::StdRng,
) -> (placed: usize)
    requires
        0 < num_wires < usize::BITS,
    ensures
        exists|blocks: Seq<Seq<[u8; 3]>>|
            blocks.len() == old(circuit)@.len() / 2 && (forall|i: int|
                0 <= i < blocks.len() ==> (#[trigger] blocks[i]).len() == 0 || pair_matched(old(circuit)@, i, blocks[i]))
                && final(circuit)@ == #[trigger] spec_insert_between(old(circuit)@, blocks) && placed == count_nonempty(
                blocks,
            ) && ((forall|i: int| 0 <= i < blocks.len() ==> #[trigger] is_identity_fn(blocks[i])) ==> same_function(
                old(circuit)@,
                final(circuit)@,
            )),
{
    let m = circuit.gates.len();
    if m < 2 {
        proof {
            let blocks = Seq::<Seq<[u8; 3]>>::empty();
            assert(circuit@ =~= spec_insert_between(old(circuit)@, blocks));
            lemma_insert_between_keeps_function(old(circuit)@, blocks);
        }
        return 0;
    }
    let mut entries = collect_pairs(&circuit.gates);
    let mut to_replace: Vec<Vec<[u8; 3]>> = Vec::new();
    let mut q: usize = 0;
    while q < m / 2
        invariant
            q <= m / 2,
            to_replace@.len() == q,
            forall|a: int| 0 <= a < q ==> (#[trigger] to_replace@[a])@.len() == 0,
        decreases m / 2 - q,
    {
        to_replace.push(Vec::new());
        q += 1;
    }
    let mut fail: usize = 0;
    while entries.len() > 0 && fail < 100
        invariant
            fail <= 100,
            m == circuit@.len(),
            circuit@ == old(circuit)@,
            entries_wf(entries@, circuit.gates@),
            to_replace@.len() == m / 2,
            forall|a: int| 0 <= a < to_replace@.len() ==> (#[trigger] to_replace@[a])@.len() == 0 || pair_matched(
                circuit@,
                a,
                to_replace@[a]@,
            ),
        decreases 100 - fail + entries@.len(),
    {
        let width = rng_usize_inclusive(rng, 3, 5);
        match random_stored_id(template_db, width as u8) {
            Some(id) => {
                if id.gates.len() >= 2 {
                    let ghost t0 = to_replace@.map_values(|v: Vec<[u8; 3]>| v@);
                    let ghost tv = to_replace@;
                    let ghost e0 = entries@;
                    if !offer_identity(&mut entries, &mut to_replace, &circuit.gates, &id.gates, rng) {
                        fail += 1;
                    } else {
                        proof {
                            let j = choose|j: int|
                                0 <= j < e0.len() && entries@ == e0.update(j, e0.last()).drop_last()
                                    && ((#[trigger] e0[j]).0 == pair_code(pair_kinds(id@[0], id@[1])) && to_replace@.map_values(
                                    |v: Vec<[u8; 3]>| v@,
                                ) == t0.update((e0[j].1 / 2) as int, id@) || !has_code(e0, pair_code(pair_kinds(id@[0], id@[1])) as int)
                                    && e0[j].0 == pair_code(pair_kinds(id@[id@.len() - 1], id@[id@.len() - 2]))
                                    && to_replace@.map_values(|v: Vec<[u8; 3]>| v@) == t0.update((e0[j].1 / 2) as int, id@.reverse()));
                            let st = e0[j].1 as int;
                            assert(pair_at(circuit@, st, e0[j].0 as int));
                            assert(2 * (st / 2) == st);
                            let n = id@.len();
                            assert(id@.reverse()[0] == id@[n - 1]);
                            assert(id@.reverse()[1] == id@[n - 2]);
                            assert forall|a: int| 0 <= a < to_replace@.len() implies (#[trigger] to_replace@[a])@.len() == 0
                                || pair_matched(circuit@, a, to_replace@[a]@) by {
                                let tn = to_replace@.map_values(|v: Vec<[u8; 3]>| v@);
                                assert(tn[a] == to_replace@[a]@);
                                assert(t0[a] == tv[a]@);
                            }
                        }
                    }
                } else {
                    fail += 1;
                }
            },
            None => {
                fail += 1;
            },
        }
    }
    let placed = apply_pair_replacements(circuit, &to_replace, num_wires, rng);
    proof {
        let blocks = choose|blocks: Seq<Seq<[u8; 3]>>|
            blocks.len() == to_replace@.len() && (forall|i: int|
                0 <= i < blocks.len() ==> #[trigger] block_ok(to_replace@[i]@, blocks[i])) && circuit@
                == #[trigger] spec_insert_between(old(circuit)@, blocks) && placed == count_nonempty(blocks);
        assert forall|i: int| 0 <= i < blocks.len() implies (#[trigger] blocks[i]).len() == 0 || pair_matched(
            old(circuit)@,
            i,
            blocks[i],
        ) by {
            assert(block_ok(to_replace@[i]@, blocks[i]));
            if blocks[i].len() != 0 {
                let rep = to_replace@[i]@;
                let w = choose|w: Seq<u8>| w.no_duplicates() && pins_in(rep, w.len()) && blocks[i] == #[trigger] spec_rewire_block(rep, w);
                assert(pair_matched(old(circuit)@, i, rep));
                assert((rep[0][0] as int) < w.len() && (rep[0][1] as int) < w.len() && (rep[0][2] as int) < w.len());
                assert((rep[1][0] as int) < w.len() && (rep[1][1] as int) < w.len() && (rep[1][2] as int) < w.len());
                lemma_rename_keeps_kinds(rep[0], rep[1], w);
                assert(blocks[i][0] == [w[rep[0][0] as int], w[rep[0][1] as int], w[rep[0][2] as int]]);
                assert(blocks[i][1] == [w[rep[1][0] as int], w[rep[1][1] as int], w[rep[1][2] as int]]);
            }
        }
        if forall|i: int| 0 <= i < blocks.len() ==> #[trigger] is_identity_fn(blocks[i]) {
            lemma_insert_between_keeps_function(old(circuit)@, blocks);
        }
    }
    placed
}

} // verus!
