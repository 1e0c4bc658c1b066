//! The butterfly layout: every gate `g` of a circuit becomes a block
//! `R⁻¹ · g · R`, the blocks are merged in order, and the result is wrapped
//! in the bookends `R … R⁻¹`.  When `R · R⁻¹` computes the identity the
//! bookended merge computes what the circuit computes, and compressing
//! blocks without changing their functions keeps that.  Compressed blocks
//! are merged in rounds (pairs, then four groups, then the whole), each
//! merge compressed again.
use vstd::prelude::*;

use crate::infra::circuit::{
    gates_reversible, is_identity_fn, lemma_insert_identity, lemma_replace_middle, lemma_same_function_transitive,
    same_function, CircuitSeq,
};

verus! {

/// The blocks one after another.
pub open spec fn flatten_blocks(bs: Seq<Seq<[u8; 3]>>) -> Seq<[u8; 3]>
    decreases bs.len(),
{
    if bs.len() == 0 {
        Seq::empty()
    } else {
        flatten_blocks(bs.drop_last()) + bs.last()
    }
}

/// The block `r_inv · c[i] · r` of every gate of `c`.
pub open spec fn conj_blocks(c: Seq<[u8; 3]>, r: Seq<[u8; 3]>, r_inv: Seq<[u8; 3]>) -> Seq<Seq<[u8; 3]>> {
    Seq::new(c.len(), |i: int| r_inv + seq![c[i]] + r)
}

/// The blocks of a list of circuits, by their gates.
pub open spec fn block_views(bs: Seq<CircuitSeq>) -> Seq<Seq<[u8; 3]>> {
    bs.map_values(|b: CircuitSeq| b@)
}

/// `same_function(a, b)` carries over to `a + z` and `b + z`.
pub proof fn lemma_append_same(a: Seq<[u8; 3]>, b: Seq<[u8; 3]>, z: Seq<[u8; 3]>)
    requires
        same_function(a, b),
    ensures
        same_function(a + z, b + z),
{
    let e = Seq::<[u8; 3]>::empty();
    lemma_replace_middle(e, a, b, z);
    assert(e + a + z =~= a + z);
    assert(e + b + z =~= b + z);
}

/// One block `R⁻¹ · g · R` for every gate `g` of `c`, in order.
pub fn butterfly_blocks(c: &CircuitSeq, r: &CircuitSeq, r_inv: &CircuitSeq) -> (bs: Vec<CircuitSeq>)
    ensures
        block_views(bs@) == conj_blocks(c@, r@, r_inv@),
{
    let mut bs: Vec<CircuitSeq> = Vec::new();
    let mut i: usize = 0;
    while i < c.gates.len()
        invariant
            i <= c@.len(),
            block_views(bs@) == conj_blocks(c@, r@, r_inv@).take(i as int),
        decreases c@.len() - i,
    {
        let single = CircuitSeq { gates: vec![c.gates[i]] };
        let block = r_inv.concat(&single).concat(r);
        proof {
            assert(single@ =~= seq![c@[i as int]]);
        }
        let ghost b0 = bs@;
        let ghost bv = block;
        bs.push(block);
        i += 1;
        proof {
            assert(bs@ == b0.push(bv));
            assert(block_views(b0).len() == b0.len());
            assert(b0.len() == i - 1);
            let t = conj_blocks(c@, r@, r_inv@).take(i as int);
            assert(bv@ == r_inv@ + seq![c@[i - 1]] + r@);
            assert forall|j: int| 0 <= j < i implies #[trigger] block_views(bs@)[j] == t[j] by {
                if j < i - 1 {
                    assert(bs@[j] == b0[j]);
                    assert(block_views(b0)[j] == t[j]);
                } else {
                    assert(bs@[j] == bv);
                }
            }
            assert(block_views(bs@) =~= t);
        }
    }
    proof {
        assert(conj_blocks(c@, r@, r_inv@).take(i as int) =~= conj_blocks(c@, r@, r_inv@));
    }
    bs
}

/// The blocks one after another.
pub fn merge_blocks(bs: &Vec<CircuitSeq>) -> (r: CircuitSeq)
    ensures
        r@ == flatten_blocks(block_views(bs@)),
{
    let mut acc = CircuitSeq { gates: Vec::new() };
    let mut i: usize = 0;
    while i < bs.len()
        invariant
            i <= bs@.len(),
            acc@ == flatten_blocks(block_views(bs@).take(i as int)),
        decreases bs@.len() - i,
    {
        acc = acc.concat(&bs[i]);
        proof {
            assert(block_views(bs@).take(i + 1).drop_last() =~= block_views(bs@).take(i as int));
        }
        i += 1;
    }
    proof {
        assert(block_views(bs@).take(i as int) =~= block_views(bs@));
    }
    acc
}

/// `r · acc · r_inv`.
pub fn add_bookends(acc: &CircuitSeq, r: &CircuitSeq, r_inv: &CircuitSeq) -> (out: CircuitSeq)
    ensures
        out@ == r@ + acc@ + r_inv@,
{
    r.concat(acc).concat(r_inv)
}

/// The first `k` blocks after `R` compute the first `k` gates followed by `R`.
proof fn lemma_telescope_prefix(c: Seq<[u8; 3]>, r: Seq<[u8; 3]>, r_inv: Seq<[u8; 3]>, k: int)
    requires
        is_identity_fn(r + r_inv),
        0 <= k <= c.len(),
    ensures
        same_function(r + flatten_blocks(conj_blocks(c, r, r_inv).take(k)), c.take(k) + r),
    decreases k,
{
    let bs = conj_blocks(c, r, r_inv);
    if k == 0 {
        assert(flatten_blocks(bs.take(0)) =~= Seq::<[u8; 3]>::empty());
        assert(r + flatten_blocks(bs.take(0)) =~= c.take(0) + r);
    } else {
        lemma_telescope_prefix(c, r, r_inv, k - 1);
        let prev = r + flatten_blocks(bs.take(k - 1));
        assert(bs.take(k).drop_last() =~= bs.take(k - 1));
        assert(bs.take(k).last() == r_inv + seq![c[k - 1]] + r);
        let g = seq![c[k - 1]];
        // prev · R⁻¹ g R  ~  c[..k-1] · R · R⁻¹ · g R
        lemma_append_same(prev, c.take(k - 1) + r, r_inv + g + r);
        assert(r + flatten_blocks(bs.take(k)) =~= prev + (r_inv + g + r));
        // drop the identity R · R⁻¹
        lemma_insert_identity(c.take(k - 1), r + r_inv, g + r);
        assert(c.take(k - 1) + (r + r_inv) + (g + r) =~= (c.take(k - 1) + r) + (r_inv + g + r));
        assert(c.take(k - 1) + (g + r) =~= c.take(k) + r);
        lemma_same_function_transitive(
            r + flatten_blocks(bs.take(k)),
            (c.take(k - 1) + r) + (r_inv + g + r),
            c.take(k) + r,
        );
    }
}

/// The bookended blocks telescope: when `R · R⁻¹` computes the identity,
/// `R · (R⁻¹ g₁ R) ⋯ (R⁻¹ gₙ R) · R⁻¹` computes what `g₁ ⋯ gₙ` computes.
pub proof fn lemma_bookends_telescope(c: Seq<[u8; 3]>, r: Seq<[u8; 3]>, r_inv: Seq<[u8; 3]>)
    requires
        is_identity_fn(r + r_inv),
    ensures
        same_function(c, r + flatten_blocks(conj_blocks(c, r, r_inv)) + r_inv),
{
    let bs = conj_blocks(c, r, r_inv);
    lemma_telescope_prefix(c, r, r_inv, c.len() as int);
    assert(bs.take(c.len() as int) =~= bs);
    assert(c.take(c.len() as int) =~= c);
    lemma_append_same(r + flatten_blocks(bs), c + r, r_inv);
    lemma_insert_identity(c, r + r_inv, Seq::<[u8; 3]>::empty());
    assert(c + (r + r_inv) + Seq::<[u8; 3]>::empty() =~= c + r + r_inv);
    assert(c + Seq::<[u8; 3]>::empty() =~= c);
    lemma_same_function_transitive(c, c + r + r_inv, r + flatten_blocks(bs) + r_inv);
}

/// Merging blocks that each compute what the matching original block
/// computes gives what merging the originals gives.
pub proof fn lemma_merge_keeps_function(bs: Seq<Seq<[u8; 3]>>, cs: Seq<Seq<[u8; 3]>>)
    requires
        bs.len() == cs.len(),
        forall|i: int| 0 <= i < bs.len() ==> same_function(#[trigger] bs[i], cs[i]),
    ensures
        same_function(flatten_blocks(bs), flatten_blocks(cs)),
    decreases bs.len(),
{
    if bs.len() > 0 {
        let n = bs.len() - 1;
        assert forall|i: int| 0 <= i < bs.drop_last().len() implies same_function(#[trigger] bs.drop_last()[i], cs.drop_last()[i]) by {
            assert(same_function(bs[i], cs[i]));
        }
        lemma_merge_keeps_function(bs.drop_last(), cs.drop_last());
        let a = flatten_blocks(bs.drop_last());
        let b = flatten_blocks(cs.drop_last());
        assert(same_function(bs[n], cs[n]));
        lemma_append_same(a, b, bs.last());
        lemma_replace_middle(b, bs.last(), cs.last(), Seq::<[u8; 3]>::empty());
        assert(b + bs.last() + Seq::<[u8; 3]>::empty() =~= b + bs.last());
        assert(b + cs.last() + Seq::<[u8; 3]>::empty() =~= b + cs.last());
        lemma_same_function_transitive(a + bs.last(), b + bs.last(), b + cs.last());
    }
}

/// The butterfly layout of `c` before any compression: the blocks
/// `R⁻¹ · g · R` merged in order, between the bookends `R` and `R⁻¹`.  When
/// `R · R⁻¹` computes the identity, the layout computes what `c` computes.
pub fn butterfly_layout(c: &CircuitSeq, r: &CircuitSeq, r_inv: &CircuitSeq) -> (out: CircuitSeq)
    ensures
        out@ == r@ + flatten_blocks(conj_blocks(c@, r@, r_inv@)) + r_inv@,
        is_identity_fn(r@ + r_inv@) ==> same_function(c@, out@),
{
    let bs = butterfly_blocks(c, r, r_inv);
    let merged = merge_blocks(&bs);
    let out = add_bookends(&merged, r, r_inv);
    proof {
        if is_identity_fn(r@ + r_inv@) {
            lemma_bookends_telescope(c@, r@, r_inv@);
        }
    }
    out
}

/// `out` may stand for `s`: it is not longer, and on reversible gates it is
/// reversible and computes the same function.
pub open spec fn compression_ok(s: Seq<[u8; 3]>, out: Seq<[u8; 3]>) -> bool {
    &&& out.len() <= s.len()
    &&& gates_reversible(s) ==> gates_reversible(out) && same_function(s, out)
}

/// `compress` takes any circuit and trial count, and what it gives back may
/// stand for the circuit.
pub open spec fn is_compressor<F: Fn(&CircuitSeq, usize) -> CircuitSeq>(compress: &F) -> bool {
    &&& forall|s: &CircuitSeq, t: usize| #[trigger] compress.requires((s, t))
    &&& forall|s: &CircuitSeq, t: usize, o: CircuitSeq| #[trigger] compress.ensures((s, t), o) ==> compression_ok(s@, o@)
}

/// Every sequence of the list has reversible gates.
pub open spec fn all_reversible(bs: Seq<Seq<[u8; 3]>>) -> bool {
    forall|k: int| 0 <= k < bs.len() ==> #[trigger] gates_reversible(bs[k])
}

/// Flattening distributes over concatenation of block lists.
pub proof fn lemma_flatten_append(a: Seq<Seq<[u8; 3]>>, b: Seq<Seq<[u8; 3]>>)
    ensures
        flatten_blocks(a + b) == flatten_blocks(a) + flatten_blocks(b),
    decreases b.len(),
{
    if b.len() == 0 {
        assert(a + b =~= a);
        assert(flatten_blocks(b) =~= Seq::<[u8; 3]>::empty());
        assert(flatten_blocks(a) + flatten_blocks(b) =~= flatten_blocks(a));
    } else {
        lemma_flatten_append(a, b.drop_last());
        assert((a + b).drop_last() =~= a + b.drop_last());
        assert((a + b).last() == b.last());
        assert(flatten_blocks(a) + flatten_blocks(b.drop_last()) + b.last() =~= flatten_blocks(a) + (flatten_blocks(
            b.drop_last(),
        ) + b.last()));
    }
}

/// `a · m · b` of reversible parts is reversible.
pub proof fn lemma_concat3_reversible(a: Seq<[u8; 3]>, m: Seq<[u8; 3]>, b: Seq<[u8; 3]>)
    requires
        gates_reversible(a),
        gates_reversible(m),
        gates_reversible(b),
    ensures
        gates_reversible(a + m + b),
{
    let s = a + m + b;
    assert forall|q: int| 0 <= q < s.len() implies #[trigger] crate::infra::circuit::gate_reversible(s[q]) by {
        if q < a.len() {
            assert(s[q] == a[q]);
        } else if q < a.len() + m.len() {
            assert(s[q] == m[q - a.len()]);
        } else {
            assert(s[q] == b[q - a.len() - m.len()]);
        }
    }
}

/// `same_function(a, a2)` and `same_function(b, b2)` give
/// `same_function(a + b, a2 + b2)`.
proof fn lemma_concat_same(a: Seq<[u8; 3]>, a2: Seq<[u8; 3]>, b: Seq<[u8; 3]>, b2: Seq<[u8; 3]>)
    requires
        same_function(a, a2),
        same_function(b, b2),
    ensures
        same_function(a + b, a2 + b2),
{
    lemma_append_same(a, a2, b);
    let e = Seq::<[u8; 3]>::empty();
    lemma_replace_middle(a2, b, b2, e);
    assert(a2 + b + e =~= a2 + b);
    assert(a2 + b2 + e =~= a2 + b2);
    lemma_same_function_transitive(a + b, a2 + b, a2 + b2);
}

/// Every block compressed by `compress` with `trials` trials, in order.
pub fn compress_each<F: Fn(&CircuitSeq, usize) -> CircuitSeq>(bs: &Vec<CircuitSeq>, trials: usize, compress: &F) -> (cs:
    Vec<CircuitSeq>)
    requires
        is_compressor(compress),
    ensures
        cs@.len() == bs@.len(),
        forall|j: int| 0 <= j < bs@.len() ==> #[trigger] compression_ok(bs@[j]@, cs@[j]@),
{
    let mut cs: Vec<CircuitSeq> = Vec::new();
    let mut i: usize = 0;
    while i < bs.len()
        invariant
            i <= bs@.len(),
            cs@.len() == i,
            is_compressor(compress),
            forall|j: int| 0 <= j < i ==> #[trigger] compression_ok(bs@[j]@, cs@[j]@),
        decreases bs@.len() - i,
    {
        let o = compress(&bs[i], trials);
        let ghost c0 = cs@;
        cs.push(o);
        proof {
            assert forall|j: int| 0 <= j < i + 1 implies #[trigger] compression_ok(bs@[j]@, cs@[j]@) by {
                if j < i {
                    assert(cs@[j] == c0[j]);
                }
            }
        }
        i += 1;
    }
    cs
}

/// Blocks of reversible gates, each replaced by a compression of it, are
/// reversible and merge into what the merged originals compute.
pub proof fn lemma_compressed_merge(bs: Seq<CircuitSeq>, cs: Seq<CircuitSeq>)
    requires
        cs.len() == bs.len(),
        all_reversible(block_views(bs)),
        forall|j: int| 0 <= j < bs.len() ==> #[trigger] compression_ok(bs[j]@, cs[j]@),
    ensures
        all_reversible(block_views(cs)),
        gates_reversible(flatten_blocks(block_views(cs))),
        same_function(flatten_blocks(block_views(bs)), flatten_blocks(block_views(cs))),
{
    let bv = block_views(bs);
    let cv = block_views(cs);
    assert forall|j: int| 0 <= j < bv.len() implies same_function(#[trigger] bv[j], cv[j]) && gates_reversible(
        cv[j],
    ) by {
        assert(bv[j] == bs[j]@ && cv[j] == cs[j]@);
        assert(compression_ok(bs[j]@, cs[j]@));
        assert(gates_reversible(bv[j]));
    }
    lemma_merge_keeps_function(bv, cv);
    assert forall|j: int| 0 <= j < cv.len() implies #[trigger] gates_reversible(cv[j]) by {
        assert(same_function(bv[j], cv[j]) && gates_reversible(cv[j]));
    }
    lemma_flatten_reversible(cv);
}

/// The blocks of `bs` from `start` up to `end`, one after another.
fn concat_range(bs: &Vec<CircuitSeq>, start: usize, end: usize) -> (r: CircuitSeq)
    requires
        start <= end <= bs@.len(),
    ensures
        r@ == flatten_blocks(block_views(bs@).subrange(start as int, end as int)),
{
    let ghost bv = block_views(bs@);
    let mut acc = CircuitSeq { gates: Vec::new() };
    let mut k: usize = start;
    proof {
        assert(bv.subrange(start as int, start as int) =~= Seq::<Seq<[u8; 3]>>::empty());
    }
    while k < end
        invariant
            start <= k <= end <= bs@.len(),
            bv == block_views(bs@),
            acc@ == flatten_blocks(bv.subrange(start as int, k as int)),
        decreases end - k,
    {
        acc = acc.concat(&bs[k]);
        proof {
            assert(bv.subrange(start as int, k + 1).drop_last() =~= bv.subrange(start as int, k as int));
            assert(bv.subrange(start as int, k + 1).last() == bs@[k as int]@);
        }
        k += 1;
    }
    acc
}

/// The blocks taken `m` at a time (the last group may be shorter), each
/// group merged and compressed by `compress` with `trials` trials.
fn merge_chunks<F: Fn(&CircuitSeq, usize) -> CircuitSeq>(
    bs: &Vec<CircuitSeq>,
    m: usize,
    trials: usize,
    compress: &F,
) -> (out: Vec<CircuitSeq>)
    requires
        m >= 1,
        is_compressor(compress),
    ensures
        bs@.len() >= 1 ==> out@.len() >= 1,
        flatten_blocks(block_views(out@)).len() <= flatten_blocks(block_views(bs@)).len(),
        all_reversible(block_views(bs@)) ==> all_reversible(block_views(out@)) && same_function(
            flatten_blocks(block_views(bs@)),
            flatten_blocks(block_views(out@)),
        ),
{
    let ghost bv = block_views(bs@);
    let ghost ok = all_reversible(bv);
    let mut out: Vec<CircuitSeq> = Vec::new();
    let mut pos: usize = 0;
    proof {
        assert(bv.take(0) =~= Seq::<Seq<[u8; 3]>>::empty());
        assert(block_views(out@) =~= Seq::<Seq<[u8; 3]>>::empty());
    }
    while pos < bs.len()
        invariant
            m >= 1,
            is_compressor(compress),
            pos <= bs@.len(),
            bv == block_views(bs@),
            ok == all_reversible(bv),
            pos > 0 ==> out@.len() >= 1,
            flatten_blocks(block_views(out@)).len() <= flatten_blocks(bv.take(pos as int)).len(),
            ok ==> all_reversible(block_views(out@)) && same_function(
                flatten_blocks(bv.take(pos as int)),
                flatten_blocks(block_views(out@)),
            ),
        decreases bs@.len() - pos,
    {
        let end = if bs.len() - pos > m {
            pos + m
        } else {
            bs.len()
        };
        let chunk = concat_range(bs, pos, end);
        let o = compress(&chunk, trials);
        let ghost out0 = out@;
        let ghost ov = o@;
        out.push(o);
        proof {
            let sub = bv.subrange(pos as int, end as int);
            assert(bv.take(end as int) =~= bv.take(pos as int) + sub);
            lemma_flatten_append(bv.take(pos as int), sub);
            assert(block_views(out@) =~= block_views(out0).push(ov));
            assert(block_views(out@).drop_last() =~= block_views(out0));
            assert(flatten_blocks(block_views(out@)) == flatten_blocks(block_views(out0)) + ov);
            assert(compression_ok(chunk@, ov));
            if ok {
                assert forall|j: int| 0 <= j < sub.len() implies #[trigger] gates_reversible(sub[j]) by {
                    assert(sub[j] == bv[pos + j]);
                }
                lemma_flatten_reversible(sub);
                lemma_concat_same(
                    flatten_blocks(bv.take(pos as int)),
                    flatten_blocks(block_views(out0)),
                    chunk@,
                    ov,
                );
                assert forall|j: int| 0 <= j < block_views(out@).len() implies #[trigger] gates_reversible(
                    block_views(out@)[j],
                ) by {
                    if j < out0.len() {
                        assert(block_views(out@)[j] == block_views(out0)[j]);
                    }
                }
            }
        }
        pos = end;
    }
    proof {
        assert(bv.take(pos as int) =~= bv);
    }
    out
}

/// Merging compressed blocks in rounds: neighbours are merged in pairs and
/// each pair compressed with 30 trials; the pairs are merged in four groups,
/// each compressed with 200 trials; the groups are merged and the whole
/// compressed with 1000 trials.  On reversible blocks the result is
/// reversible and computes what the blocks one after another compute.
pub fn merge_combine_with<F: Fn(&CircuitSeq, usize) -> CircuitSeq>(blocks: &Vec<CircuitSeq>, compress: &F) -> (out:
    CircuitSeq)
    requires
        blocks@.len() >= 1,
        is_compressor(compress),
    ensures
        out@.len() <= flatten_blocks(block_views(blocks@)).len(),
        all_reversible(block_views(blocks@)) ==> gates_reversible(out@) && same_function(
            flatten_blocks(block_views(blocks@)),
            out@,
        ),
{
    let pairs = merge_chunks(blocks, 2, 30, compress);
    let chunk_size = pairs.len() / 4 + if pairs.len() % 4 == 0 {
        0
    } else {
        1
    };
    let quarters = merge_chunks(&pairs, chunk_size, 200, compress);
    let joined = merge_blocks(&quarters);
    let out = compress(&joined, 1000);
    proof {
        assert(compression_ok(joined@, out@));
        if all_reversible(block_views(blocks@)) {
            let qv = block_views(quarters@);
            lemma_flatten_reversible(qv);
            lemma_same_function_transitive(
                flatten_blocks(block_views(blocks@)),
                flatten_blocks(block_views(pairs@)),
                joined@,
            );
            lemma_same_function_transitive(flatten_blocks(block_views(blocks@)), joined@, out@);
        }
    }
    out
}

/// Compresses `acc` with `trials` trials again and again until `stability`
/// rounds in a row leave its length unchanged.
pub fn compress_until_stable<F: Fn(&CircuitSeq, usize) -> CircuitSeq>(
    acc: CircuitSeq,
    trials: usize,
    stability: usize,
    compress: &F,
) -> (out: CircuitSeq)
    requires
        is_compressor(compress),
    ensures
        out@.len() <= acc@.len(),
        gates_reversible(acc@) ==> gates_reversible(out@) && same_function(acc@, out@),
{
    let ghost start = acc@;
    let mut acc = acc;
    let mut stable: usize = 0;
    while stable < stability
        invariant
            is_compressor(compress),
            acc@.len() <= start.len(),
            gates_reversible(start) ==> gates_reversible(acc@) && same_function(start, acc@),
        decreases acc@.len(), stability - stable,
    {
        let before = acc.gates.len();
        let next = compress(&acc, trials);
        proof {
            assert(compression_ok(acc@, next@));
            if gates_reversible(start) {
                lemma_same_function_transitive(start, acc@, next@);
            }
        }
        acc = next;
        if acc.gates.len() == before {
            stable += 1;
        } else {
            stable = 0;
        }
    }
    acc
}

/// Butterfly with a block compressor: every gate `g` of `c` becomes the
/// block `R⁻¹ · g · R`, each block is compressed by `compress` with `trials`
/// trials, the blocks are merged by `merge_combine_with` between the
/// bookends `R … R⁻¹`, and the whole is compressed with `trials` trials
/// until `stability` rounds in a row leave its length unchanged.  When the
/// gates are reversible and `R · R⁻¹` computes the identity, the result is
/// reversible and computes what `c` computes.
pub fn butterfly_with<F: Fn(&CircuitSeq, usize) -> CircuitSeq>(
    c: &CircuitSeq,
    r: &CircuitSeq,
    r_inv: &CircuitSeq,
    trials: usize,
    stability: usize,
    compress: &F,
) -> (out: CircuitSeq)
    requires
        c@.len() >= 1,
        is_compressor(compress),
    ensures
        gates_reversible(c@) && gates_reversible(r@) && gates_reversible(r_inv@) && is_identity_fn(r@ + r_inv@)
            ==> gates_reversible(out@) && same_function(c@, out@),
{
    let ghost ok = gates_reversible(c@) && gates_reversible(r@) && gates_reversible(r_inv@) && is_identity_fn(
        r@ + r_inv@,
    );
    let bs = butterfly_blocks(c, r, r_inv);
    let cs = compress_each(&bs, trials, compress);
    proof {
        assert(block_views(bs@).len() == bs@.len());
    }
    let merged = merge_combine_with(&cs, compress);
    let acc = add_bookends(&merged, r, r_inv);
    proof {
        if ok {
            let bv = block_views(bs@);
            assert forall|j: int| 0 <= j < bv.len() implies #[trigger] gates_reversible(bv[j]) by {
                assert(bv[j] == conj_blocks(c@, r@, r_inv@)[j]);
                lemma_block_reversible(c@, r@, r_inv@, j);
            }
            lemma_compressed_merge(bs@, cs@);
            let fb = flatten_blocks(bv);
            let fc = flatten_blocks(block_views(cs@));
            lemma_same_function_transitive(fb, fc, merged@);
            lemma_bookends_telescope(c@, r@, r_inv@);
            lemma_replace_middle(r@, fb, merged@, r_inv@);
            lemma_same_function_transitive(c@, r@ + fb + r_inv@, acc@);
            lemma_concat3_reversible(r@, merged@, r_inv@);
        }
    }
    let out = compress_until_stable(acc, trials, stability, compress);
    proof {
        if ok {
            lemma_same_function_transitive(c@, acc@, out@);
        }
    }
    out
}

/// Each block `R⁻¹ · g · R` of reversible gates is reversible.
proof fn lemma_block_reversible(c: Seq<[u8; 3]>, r: Seq<[u8; 3]>, r_inv: Seq<[u8; 3]>, j: int)
    requires
        gates_reversible(c),
        gates_reversible(r),
        gates_reversible(r_inv),
        0 <= j < c.len(),
    ensures
        gates_reversible(conj_blocks(c, r, r_inv)[j]),
{
    let b = conj_blocks(c, r, r_inv)[j];
    assert(b == r_inv + seq![c[j]] + r);
    assert forall|q: int| 0 <= q < b.len() implies #[trigger] crate::infra::circuit::gate_reversible(b[q]) by {
        if q < r_inv.len() {
            assert(b[q] == r_inv[q]);
        } else if q == r_inv.len() {
            assert(b[q] == c[j]);
        } else {
            assert(b[q] == r[q - r_inv.len() - 1]);
        }
    }
}

/// Reversible blocks merge into a reversible circuit.
pub proof fn lemma_flatten_reversible(cv: Seq<Seq<[u8; 3]>>)
    requires
        forall|j: int| 0 <= j < cv.len() ==> #[trigger] gates_reversible(cv[j]),
    ensures
        gates_reversible(flatten_blocks(cv)),
    decreases cv.len(),
{
    if cv.len() > 0 {
        assert forall|j: int| 0 <= j < cv.drop_last().len() implies #[trigger] gates_reversible(cv.drop_last()[j]) by {
            assert(cv.drop_last()[j] == cv[j]);
        }
        lemma_flatten_reversible(cv.drop_last());
        let a = flatten_blocks(cv.drop_last());
        let l = cv.last();
        assert(gates_reversible(l));
        assert forall|q: int| 0 <= q < (a + l).len() implies #[trigger] crate::infra::circuit::gate_reversible((a + l)[q]) by {
            if q < a.len() {
                assert((a + l)[q] == a[q]);
            } else {
                assert((a + l)[q] == l[q - a.len()]);
            }
        }
    }
}

} // verus!
