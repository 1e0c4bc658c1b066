//! The chained butterfly: every gate `gᵢ` of a circuit gets its own pair of
//! random identity halves, and the block of `gᵢ` is `Rᵢ⁻¹ · gᵢ · Rᵢ₊₁`.  The
//! blocks are merged between the bookends `R₀ … Rₙ⁻¹`; since each
//! `Rᵢ · Rᵢ⁻¹` computes the identity, the whole telescopes back to the
//! circuit's own function.
use vstd::prelude::*;

use crate::algorithms::butterfly::blocks::{
    add_bookends, all_reversible, block_views, compress_each, compress_until_stable, flatten_blocks, is_compressor,
    lemma_append_same, lemma_compressed_merge, lemma_concat3_reversible, merge_combine_with,
};
use crate::algorithms::butterfly::replace::random_id;
use crate::infra::circuit::{
    copy_gates, gate_reversible, gates_reversible, is_identity_fn, lemma_insert_identity, lemma_replace_middle,
    lemma_same_function_transitive, same_function, CircuitSeq,
};
use crate::infra::random::{random_u64, rng_usize_inclusive, seeded_rng};
use crate::obfuscate::gadgets::{all_distinct_pins_below, lemma_distinct_pins_reversible};

verus! {

/// The block `ris[i] · c[i] · rs[i + 1]` of every gate of `c`.
pub open spec fn chain_blocks(c: Seq<[u8; 3]>, rs: Seq<Seq<[u8; 3]>>, ris: Seq<Seq<[u8; 3]>>) -> Seq<
    Seq<[u8; 3]>,
> {
    Seq::new(c.len(), |i: int| ris[i] + seq![c[i]] + rs[i + 1])
}

/// Every pair `rs[k] · ris[k]` computes the identity.
pub open spec fn all_identity_pairs(rs: Seq<Seq<[u8; 3]>>, ris: Seq<Seq<[u8; 3]>>) -> bool {
    forall|k: int| 0 <= k < rs.len() ==> #[trigger] is_identity_fn(rs[k] + ris[k])
}

/// The chained blocks of `c`: the block of `c[i]` is `ris[i] · c[i] · rs[i + 1]`.
pub fn chained_blocks(c: &CircuitSeq, rs: &Vec<CircuitSeq>, ris: &Vec<CircuitSeq>) -> (bs: Vec<CircuitSeq>)
    requires
        rs@.len() == c@.len() + 1,
        ris@.len() == c@.len() + 1,
    ensures
        block_views(bs@) == chain_blocks(c@, block_views(rs@), block_views(ris@)),
{
    let ghost want = chain_blocks(c@, block_views(rs@), block_views(ris@));
    let mut bs: Vec<CircuitSeq> = Vec::new();
    let mut i: usize = 0;
    while i < c.gates.len()
        invariant
            i <= c@.len(),
            rs@.len() == c@.len() + 1,
            ris@.len() == c@.len() + 1,
            want == chain_blocks(c@, block_views(rs@), block_views(ris@)),
            block_views(bs@) == want.take(i as int),
        decreases c@.len() - i,
    {
        let single = CircuitSeq { gates: vec![c.gates[i]] };
        let block = ris[i].concat(&single).concat(&rs[i + 1]);
        proof {
            assert(single@ =~= seq![c@[i as int]]);
            assert(block_views(rs@)[i + 1] == rs@[i + 1]@);
            assert(block_views(ris@)[i as int] == ris@[i as int]@);
            assert(block@ == want[i as int]);
        }
        let ghost b0 = bs@;
        let ghost bv = block;
        bs.push(block);
        i += 1;
        proof {
            assert(bs@ == b0.push(bv));
            assert(block_views(b0).len() == b0.len());
            assert(b0.len() == i - 1);
            let t = want.take(i as int);
            assert forall|j: int| 0 <= j < i implies #[trigger] block_views(bs@)[j] == t[j] by {
                if j < i - 1 {
                    assert(bs@[j] == b0[j]);
                    assert(block_views(b0)[j] == want.take(i - 1)[j]);
                } else {
                    assert(bs@[j] == bv);
                }
            }
            assert(block_views(bs@) =~= t);
        }
    }
    proof {
        assert(want.take(i as int) =~= want);
    }
    bs
}

/// The first `k` chained blocks after `rs[0]` compute the first `k` gates
/// followed by `rs[k]`.
proof fn lemma_chain_prefix(c: Seq<[u8; 3]>, rs: Seq<Seq<[u8; 3]>>, ris: Seq<Seq<[u8; 3]>>, k: int)
    requires
        rs.len() == c.len() + 1,
        ris.len() == c.len() + 1,
        all_identity_pairs(rs, ris),
        0 <= k <= c.len(),
    ensures
        same_function(rs[0] + flatten_blocks(chain_blocks(c, rs, ris).take(k)), c.take(k) + rs[k]),
    decreases k,
{
    let bs = chain_blocks(c, rs, ris);
    if k == 0 {
        assert(flatten_blocks(bs.take(0)) =~= Seq::<[u8; 3]>::empty());
        assert(rs[0] + flatten_blocks(bs.take(0)) =~= c.take(0) + rs[0]);
    } else {
        lemma_chain_prefix(c, rs, ris, k - 1);
        let prev = rs[0] + flatten_blocks(bs.take(k - 1));
        let g = seq![c[k - 1]];
        assert(bs.take(k).drop_last() =~= bs.take(k - 1));
        assert(bs.take(k).last() == ris[k - 1] + g + rs[k]);
        lemma_append_same(prev, c.take(k - 1) + rs[k - 1], ris[k - 1] + g + rs[k]);
        assert(rs[0] + flatten_blocks(bs.take(k)) =~= prev + (ris[k - 1] + g + rs[k]));
        assert(is_identity_fn(rs[k - 1] + ris[k - 1]));
        lemma_insert_identity(c.take(k - 1), rs[k - 1] + ris[k - 1], g + rs[k]);
        assert(c.take(k - 1) + (rs[k - 1] + ris[k - 1]) + (g + rs[k]) =~= (c.take(k - 1) + rs[k - 1]) + (
        ris[k - 1] + g + rs[k]));
        assert(c.take(k - 1) + (g + rs[k]) =~= c.take(k) + rs[k]);
        lemma_same_function_transitive(
            rs[0] + flatten_blocks(bs.take(k)),
            (c.take(k - 1) + rs[k - 1]) + (ris[k - 1] + g + rs[k]),
            c.take(k) + rs[k],
        );
    }
}

/// The chained blocks telescope: when every `rs[k] · ris[k]` computes the
/// identity, `rs[0] · (ris[0] c[0] rs[1]) ⋯ (ris[n-1] c[n-1] rs[n]) · ris[n]`
/// computes what `c` computes.
pub proof fn lemma_chain_telescope(c: Seq<[u8; 3]>, rs: Seq<Seq<[u8; 3]>>, ris: Seq<Seq<[u8; 3]>>)
    requires
        rs.len() == c.len() + 1,
        ris.len() == c.len() + 1,
        all_identity_pairs(rs, ris),
    ensures
        same_function(c, rs[0] + flatten_blocks(chain_blocks(c, rs, ris)) + ris[c.len() as int]),
{
    let n = c.len() as int;
    let bs = chain_blocks(c, rs, ris);
    lemma_chain_prefix(c, rs, ris, n);
    assert(bs.take(n) =~= bs);
    assert(c.take(n) =~= c);
    lemma_append_same(rs[0] + flatten_blocks(bs), c + rs[n], ris[n]);
    assert(is_identity_fn(rs[n] + ris[n]));
    lemma_insert_identity(c, rs[n] + ris[n], Seq::<[u8; 3]>::empty());
    assert(c + (rs[n] + ris[n]) + Seq::<[u8; 3]>::empty() =~= c + rs[n] + ris[n]);
    assert(c + Seq::<[u8; 3]>::empty() =~= c);
    lemma_same_function_transitive(c, c + rs[n] + ris[n], rs[0] + flatten_blocks(bs) + ris[n]);
}

/// The reverse of reversible gates is reversible.
proof fn lemma_reverse_reversible(s: Seq<[u8; 3]>)
    requires
        gates_reversible(s),
    ensures
        gates_reversible(s.reverse()),
{
    assert forall|q: int| 0 <= q < s.reverse().len() implies #[trigger] gate_reversible(s.reverse()[q]) by {
        assert(s.reverse()[q] == s[s.len() - 1 - q]);
    }
}

/// `count` random identity halves `rs[k]`, `ris[k]`, each of a size drawn in
/// `size_min ..= size_max`, with `ris[k]` the reverse of `rs[k]`.
fn draw_identity_halves(n: u8, count: usize, size_min: usize, size_max: usize) -> (r: (
    Vec<CircuitSeq>,
    Vec<CircuitSeq>,
))
    requires
        n >= 3,
        size_min <= size_max,
    ensures
        r.0@.len() == count,
        r.1@.len() == count,
        forall|k: int| 0 <= k < count ==> #[trigger] all_distinct_pins_below(r.0@[k]@, n),
        forall|k: int| 0 <= k < count ==> #[trigger] r.1@[k]@ == r.0@[k]@.reverse(),
        forall|k: int| 0 <= k < count ==> size_min <= #[trigger] r.0@[k]@.len() <= size_max,
        n as int <= usize::BITS ==> all_identity_pairs(block_views(r.0@), block_views(r.1@)),
{
    let mut rng = seeded_rng(random_u64());
    let mut rs: Vec<CircuitSeq> = Vec::new();
    let mut ris: Vec<CircuitSeq> = Vec::new();
    let mut k: usize = 0;
    while k < count
        invariant
            n >= 3,
            size_min <= size_max,
            k <= count,
            rs@.len() == k,
            ris@.len() == k,
            forall|j: int| 0 <= j < k ==> #[trigger] all_distinct_pins_below(rs@[j]@, n),
            forall|j: int| 0 <= j < k ==> #[trigger] ris@[j]@ == rs@[j]@.reverse(),
            forall|j: int| 0 <= j < k ==> size_min <= #[trigger] rs@[j]@.len() <= size_max,
            n as int <= usize::BITS ==> forall|j: int| 0 <= j < k ==> #[trigger] is_identity_fn(rs@[j]@ + ris@[j]@),
        decreases count - k,
    {
        let m = rng_usize_inclusive(&mut rng, size_min, size_max);
        let (a, b) = random_id(n, m);
        rs.push(a);
        ris.push(b);
        k += 1;
    }
    proof {
        if n as int <= usize::BITS {
            let rv = block_views(rs@);
            let iv = block_views(ris@);
            assert forall|j: int| 0 <= j < rv.len() implies #[trigger] is_identity_fn(rv[j] + iv[j]) by {
                assert(rv[j] == rs@[j]@ && iv[j] == ris@[j]@);
            }
        }
    }
    (rs, ris)
}

/// With reversible gates and halves, every chained block is reversible.
proof fn lemma_chain_blocks_reversible(c: Seq<[u8; 3]>, rs: Seq<Seq<[u8; 3]>>, ris: Seq<Seq<[u8; 3]>>)
    requires
        rs.len() == c.len() + 1,
        ris.len() == c.len() + 1,
        gates_reversible(c),
        all_reversible(rs),
        all_reversible(ris),
    ensures
        all_reversible(chain_blocks(c, rs, ris)),
{
    let bs = chain_blocks(c, rs, ris);
    assert forall|k: int| 0 <= k < bs.len() implies #[trigger] gates_reversible(bs[k]) by {
        assert(gates_reversible(ris[k]) && gates_reversible(rs[k + 1]));
        assert(gate_reversible(c[k]));
        assert(gates_reversible(seq![c[k]]));
        lemma_concat3_reversible(ris[k], seq![c[k]], rs[k + 1]);
    }
}

/// The drawn halves: with distinct pins below a width that fits a `usize`,
/// each half is reversible.
proof fn lemma_halves_reversible(rs: Seq<CircuitSeq>, ris: Seq<CircuitSeq>, n: u8)
    requires
        rs.len() == ris.len(),
        n as int <= usize::BITS,
        forall|k: int| 0 <= k < rs.len() ==> #[trigger] all_distinct_pins_below(rs[k]@, n),
        forall|k: int| 0 <= k < rs.len() ==> #[trigger] ris[k]@ == rs[k]@.reverse(),
    ensures
        all_reversible(block_views(rs)),
        all_reversible(block_views(ris)),
{
    assert forall|k: int| 0 <= k < block_views(rs).len() implies #[trigger] gates_reversible(block_views(rs)[k]) by {
        assert(all_distinct_pins_below(rs[k]@, n));
        lemma_distinct_pins_reversible(rs[k]@, n);
    }
    assert forall|k: int| 0 <= k < block_views(ris).len() implies #[trigger] gates_reversible(block_views(ris)[k]) by {
        assert(all_distinct_pins_below(rs[k]@, n));
        lemma_distinct_pins_reversible(rs[k]@, n);
        assert(ris[k]@ == rs[k]@.reverse());
        lemma_reverse_reversible(rs[k]@);
    }
}

/// The chained blocks of `c` under freshly drawn identity halves on `n`
/// wires, each compressed by `compress` with `trials` trials, merged by
/// `merge_combine_with`; with the halves that open and close the chain.
fn compressed_chain<F: Fn(&CircuitSeq, usize) -> CircuitSeq>(
    c: &CircuitSeq,
    n: u8,
    size_min: usize,
    size_max: usize,
    trials: usize,
    compress: &F,
) -> (r: (CircuitSeq, CircuitSeq, CircuitSeq))
    requires
        c@.len() >= 1,
        n >= 3,
        size_min <= size_max,
        is_compressor(compress),
    ensures
        size_min <= r.1@.len() <= size_max,
        size_min <= r.2@.len() <= size_max,
        gates_reversible(c@) && n as int <= usize::BITS ==> {
            &&& gates_reversible(r.0@)
            &&& gates_reversible(r.1@)
            &&& gates_reversible(r.2@)
            &&& same_function(c@, r.1@ + r.0@ + r.2@)
        },
{
    let count = c.gates.len();
    let (mut rs, mut ris) = draw_identity_halves(n, count, size_min, size_max);
    let mut rng = seeded_rng(random_u64());
    let m = rng_usize_inclusive(&mut rng, size_min, size_max);
    let (a, b) = random_id(n, m);
    let ghost rs0 = rs@;
    let ghost ris0 = ris@;
    rs.push(a);
    ris.push(b);
    proof {
        assert forall|k: int| 0 <= k < rs@.len() implies #[trigger] all_distinct_pins_below(rs@[k]@, n) && ris@[k]@
            == rs@[k]@.reverse() && size_min <= rs@[k]@.len() <= size_max by {
            if k < count {
                assert(rs@[k] == rs0[k] && ris@[k] == ris0[k]);
            }
        }
        if n as int <= usize::BITS {
            let rv = block_views(rs@);
            let iv = block_views(ris@);
            assert forall|k: int| 0 <= k < rv.len() implies #[trigger] is_identity_fn(rv[k] + iv[k]) by {
                assert(rv[k] == rs@[k]@ && iv[k] == ris@[k]@);
                if k < count {
                    assert(rs@[k] == rs0[k] && ris@[k] == ris0[k]);
                    assert(block_views(rs0)[k] == rs0[k]@ && block_views(ris0)[k] == ris0[k]@);
                    assert(is_identity_fn(block_views(rs0)[k] + block_views(ris0)[k]));
                }
            }
        }
    }
    let bs = chained_blocks(c, &rs, &ris);
    let cs = compress_each(&bs, trials, compress);
    proof {
        assert(block_views(bs@).len() == bs@.len());
    }
    let merged = merge_combine_with(&cs, compress);
    let first = CircuitSeq { gates: copy_gates(rs[0].gates.as_slice()) };
    let last = CircuitSeq { gates: copy_gates(ris[count].gates.as_slice()) };
    proof {
        assert(all_distinct_pins_below(rs@[0]@, n));
        assert(ris@[count as int]@ == rs@[count as int]@.reverse());
        assert(size_min <= rs@[count as int]@.len() <= size_max);
        if gates_reversible(c@) && n as int <= usize::BITS {
            let rv = block_views(rs@);
            let iv = block_views(ris@);
            lemma_halves_reversible(rs@, ris@, n);
            lemma_chain_blocks_reversible(c@, rv, iv);
            lemma_compressed_merge(bs@, cs@);
            lemma_chain_telescope(c@, rv, iv);
            assert(rv[0] == first@ && iv[count as int] == last@);
            assert(gates_reversible(rv[0]) && gates_reversible(iv[count as int]));
            let fb = flatten_blocks(block_views(bs@));
            let fc = flatten_blocks(block_views(cs@));
            lemma_same_function_transitive(fb, fc, merged@);
            lemma_replace_middle(first@, fb, merged@, last@);
            lemma_same_function_transitive(c@, first@ + fb + last@, first@ + merged@ + last@);
        }
    }
    (merged, first, last)
}

/// The chained butterfly with a block compressor: every gate `gᵢ` of `c`
/// becomes the block `Rᵢ⁻¹ · gᵢ · Rᵢ₊₁`, where each `Rᵢ` is a fresh random
/// circuit on `n` wires of a size drawn in `size_min ..= size_max` and
/// `Rᵢ⁻¹` its reverse; each block is compressed by `compress` with `trials`
/// trials, the blocks are merged by `merge_combine_with` between the
/// bookends `R₀ … Rₙ⁻¹`, and the whole is compressed with `trials` trials
/// until `stability` rounds in a row leave its length unchanged.  On reversible gates, on a width that fits a `usize`, the
/// result computes what `c` computes.
pub fn abutterfly_with<F: Fn(&CircuitSeq, usize) -> CircuitSeq>(
    c: &CircuitSeq,
    n: u8,
    size_min: usize,
    size_max: usize,
    trials: usize,
    stability: usize,
    compress: &F,
) -> (out: CircuitSeq)
    requires
        c@.len() >= 1,
        n >= 3,
        size_min <= size_max,
        is_compressor(compress),
    ensures
        gates_reversible(c@) && n as int <= usize::BITS ==> gates_reversible(out@) && same_function(c@, out@),
{
    let (merged, first, last) = compressed_chain(c, n, size_min, size_max, trials, compress);
    let acc = add_bookends(&merged, &first, &last);
    proof {
        if gates_reversible(c@) && n as int <= usize::BITS {
            lemma_concat3_reversible(first@, merged@, last@);
        }
    }
    let out = compress_until_stable(acc, trials, stability, compress);
    proof {
        if gates_reversible(c@) && n as int <= usize::BITS {
            lemma_same_function_transitive(c@, first@ + merged@ + last@, out@);
        }
    }
    out
}

/// The chained butterfly with the bookends held back: the merged compressed
/// blocks are compressed with `trials` trials until `stability` rounds in a
/// row leave their length unchanged, and returned with the opening half `R₀` and the
/// closing half `Rₙ⁻¹`.  On reversible gates, on a width that fits a
/// `usize`, `R₀ · out · Rₙ⁻¹` computes what `c` computes.
pub fn abutterfly_delay_bookends_with<F: Fn(&CircuitSeq, usize) -> CircuitSeq>(
    c: &CircuitSeq,
    n: u8,
    size_min: usize,
    size_max: usize,
    trials: usize,
    stability: usize,
    compress: &F,
) -> (r: (CircuitSeq, CircuitSeq, CircuitSeq))
    requires
        c@.len() >= 1,
        n >= 3,
        size_min <= size_max,
        is_compressor(compress),
    ensures
        size_min <= r.1@.len() <= size_max,
        size_min <= r.2@.len() <= size_max,
        gates_reversible(c@) && n as int <= usize::BITS ==> same_function(c@, r.1@ + r.0@ + r.2@),
{
    let (merged, first, last) = compressed_chain(c, n, size_min, size_max, trials, compress);
    let ghost m0 = merged@;
    let out = compress_until_stable(merged, trials, stability, compress);
    proof {
        if gates_reversible(c@) && n as int <= usize::BITS {
            lemma_replace_middle(first@, m0, out@, last@);
            lemma_same_function_transitive(c@, first@ + m0 + last@, first@ + out@ + last@);
        }
    }
    (out, first, last)
}

} // verus!
