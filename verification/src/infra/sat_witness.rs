//! Lookups in the SAT witness database: the template index keyed by the
//! digest of a canonical window, and the prefilter index keyed by a window
//! token.  Opening the database from a path is left to the caller.
use vstd::prelude::*;

use crate::infra::circuit::{window_removed, CircuitSeq};
use crate::infra::ids_index::{
    blake3_digest, blake3_of, canonical_gates, canonicalize_first_occurrence, digest_message,
    digest_prefix_u64, drain_window, injective_u8, le_bytes_u64, lemma_canonical_rename_invariant, le_u64,
    prefilter_key, rename_gates, slice_window, BASIS_ECA57_ID,
};
use crate::infra::kv::{begin_read, open_named_db, txn_has_key};
use crate::infra::search::{
    apply_window_hit, first_hit, lemma_first_hit_last, lemma_window_order_bounds, search_cap,
    spec_first_hit, stops_at_first_hit, window_order, window_starts,
};

verus! {

/// Name of the template index.
pub const DB_TEMPLATES_BY_HASH: &'static str = "templates_by_hash";

/// Name of the prefilter index.
pub const DB_WITNESS_PREFILTER: &'static str = "witness_prefilter";

/// An open witness database with its two indexes.
pub struct SatWitnessDb {
    env: lmdb::Environment,
    templates_by_hash: lmdb::Database,
    witness_prefilter: lmdb::Database,
}

impl SatWitnessDb {
    /// The environment the indexes were opened in.
    pub closed spec fn environment(&self) -> lmdb::Environment {
        self.env
    }

    /// Opens the two indexes in an open environment; `None` when either
    /// cannot be opened.
    pub fn from_env(env: lmdb::Environment) -> (r: Option<SatWitnessDb>)
        ensures
            r matches Some(db) ==> db.environment() == env,
    {
        proof {
            reveal_strlit("templates_by_hash");
            reveal_strlit("witness_prefilter");
        }
        let templates_by_hash = match open_named_db(&env, DB_TEMPLATES_BY_HASH) {
            Some(db) => db,
            None => return None,
        };
        let witness_prefilter = match open_named_db(&env, DB_WITNESS_PREFILTER) {
            Some(db) => db,
            None => return None,
        };
        Some(SatWitnessDb { env, templates_by_hash, witness_prefilter })
    }
}

/// The little-endian bytes of `x`.
pub open spec fn le_bytes_u16(x: u16) -> Seq<u8> {
    seq![(x & 0xff) as u8, ((x >> 8) & 0xff) as u8]
}

/// Key of a template: basis, width, gate count (cut to 16 bits,
/// little-endian), then the canonical digest.
pub fn template_key(width: u8, gate_count: usize, canonical_hash: &[u8; 32]) -> (r: [u8; 36])
    ensures
        r@ == seq![BASIS_ECA57_ID, width] + le_bytes_u16(gate_count as u16) + canonical_hash@,
{
    let gc = gate_count as u16;
    let mut key = [0u8; 36];
    key[0] = BASIS_ECA57_ID;
    key[1] = width;
    key[2] = (gc & 0xff) as u8;
    key[3] = ((gc >> 8) & 0xff) as u8;
    let mut i: usize = 0;
    while i < 32
        invariant
            i <= 32,
            key@.len() == 36,
            key@[0] == BASIS_ECA57_ID,
            key@[1] == width,
            key@[2] == (gc & 0xff) as u8,
            key@[3] == ((gc >> 8) & 0xff) as u8,
            forall|j: int| 0 <= j < i ==> key@[4 + j] == canonical_hash@[j],
        decreases 32 - i,
    {
        key[4 + i] = canonical_hash[i];
        i += 1;
    }
    proof {
        assert(key@ =~= seq![BASIS_ECA57_ID, width] + le_bytes_u16(gate_count as u16) + canonical_hash@);
    }
    key
}

/// The token of a window at a given width: the first eight bytes,
/// little-endian, of the digest of the canonical window.
pub open spec fn spec_token_with_width(window: Seq<[u8; 3]>, width: u8) -> u64 {
    let canon = canonical_gates(window);
    le_u64(blake3_of(digest_message(width, canon.len(), canon)))
}

/// Windows that differ only by an injective renaming of wires have the same
/// token at every width.
pub proof fn lemma_token_with_width_rename_invariant(window: Seq<[u8; 3]>, width: u8, f: spec_fn(u8) -> u8)
    requires
        injective_u8(f),
    ensures
        spec_token_with_width(rename_gates(window, f), width) == spec_token_with_width(window, width),
{
    lemma_canonical_rename_invariant(window, f);
}

/// The token of a window at the given width.
pub fn window_token_with_width(window: &[[u8; 3]], width: u8) -> (r: u64)
    ensures
        r == spec_token_with_width(window@, width),
{
    let (canon, _) = canonicalize_first_occurrence(window);
    let digest = blake3_digest(width, canon.len(), canon.as_slice());
    digest_prefix_u64(&digest)
}

/// Whether `key` is in the template index.  The answer comes from the
/// store on disk and is not constrained.
pub fn has_template_key(db: &SatWitnessDb, key: &[u8]) -> bool {
    match begin_read(&db.env) {
        Some(txn) => txn_has_key(&txn, db.templates_by_hash, key),
        None => false,
    }
}

/// Whether `key` is in the prefilter index.  The answer comes from the
/// store on disk and is not constrained.
pub fn has_prefilter_key(db: &SatWitnessDb, key: &[u8]) -> bool {
    match begin_read(&db.env) {
        Some(txn) => txn_has_key(&txn, db.witness_prefilter, key),
        None => false,
    }
}

/// `k` is the prefilter key of a window of `g` whose length is one of `ks`.
pub open spec fn window_prefilter_key(k: Seq<u8>, g: Seq<[u8; 3]>, width: u8, ks: Seq<usize>) -> bool {
    exists|a: int, i: int|
        0 <= a < ks.len() && 0 <= i && i + ks[a] <= g.len() && k == seq![BASIS_ECA57_ID, width] + le_bytes_u64(
            #[trigger] spec_token_with_width(g.subrange(i, i + ks[a]), width),
        )
}

/// Whether the token of some window of a length in `k_sizes` is in the
/// prefilter index.  Empty gates, or no window of such a length, answer
/// `false`; otherwise the answer comes from the store, and a yes is the
/// answer of `has_prefilter_key` on the key of one of those windows.
pub fn prefilter_hit(db: &SatWitnessDb, gates: &[[u8; 3]], width: u8, k_sizes: &[usize]) -> (r: bool)
    ensures
        gates@.len() == 0 ==> !r,
        (forall|j: int| 0 <= j < k_sizes@.len() ==> gates@.len() < #[trigger] k_sizes@[j]) ==> !r,
        r ==> exists|k: &[u8]| #[trigger] call_ensures(has_prefilter_key, (db, k), true) && window_prefilter_key(
            k@,
            gates@,
            width,
            k_sizes@,
        ),
{
    if gates.len() == 0 {
        return false;
    }
    let mut a: usize = 0;
    while a < k_sizes.len()
        invariant
            a <= k_sizes@.len(),
            gates@.len() > 0,
        decreases k_sizes@.len() - a,
    {
        let k = k_sizes[a];
        if gates.len() >= k {
            let n = gates.len();
            let last = n - k;
            let mut i: usize = 0;
            loop
                invariant
                    i <= last,
                    last + k == n,
                    n == gates@.len(),
                    n > 0,
                    0 <= a < k_sizes@.len(),
                    k == k_sizes@[a as int],
                decreases last - i,
            {
                let window = slice_window(gates, i, i + k);
                let token = window_token_with_width(window.as_slice(), width);
                let key = prefilter_key(width, token);
                let ks = key.as_slice();
                if has_prefilter_key(db, ks) {
                    proof {
                        assert(window_prefilter_key(ks@, gates@, width, k_sizes@)) by {
                            assert(spec_token_with_width(gates@.subrange(i as int, i + k_sizes@[a as int]), width) == token);
                        }
                    }
                    return true;
                }
                if i >= last {
                    break;
                }
                i += 1;
            }
        }
        a += 1;
    }
    false
}

/// The key of the canonical form of `g` in the template index: basis,
/// width, length (16 bits) and the digest of the canonical window.
pub open spec fn witness_template_key(g: Seq<[u8; 3]>, width: u8) -> Seq<u8> {
    let c = canonical_gates(g);
    seq![BASIS_ECA57_ID, width] + le_bytes_u16(c.len() as u16) + blake3_of(digest_message(width, c.len(), c))
}

/// Whether the canonical form of `gates` is a stored template at the given
/// width.  Empty gates answer `false`; otherwise the answer is that of
/// `has_template_key` on `witness_template_key(gates, width)`.
pub fn template_contains(db: &SatWitnessDb, gates: &[[u8; 3]], width: u8) -> (r: bool)
    ensures
        gates@.len() == 0 ==> !r,
        gates@.len() > 0 ==> exists|k: &[u8]|
            k@ == witness_template_key(gates@, width) && #[trigger] call_ensures(has_template_key, (db, k), r),
{
    if gates.len() == 0 {
        return false;
    }
    let (canon, _) = canonicalize_first_occurrence(gates);
    let hash = blake3_digest(width, canon.len(), canon.as_slice());
    let key = template_key(width, canon.len(), &hash);
    let ks = key.as_slice();
    let r = has_template_key(db, ks);
    proof {
        assert(ks@ == witness_template_key(gates@, width));
    }
    r
}

/// `a` is an answer of `template_contains` on the window `w` (length,
/// start) of `g`.
pub open spec fn template_answer_matches(a: bool, w: (usize, usize), g: Seq<[u8; 3]>, db: &SatWitnessDb, width: u8) -> bool {
    exists|win: &[[u8; 3]]|
        win@ == g.subrange(w.1 as int, w.1 + w.0) && #[trigger] call_ensures(template_contains, (db, win, width), a)
}

/// Searches windows of lengths `max_len` (capped by the circuit length) down
/// to 5, leftmost first, for a stored template, and removes the first one
/// found.  Returns whether a window was removed; otherwise the circuit is
/// unchanged.  The windows are asked in that order until the first yes, and
/// exactly that window is removed.
pub fn remove_identity_window(subcircuit: &mut CircuitSeq, db: &SatWitnessDb, width: u8, max_len: usize) -> (r:
    bool)
    ensures
        !r ==> final(subcircuit)@ == old(subcircuit)@,
        r ==> exists|start: int, wlen: int|
            5 <= wlen <= max_len && #[trigger] window_removed(
                old(subcircuit)@,
                final(subcircuit)@,
                start,
                wlen,
            ),
        old(subcircuit)@.len() < 5 ==> !r,
        exists|ans: Seq<bool>|
            #[trigger] stops_at_first_hit(
                ans,
                window_order(old(subcircuit)@.len() as usize, search_cap(old(subcircuit)@.len() as usize, max_len)).len(),
            ) && (forall|q: int| 0 <= q < ans.len() ==> #[trigger] template_answer_matches(
                ans[q],
                window_order(old(subcircuit)@.len() as usize, search_cap(old(subcircuit)@.len() as usize, max_len))[q],
                old(subcircuit)@,
                db,
                width,
            )) && r == (spec_first_hit(ans) is Some) && final(subcircuit)@ == apply_window_hit(
                old(subcircuit)@,
                window_order(old(subcircuit)@.len() as usize, search_cap(old(subcircuit)@.len() as usize, max_len)),
                spec_first_hit(ans),
            ),
{
    let len = subcircuit.gates.len();
    let cap = if max_len < len {
        max_len
    } else {
        len
    };
    let ghost order = window_order(len, cap);
    proof {
        lemma_window_order_bounds(len, cap);
    }
    let mut asked: Vec<(usize, usize)> = Vec::new();
    let mut answers: Vec<bool> = Vec::new();
    let mut found = false;
    let mut window_len: usize = cap;
    proof {
        assert(asked@ + window_order(len, window_len) =~= order);
    }
    while window_len >= 5 && !found
        invariant
            window_len <= cap,
            cap == search_cap(len, max_len),
            cap <= len,
            len == subcircuit@.len(),
            order == window_order(len, cap),
            subcircuit@ == old(subcircuit)@,
            asked@.len() == answers@.len(),
            forall|q: int| 0 <= q < answers@.len() ==> #[trigger] template_answer_matches(answers@[q], asked@[q], subcircuit@, db, width),
            forall|i: int| 0 <= i && i + 1 < answers@.len() ==> !#[trigger] answers@[i],
            !found ==> forall|i: int| 0 <= i < answers@.len() ==> !#[trigger] answers@[i],
            found ==> answers@.len() > 0 && answers@.last(),
            !found ==> asked@ + window_order(len, window_len) == order,
            found ==> asked@ == order.take(asked@.len() as int) && asked@.len() <= order.len(),
        decreases window_len, (if found { 0int } else { 1int }),
    {
        let mut start: usize = 0;
        proof {
            assert(window_order(len, window_len) == window_starts(len, window_len) + window_order(
                len,
                (window_len - 1) as usize,
            ));
            assert(window_starts(len, window_len).skip(0) =~= window_starts(len, window_len));
            assert(asked@ + (window_starts(len, window_len).skip(0) + window_order(len, (window_len - 1) as usize))
                =~= order);
        }
        while start <= len - window_len && !found
            invariant
                5 <= window_len <= cap,
                cap <= len,
                len == subcircuit@.len(),
                order == window_order(len, cap),
                subcircuit@ == old(subcircuit)@,
                asked@.len() == answers@.len(),
                forall|q: int| 0 <= q < answers@.len() ==> #[trigger] template_answer_matches(answers@[q], asked@[q], subcircuit@, db, width),
                start <= len - window_len + 1,
                forall|i: int| 0 <= i && i + 1 < answers@.len() ==> !#[trigger] answers@[i],
                !found ==> forall|i: int| 0 <= i < answers@.len() ==> !#[trigger] answers@[i],
                found ==> answers@.len() > 0 && answers@.last(),
                !found ==> asked@ + (window_starts(len, window_len).skip(start as int) + window_order(
                    len,
                    (window_len - 1) as usize,
                )) == order,
                found ==> asked@ == order.take(asked@.len() as int) && asked@.len() <= order.len(),
            decreases len - window_len + 1 - start, (if found { 0int } else { 1int }),
        {
            let window = slice_window(subcircuit.gates.as_slice(), start, start + window_len);
            let wslice = window.as_slice();
            let hit = template_contains(db, wslice, width);
            let ghost a0 = answers@;
            let ghost s0 = asked@;
            let ghost rest = window_starts(len, window_len).skip(start + 1) + window_order(len, (window_len - 1) as usize);
            proof {
                assert(window_starts(len, window_len).skip(start as int) =~= seq![(window_len, start)]
                    + window_starts(len, window_len).skip(start + 1));
                assert(asked@.push((window_len, start)) + rest =~= asked@ + (window_starts(len, window_len).skip(
                    start as int,
                ) + window_order(len, (window_len - 1) as usize)));
            }
            asked.push((window_len, start));
            answers.push(hit);
            proof {
                assert(wslice@ == subcircuit@.subrange(start as int, start + window_len));
                assert(template_answer_matches(hit, (window_len, start), subcircuit@, db, width));
                assert forall|q: int| 0 <= q < answers@.len() implies #[trigger] template_answer_matches(
                    answers@[q],
                    asked@[q],
                    subcircuit@,
                    db,
                    width,
                ) by {
                    if q < a0.len() {
                        assert(answers@[q] == a0[q] && asked@[q] == s0[q]);
                        assert(template_answer_matches(a0[q], s0[q], subcircuit@, db, width));
                    } else {
                        assert(answers@[q] == hit && asked@[q] == (window_len, start));
                    }
                }
            }
            if hit {
                proof {
                    assert(order.take(asked@.len() as int) =~= asked@);
                }
                found = true;
            } else {
                start += 1;
            }
        }
        if !found {
            proof {
                assert(window_starts(len, window_len).skip(start as int) =~= Seq::<(usize, usize)>::empty());
                assert(asked@ + window_order(len, (window_len - 1) as usize) =~= asked@ + (window_starts(
                    len,
                    window_len,
                ).skip(start as int) + window_order(len, (window_len - 1) as usize)));
            }
            window_len -= 1;
        }
    }
    proof {
        if !found {
            assert(window_order(len, window_len) =~= Seq::<(usize, usize)>::empty());
            assert(asked@ =~= order);
        }
        assert(old(subcircuit)@.len() as usize == len);
        assert(order == window_order(old(subcircuit)@.len() as usize, search_cap(old(subcircuit)@.len() as usize, max_len)));
        assert(stops_at_first_hit(answers@, order.len()));
        assert forall|q: int| 0 <= q < answers@.len() implies #[trigger] template_answer_matches(
            answers@[q],
            order[q],
            old(subcircuit)@,
            db,
            width,
        ) by {
            if found {
                assert(asked@ == order.take(asked@.len() as int));
            }
            assert(asked@[q] == order[q]);
            assert(template_answer_matches(answers@[q], asked@[q], subcircuit@, db, width));
        }
        lemma_first_hit_last(answers@, order.len());
    }
    match first_hit(answers.as_slice()) {
        Some(i) => {
            let (wl, st) = asked[i];
            proof {
                assert(asked@[i as int] == order[i as int]);
            }
            drain_window(&mut subcircuit.gates, st, st + wl);
            proof {
                assert(window_removed(old(subcircuit)@, subcircuit@, st as int, wl as int));
                assert(subcircuit@ == apply_window_hit(old(subcircuit)@, order, spec_first_hit(answers@)));
            }
            true
        },
        None => {
            proof {
                assert(subcircuit@ == apply_window_hit(old(subcircuit)@, order, spec_first_hit(answers@)));
            }
            false
        },
    }
}

} // verus!
