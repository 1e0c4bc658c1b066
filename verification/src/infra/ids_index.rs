//! Canonical wire relabeling of gate windows and the keys under which
//! identity windows are indexed.
use vstd::prelude::*;

use crate::infra::circuit::{window_removed, CircuitSeq};
use crate::infra::kv::{begin_read, open_named_db, txn_has_key};
use crate::infra::search::{
    apply_window_hit, first_hit, lemma_first_hit_last, lemma_window_order_bounds, search_cap,
    spec_first_hit, stops_at_first_hit, window_order, window_starts,
};

verus! {

pub const IDS_REV_DB: &'static str = "ids_rev";

pub const IDS_WIT_PREFILTER_DB: &'static str = "ids_wit_prefilter";

pub const BASIS_ECA57_ID: u8 = 1;

/// Counters of an index build.
#[derive(Debug, Default)]
pub struct IdsIndexStats {
    pub ids_seen: usize,
    pub rev_inserted: usize,
    pub token_inserted: usize,
    pub dbs_scanned: usize,
}

/// `n`, saturated at 255.
pub open spec fn sat_u8(n: nat) -> u8 {
    if n < 255 {
        n as u8
    } else {
        255u8
    }
}

/// Labels given so far (wire -> label) and the number of distinct wires seen.
pub type LabelState = (Map<u8, u8>, nat);

/// Meeting wire `w`: a wire seen for the first time gets the next label.
pub open spec fn label_wire(st: LabelState, w: u8) -> LabelState {
    if st.0.dom().contains(w) {
        st
    } else {
        (st.0.insert(w, sat_u8(st.1)), st.1 + 1)
    }
}

/// Meeting the pins of `g` in the order target, control 1, control 2.
pub open spec fn label_gate(st: LabelState, g: [u8; 3]) -> LabelState {
    label_wire(label_wire(label_wire(st, g[0]), g[1]), g[2])
}

/// First-occurrence labels of the wires of `gates`, read gate by gate.
pub open spec fn labels_of(gates: Seq<[u8; 3]>) -> LabelState
    decreases gates.len(),
{
    if gates.len() == 0 {
        (Map::empty(), 0)
    } else {
        label_gate(labels_of(gates.drop_last()), gates.last())
    }
}

/// `g` with every pin replaced by its label in `m`.
pub open spec fn relabel_gate(m: Map<u8, u8>, g: [u8; 3]) -> [u8; 3] {
    [m[g[0]], m[g[1]], m[g[2]]]
}

/// `gates` with every wire replaced by the order of its first occurrence.
pub open spec fn canonical_gates(gates: Seq<[u8; 3]>) -> Seq<[u8; 3]> {
    Seq::new(gates.len(), |i: int| relabel_gate(labels_of(gates).0, gates[i]))
}

/// Number of distinct wires of `gates`.
pub open spec fn distinct_wires(gates: Seq<[u8; 3]>) -> nat {
    labels_of(gates).1
}

/// `gates` with every wire `w` renamed to `f(w)`.
pub open spec fn rename_gates(gates: Seq<[u8; 3]>, f: spec_fn(u8) -> u8) -> Seq<[u8; 3]> {
    Seq::new(gates.len(), |i: int| [f(gates[i][0]), f(gates[i][1]), f(gates[i][2])])
}

/// `f` maps distinct wires to distinct wires.
pub open spec fn injective_u8(f: spec_fn(u8) -> u8) -> bool {
    forall|a: u8, b: u8| #[trigger] f(a) == #[trigger] f(b) ==> a == b
}

/// Label states related by a renaming of wires.
pub open spec fn renamed_state(st: LabelState, st2: LabelState, f: spec_fn(u8) -> u8) -> bool {
    &&& st2.1 == st.1
    &&& forall|w: u8| #[trigger] st2.0.dom().contains(f(w)) <==> st.0.dom().contains(w)
    &&& forall|w: u8| st.0.dom().contains(w) ==> #[trigger] st2.0[f(w)] == st.0[w]
}

proof fn lemma_renamed_wire(st: LabelState, st2: LabelState, f: spec_fn(u8) -> u8, w: u8)
    requires
        injective_u8(f),
        renamed_state(st, st2, f),
    ensures
        renamed_state(label_wire(st, w), label_wire(st2, f(w)), f),
{
    let a = label_wire(st, w);
    let b = label_wire(st2, f(w));
    if !st.0.dom().contains(w) {
        assert forall|u: u8| #[trigger] b.0.dom().contains(f(u)) <==> a.0.dom().contains(u) by {
            if f(u) == f(w) {
                assert(u == w);
            }
        }
        assert forall|u: u8| a.0.dom().contains(u) implies #[trigger] b.0[f(u)] == a.0[u] by {
            if f(u) == f(w) {
                assert(u == w);
            }
        }
    }
}

proof fn lemma_renamed_labels(gates: Seq<[u8; 3]>, f: spec_fn(u8) -> u8)
    requires
        injective_u8(f),
    ensures
        renamed_state(labels_of(gates), labels_of(rename_gates(gates, f)), f),
    decreases gates.len(),
{
    let r = rename_gates(gates, f);
    if gates.len() == 0 {
        assert(r.len() == 0);
    } else {
        let dl = gates.drop_last();
        assert(r.drop_last() =~= rename_gates(dl, f));
        lemma_renamed_labels(dl, f);
        let g = gates.last();
        let st = labels_of(dl);
        let st2 = labels_of(rename_gates(dl, f));
        assert(r.last() == [f(g[0]), f(g[1]), f(g[2])]);
        lemma_renamed_wire(st, st2, f, g[0]);
        lemma_renamed_wire(label_wire(st, g[0]), label_wire(st2, f(g[0])), f, g[1]);
        lemma_renamed_wire(
            label_wire(label_wire(st, g[0]), g[1]),
            label_wire(label_wire(st2, f(g[0])), f(g[1])),
            f,
            g[2],
        );
    }
}

/// Once a wire has a label, later gates do not change it.
proof fn lemma_labels_grow(gates: Seq<[u8; 3]>, i: int, w: u8)
    requires
        0 <= i <= gates.len(),
        labels_of(gates.take(i)).0.dom().contains(w),
    ensures
        labels_of(gates).0.dom().contains(w),
        labels_of(gates).0[w] == labels_of(gates.take(i)).0[w],
    decreases gates.len() - i,
{
    if i < gates.len() {
        assert(gates.take(i + 1).drop_last() =~= gates.take(i));
        lemma_labels_grow(gates, i + 1, w);
    } else {
        assert(gates.take(i) =~= gates);
    }
}

/// Every pin of every gate gets a label.
pub proof fn lemma_pins_labelled(gates: Seq<[u8; 3]>, i: int, k: int)
    requires
        0 <= i < gates.len(),
        0 <= k < 3,
    ensures
        labels_of(gates).0.dom().contains(gates[i][k]),
{
    let pre = gates.take(i + 1);
    assert(pre.drop_last() =~= gates.take(i));
    assert(pre.last() == gates[i]);
    assert(labels_of(pre).0.dom().contains(gates[i][k]));
    lemma_labels_grow(gates, i + 1, gates[i][k]);
}

/// Renaming the wires of a window by an injective map does not change its
/// canonical form nor its number of distinct wires.
pub proof fn lemma_canonical_rename_invariant(gates: Seq<[u8; 3]>, f: spec_fn(u8) -> u8)
    requires
        injective_u8(f),
    ensures
        canonical_gates(rename_gates(gates, f)) == canonical_gates(gates),
        distinct_wires(rename_gates(gates, f)) == distinct_wires(gates),
{
    let r = rename_gates(gates, f);
    lemma_renamed_labels(gates, f);
    assert forall|i: int| 0 <= i < gates.len() implies #[trigger] canonical_gates(r)[i]
        == canonical_gates(gates)[i] by {
        lemma_pins_labelled(gates, i, 0);
        lemma_pins_labelled(gates, i, 1);
        lemma_pins_labelled(gates, i, 2);
    }
    assert(canonical_gates(r) =~= canonical_gates(gates));
}

/// The labelled wires of a state are finitely many, and as many as its count.
pub open spec fn card_ok(st: LabelState) -> bool {
    st.0.dom().finite() && st.0.dom().len() == st.1
}

/// Meeting a wire keeps the count of a state equal to its number of labels.
pub proof fn lemma_card_ok_step(st: LabelState, w: u8)
    requires
        card_ok(st),
    ensures
        card_ok(label_wire(st, w)),
{
}

/// A finite set of bytes that misses some byte has fewer than 256 elements.
pub proof fn lemma_u8_set_missing_small(s: Set<u8>, w: u8)
    requires
        s.finite(),
        !s.contains(w),
    ensures
        s.len() < 256,
{
    let f = |x: u8| x as int;
    let y = s.map(f);
    assert(vstd::relations::injective_on(f, s));
    vstd::set_lib::lemma_map_size(s, y, f);
    let range = vstd::set_lib::set_int_range(0, 256);
    vstd::set_lib::lemma_int_range(0, 256);
    assert(y.subset_of(range.remove(w as int))) by {
        assert forall|v: int| y.contains(v) implies range.remove(w as int).contains(v) by {
            let x = choose|x: u8| s.contains(x) && f(x) == v;
            assert(x != w);
        }
    }
    vstd::set_lib::lemma_len_subset(y, range.remove(w as int));
}

/// Exec mirror of a label state: `seen[w]` tells whether `w` has a label,
/// `label[w]` holds it, and `next` the next label to hand out.
pub open spec fn tables_match(seen: Seq<bool>, label: Seq<u8>, next: u8, st: LabelState) -> bool {
    &&& seen.len() == 256
    &&& label.len() == 256
    &&& next == sat_u8(st.1)
    &&& forall|w: u8| #[trigger] seen[w as int] == st.0.dom().contains(w)
    &&& forall|w: u8| st.0.dom().contains(w) ==> #[trigger] label[w as int] == st.0[w]
}

fn assign_label(
    seen: &mut Vec<bool>,
    label: &mut Vec<u8>,
    next: &mut u8,
    w: u8,
    Ghost(st): Ghost<LabelState>,
)
    requires
        tables_match(old(seen)@, old(label)@, *old(next), st),
    ensures
        tables_match(final(seen)@, final(label)@, *final(next), label_wire(st, w)),
{
    if !seen[w as usize] {
        seen.set(w as usize, true);
        label.set(w as usize, *next);
        *next = next.saturating_add(1);
        proof {
            let st2 = label_wire(st, w);
            assert forall|u: u8| #[trigger] seen@[u as int] == st2.0.dom().contains(u) by {
                if u != w {
                    assert(seen@[u as int] == old(seen)@[u as int]);
                }
            }
            assert forall|u: u8| st2.0.dom().contains(u) implies #[trigger] label@[u as int]
                == st2.0[u] by {
                if u != w {
                    assert(label@[u as int] == old(label)@[u as int]);
                }
            }
        }
    }
}

/// Relabels the wires of `gates` in order of first occurrence (target, then
/// control 1, then control 2, gate by gate) and returns the relabelled gates
/// with the number of distinct wires, saturated at 255.
pub fn canonicalize_first_occurrence(gates: &[[u8; 3]]) -> (r: (Vec<[u8; 3]>, u8))
    ensures
        r.0@ == canonical_gates(gates@),
        r.1 == sat_u8(distinct_wires(gates@)),
{
    let mut seen: Vec<bool> = vec![false; 256];
    let mut label: Vec<u8> = vec![0u8; 256];
    let mut next: u8 = 0;
    let ghost mut st: LabelState = (Map::empty(), 0);
    let mut i: usize = 0;
    while i < gates.len()
        invariant
            i <= gates.len(),
            st == labels_of(gates@.take(i as int)),
            tables_match(seen@, label@, next, st),
        decreases gates.len() - i,
    {
        let g = gates[i];
        assign_label(&mut seen, &mut label, &mut next, g[0], Ghost(st));
        proof {
            st = label_wire(st, g[0]);
        }
        assign_label(&mut seen, &mut label, &mut next, g[1], Ghost(st));
        proof {
            st = label_wire(st, g[1]);
        }
        assign_label(&mut seen, &mut label, &mut next, g[2], Ghost(st));
        proof {
            st = label_wire(st, g[2]);
            assert(gates@.take(i + 1).drop_last() =~= gates@.take(i as int));
            assert(gates@.take(i + 1).last() == g);
        }
        i += 1;
    }
    proof {
        assert(gates@.take(i as int) =~= gates@);
    }
    let mut canonical: Vec<[u8; 3]> = Vec::with_capacity(gates.len());
    let mut j: usize = 0;
    while j < gates.len()
        invariant
            j <= gates.len(),
            st == labels_of(gates@),
            tables_match(seen@, label@, next, st),
            canonical@ == canonical_gates(gates@).take(j as int),
        decreases gates.len() - j,
    {
        let g = gates[j];
        proof {
            lemma_pins_labelled(gates@, j as int, 0);
            lemma_pins_labelled(gates@, j as int, 1);
            lemma_pins_labelled(gates@, j as int, 2);
        }
        let cg = [label[g[0] as usize], label[g[1] as usize], label[g[2] as usize]];
        canonical.push(cg);
        j += 1;
        proof {
            assert(canonical@ =~= canonical_gates(gates@).take(j as int));
        }
    }
    proof {
        assert(canonical_gates(gates@).take(j as int) =~= canonical_gates(gates@));
    }
    (canonical, next)
}

/// The pins of `gates`, gate by gate, as bytes.
pub open spec fn gate_bytes(gates: Seq<[u8; 3]>) -> Seq<u8>
    decreases gates.len(),
{
    if gates.len() == 0 {
        Seq::empty()
    } else {
        gate_bytes(gates.drop_last()) + seq![gates.last()[0], gates.last()[1], gates.last()[2]]
    }
}

/// The pins of `gates`, gate by gate, as a byte string.
pub fn gates_to_blob(gates: &[[u8; 3]]) -> (r: Vec<u8>)
    ensures
        r@ == gate_bytes(gates@),
{
    let mut blob: Vec<u8> = Vec::new();
    let mut i: usize = 0;
    while i < gates.len()
        invariant
            i <= gates.len(),
            blob@ == gate_bytes(gates@.take(i as int)),
        decreases gates.len() - i,
    {
        let g = gates[i];
        blob.push(g[0]);
        blob.push(g[1]);
        blob.push(g[2]);
        i += 1;
        proof {
            let t = gates@.take(i as int);
            assert(t.drop_last() =~= gates@.take(i - 1));
            assert(t.last() == g);
            assert(blob@ =~= gate_bytes(t));
        }
    }
    proof {
        assert(gates@.take(i as int) =~= gates@);
    }
    blob
}

/// Decimal digits of `n` as ASCII bytes.
pub open spec fn decimal_digits(n: nat) -> Seq<u8>
    decreases n,
{
    if n < 10 {
        seq![(48 + n) as u8]
    } else {
        decimal_digits(n / 10).push((48 + n % 10) as u8)
    }
}

/// Appends the decimal digits of `n`.
pub fn push_decimal(buf: &mut Vec<u8>, n: usize)
    ensures
        final(buf)@ == old(buf)@ + decimal_digits(n as nat),
    decreases n,
{
    if n >= 10 {
        push_decimal(buf, n / 10);
    }
    buf.push(48u8 + (n % 10) as u8);
    proof {
        if n < 10 {
            assert(final(buf)@ =~= old(buf)@ + decimal_digits(n as nat));
        } else {
            assert(final(buf)@ =~= old(buf)@ + decimal_digits(n as nat));
        }
    }
}

/// The bytes hashed for a window: `eca57:<width>:<len>:` then each gate's pins.
pub open spec fn digest_message(width: u8, len: nat, gates: Seq<[u8; 3]>) -> Seq<u8> {
    seq![101u8, 99u8, 97u8, 53u8, 55u8, 58u8] + decimal_digits(width as nat) + seq![58u8]
        + decimal_digits(len) + seq![58u8] + gate_bytes(gates)
}

/// BLAKE3 hash of a byte string.
pub uninterp spec fn blake3_of(data: Seq<u8>) -> Seq<u8>;

/// `blake3::hash`: the 32-byte BLAKE3 digest of `data`, which depends on
/// `data` alone.
#[verifier::external_body]
fn blake3_hash(data: &[u8]) -> (r: [u8; 32])
    ensures
        r@ == blake3_of(data@),
{
    *blake3::hash(data).as_bytes()
}

/// Digest of a window of gates with its width and length.
pub fn blake3_digest(width: u8, len: usize, gates: &[[u8; 3]]) -> (r: [u8; 32])
    ensures
        r@ == blake3_of(digest_message(width, len as nat, gates@)),
{
    let mut msg: Vec<u8> = Vec::new();
    msg.push(101u8);
    msg.push(99u8);
    msg.push(97u8);
    msg.push(53u8);
    msg.push(55u8);
    msg.push(58u8);
    push_decimal(&mut msg, width as usize);
    msg.push(58u8);
    push_decimal(&mut msg, len);
    msg.push(58u8);
    let blob = gates_to_blob(gates);
    let mut i: usize = 0;
    let ghost base = msg@;
    while i < blob.len()
        invariant
            i <= blob@.len(),
            msg@ == base + blob@.take(i as int),
        decreases blob@.len() - i,
    {
        msg.push(blob[i]);
        i += 1;
        proof {
            assert(msg@ =~= base + blob@.take(i as int));
        }
    }
    proof {
        assert(blob@.take(i as int) =~= blob@);
        assert(msg@ =~= digest_message(width, len as nat, gates@));
    }
    blake3_hash(msg.as_slice())
}

/// The little-endian `u64` of the first eight bytes of `b`.
pub open spec fn le_u64(b: Seq<u8>) -> u64 {
    (b[0] as u64) | ((b[1] as u64) << 8u64) | ((b[2] as u64) << 16u64) | ((b[3] as u64) << 24u64)
        | ((b[4] as u64) << 32u64) | ((b[5] as u64) << 40u64) | ((b[6] as u64) << 48u64) | ((
    b[7] as u64) << 56u64)
}

/// The little-endian `u64` of the first eight bytes of a digest.
pub fn digest_prefix_u64(d: &[u8; 32]) -> (r: u64)
    ensures
        r == le_u64(d@),
{
    (d[0] as u64) | ((d[1] as u64) << 8u64) | ((d[2] as u64) << 16u64) | ((d[3] as u64) << 24u64)
        | ((d[4] as u64) << 32u64) | ((d[5] as u64) << 40u64) | ((d[6] as u64) << 48u64) | ((
    d[7] as u64) << 56u64)
}

/// Width and token of a window: the width is the number of distinct wires
/// (saturated at 255) and the token the first eight bytes, little-endian, of
/// the digest of the canonical window.
pub open spec fn spec_window_token(window: Seq<[u8; 3]>) -> (u8, u64) {
    let canon = canonical_gates(window);
    let width = sat_u8(distinct_wires(window));
    (width, le_u64(blake3_of(digest_message(width, canon.len(), canon))))
}

/// Windows that differ only by an injective renaming of wires have the same
/// width and token, so they meet the same prefilter entries.
pub proof fn lemma_window_token_rename_invariant(window: Seq<[u8; 3]>, f: spec_fn(u8) -> u8)
    requires
        injective_u8(f),
    ensures
        spec_window_token(rename_gates(window, f)) == spec_window_token(window),
{
    lemma_canonical_rename_invariant(window, f);
}

/// Width and token of a window of gates.
pub fn window_token(window: &[[u8; 3]]) -> (r: (u8, u64))
    ensures
        r == spec_window_token(window@),
{
    let (canon, width) = canonicalize_first_occurrence(window);
    let digest = blake3_digest(width, canon.len(), canon.as_slice());
    (width, digest_prefix_u64(&digest))
}

/// The little-endian bytes of `x`.
pub open spec fn le_bytes_u64(x: u64) -> Seq<u8> {
    seq![
        (x & 0xff) as u8,
        ((x >> 8) & 0xff) as u8,
        ((x >> 16) & 0xff) as u8,
        ((x >> 24) & 0xff) as u8,
        ((x >> 32) & 0xff) as u8,
        ((x >> 40) & 0xff) as u8,
        ((x >> 48) & 0xff) as u8,
        ((x >> 56) & 0xff) as u8,
    ]
}

/// Key of a window token in the prefilter index: basis, width, then the
/// token in little-endian order.
pub fn prefilter_key(width: u8, token: u64) -> (r: [u8; 10])
    ensures
        r@ == seq![BASIS_ECA57_ID, width] + le_bytes_u64(token),
{
    let r = [
        BASIS_ECA57_ID,
        width,
        (token & 0xff) as u8,
        ((token >> 8) & 0xff) as u8,
        ((token >> 16) & 0xff) as u8,
        ((token >> 24) & 0xff) as u8,
        ((token >> 32) & 0xff) as u8,
        ((token >> 40) & 0xff) as u8,
        ((token >> 48) & 0xff) as u8,
        ((token >> 56) & 0xff) as u8,
    ];
    proof {
        assert(r@ =~= seq![BASIS_ECA57_ID, width] + le_bytes_u64(token));
    }
    r
}

/// The key of a window in the reverse index: the bytes of its canonical
/// form.
pub open spec fn rev_key(gates: Seq<[u8; 3]>) -> Seq<u8> {
    gate_bytes(canonical_gates(gates))
}

/// Whether the canonical form of `gates` is stored in the reverse index:
/// the answer is that of `ids_rev_contains_blob` on `rev_key(gates)`.  What
/// the store answers comes from disk and is not constrained.
pub fn ids_rev_contains(env: &lmdb::Environment, db: lmdb::Database, gates: &[[u8; 3]]) -> (r: bool)
    ensures
        exists|k: &[u8]| k@ == rev_key(gates@) && #[trigger] call_ensures(ids_rev_contains_blob, (env, db, k), r),
{
    let (canon, _) = canonicalize_first_occurrence(gates);
    let blob = gates_to_blob(canon.as_slice());
    let key = blob.as_slice();
    let r = ids_rev_contains_blob(env, db, key);
    proof {
        assert(key@ == rev_key(gates@));
    }
    r
}

/// Opens the reverse identity index `ids_rev` of `env`; `None` when it
/// cannot be opened.
pub fn open_ids_rev(env: &lmdb::Environment) -> (r: Option<lmdb::Database>) {
    proof {
        reveal_strlit("ids_rev");
    }
    open_named_db(env, IDS_REV_DB)
}

/// Every window that a lookup in the reverse index of `env` affirms
/// computes the identity: the index lists identities only.
pub open spec fn index_lists_identities(env: &lmdb::Environment) -> bool {
    forall|db: lmdb::Database, w: &[[u8; 3]]|
        call_ensures(open_ids_rev, (env,), Some(db)) && #[trigger] call_ensures(ids_rev_contains, (env, db, w), true)
            ==> crate::infra::circuit::is_identity_fn(w@)
}

/// Whether `blob` is a key of `db`; `false` when no transaction can be
/// started.  The answer comes from the store on disk and is not
/// constrained.
pub fn ids_rev_contains_blob(env: &lmdb::Environment, db: lmdb::Database, blob: &[u8]) -> bool {
    match begin_read(env) {
        Some(txn) => txn_has_key(&txn, db, blob),
        None => false,
    }
}

/// Whether the token of some window of a length in `k_sizes` is in the
/// prefilter index.  Without a window of such a length the answer is `false`.
pub fn ids_prefilter_hit(
    env: &lmdb::Environment,
    db: lmdb::Database,
    gates: &[[u8; 3]],
    k_sizes: &[usize],
) -> (r: bool)
    ensures
        (forall|j: int| 0 <= j < k_sizes@.len() ==> gates@.len() < #[trigger] k_sizes@[j]) ==> !r,
{
    let txn = match begin_read(env) {
        Some(txn) => txn,
        None => return false,
    };
    let mut a: usize = 0;
    while a < k_sizes.len()
        invariant
            a <= k_sizes@.len(),
        decreases k_sizes@.len() - a,
    {
        let k = k_sizes[a];
        if gates.len() >= k {
            let n = gates.len();
            let last = n - k;
            let mut i: usize = 0;
            loop
                invariant
                    i <= last,
                    last + k == n,
                    n == gates@.len(),
                    0 <= a < k_sizes@.len(),
                    k == k_sizes@[a as int],
                decreases last - i,
            {
                let window = slice_window(gates, i, i + k);
                let (width, token) = window_token(window.as_slice());
                let key = prefilter_key(width, token);
                if txn_has_key(&txn, db, &key) {
                    return true;
                }
                if i >= last {
                    break;
                }
                i += 1;
            }
        }
        a += 1;
    }
    false
}

/// The gates at positions `start .. end`.
pub fn slice_window(gates: &[[u8; 3]], start: usize, end: usize) -> (r: Vec<[u8; 3]>)
    requires
        start <= end <= gates@.len(),
    ensures
        r@ == gates@.subrange(start as int, end as int),
{
    let mut r: Vec<[u8; 3]> = Vec::new();
    let mut i: usize = start;
    while i < end
        invariant
            start <= i <= end,
            end <= gates@.len(),
            r@ == gates@.subrange(start as int, i as int),
        decreases end - i,
    {
        r.push(gates[i]);
        i += 1;
        proof {
            assert(r@ =~= gates@.subrange(start as int, i as int));
        }
    }
    r
}

/// Removes the gates at positions `start .. end`.
pub fn drain_window(gates: &mut Vec<[u8; 3]>, start: usize, end: usize)
    requires
        start <= end <= old(gates)@.len(),
    ensures
        final(gates)@ == old(gates)@.take(start as int) + old(gates)@.skip(end as int),
{
    let ghost g0 = gates@;
    let mut r: Vec<[u8; 3]> = slice_window(gates.as_slice(), 0, start);
    let n = gates.len();
    let mut i: usize = end;
    while i < n
        invariant
            end <= i <= n,
            n == g0.len(),
            gates@ == g0,
            r@ == g0.take(start as int) + g0.subrange(end as int, i as int),
        decreases n - i,
    {
        r.push(gates[i]);
        i += 1;
        proof {
            assert(r@ =~= g0.take(start as int) + g0.subrange(end as int, i as int));
        }
    }
    proof {
        assert(g0.subrange(0, start as int) =~= g0.take(start as int));
        assert(g0.subrange(end as int, n as int) =~= g0.skip(end as int));
    }
    *gates = r;
}

/// `a` is an answer of `ids_rev_contains_blob` on the reverse-index key of
/// the window `w` (length, start) of `g`.
pub open spec fn answer_matches(a: bool, w: (usize, usize), g: Seq<[u8; 3]>, env: &lmdb::Environment, db: lmdb::Database) -> bool {
    exists|k: &[u8]|
        k@ == rev_key(g.subrange(w.1 as int, w.1 + w.0)) && #[trigger] call_ensures(ids_rev_contains_blob, (env, db, k), a)
}

/// Each answer is that of `ids_rev_contains_blob` on the reverse-index key
/// of the window asked at the same place.
pub open spec fn answers_match_keys(
    ans: Seq<bool>,
    windows: Seq<(usize, usize)>,
    g: Seq<[u8; 3]>,
    env: &lmdb::Environment,
    db: lmdb::Database,
) -> bool {
    forall|q: int| 0 <= q < ans.len() ==> #[trigger] answer_matches(ans[q], windows[q], g, env, db)
}

/// Searches windows of lengths `max_len` (capped by the circuit length) down
/// to 5, leftmost first, for one whose canonical form is in the reverse
/// index, and removes the first one found.  Returns whether a window was
/// removed; otherwise the circuit is unchanged.  The windows are asked in
/// that order until the first yes, and exactly that window is removed.
pub fn remove_identity_window(
    subcircuit: &mut CircuitSeq,
    env: &lmdb::Environment,
    ids_rev_db: lmdb::Database,
    max_len: usize,
) -> (r: bool)
    ensures
        !r ==> final(subcircuit)@ == old(subcircuit)@,
        r ==> exists|start: int, wlen: int|
            5 <= wlen <= max_len && #[trigger] window_removed(
                old(subcircuit)@,
                final(subcircuit)@,
                start,
                wlen,
            ),
        old(subcircuit)@.len() < 5 ==> !r,
        exists|ans: Seq<bool>|
            #[trigger] stops_at_first_hit(
                ans,
                window_order(old(subcircuit)@.len() as usize, search_cap(old(subcircuit)@.len() as usize, max_len)).len(),
            ) && answers_match_keys(
                ans,
                window_order(old(subcircuit)@.len() as usize, search_cap(old(subcircuit)@.len() as usize, max_len)),
                old(subcircuit)@,
                env,
                ids_rev_db,
            ) && r == (spec_first_hit(ans) is Some) && final(subcircuit)@ == apply_window_hit(
                old(subcircuit)@,
                window_order(old(subcircuit)@.len() as usize, search_cap(old(subcircuit)@.len() as usize, max_len)),
                spec_first_hit(ans),
            ),
{
    let len = subcircuit.gates.len();
    let cap = if max_len < len {
        max_len
    } else {
        len
    };
    let ghost order = window_order(len, cap);
    proof {
        lemma_window_order_bounds(len, cap);
    }
    let mut asked: Vec<(usize, usize)> = Vec::new();
    let mut answers: Vec<bool> = Vec::new();
    let mut found = false;
    let mut window_len: usize = cap;
    proof {
        assert(asked@ + window_order(len, window_len) =~= order);
    }
    while window_len >= 5 && !found
        invariant
            window_len <= cap,
            cap == search_cap(len, max_len),
            cap <= len,
            len == subcircuit@.len(),
            order == window_order(len, cap),
            subcircuit@ == old(subcircuit)@,
            asked@.len() == answers@.len(),
            answers_match_keys(answers@, asked@, subcircuit@, env, ids_rev_db),
            forall|i: int| 0 <= i && i + 1 < answers@.len() ==> !#[trigger] answers@[i],
            !found ==> forall|i: int| 0 <= i < answers@.len() ==> !#[trigger] answers@[i],
            found ==> answers@.len() > 0 && answers@.last(),
            !found ==> asked@ + window_order(len, window_len) == order,
            found ==> asked@ == order.take(asked@.len() as int) && asked@.len() <= order.len(),
        decreases window_len, (if found { 0int } else { 1int }),
    {
        let mut start: usize = 0;
        proof {
            assert(window_order(len, window_len) == window_starts(len, window_len) + window_order(
                len,
                (window_len - 1) as usize,
            ));
            assert(window_starts(len, window_len).skip(0) =~= window_starts(len, window_len));
            assert(asked@ + (window_starts(len, window_len).skip(0) + window_order(len, (window_len - 1) as usize))
                =~= order);
        }
        while start <= len - window_len && !found
            invariant
                5 <= window_len <= cap,
                cap <= len,
                len == subcircuit@.len(),
                order == window_order(len, cap),
                subcircuit@ == old(subcircuit)@,
                asked@.len() == answers@.len(),
                answers_match_keys(answers@, asked@, subcircuit@, env, ids_rev_db),
                start <= len - window_len + 1,
                forall|i: int| 0 <= i && i + 1 < answers@.len() ==> !#[trigger] answers@[i],
                !found ==> forall|i: int| 0 <= i < answers@.len() ==> !#[trigger] answers@[i],
                found ==> answers@.len() > 0 && answers@.last(),
                !found ==> asked@ + (window_starts(len, window_len).skip(start as int) + window_order(
                    len,
                    (window_len - 1) as usize,
                )) == order,
                found ==> asked@ == order.take(asked@.len() as int) && asked@.len() <= order.len(),
            decreases len - window_len + 1 - start, (if found { 0int } else { 1int }),
        {
            let window = slice_window(subcircuit.gates.as_slice(), start, start + window_len);
            let (canon, _) = canonicalize_first_occurrence(window.as_slice());
            let blob = gates_to_blob(canon.as_slice());
            let key = blob.as_slice();
            let hit = ids_rev_contains_blob(env, ids_rev_db, key);
            let ghost a0 = answers@;
            let ghost s0 = asked@;
            proof {
                assert(call_ensures(ids_rev_contains_blob, (env, ids_rev_db, key), hit));
                assert(answers_match_keys(a0, s0, subcircuit@, env, ids_rev_db));
            }
            let ghost rest = window_starts(len, window_len).skip(start + 1) + window_order(len, (window_len - 1) as usize);
            proof {
                assert(window_starts(len, window_len).skip(start as int) =~= seq![(window_len, start)]
                    + window_starts(len, window_len).skip(start + 1));
                assert(asked@.push((window_len, start)) + rest =~= asked@ + (window_starts(len, window_len).skip(
                    start as int,
                ) + window_order(len, (window_len - 1) as usize)));
            }
            asked.push((window_len, start));
            answers.push(hit);
            proof {
                assert(key@ == rev_key(subcircuit@.subrange(start as int, start + window_len)));
                assert(answer_matches(hit, (window_len, start), subcircuit@, env, ids_rev_db));
                assert forall|q: int| 0 <= q < answers@.len() implies #[trigger] answer_matches(
                    answers@[q],
                    asked@[q],
                    subcircuit@,
                    env,
                    ids_rev_db,
                ) by {
                    if q < a0.len() {
                        assert(answers@[q] == a0[q] && asked@[q] == s0[q]);
                        assert(answer_matches(a0[q], s0[q], subcircuit@, env, ids_rev_db));
                    } else {
                        assert(answers@[q] == hit && asked@[q] == (window_len, start));
                    }
                }
            }
            if hit {
                proof {
                    assert(order.take(asked@.len() as int) =~= asked@);
                }
                found = true;
            } else {
                start += 1;
            }
        }
        if !found {
            proof {
                assert(window_starts(len, window_len).skip(start as int) =~= Seq::<(usize, usize)>::empty());
                assert(asked@ + window_order(len, (window_len - 1) as usize) =~= asked@ + (window_starts(
                    len,
                    window_len,
                ).skip(start as int) + window_order(len, (window_len - 1) as usize)));
            }
            window_len -= 1;
        }
    }
    proof {
        if !found {
            assert(window_order(len, window_len) =~= Seq::<(usize, usize)>::empty());
            assert(asked@ =~= order);
        }
        assert(old(subcircuit)@.len() as usize == len);
        assert(order == window_order(old(subcircuit)@.len() as usize, search_cap(old(subcircuit)@.len() as usize, max_len)));
        assert(stops_at_first_hit(answers@, order.len()));
        assert forall|q: int| 0 <= q < answers@.len() implies #[trigger] asked@[q] == order[q] by {
            if found {
                assert(asked@ == order.take(asked@.len() as int));
            }
        }
        assert forall|q: int| 0 <= q < answers@.len() implies #[trigger] answer_matches(
            answers@[q],
            order[q],
            old(subcircuit)@,
            env,
            ids_rev_db,
        ) by {
            assert(answer_matches(answers@[q], asked@[q], subcircuit@, env, ids_rev_db));
        }
        assert(answers_match_keys(answers@, order, old(subcircuit)@, env, ids_rev_db));
        lemma_first_hit_last(answers@, order.len());
    }
    match first_hit(answers.as_slice()) {
        Some(i) => {
            let (wl, st) = asked[i];
            proof {
                assert(asked@[i as int] == order[i as int]);
            }
            drain_window(&mut subcircuit.gates, st, st + wl);
            proof {
                assert(window_removed(old(subcircuit)@, subcircuit@, st as int, wl as int));
                assert(subcircuit@ == apply_window_hit(old(subcircuit)@, order, spec_first_hit(answers@)));
            }
            true
        },
        None => {
            proof {
                assert(subcircuit@ == apply_window_hit(old(subcircuit)@, order, spec_first_hit(answers@)));
            }
            false
        },
    }
}

/// The number that the eight bytes from `pos` give, least significant
/// byte first.
pub open spec fn le_u64_at(b: Seq<u8>, pos: int) -> nat {
    (b[pos] + 256 * (b[pos + 1] + 256 * (b[pos + 2] + 256 * (b[pos + 3] + 256 * (b[pos + 4] + 256 * (b[pos + 5]
        + 256 * (b[pos + 6] + 256 * b[pos + 7]))))))) as nat
}

/// `count` byte strings read from `pos` on, each an eight-byte
/// little-endian length followed by that many bytes; with the position
/// after them.  `None` when the bytes run out.
pub open spec fn blobs_from(b: Seq<u8>, pos: int, count: nat) -> Option<(Seq<Seq<u8>>, int)>
    decreases count,
{
    if count == 0 {
        Some((Seq::empty(), pos))
    } else if pos + 8 > b.len() {
        None
    } else {
        let n = le_u64_at(b, pos);
        if pos + 8 + n > b.len() {
            None
        } else {
            match blobs_from(b, pos + 8 + n, (count - 1) as nat) {
                Some((rest, end)) => Some((seq![b.subrange(pos + 8, pos + 8 + n)] + rest, end)),
                None => None,
            }
        }
    }
}

/// A list of byte strings in bincode's fixed-width encoding: an eight-byte
/// little-endian count, then the strings as in `blobs_from`; bytes after
/// the last string are ignored.
pub open spec fn blob_list_decoding(b: Seq<u8>) -> Option<Seq<Seq<u8>>> {
    if b.len() < 8 {
        None
    } else {
        match blobs_from(b, 8, le_u64_at(b, 0)) {
            Some((v, _)) => Some(v),
            None => None,
        }
    }
}

/// `bincode::deserialize::<Vec<Vec<u8>>>`: with bincode's default settings
/// (fixed-width little-endian integers, trailing bytes allowed, no size
/// limit) a `Vec<Vec<u8>>` is read as `blob_list_decoding` states; `None`
/// when the bytes run out.
#[verifier::external_body]
fn decode_blob_list(bytes: &[u8]) -> (r: Option<Vec<Vec<u8>>>)
    ensures
        r is Some <==> blob_list_decoding(bytes@) is Some,
        r matches Some(v) ==> v.deep_view() == blob_list_decoding(bytes@).unwrap(),
{
    bincode::deserialize::<Vec<Vec<u8>>>(bytes).ok()
}

/// The gates of a blob: each full group of three bytes, in order.
pub open spec fn blob_gates(blob: Seq<u8>) -> Seq<[u8; 3]> {
    Seq::new(blob.len() / 3, |i: int| [blob[3 * i], blob[3 * i + 1], blob[3 * i + 2]])
}

/// Reads the gates of a blob, three bytes per gate; a trailing partial gate
/// is ignored.
pub fn gates_from_blob(blob: &[u8]) -> (r: Vec<[u8; 3]>)
    ensures
        r@ == blob_gates(blob@),
{
    let len = blob.len();
    let n = len / 3;
    let mut gates: Vec<[u8; 3]> = Vec::with_capacity(n);
    let mut i: usize = 0;
    while i < n
        invariant
            i <= n,
            len == blob@.len(),
            n == len / 3,
            gates@ == blob_gates(blob@).take(i as int),
        decreases n - i,
    {
        proof {
            assert(3 * i + 2 < len) by (nonlinear_arith)
                requires
                    i < n,
                    n == len / 3,
            ;
        }
        gates.push([blob[3 * i], blob[3 * i + 1], blob[3 * i + 2]]);
        i += 1;
        proof {
            assert(gates@ =~= blob_gates(blob@).take(i as int));
        }
    }
    proof {
        assert(blob_gates(blob@).take(n as int) =~= blob_gates(blob@));
    }
    gates
}

/// The width and token of some window of length 2 or 3 of `canon`.
pub open spec fn is_window_token(canon: Seq<[u8; 3]>, t: (u8, u64)) -> bool {
    exists|k: int, i: int|
        (k == 2 || k == 3) && 0 <= i && i + k <= canon.len() && t == #[trigger] spec_window_token(
            canon.subrange(i, i + k),
        )
}

/// What the index records of one identity: its canonical blob, for the
/// reverse index, and the distinct tokens of its windows of length 2 and 3,
/// for the prefilter.
pub struct IdsIndexEntry {
    pub canon_blob: Vec<u8>,
    pub tokens: Vec<(u8, u64)>,
}

/// The index entry of an identity given as a gate blob.
pub fn ids_index_entry(blob: &[u8]) -> (r: IdsIndexEntry)
    ensures
        r.canon_blob@ == gate_bytes(canonical_gates(blob_gates(blob@))),
        r.tokens@.no_duplicates(),
        forall|t: (u8, u64)| r.tokens@.contains(t) <==> is_window_token(canonical_gates(blob_gates(blob@)), t),
{
    let gates = gates_from_blob(blob);
    let (canon, _) = canonicalize_first_occurrence(gates.as_slice());
    let ghost cg = canon@;
    let canon_blob = gates_to_blob(canon.as_slice());
    let mut tokens: Vec<(u8, u64)> = Vec::new();
    let mut k: usize = 2;
    while k <= 3
        invariant
            2 <= k <= 4,
            cg == canon@,
            tokens@.no_duplicates(),
            forall|t: (u8, u64)| tokens@.contains(t) ==> is_window_token(cg, t),
            forall|kk: int, i: int|
                (kk == 2 || kk == 3) && kk < k && 0 <= i && i + kk <= cg.len() ==> tokens@.contains(
                    #[trigger] spec_window_token(cg.subrange(i, i + kk)),
                ),
        decreases 4 - k,
    {
        if canon.len() >= k {
            let last = canon.len() - k;
            let mut i: usize = 0;
            while i <= last
                invariant
                    i <= last + 1,
                    last + k == cg.len(),
                    cg.len() <= usize::MAX,
                    2 <= k <= 3,
                    cg == canon@,
                    tokens@.no_duplicates(),
                    forall|t: (u8, u64)| tokens@.contains(t) ==> is_window_token(cg, t),
                    forall|kk: int, q: int|
                        (kk == 2 || kk == 3) && kk < k && 0 <= q && q + kk <= cg.len() ==> tokens@.contains(
                            #[trigger] spec_window_token(cg.subrange(q, q + kk)),
                        ),
                    forall|q: int| 0 <= q < i ==> tokens@.contains(
                        #[trigger] spec_window_token(cg.subrange(q, q + k)),
                    ),
                decreases last + 1 - i,
            {
                let window = slice_window(canon.as_slice(), i, i + k);
                let t = window_token(window.as_slice());
                proof {
                    assert(is_window_token(cg, t)) by {
                        assert(t == spec_window_token(cg.subrange(i as int, i + k)));
                    }
                }
                let mut present = false;
                let mut j: usize = 0;
                while j < tokens.len()
                    invariant
                        j <= tokens@.len(),
                        present == (exists|q: int| 0 <= q < j && tokens@[q] == t),
                    decreases tokens@.len() - j,
                {
                    if tokens[j].0 == t.0 && tokens[j].1 == t.1 {
                        present = true;
                    }
                    j += 1;
                }
                if !present {
                    let ghost before = tokens@;
                    tokens.push(t);
                    proof {
                        assert forall|a: int, b: int|
                            0 <= a < tokens@.len() && 0 <= b < tokens@.len() && a != b implies tokens@[a]
                            != tokens@[b] by {
                            if a < before.len() && b < before.len() {
                                assert(tokens@[a] == before[a] && tokens@[b] == before[b]);
                            } else if a < before.len() {
                                assert(tokens@[a] == before[a]);
                            } else {
                                assert(tokens@[b] == before[b]);
                            }
                        }
                        assert forall|u: (u8, u64)| tokens@.contains(u) implies is_window_token(cg, u) by {
                            if u != t {
                                let q = choose|q: int| 0 <= q < tokens@.len() && tokens@[q] == u;
                                assert(before[q] == u);
                            }
                        }
                        assert forall|u: (u8, u64)| #[trigger] before.contains(u) implies tokens@.contains(u) by {
                            let q = choose|q: int| 0 <= q < before.len() && before[q] == u;
                            assert(tokens@[q] == u);
                        }
                        assert(tokens@[before.len() as int] == t);
                    }
                } else {
                    proof {
                        let q = choose|q: int| 0 <= q < tokens@.len() && tokens@[q] == t;
                        assert(tokens@.contains(t));
                    }
                }
                i += 1;
            }
        }
        k += 1;
    }
    proof {
        assert forall|t: (u8, u64)| is_window_token(cg, t) implies tokens@.contains(t) by {
            let (kk, q) = choose|kk: int, q: int|
                (kk == 2 || kk == 3) && 0 <= q && q + kk <= cg.len() && t == #[trigger] spec_window_token(
                    cg.subrange(q, q + kk),
                );
            assert(tokens@.contains(spec_window_token(cg.subrange(q, q + kk))));
        }
    }
    IdsIndexEntry { canon_blob, tokens }
}

/// The index entries of every identity in a stored value (a `bincode` list
/// of gate blobs); `None` when the value does not decode.
pub fn ids_index_entries(value: &[u8]) -> (r: Option<Vec<IdsIndexEntry>>)
    ensures
        r is Some <==> blob_list_decoding(value@) is Some,
        r matches Some(es) ==> es@.len() == blob_list_decoding(value@).unwrap().len() && forall|i: int|
            0 <= i < es@.len() ==> (#[trigger] es@[i]).canon_blob@ == gate_bytes(
                canonical_gates(blob_gates(blob_list_decoding(value@).unwrap()[i])),
            ),
{
    let blobs = match decode_blob_list(value) {
        Some(b) => b,
        None => return None,
    };
    let mut entries: Vec<IdsIndexEntry> = Vec::new();
    let mut i: usize = 0;
    while i < blobs.len()
        invariant
            i <= blobs@.len(),
            blobs.deep_view() == blob_list_decoding(value@).unwrap(),
            entries@.len() == i,
            forall|q: int|
                0 <= q < i ==> (#[trigger] entries@[q]).canon_blob@ == gate_bytes(
                    canonical_gates(blob_gates(blob_list_decoding(value@).unwrap()[q])),
                ),
        decreases blobs@.len() - i,
    {
        let e = ids_index_entry(blobs[i].as_slice());
        proof {
            assert(blobs@[i as int]@ == blobs.deep_view()[i as int]);
        }
        entries.push(e);
        i += 1;
    }
    Some(entries)
}

} // verus!
