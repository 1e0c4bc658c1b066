//! Lookups in the template database.  Its keys are a basis byte, the
//! width, a gate count (16 bits, little-endian) and a 32-byte canonical
//! digest; its values are template records.
//!
//! What the database holds lives on disk, so of each lookup only what holds
//! for every answer is stated; the decisions taken on an answer are exact.
use vstd::prelude::*;

use crate::infra::ids_index::BASIS_ECA57_ID;
use crate::infra::kv::{begin_read, cursor_seek_at_or_after, open_cursor, open_named_db, txn_get_value};
use crate::infra::random::random_bytes32;
use crate::infra::sat_witness::{template_key, DB_TEMPLATES_BY_HASH};
use crate::infra::store::schema::{decodes_to, is_record, le_u16, TemplateRecord};

verus! {

/// An open template database.
pub struct TemplateDB {
    env: lmdb::Environment,
    db_templates: lmdb::Database,
}

/// The key names a template of width `width` (basis, width, and room for a
/// gate count).
pub open spec fn key_in_block(key: Seq<u8>, width: u8) -> bool {
    key.len() >= 4 && key[0] == BASIS_ECA57_ID && key[1] == width
}

/// Gate count named by a key.
pub open spec fn key_gate_count(key: Seq<u8>) -> u16 {
    le_u16(key.subrange(2, 4))
}

/// Some byte string encodes the record.
pub open spec fn has_encoding(rec: TemplateRecord) -> bool {
    exists|v: Seq<u8>| #[trigger] decodes_to(v, rec)
}

/// Gate count of a found key, when the key belongs to templates of
/// width `width`.
pub fn gate_count_of_key(key: &[u8], width: u8) -> (r: Option<u16>)
    ensures
        r is Some <==> key_in_block(key@, width),
        r matches Some(gc) ==> gc == key_gate_count(key@),
{
    if key.len() < 4 || key[0] != BASIS_ECA57_ID || key[1] != width {
        return None;
    }
    let lo = key[2];
    let hi = key[3];
    proof {
        assert(key@.subrange(2, 4)[0] == lo);
        assert(key@.subrange(2, 4)[1] == hi);
    }
    Some((lo as u16) | ((hi as u16) << 8u16))
}

/// What a probe found: `None` when the entry is not a template of width
/// `width` with `gate_count` gates (or nothing was found); otherwise the
/// parse of its value.
pub fn record_in_block(found: Option<(Vec<u8>, Vec<u8>)>, width: u8, gate_count: u16) -> (r: Option<
    Option<TemplateRecord>,
>)
    ensures
        r is Some <==> (found matches Some(e) && key_in_block(e.0@, width) && key_gate_count(e.0@)
            == gate_count),
        r matches Some(parsed) ==> (found matches Some(e) && (parsed is Some <==> is_record(e.1@))
            && (parsed matches Some(rec) ==> decodes_to(e.1@, rec))),
{
    match found {
        Some((k, v)) => {
            match gate_count_of_key(k.as_slice(), width) {
                Some(gc) => {
                    if gc == gate_count {
                        Some(TemplateRecord::from_bytes(v.as_slice()))
                    } else {
                        None
                    }
                },
                None => None,
            }
        },
        None => None,
    }
}

impl TemplateDB {
    /// The environment the database was opened in.
    pub closed spec fn environment(&self) -> lmdb::Environment {
        self.env
    }

    /// Opens the template index in an open environment; `None` when it
    /// cannot be opened.
    pub fn from_env(env: lmdb::Environment) -> (r: Option<TemplateDB>)
        ensures
            r matches Some(db) ==> db.environment() == env,
    {
        proof {
            reveal_strlit("templates_by_hash");
        }
        match open_named_db(&env, DB_TEMPLATES_BY_HASH) {
            Some(db_templates) => Some(TemplateDB { env, db_templates }),
            None => None,
        }
    }

    /// Gate counts stored for `width`, found by jumping from count 0 to
    /// the first key at or after each probe.  Stops at the first key outside
    /// the width's templates, after count 65535, or after 65536 probes.
    pub fn get_available_gate_counts(&self, width: u8) -> (r: Vec<u16>)
        ensures
            r@.len() <= 65536,
    {
        let txn = match begin_read(&self.env) {
            Some(t) => t,
            None => return Vec::new(),
        };
        let cursor = match open_cursor(&txn, self.db_templates) {
            Some(c) => c,
            None => return Vec::new(),
        };
        let zeros = [0u8; 32];
        let mut counts: Vec<u16> = Vec::new();
        let mut next_gc: u16 = 0;
        let mut probes: usize = 0;
        while probes < 65536
            invariant
                probes <= 65536,
                counts@.len() <= probes,
            decreases 65536 - probes,
        {
            probes += 1;
            let key = template_key(width, next_gc as usize, &zeros);
            let found = cursor_seek_at_or_after(&cursor, &key);
            let gc = match found {
                Some((k, _)) => gate_count_of_key(k.as_slice(), width),
                None => None,
            };
            match gc {
                Some(g) => {
                    counts.push(g);
                    if g == u16::MAX {
                        break;
                    }
                    next_gc = g + 1;
                },
                None => {
                    break;
                },
            }
        }
        counts
    }

    /// A template of width `width` with `gate_count` gates: ten probes at
    /// random digests, then one at digest zero; the first probe that lands
    /// on such a template answers with the parse of its record.
    pub fn get_random_identity(&self, width: u8, gate_count: u16) -> (r: Option<TemplateRecord>)
        ensures
            r matches Some(rec) ==> has_encoding(rec),
    {
        let txn = match begin_read(&self.env) {
            Some(t) => t,
            None => return None,
        };
        let cursor = match open_cursor(&txn, self.db_templates) {
            Some(c) => c,
            None => return None,
        };
        let mut attempt: usize = 0;
        while attempt < 10
            invariant
                attempt <= 10,
            decreases 10 - attempt,
        {
            attempt += 1;
            let tail = random_bytes32();
            let key = template_key(width, gate_count as usize, &tail);
            let found = cursor_seek_at_or_after(&cursor, &key);
            match record_in_block(found, width, gate_count) {
                Some(parsed) => {
                    proof {
                        if parsed is Some {
                            assert(exists|v: Seq<u8>| #[trigger] decodes_to(v, parsed->0));
                        }
                    }
                    return parsed;
                },
                None => {},
            }
        }
        let zeros = [0u8; 32];
        let key = template_key(width, gate_count as usize, &zeros);
        let found = cursor_seek_at_or_after(&cursor, &key);
        match record_in_block(found, width, gate_count) {
            Some(parsed) => {
                proof {
                    if parsed is Some {
                        assert(exists|v: Seq<u8>| #[trigger] decodes_to(v, parsed->0));
                    }
                }
                parsed
            },
            None => None,
        }
    }

    /// The value stored under `key`, if any.  It comes from the store on
    /// disk and is not constrained.
    pub fn stored_value(&self, key: &[u8]) -> Option<Vec<u8>> {
        match begin_read(&self.env) {
            Some(txn) => txn_get_value(&txn, self.db_templates, key),
            None => None,
        }
    }

    /// The record stored under the exact key of `width`, `gate_count` and
    /// `canonical_hash`, parsed; `None` when there is none or it does not
    /// parse.  The key asked is `template_key_of(width, gate_count,
    /// canonical_hash)`, and the record is the parse of the value found.
    pub fn get_by_canonical_hash(&self, width: u8, gate_count: u16, canonical_hash: &[u8; 32]) -> (r:
        Option<TemplateRecord>)
        ensures
            r matches Some(rec) ==> has_encoding(rec),
            exists|k: &[u8], v: Option<Vec<u8>>|
                k@ == template_key_of(width, gate_count, canonical_hash@) && #[trigger] call_ensures(
                    TemplateDB::stored_value,
                    (self, k),
                    v,
                ) && (r is Some <==> (v matches Some(b) && is_record(b@))) && (r matches Some(rec) ==> (v matches Some(b)
                    && decodes_to(b@, rec))),
    {
        let key = template_key(width, gate_count as usize, canonical_hash);
        let ks = key.as_slice();
        let found = self.stored_value(ks);
        proof {
            assert(ks@ == template_key_of(width, gate_count, canonical_hash@));
        }
        match found {
            Some(v) => {
                let parsed = TemplateRecord::from_bytes(v.as_slice());
                proof {
                    if parsed is Some {
                        assert(exists|b: Seq<u8>| #[trigger] decodes_to(b, parsed->0));
                    }
                }
                parsed
            },
            None => None,
        }
    }

    /// A template of the same function with fewer gates, the smallest
    /// available: tries gate counts from 2 up to `current_gate_count - 1`
    /// and answers the first hit.  `res[i]` below is what
    /// `get_by_canonical_hash` answered for count `2 + i`; the counts are
    /// asked in that order until the first record.
    pub fn get_smaller_equivalent(&self, width: u8, current_gate_count: u16, canonical_hash: &[u8; 32]) -> (r:
        Option<TemplateRecord>)
        ensures
            current_gate_count <= 2 ==> r is None,
            r matches Some(rec) ==> has_encoding(rec),
            exists|res: Seq<Option<TemplateRecord>>|
                #[trigger] smaller_search(res, self, width, current_gate_count, canonical_hash) && r == (if res.len()
                    > 0 {
                    res.last()
                } else {
                    None
                }),
    {
        let mut gc: u16 = 2;
        let ghost mut res: Seq<Option<TemplateRecord>> = Seq::empty();
        while gc < current_gate_count
            invariant
                2 <= gc,
                current_gate_count > 2 ==> gc <= current_gate_count,
                current_gate_count <= 2 ==> gc == 2,
                res.len() == gc - 2,
                forall|i: int| 0 <= i < res.len() ==> (#[trigger] res[i]) is None,
                forall|i: int|
                    0 <= i < res.len() ==> #[trigger] call_ensures(
                        TemplateDB::get_by_canonical_hash,
                        (self, width, (2 + i) as u16, canonical_hash),
                        res[i],
                    ),
            decreases current_gate_count - gc,
        {
            let found = self.get_by_canonical_hash(width, gc, canonical_hash);
            let ghost res1 = res.push(found);
            proof {
                assert forall|i: int|
                    0 <= i < res1.len() implies #[trigger] call_ensures(
                        TemplateDB::get_by_canonical_hash,
                        (self, width, (2 + i) as u16, canonical_hash),
                        res1[i],
                    ) by {
                    if i < res.len() {
                        assert(res1[i] == res[i]);
                    } else {
                        assert((2 + i) as u16 == gc);
                    }
                }
            }
            match found {
                Some(rec) => {
                    proof {
                        assert forall|i: int| 0 <= i && i + 1 < res1.len() implies (#[trigger] res1[i]) is None by {
                            assert(res1[i] == res[i]);
                        }
                        assert(smaller_search(res1, self, width, current_gate_count, canonical_hash));
                    }
                    return Some(rec);
                },
                None => {
                    proof {
                        assert forall|i: int| 0 <= i < res1.len() implies (#[trigger] res1[i]) is None by {
                            if i < res.len() {
                                assert(res1[i] == res[i]);
                            }
                        }
                        res = res1;
                    }
                },
            }
            gc += 1;
        }
        proof {
            if current_gate_count > 2 {
                assert(gc == current_gate_count);
            } else {
                assert(gc == 2);
            }
            assert(res.len() == smaller_counts(current_gate_count));
            assert(smaller_search(res, self, width, current_gate_count, canonical_hash));
            if res.len() > 0 {
                assert(res.last() is None);
            }
        }
        None
    }
}

/// The template-index key of a template: basis, width, gate count
/// (little-endian) and canonical digest.
pub open spec fn template_key_of(width: u8, gate_count: u16, canonical_hash: Seq<u8>) -> Seq<u8> {
    seq![BASIS_ECA57_ID, width] + crate::infra::sat_witness::le_bytes_u16(gate_count) + canonical_hash
}

/// `res` are the answers of `get_by_canonical_hash` for the counts 2, 3, ...
/// in order, stopping at the first record or after `current - 1`.
pub open spec fn smaller_search(
    res: Seq<Option<TemplateRecord>>,
    db: &TemplateDB,
    width: u8,
    current: u16,
    canonical_hash: &[u8; 32],
) -> bool {
    &&& res.len() <= smaller_counts(current)
    &&& forall|i: int|
        0 <= i < res.len() ==> #[trigger] call_ensures(
            TemplateDB::get_by_canonical_hash,
            (db, width, (2 + i) as u16, canonical_hash),
            res[i],
        )
    &&& forall|i: int| 0 <= i && i + 1 < res.len() ==> (#[trigger] res[i]) is None
    &&& res.len() < smaller_counts(current) ==> res.len() > 0 && res.last() is Some
}

/// How many smaller gate counts there are to try: those from 2 up to
/// `current - 1`.
pub open spec fn smaller_counts(current: u16) -> nat {
    if current > 2 {
        (current - 2) as nat
    } else {
        0
    }
}

} // verus!
