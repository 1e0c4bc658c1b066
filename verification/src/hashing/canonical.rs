//! Canonical hashing: content hashes for circuit memoization, a
//! position-independent key for gate windows, and a bounded memo of values
//! by hash.
use vstd::prelude::*;

use std::collections::HashMap;

use crate::infra::circuit::CircuitSeq;
use crate::infra::ids_index::{
    canonical_gates, distinct_wires, injective_u8, lemma_canonical_rename_invariant, rename_gates,
};

verus! {

/// The 64-bit hash that the standard library's default hasher
/// (`DefaultHasher`, created by `new`/`default`) gives a vector of gates.
pub uninterp spec fn std_hash_of_gates(gates: Seq<[u8; 3]>) -> u64;

/// `BuildHasher::hash_one` with the standard default hasher: hashes the
/// vector exactly as `DefaultHasher::new()` followed by `hash` and `finish`
/// would.  All default hashers start from the same keys, so the result is a
/// function of the gates.
#[verifier::external_body]
fn default_hash_gates(gates: &Vec<[u8; 3]>) -> (h: u64)
    ensures
        h == std_hash_of_gates(gates@),
{
    std::hash::BuildHasher::hash_one(
        &std::hash::BuildHasherDefault::<std::collections::hash_map::DefaultHasher>::default(),
        gates,
    )
}

/// 64-bit hash of a circuit's gate list, for memoization.
pub fn circuit_hash_64(c: &CircuitSeq) -> (h: u64)
    ensures
        h == std_hash_of_gates(c@),
{
    default_hash_gates(&c.gates)
}

/// The key of a window: 0 for the empty window, otherwise the hash of its
/// canonical (first-occurrence relabelled) form.
pub open spec fn spec_window_key(gates: Seq<[u8; 3]>) -> u64 {
    if gates.len() == 0 {
        0
    } else {
        std_hash_of_gates(canonical_gates(gates))
    }
}

/// Position-independent key of a window of gates: wires are relabelled in
/// order of first occurrence before hashing, so windows that differ by a
/// renaming of wires share a key.  At most 255 distinct wires are supported.
pub fn canonical_window_key(gates: &[[u8; 3]]) -> (k: u64)
    requires
        distinct_wires(gates@) < 256,
    ensures
        k == spec_window_key(gates@),
{
    if gates.len() == 0 {
        return 0;
    }
    let (canonical, _) = crate::infra::ids_index::canonicalize_first_occurrence(gates);
    default_hash_gates(&canonical)
}

/// Windows that differ only by an injective renaming of wires have the same
/// key (and the same number of distinct wires).
pub proof fn lemma_window_key_rename_invariant(gates: Seq<[u8; 3]>, f: spec_fn(u8) -> u8)
    requires
        injective_u8(f),
    ensures
        spec_window_key(rename_gates(gates, f)) == spec_window_key(gates),
        distinct_wires(rename_gates(gates, f)) == distinct_wires(gates),
{
    lemma_canonical_rename_invariant(gates, f);
}


/// A memo of values (energies) by circuit hash, emptied whenever an insert
/// finds it holding `max_size` entries or more.
pub struct EnergyCache<V> {
    cache: HashMap<u64, V>,
    max_size: usize,
}

impl<V: Copy> EnergyCache<V> {
    /// The values by hash.
    pub closed spec fn view(&self) -> Map<u64, V> {
        self.cache@
    }

    /// The size at which an insert empties the memo first.
    pub closed spec fn limit(&self) -> usize {
        self.max_size
    }

    /// An empty memo.
    pub fn new(max_size: usize) -> (r: Self)
        ensures
            r.view() == Map::<u64, V>::empty(),
            r.limit() == max_size,
    {
        EnergyCache { cache: HashMap::new(), max_size }
    }

    /// The value stored for `hash`.
    pub fn get(&self, hash: u64) -> (r: Option<V>)
        ensures
            r == (if self.view().contains_key(hash) {
                Some(self.view()[hash])
            } else {
                None
            }),
    {
        match self.cache.get(&hash) {
            Some(v) => Some(*v),
            None => None,
        }
    }

    /// Stores `energy` for `hash`, after emptying the memo when it holds
    /// `max_size` entries or more.
    pub fn insert(&mut self, hash: u64, energy: V)
        ensures
            final(self).limit() == old(self).limit(),
            final(self).view() == (if old(self).view().len() >= old(self).limit() {
                Map::<u64, V>::empty()
            } else {
                old(self).view()
            }).insert(hash, energy),
    {
        broadcast use vstd::std_specs::hash::group_hash_axioms;
        if self.cache.len() >= self.max_size {
            self.cache.clear();
        }
        self.cache.insert(hash, energy);
    }

    /// The number of stored values.
    pub fn len(&self) -> (r: usize)
        ensures
            r == self.view().len(),
    {
        broadcast use vstd::std_specs::hash::group_hash_axioms;
        self.cache.len()
    }

    /// Whether nothing is stored.
    pub fn is_empty(&self) -> (r: bool)
        ensures
            r == (self.view().len() == 0),
    {
        broadcast use vstd::std_specs::hash::group_hash_axioms;
        proof {
            vstd::std_specs::hash::axiom_hashmap_view_finite_dom(self.cache);
        }
        let r = self.cache.is_empty();
        proof {
            if !r {
                let k = self.cache@.dom().choose();
                assert(self.cache@.dom().contains(k));
            }
        }
        r
    }
}

} // verus!
