use std::collections::HashMap;

use lmdb::{Database, DatabaseFlags, Environment, EnvironmentFlags, Transaction, WriteFlags};

use local_mixing::algorithms::butterfly::replace::random_stored_id;
use local_mixing::algorithms::identity_growth::sample_template_from_db;
use local_mixing::infra::circuit::CircuitSeq;
use local_mixing::infra::ids_index::remove_identity_window as remove_indexed_window;
use local_mixing::infra::ids_index::{
    blake3_digest, canonicalize_first_occurrence, gates_to_blob, ids_prefilter_hit, ids_rev_contains, prefilter_key,
    window_token,
};
use rand::SeedableRng;
use local_mixing::infra::sat_witness::{
    prefilter_hit, remove_identity_window, template_contains, template_key, window_token_with_width, SatWitnessDb,
};
use local_mixing::infra::store::reader::TemplateDB;

fn seeded_rng(seed: u64) -> rand::rngs::StdRng {
    rand::rngs::StdRng::seed_from_u64(seed)
}

fn scratch_env(name: &str) -> Environment {
    let path = format!("/tmp/local_mixing_{}.mdb", name);
    Environment::new()
        .set_flags(EnvironmentFlags::NO_SUB_DIR)
        .set_max_dbs(8)
        .set_map_size(16 * 1024 * 1024)
        .open(std::path::Path::new(&path))
        .expect("scratch environment")
}

fn fresh_db(env: &Environment, name: &str) -> Database {
    let db = env.create_db(Some(name), DatabaseFlags::empty()).unwrap();
    let mut txn = env.begin_rw_txn().unwrap();
    txn.clear_db(db).unwrap();
    txn.commit().unwrap();
    db
}

fn put(env: &Environment, db: Database, key: &[u8], value: &[u8]) {
    let mut txn = env.begin_rw_txn().unwrap();
    txn.put(db, &key, &value, WriteFlags::empty()).unwrap();
    txn.commit().unwrap();
}

fn record_bytes(width: u8, gate_count: u16, gates: &[[u8; 3]]) -> Vec<u8> {
    let mut b = vec![0u8; 91];
    b[8] = 1;
    b[9] = width;
    b[10..12].copy_from_slice(&gate_count.to_le_bytes());
    let glen = gates.len() as u16;
    b[89..91].copy_from_slice(&glen.to_le_bytes());
    for g in gates {
        b.extend_from_slice(g);
    }
    b
}

#[test]
fn template_db_lookups() {
    let env = scratch_env("templates");
    let db = fresh_db(&env, "templates_by_hash");
    let hash = [7u8; 32];
    let small = [[0u8, 1, 2], [0, 1, 2]];
    let big = [[1u8, 0, 2], [1, 0, 2], [2, 0, 1], [2, 0, 1]];
    put(&env, db, &template_key(3, 2, &hash), &record_bytes(3, 2, &small));
    put(&env, db, &template_key(3, 4, &[9u8; 32]), &record_bytes(3, 4, &big));
    put(&env, db, &template_key(4, 6, &hash), &record_bytes(4, 6, &big));
    drop(env);

    let env = scratch_env("templates");
    let tdb = TemplateDB::from_env(env).expect("index present");
    let rec = tdb.get_by_canonical_hash(3, 2, &hash).unwrap();
    assert_eq!(rec.width, 3);
    assert_eq!(rec.to_circuit_seq().gates, small.to_vec());
    assert!(tdb.get_by_canonical_hash(3, 3, &hash).is_none());

    let smaller = tdb.get_smaller_equivalent(3, 6, &hash).unwrap();
    assert_eq!(smaller.gate_count, 2);
    assert!(tdb.get_smaller_equivalent(3, 2, &hash).is_none());

    assert_eq!(tdb.get_available_gate_counts(3), vec![2, 4]);
    assert_eq!(tdb.get_available_gate_counts(4), vec![6]);
    assert!(tdb.get_available_gate_counts(5).is_empty());

    let any4 = tdb.get_random_identity(3, 4).unwrap();
    assert_eq!(any4.to_circuit_seq().gates, big.to_vec());
    assert!(tdb.get_random_identity(3, 5).is_none());

    let mut rng = seeded_rng(9);
    let mut cache: HashMap<usize, Vec<u16>> = HashMap::new();
    let got = sample_template_from_db(&tdb, 3, 3, 10, 0, 0, &mut rng, &mut cache).unwrap();
    assert_eq!(got.gates, big.to_vec());
    assert_eq!(cache.get(&3), Some(&vec![2, 4]));
    assert!(sample_template_from_db(&tdb, 3, 5, 10, 0, 0, &mut rng, &mut cache).is_none());
    assert!(sample_template_from_db(&tdb, 300, 0, 10, 0, 0, &mut rng, &mut cache).is_none());
    assert_eq!(cache.len(), 1);
}

#[test]
fn witness_database_windows() {
    let env = scratch_env("witness");
    let templates = fresh_db(&env, "templates_by_hash");
    let prefilter = fresh_db(&env, "witness_prefilter");
    // A stored identity of five gates on three wires.
    let id5 = [[0u8, 1, 2], [1, 0, 2], [0, 1, 2], [1, 0, 2], [2, 0, 1]];
    let (canon, _) = canonicalize_first_occurrence(&id5);
    let digest = blake3_digest(3, canon.len(), &canon);
    put(&env, templates, &template_key(3, canon.len(), &digest), &[1]);
    let pair = [[4u8, 5, 6], [5, 4, 6]];
    let token = window_token_with_width(&pair, 3);
    put(&env, prefilter, &prefilter_key(3, token), &[1]);
    drop(env);

    let env = scratch_env("witness");
    let wdb = SatWitnessDb::from_env(env).expect("both indexes present");
    // Renamed wires give the same canonical form.
    let renamed: Vec<[u8; 3]> = id5.iter().map(|g| [g[0] + 10, g[1] + 10, g[2] + 10]).collect();
    assert!(template_contains(&wdb, &renamed, 3));
    assert!(!template_contains(&wdb, &renamed[..4], 3));
    assert!(!template_contains(&wdb, &[], 3));

    assert!(prefilter_hit(&wdb, &[[9, 8, 7], [0, 1, 2], [1, 0, 2]], 3, &[2]));
    assert!(!prefilter_hit(&wdb, &[[0, 1, 2], [1, 0, 2]], 3, &[3]));
    assert!(!prefilter_hit(&wdb, &[[0, 1, 2], [0, 1, 2]], 3, &[2]));

    let mut c = CircuitSeq { gates: vec![[7, 8, 9]] };
    c.gates.extend_from_slice(&renamed);
    c.gates.push([9, 8, 7]);
    assert!(remove_identity_window(&mut c, &wdb, 3, 6));
    assert_eq!(c.gates, vec![[7, 8, 9], [9, 8, 7]]);
    assert!(!remove_identity_window(&mut c, &wdb, 3, 6));
}

#[test]
fn identity_indexes() {
    let env = scratch_env("ids");
    let rev = fresh_db(&env, "ids_rev");
    let pre = fresh_db(&env, "ids_wit_prefilter");
    let gates = [[3u8, 4, 5], [4, 3, 5]];
    let (canon, _) = canonicalize_first_occurrence(&gates);
    put(&env, rev, &gates_to_blob(&canon), &[]);
    let (w, t) = window_token(&canon);
    put(&env, pre, &prefilter_key(w, t), &[1]);

    let shifted = [[6u8, 7, 8], [7, 6, 8]];
    assert!(ids_rev_contains(&env, rev, &shifted));
    assert!(!ids_rev_contains(&env, rev, &[[6, 7, 8]]));
    assert!(ids_prefilter_hit(&env, pre, &[[1, 2, 0], [6, 7, 8], [7, 6, 8]], &[2]));
    assert!(!ids_prefilter_hit(&env, pre, &shifted, &[3]));
}

#[test]
fn test_read_real_db() {
    let path = std::path::Path::new("../sat_revsynth/data/collection.lmdb");
    if !path.exists() {
        println!("Skipping test: DB not found at {:?}", path);
        return;
    }
    let env = Environment::new()
        .set_max_dbs(10)
        .set_map_size(10 * 1024 * 1024 * 1024)
        .open(path)
        .expect("Failed to open DB");
    let db = TemplateDB::from_env(env).expect("Failed to open DB");
    if let Some(record) = db.get_random_identity(5, 6) {
        println!("Found record: {:?}", record);
        assert_eq!(record.width, 5);
        assert_eq!(record.gate_count, 6);
    } else {
        println!("No record found for 5/6, trying others...");
    }
}

#[test]
fn stored_identities_in_the_gate_range() {
    let env = scratch_env("stored_ids");
    let db = fresh_db(&env, "templates_by_hash");
    let six = [[0u8, 1, 2], [0, 1, 2], [1, 0, 2], [1, 0, 2], [2, 1, 0], [2, 1, 0]];
    put(&env, db, &template_key(3, 4, &[1u8; 32]), &record_bytes(3, 4, &six[..4]));
    drop(env);
    let env = scratch_env("stored_ids");
    let tdb = TemplateDB::from_env(env).expect("index present");
    assert!(random_stored_id(&tdb, 3).is_none());
    drop(tdb);

    let env = scratch_env("stored_ids");
    let db = env.open_db(Some("templates_by_hash")).unwrap();
    put(&env, db, &template_key(3, 6, &[2u8; 32]), &record_bytes(3, 6, &six));
    drop(env);
    let env = scratch_env("stored_ids");
    let tdb = TemplateDB::from_env(env).expect("index present");
    assert_eq!(random_stored_id(&tdb, 3).unwrap().gates, six.to_vec());
}

#[test]
fn smaller_equivalent_is_the_smallest_stored() {
    let env = scratch_env("smallest");
    let db = fresh_db(&env, "templates_by_hash");
    let hash = [5u8; 32];
    let two = [[0u8, 1, 2], [0, 1, 2]];
    let four = [[1u8, 0, 2], [1, 0, 2], [2, 0, 1], [2, 0, 1]];
    put(&env, db, &template_key(3, 2, &hash), &record_bytes(3, 2, &two));
    put(&env, db, &template_key(3, 4, &hash), &record_bytes(3, 4, &four));
    drop(env);
    let env = scratch_env("smallest");
    let tdb = TemplateDB::from_env(env).expect("index present");
    assert_eq!(tdb.get_smaller_equivalent(3, 6, &hash).unwrap().gate_count, 2);
    assert_eq!(tdb.get_smaller_equivalent(3, 3, &hash).unwrap().gate_count, 2);
    assert!(tdb.get_smaller_equivalent(3, 2, &hash).is_none());
}

#[test]
fn indexed_window_removal_takes_the_longest_then_leftmost() {
    let env = scratch_env("ids_order");
    let rev = fresh_db(&env, "ids_rev");
    let w5: Vec<[u8; 3]> = vec![[0, 1, 2], [1, 2, 3], [2, 3, 4], [3, 4, 5], [4, 5, 6]];
    let w6: Vec<[u8; 3]> =
        vec![[10, 11, 12], [10, 11, 12], [11, 10, 12], [11, 10, 12], [12, 11, 10], [12, 11, 10]];
    for w in [&w5, &w6] {
        let (canon, _) = canonicalize_first_occurrence(w);
        put(&env, rev, &gates_to_blob(&canon), &[]);
    }
    let mut c = CircuitSeq { gates: w5.clone() };
    c.gates.extend_from_slice(&w6);
    assert!(remove_indexed_window(&mut c, &env, rev, 6));
    assert_eq!(c.gates, w5);
    assert!(remove_indexed_window(&mut c, &env, rev, 6));
    assert!(c.gates.is_empty());
    let mut short = CircuitSeq { gates: w5[..4].to_vec() };
    assert!(!remove_indexed_window(&mut short, &env, rev, 6));
    assert_eq!(short.gates, w5[..4].to_vec());
}
