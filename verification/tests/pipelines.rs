use local_mixing::algorithms::annealing::local::{mix_circuit, mix_step, MixConfig};
use local_mixing::algorithms::butterfly::mixing::{pin_counts, split_into_random_chunks};
use local_mixing::algorithms::butterfly::replace::{random_subcircuit, random_subcircuit_max};
use local_mixing::algorithms::identity_growth::{
    gate_count_in_range, normalized_range, select_template_source, select_template_width, TemplateSource,
};
use local_mixing::algorithms::local_rewrite::is_connected;
use local_mixing::analysis::alignment::{alignment_path, trace_states};
use local_mixing::analysis::wires::wire_touch_counts;
use local_mixing::infra::circuit::CircuitSeq;
use local_mixing::infra::ids_index::{
    canonicalize_first_occurrence, gates_from_blob, gates_to_blob, ids_index_entries, ids_index_entry, window_token,
};
use rand::SeedableRng;
use local_mixing::infra::store::reader::{gate_count_of_key, record_in_block};
use local_mixing::obfuscate::mixer::count_same_target_neighbours;
use local_mixing::obfuscate::passes::{fingerprint, obfuscate_circuit, simple_compress, Fingerprint};
use local_mixing::optimize::compress_sat::{compute_canonical_hash, parse_sat_gates, sat_truth_tables, truth_table_bits};

fn seeded_rng(seed: u64) -> rand::rngs::StdRng {
    rand::rngs::StdRng::seed_from_u64(seed)
}

fn eval(gates: &[[u8; 3]], input: usize) -> usize {
    let mut s = input;
    for g in gates {
        let c1 = (s >> g[1]) & 1;
        let c2 = (s >> g[2]) & 1;
        if c1 == 1 || c2 == 0 {
            s ^= 1 << g[0];
        }
    }
    s
}

fn same_function_on(a: &[[u8; 3]], b: &[[u8; 3]], n: usize) -> bool {
    (0..(1usize << n)).all(|x| eval(a, x) == eval(b, x))
}

#[test]
fn connected_positions_share_wires() {
    let c = CircuitSeq { gates: vec![[0, 1, 2], [3, 4, 5], [2, 6, 7], [5, 8, 9]] };
    assert!(is_connected(&c, &[0, 2]));
    assert!(!is_connected(&c, &[0, 1]));
    assert!(is_connected(&c, &[0, 1, 2, 3]) == false);
    assert!(is_connected(&c, &[1, 3]));
    assert!(!is_connected(&c, &[]));
    assert!(is_connected(&c, &[3]));
}

#[test]
fn pin_counts_count_every_pin() {
    let c = CircuitSeq { gates: vec![[0, 1, 2], [1, 2, 3], [2, 2, 0]] };
    assert_eq!(pin_counts(&c, 5), vec![2, 2, 4, 1, 0]);
}

#[test]
fn wire_touches_and_targets() {
    let c = CircuitSeq { gates: vec![[0, 1, 2], [1, 2, 3], [0, 3, 1]] };
    let (total, active) = wire_touch_counts(&c, 5);
    assert_eq!(total, vec![2, 3, 2, 2, 0]);
    assert_eq!(active, vec![2, 1, 0, 0, 0]);
}

#[test]
fn few_or_short_chunks_keep_everything() {
    let mut rng = seeded_rng(3);
    let v: Vec<u32> = (0..50).collect();
    let chunks = split_into_random_chunks(&v, 1, &mut rng);
    assert_eq!(chunks, vec![v.clone()]);
    let one = vec![7u32];
    assert_eq!(split_into_random_chunks(&one, 5, &mut rng), vec![one.clone()]);
}

#[test]
fn chunks_cover_in_order_with_minimum_size() {
    let mut rng = seeded_rng(11);
    let v: Vec<u32> = (0..1000).collect();
    let chunks = split_into_random_chunks(&v, 4, &mut rng);
    assert!(!chunks.is_empty() && chunks.len() <= 4);
    let joined: Vec<u32> = chunks.iter().flatten().cloned().collect();
    assert_eq!(joined, v);
    for c in &chunks {
        assert!(c.len() >= 100);
    }
}

#[test]
fn trace_rows_follow_the_gates() {
    let c = CircuitSeq { gates: vec![[0, 1, 2], [1, 0, 2]] };
    let inputs = [0u64, 1, 5];
    let t = trace_states(&c, &inputs);
    assert_eq!(t.len(), 3);
    assert_eq!(t[0], vec![0, 1, 5]);
    // [0,1,2] flips wire 0 when wire 1 is set or wire 2 is clear.
    assert_eq!(t[1], vec![1, 0, 5]);
    assert_eq!(t[2], vec![3, 2, 7]);
}

#[test]
fn alignment_path_walks_the_directions() {
    // 2 x 3 table: first row points left, first column up, (1,1) diagonal,
    // (1,2) horizontal.
    let backptr = vec![vec![0u8, 2, 2], vec![1u8, 0, 2]];
    let path = alignment_path(&backptr, 3);
    assert_eq!(path, vec![(0, 0), (1, 1), (1, 2)]);
    let straight_down = vec![vec![0u8], vec![1u8], vec![1u8]];
    assert_eq!(alignment_path(&straight_down, 1), vec![(0, 0), (1, 0), (2, 0)]);
    assert_eq!(alignment_path(&vec![vec![0u8]], 1), vec![(0, 0)]);
}

#[test]
fn mixing_stays_on_the_wires() {
    let mut c = CircuitSeq { gates: vec![] };
    let cfg = MixConfig { num_wires: 6, num_rounds: 4, template_size_max: 5 };
    mix_circuit(&mut c, &cfg);
    assert!(c.gates.iter().all(|g| g.iter().all(|&w| w < 6)));
    assert!(c.gates.len() <= 46 * 4);
}

#[test]
fn one_mixing_step_grows_by_at_most_38() {
    let mut rng = seeded_rng(5);
    let original = vec![[0u8, 1, 2], [2, 3, 4], [1, 4, 0]];
    let mut c = CircuitSeq { gates: original.clone() };
    let cfg = MixConfig { num_wires: 5, num_rounds: 1, template_size_max: 4 };
    mix_step(&mut c, &cfg, &mut rng);
    assert!(c.gates.len() <= original.len() + 38);
}

#[test]
fn same_target_neighbours_counted() {
    let c = CircuitSeq { gates: vec![[0, 1, 2], [0, 2, 1], [1, 0, 2], [1, 2, 0], [1, 0, 3]] };
    assert_eq!(count_same_target_neighbours(&c), 3);
    assert_eq!(count_same_target_neighbours(&CircuitSeq { gates: vec![[0, 1, 2]] }), 0);
}

#[test]
fn sat_truth_tables_exact() {
    // One gate [0,1,2] on 3 wires: bit 0 flips unless wire 1 is clear and
    // wire 2 is set.
    let c = CircuitSeq { gates: vec![[0, 1, 2]] };
    let t = sat_truth_tables(&c, 3);
    assert_eq!(t.len(), 3);
    assert_eq!(t[0], "10100110");
    assert_eq!(t[1], "00110011");
    assert_eq!(t[2], "00001111");
    let bits = truth_table_bits(&c, 2);
    // rows 0..4 on 2 wires (wire 2 reads 0, so it always fires)
    assert_eq!(bits, vec![1, 0, 0, 0, 1, 1, 0, 1]);
}

#[test]
fn canonical_hash_depends_on_function_only() {
    let a = CircuitSeq { gates: vec![[0, 1, 2], [0, 1, 2]] };
    let empty = CircuitSeq { gates: vec![] };
    let b = CircuitSeq { gates: vec![[0, 1, 2]] };
    assert_eq!(compute_canonical_hash(&a, 3), compute_canonical_hash(&empty, 3));
    assert_ne!(compute_canonical_hash(&b, 3), compute_canonical_hash(&empty, 3));
    let h = compute_canonical_hash(&b, 3);
    let mut first = [0u8; 8];
    first.copy_from_slice(&h[0..8]);
    let mut mirrored = [0u8; 8];
    mirrored.copy_from_slice(&h[16..24]);
    assert_eq!(u64::from_le_bytes(first), u64::from_be_bytes(mirrored));
}

#[test]
fn sat_gates_parse_or_fail() {
    let ok = parse_sat_gates(vec![vec![3, 0, 1], vec![1, 2, 0, 9]]).unwrap();
    assert_eq!(ok.gates, vec![[3, 0, 1], [1, 2, 0]]);
    assert!(parse_sat_gates(vec![vec![1, 2]]).is_none());
    assert_eq!(parse_sat_gates(vec![]).unwrap().gates.len(), 0);
}

#[test]
fn blobs_round_trip_and_index_entries() {
    let gates = vec![[5u8, 3, 7], [3, 5, 7], [7, 9, 5]];
    let blob = gates_to_blob(&gates);
    assert_eq!(blob, vec![5, 3, 7, 3, 5, 7, 7, 9, 5]);
    assert_eq!(gates_from_blob(&blob), gates);
    assert_eq!(gates_from_blob(&[1, 2, 3, 4]), vec![[1, 2, 3]]);

    let entry = ids_index_entry(&blob);
    let (canon, _) = canonicalize_first_occurrence(&gates);
    assert_eq!(canon, vec![[0, 1, 2], [1, 0, 2], [2, 3, 0]]);
    assert_eq!(entry.canon_blob, gates_to_blob(&canon));
    let mut expected = vec![
        window_token(&canon[0..2]),
        window_token(&canon[1..3]),
        window_token(&canon[0..3]),
    ];
    expected.sort();
    expected.dedup();
    let mut got = entry.tokens.clone();
    got.sort();
    assert_eq!(got, expected);

    let value = bincode::serialize(&vec![blob.clone(), vec![0u8, 1, 2]]).unwrap();
    let entries = ids_index_entries(&value).unwrap();
    assert_eq!(entries.len(), 2);
    assert_eq!(entries[0].canon_blob, entry.canon_blob);
    assert_eq!(entries[1].canon_blob, vec![0, 1, 2]);
    assert!(entries[1].tokens.is_empty());
    assert!(ids_index_entries(&[1, 2, 3]).is_none());
}

#[test]
fn template_keys_and_probe_answers() {
    assert_eq!(gate_count_of_key(&[1, 5, 0x34, 0x12, 9], 5), Some(0x1234));
    assert_eq!(gate_count_of_key(&[1, 5, 0x34], 5), None);
    assert_eq!(gate_count_of_key(&[2, 5, 0, 0], 5), None);
    assert_eq!(gate_count_of_key(&[1, 6, 0, 0], 5), None);

    let mut record = vec![0u8; 91];
    record[9] = 5;
    record[10] = 1;
    record[89] = 1;
    record.extend_from_slice(&[0, 1, 2]);
    let key = vec![1u8, 5, 1, 0];
    let hit = record_in_block(Some((key.clone(), record.clone())), 5, 1).unwrap().unwrap();
    assert_eq!(hit.width, 5);
    assert_eq!(hit.gates.len(), 1);
    assert!(record_in_block(Some((key.clone(), record.clone())), 5, 2).is_none());
    assert!(record_in_block(None, 5, 1).is_none());
    let bad = record_in_block(Some((key, vec![0u8; 10])), 5, 1);
    assert!(matches!(bad, Some(None)));
}

#[test]
fn template_sampling_choices() {
    assert_eq!(normalized_range(7, 3), (3, 7));
    assert_eq!(normalized_range(2, 9), (2, 9));
    assert!(gate_count_in_range(5, 9, 5));
    assert!(!gate_count_in_range(10, 9, 5));
    let mut rng = seeded_rng(1);
    for _ in 0..20 {
        let w = select_template_width(6, 3, 5, &mut rng);
        assert!((3..=5).contains(&w));
    }
    assert_eq!(select_template_width(4, 9, 2, &mut rng), 2);
    assert_eq!(select_template_source(TemplateSource::TemplateDB, None, &mut rng), TemplateSource::TemplateDB);
    assert_eq!(select_template_source(TemplateSource::Mixed, None, &mut rng), TemplateSource::PermTables);
}

#[test]
fn obfuscation_passes_keep_the_function() {
    let mut rng = seeded_rng(42);
    let c = CircuitSeq { gates: vec![[0, 1, 2], [3, 4, 5], [1, 2, 6], [7, 0, 3], [5, 6, 7]] };
    let out = obfuscate_circuit(&c, 4, 10, 8, 40, &mut rng);
    assert!(same_function_on(&c.gates, &out.gates, 8));
    for w in out.gates.windows(2) {
        assert_ne!(w[0], w[1]);
    }
    match (fingerprint(&c, 8), fingerprint(&out, 8)) {
        (Fingerprint::Full(a), Fingerprint::Full(b)) => {
            assert_eq!(a.len(), 256);
            assert_eq!(a, b);
        }
        _ => panic!("eight wires give a full table"),
    }
    match fingerprint(&c, 20) {
        Fingerprint::Sampled(s) => {
            assert_eq!(s.len(), 1000);
            for (x, y) in s {
                assert_eq!(eval(&c.gates, x as usize) as u64, y);
            }
        }
        _ => panic!("twenty wires are sampled"),
    }
}

#[test]
fn window_digest_hashes_its_message() {
    let gates = [[0u8, 1, 2], [1, 0, 2]];
    let digest = local_mixing::infra::ids_index::blake3_digest(12, 2, &gates);
    let mut msg = b"eca57:12:2:".to_vec();
    msg.extend_from_slice(&[0, 1, 2, 1, 0, 2]);
    assert_eq!(&digest, blake3::hash(&msg).as_bytes());
    let token = window_token(&gates);
    let mut first = [0u8; 8];
    let canon_msg = {
        let mut m = b"eca57:3:2:".to_vec();
        m.extend_from_slice(&[0, 1, 2, 1, 0, 2]);
        m
    };
    first.copy_from_slice(&blake3::hash(&canon_msg).as_bytes()[0..8]);
    assert_eq!(token, (3, u64::from_le_bytes(first)));
}

#[test]
fn test_obfuscate_preserves_function() {
    // Level 1 on eight wires: 4 segments, gadgets of 10, noise up to twice
    // the input length.
    let mut rng = seeded_rng(42);
    let mut gates = Vec::new();
    for i in 0..20u8 {
        gates.push([i % 8, (i + 3) % 8, (i + 5) % 8]);
    }
    let c = CircuitSeq { gates };
    let out = obfuscate_circuit(&c, 4, 10, 8, 40, &mut rng);
    assert_eq!(fingerprint(&c, 8), fingerprint(&out, 8));
    let reduced = simple_compress(&out);
    let survival = reduced.gates.len() as f32 / out.gates.len().max(1) as f32;
    assert!(survival <= 1.0);
}

#[test]
fn random_windows_lie_inside_the_circuit() {
    let c = CircuitSeq { gates: (0..20u8).map(|i| [i % 5, (i + 1) % 5, (i + 2) % 5]).collect() };
    for _ in 0..50 {
        let (sub, start, end) = random_subcircuit(&c);
        assert!(start < end && end <= 20 && end - start <= 8);
        assert_eq!(sub.gates, c.gates[start..end].to_vec());
        let (sub2, s2, e2) = random_subcircuit_max(&c, 3);
        assert!(s2 < e2 && e2 <= 20 && e2 - s2 <= 3);
        assert_eq!(sub2.gates, c.gates[s2..e2].to_vec());
    }
    let (one, s, e) = random_subcircuit_max(&c, 0);
    assert_eq!(e - s, 1);
    assert_eq!(one.gates.len(), 1);
    let empty = CircuitSeq { gates: vec![] };
    assert_eq!(random_subcircuit(&empty), (CircuitSeq { gates: vec![] }, 0, 0));
    assert_eq!(random_subcircuit_max(&empty, 4), (CircuitSeq { gates: vec![] }, 0, 0));
}

#[test]
fn chunk_count_follows_the_room_for_cuts() {
    let mut rng = seeded_rng(21);
    let v: Vec<u32> = (0..1000).collect();
    assert_eq!(split_into_random_chunks(&v, 4, &mut rng).len(), 4);
    let tight: Vec<u32> = (0..400).collect();
    let chunks = split_into_random_chunks(&tight, 4, &mut rng);
    assert_eq!(chunks, vec![tight.clone()]);
}

#[test]
fn stored_lists_follow_the_fixed_width_layout() {
    // One string of three bytes, then a byte that belongs to nothing.
    let mut value = vec![1u8, 0, 0, 0, 0, 0, 0, 0, 3, 0, 0, 0, 0, 0, 0, 0, 0, 1, 2];
    value.push(99);
    let entries = ids_index_entries(&value).unwrap();
    assert_eq!(entries.len(), 1);
    assert_eq!(entries[0].canon_blob, vec![0, 1, 2]);
    // The string claims three bytes and only two follow.
    let short = vec![1u8, 0, 0, 0, 0, 0, 0, 0, 3, 0, 0, 0, 0, 0, 0, 0, 0, 1];
    assert!(ids_index_entries(&short).is_none());
    // No strings at all.
    assert_eq!(ids_index_entries(&[0u8, 0, 0, 0, 0, 0, 0, 0]).unwrap().len(), 0);
}
