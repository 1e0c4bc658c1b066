use local_mixing::algorithms::shuffle_bitflip::{
    verify_shuffle_bitflip, ShuffleBitflipGenerator, ShuffleBitflipState, SwapFlipLibrary,
};
use local_mixing::config::{FlipMode, FlipScope};
use local_mixing::infra::circuit::CircuitSeq;
use local_mixing::infra::ids_index::{prefilter_key, BASIS_ECA57_ID};
use rand::SeedableRng;
use local_mixing::infra::sat_witness::{template_key, window_token_with_width};
use local_mixing::infra::store::schema::{Gate, TemplateRecord};

fn seeded_rng(seed: u64) -> rand::rngs::StdRng {
    rand::rngs::StdRng::seed_from_u64(seed)
}

#[test]
fn test_identity_state() {
    let state = ShuffleBitflipState::identity(4);
    assert_eq!(state.permutation, vec![0, 1, 2, 3]);
    assert_eq!(state.flip_mask, vec![0, 0, 0, 0]);
}

#[test]
fn test_inverse_composition() {
    let state = ShuffleBitflipState {
        permutation: vec![2, 0, 1, 3],
        flip_mask: vec![1, 0, 1, 0],
    };
    let inv = state.inverse();
    let composed = state.compose(&inv.permutation, &inv.flip_mask);

    assert_eq!(composed.permutation, vec![0, 1, 2, 3]);
    assert_eq!(composed.flip_mask, vec![0, 0, 0, 0]);
}

#[test]
fn inverse_lists_preimages() {
    let state = ShuffleBitflipState { permutation: vec![2, 0, 1, 3], flip_mask: vec![1, 0, 1, 0] };
    let inv = state.inverse();
    assert_eq!(inv.permutation, vec![1, 2, 0, 3]);
    assert_eq!(inv.flip_mask, vec![0, 1, 1, 0]);
    let back = inv.compose(&state.permutation, &state.flip_mask);
    assert_eq!(back.permutation, vec![0, 1, 2, 3]);
    assert_eq!(back.flip_mask, vec![0, 0, 0, 0]);
}

#[test]
fn test_generate_shuffle_only() {
    let generator = ShuffleBitflipGenerator::new(3, FlipMode::NoFlips, None);
    let mut rng = seeded_rng(1);

    let circuit = generator.generate(&[1, 0, 2], &[0, 0, 0], &mut rng);
    assert!(verify_shuffle_bitflip(&circuit, &[1, 0, 2], &[0, 0, 0], 3, 4));
}

#[test]
fn test_generate_style_a() {
    let generator = ShuffleBitflipGenerator::new(3, FlipMode::Separate, None);
    let mut rng = seeded_rng(2);

    let circuit = generator.generate(&[1, 0, 2], &[1, 0, 1], &mut rng);
    assert!(verify_shuffle_bitflip(&circuit, &[1, 0, 2], &[1, 0, 1], 3, 4));
}

fn permutations_of_three() -> Vec<Vec<usize>> {
    let mut out = Vec::new();
    for a in 0..3usize {
        for b in 0..3usize {
            for c in 0..3usize {
                if a != b && a != c && b != c {
                    out.push(vec![a, b, c]);
                }
            }
        }
    }
    out
}

#[test]
fn test_all_permutations_3_wire() {
    let generator = ShuffleBitflipGenerator::new(3, FlipMode::Separate, None);
    let mut rng = seeded_rng(3);

    for perm in permutations_of_three() {
        let circuit = generator.generate(&perm, &[0, 0, 0], &mut rng);
        assert!(
            verify_shuffle_bitflip(&circuit, &perm, &[0, 0, 0], 3, 4),
            "Failed for permutation {:?}",
            perm
        );
    }
}

#[test]
fn embedded_without_library_and_inverse_undo() {
    let generator = ShuffleBitflipGenerator::new(4, FlipMode::Embedded, None);
    let mut rng = seeded_rng(4);
    let perm = [3, 0, 2, 1];
    let mask = [1, 1, 0, 1];
    let fwd = generator.generate(&perm, &mask, &mut rng);
    assert!(verify_shuffle_bitflip(&fwd, &perm, &mask, 4, 5));
    let back = generator.generate_inverse(&perm, &mask, &mut rng);
    let both = fwd.concat(&back);
    for x in 0..32usize {
        assert_eq!(both.evaluate(x), x);
    }
}

#[test]
fn check_rejects_wrong_mask() {
    let generator = ShuffleBitflipGenerator::new(3, FlipMode::Separate, None);
    let mut rng = seeded_rng(5);
    let circuit = generator.generate(&[2, 1, 0], &[0, 1, 0], &mut rng);
    assert!(verify_shuffle_bitflip(&circuit, &[2, 1, 0], &[0, 1, 0], 3, 4));
    assert!(!verify_shuffle_bitflip(&circuit, &[2, 1, 0], &[0, 0, 0], 3, 4));
    assert!(!verify_shuffle_bitflip(&circuit, &[0, 1, 2], &[0, 1, 0], 3, 4));
}

#[test]
fn library_buckets_by_mask() {
    let mut lib = SwapFlipLibrary::default();
    assert_eq!(lib.total_count(), 0);
    assert!(!lib.has_mask(1, 0));
    lib.add_gadget(1, 0, vec![[0, 2, 1]]);
    lib.add_gadget(3, 2, vec![[1, 2, 0]]);
    assert!(lib.has_mask(1, 0));
    assert!(lib.has_mask(1, 2));
    assert!(!lib.has_mask(0, 1));
    assert_eq!(lib.total_count(), 2);
    let mut rng = seeded_rng(6);
    assert_eq!(lib.random_gadget(1, 0, &mut rng), Some(&vec![[0, 2, 1]]));
    assert_eq!(lib.random_gadget(0, 0, &mut rng), None);
}

#[test]
fn flip_defaults() {
    assert_eq!(FlipMode::default(), FlipMode::NoFlips);
    assert_eq!(FlipScope::default(), FlipScope::Global);
}

fn record_bytes(gates: &[[u8; 3]]) -> Vec<u8> {
    let mut b = Vec::new();
    b.extend_from_slice(&0x0102030405060708u64.to_le_bytes());
    b.push(1);
    b.push(5);
    b.extend_from_slice(&(gates.len() as u16).to_le_bytes());
    b.extend_from_slice(&[0xAA; 32]);
    b.extend_from_slice(&[0xBB; 32]);
    b.push(2);
    b.extend_from_slice(&77u64.to_le_bytes());
    b.extend_from_slice(&9u32.to_le_bytes());
    b.extend_from_slice(&(gates.len() as u16).to_le_bytes());
    for g in gates {
        b.extend_from_slice(g);
    }
    b
}

#[test]
fn template_record_parses_header_and_gates() {
    let bytes = record_bytes(&[[0, 1, 2], [2, 0, 1]]);
    assert_eq!(bytes.len(), TemplateRecord::HEADER_SIZE + 6);
    let rec = TemplateRecord::from_bytes(&bytes).expect("record");
    assert_eq!(rec.template_id, 0x0102030405060708);
    assert_eq!(rec.basis_id, 1);
    assert_eq!(rec.width, 5);
    assert_eq!(rec.gate_count, 2);
    assert_eq!(rec.canonical_hash, [0xAA; 32]);
    assert_eq!(rec.family_hash, [0xBB; 32]);
    assert_eq!(rec.origin, 2);
    assert_eq!(rec.origin_template_id, 77);
    assert_eq!(rec.unroll_ops, 9);
    assert_eq!(rec.gates, vec![Gate { target: 0, c1: 1, c2: 2 }, Gate { target: 2, c1: 0, c2: 1 }]);
    assert_eq!(rec.to_circuit_seq().gates, vec![[0, 1, 2], [2, 0, 1]]);
}

#[test]
fn template_record_rejects_bad_lengths() {
    let bytes = record_bytes(&[[0, 1, 2]]);
    assert_eq!(bytes.len(), 94);
    let one = TemplateRecord::from_bytes(&bytes).expect("one gate");
    assert_eq!(one.gates, vec![Gate { target: 0, c1: 1, c2: 2 }]);
    assert!(TemplateRecord::from_bytes(&bytes[..90]).is_none());
    let mut longer = bytes.clone();
    longer.push(0);
    assert!(TemplateRecord::from_bytes(&longer).is_none());
}

#[test]
fn witness_keys_layout() {
    let hash = [7u8; 32];
    let key = template_key(4, 0x0102, &hash);
    assert_eq!(key[0], BASIS_ECA57_ID);
    assert_eq!(key[1], 4);
    assert_eq!(&key[2..4], &[0x02, 0x01]);
    assert_eq!(&key[4..], &hash[..]);
    let pk = prefilter_key(3, 0x1122334455667788);
    assert_eq!(pk, [BASIS_ECA57_ID, 3, 0x88, 0x77, 0x66, 0x55, 0x44, 0x33, 0x22, 0x11]);
}

#[test]
fn window_token_ignores_wire_names() {
    let a = [[0, 1, 2], [1, 2, 0]];
    let b = [[5, 9, 7], [9, 7, 5]];
    assert_eq!(window_token_with_width(&a, 3), window_token_with_width(&b, 3));
    assert_ne!(window_token_with_width(&a, 3), window_token_with_width(&a, 4));
}

#[test]
fn circuit_of_template_gates() {
    let c = CircuitSeq { gates: vec![[0, 1, 2]] };
    assert_eq!(c.len(), 1);
    assert!(!c.is_empty());
}

#[test]
fn embedded_gadgets_are_mapped_onto_the_swapped_wires() {
    let mut lib = SwapFlipLibrary::default();
    lib.add_gadget(1, 0, vec![[0, 2, 1], [1, 2, 0]]);
    let generator = ShuffleBitflipGenerator::new(3, FlipMode::Embedded, Some(lib));
    let mut rng = seeded_rng(8);
    let c = generator.generate(&[1, 0, 2], &[1, 0, 0], &mut rng);
    assert_eq!(c.gates, vec![[0, 3, 1], [1, 3, 0]]);
    assert!(c.gates.iter().all(|g| g.iter().all(|&w| w <= 3)));
}
