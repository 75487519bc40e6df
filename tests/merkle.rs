use utils::hash::hash_pairs;
use utils::merkle::{
    compute_root_from_proof, generate_merkle_proof_and_root, generate_merkle_proof_at,
    verify_merkle_proof, MerkleError,
};
use utils::util::to_little_endian;

fn leaf(tag: u8) -> [u8; 32] {
    let mut h = [0u8; 32];
    for (i, b) in h.iter_mut().enumerate() {
        *b = tag.wrapping_mul(31).wrapping_add(i as u8);
    }
    h
}

fn from_display_hex(s: &str) -> [u8; 32] {
    let mut out = [0u8; 32];
    for i in 0..32 {
        out[i] = u8::from_str_radix(&s[2 * i..2 * i + 2], 16).unwrap();
    }
    to_little_endian(out)
}

#[test]
fn single_leaf_gives_empty_proof_and_leaf_root() {
    let a = leaf(1);
    let (proof, root) = generate_merkle_proof_and_root(vec![a], a).unwrap();
    assert!(proof.is_empty());
    assert_eq!(root, a);
    assert_eq!(verify_merkle_proof(root, a, &proof), Ok(()));
}

#[test]
fn three_leaves_duplicate_last_node() {
    let (a, b, c) = (leaf(1), leaf(2), leaf(3));
    let (proof, root) = generate_merkle_proof_and_root(vec![a, b, c], c).unwrap();
    let ab = hash_pairs(a, b);
    let cc = hash_pairs(c, c);
    assert_eq!(root, hash_pairs(ab, cc));
    assert_eq!(proof.len(), 2);
    assert_eq!(proof[0].hash, c);
    assert!(proof[0].direction);
    assert_eq!(proof[1].hash, ab);
    assert!(!proof[1].direction);
}

#[test]
fn two_leaves_root_and_directions() {
    let (a, b) = (leaf(7), leaf(8));
    let (proof, root) = generate_merkle_proof_and_root(vec![a, b], b).unwrap();
    assert_eq!(root, hash_pairs(a, b));
    assert_ne!(root, a);
    assert_ne!(root, hash_pairs(b, a));
    assert_eq!(proof.len(), 1);
    assert_eq!(proof[0].hash, a);
    assert!(!proof[0].direction);
}

#[test]
fn every_leaf_proof_verifies() {
    for n in 1u8..=9 {
        let leaves: Vec<[u8; 32]> = (0..n).map(leaf).collect();
        let mut roots = Vec::new();
        for &l in &leaves {
            let (proof, root) = generate_merkle_proof_and_root(leaves.clone(), l).unwrap();
            let depth = (usize::BITS - (leaves.len() - 1).leading_zeros()) as usize;
            assert_eq!(proof.len(), depth);
            assert_eq!(compute_root_from_proof(l, &proof), root);
            assert_eq!(verify_merkle_proof(root, l, &proof), Ok(()));
            roots.push(root);
        }
        assert!(roots.iter().all(|r| *r == roots[0]));
    }
}

#[test]
fn other_leaf_is_rejected() {
    let leaves: Vec<[u8; 32]> = (0..6).map(leaf).collect();
    let (proof, root) = generate_merkle_proof_and_root(leaves.clone(), leaves[2]).unwrap();
    for (i, &other) in leaves.iter().enumerate() {
        if i != 2 {
            assert_eq!(verify_merkle_proof(root, other, &proof), Err(MerkleError::ProofInvalid));
        }
    }
    assert_eq!(verify_merkle_proof(root, leaf(40), &proof), Err(MerkleError::ProofInvalid));
}

#[test]
fn tampered_step_is_rejected() {
    let leaves: Vec<[u8; 32]> = (0..5).map(leaf).collect();
    let target = leaves[4];
    let (proof, root) = generate_merkle_proof_and_root(leaves, target).unwrap();
    for s in 0..proof.len() {
        for byte in [0usize, 13, 31] {
            let mut tampered = proof.clone();
            tampered[s].hash[byte] ^= 0x01;
            assert_eq!(
                verify_merkle_proof(root, target, &tampered),
                Err(MerkleError::ProofInvalid)
            );
        }
    }
    let leaves: Vec<[u8; 32]> = (0..5).map(leaf).collect();
    let (proof, root) = generate_merkle_proof_and_root(leaves.clone(), leaves[1]).unwrap();
    let mut flipped = proof.clone();
    flipped[0].direction = !flipped[0].direction;
    assert_eq!(verify_merkle_proof(root, leaves[1], &flipped), Err(MerkleError::ProofInvalid));
}

#[test]
fn missing_leaf_is_not_found() {
    let leaves: Vec<[u8; 32]> = (0..4).map(leaf).collect();
    assert_eq!(
        generate_merkle_proof_and_root(leaves, leaf(9)).unwrap_err(),
        MerkleError::NotFound
    );
    assert_eq!(
        generate_merkle_proof_and_root(Vec::new(), leaf(0)).unwrap_err(),
        MerkleError::NotFound
    );
}

#[test]
fn duplicate_leaf_uses_first_position() {
    let (a, b) = (leaf(1), leaf(2));
    let leaves = vec![b, a, b, a];
    let (by_value, root) = generate_merkle_proof_and_root(leaves.clone(), a).unwrap();
    let (by_index, root2) = generate_merkle_proof_at(leaves.clone(), 1);
    let (later, _) = generate_merkle_proof_at(leaves, 3);
    assert_eq!(root, root2);
    assert_eq!(by_value.len(), by_index.len());
    for (x, y) in by_value.iter().zip(by_index.iter()) {
        assert_eq!(x.hash, y.hash);
        assert_eq!(x.direction, y.direction);
    }
    assert!(by_value[1].direction);
    assert!(!later[1].direction);
}

#[test]
fn known_block_merkle_root() {
    // Block 100000 of the Bitcoin main chain, ids as block explorers show them.
    let txids = [
        "8c14f0db3df150123e6f3dbbf30f8b955a8249b62ac1d1ff16284aefa3d06d87",
        "fff2525b8931402dd09222c50775608f75787bd2b87e56995a7bdd30f79702c4",
        "6359f0868171b1d194cbee1af2f16ea598ae8fad666d9b012c8ed2b79a236ec4",
        "e9a66845e05d5abc0ad04ec80f774a7e585c6e8db975962d069a522137b80c1d",
    ];
    let known_root =
        from_display_hex("f3e94742aca4b5ef85488dc37c06c3282295ffec960994b2c0d5ac2a25a95766");
    let leaves: Vec<[u8; 32]> = txids.iter().map(|t| from_display_hex(t)).collect();
    let (proof, root) = generate_merkle_proof_and_root(leaves.clone(), leaves[2]).unwrap();
    assert_eq!(root, known_root, "Invalid merkle root");
    assert_eq!(verify_merkle_proof(known_root, leaves[2], &proof), Ok(()));
    assert_eq!(
        verify_merkle_proof(known_root, leaves[3], &proof),
        Err(MerkleError::ProofInvalid)
    );
}
