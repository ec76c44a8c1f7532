use receipt_ledger::digest::{hash_bytes, Digest};
use receipt_ledger::merkle::{build_proof, build_root, parse_leaves, verify_proof, ProofError, Side};

fn leaf(n: u8) -> Digest {
    hash_bytes(&[n])
}

#[test]
fn hash_bytes_matches_blake3() {
    let d = hash_bytes(b"abc");
    assert_eq!(d.bytes, *blake3::hash(b"abc").as_bytes());
    assert_eq!(
        d.to_hex(),
        "6437b3ac38465133ffb63b75273a8db548c558465d79db03fd359c6cd5bd9d85"
    );
}

#[test]
fn hex_round_trip_of_a_digest() {
    let d = leaf(7);
    let text = d.to_hex();
    assert_eq!(text.len(), 64);
    assert_eq!(Digest::from_hex(&text), Some(d));
    assert_eq!(Digest::from_hex(&text.to_uppercase()), Some(d));
    assert_eq!(Digest::from_hex("abc"), None);
    assert_eq!(Digest::from_hex(&"g".repeat(64)), None);
}

#[test]
fn empty_leaves_are_refused() {
    assert_eq!(build_root(&Vec::new()), Err(ProofError::EmptyLeaves));
    assert_eq!(build_proof(&Vec::new(), 0).err(), Some(ProofError::EmptyLeaves));
}

#[test]
fn index_out_of_range_is_refused() {
    let leaves = vec![leaf(1), leaf(2)];
    assert_eq!(build_proof(&leaves, 2).err(), Some(ProofError::IndexOutOfRange));
}

#[test]
fn malformed_hex_is_refused() {
    let hashes = vec![leaf(1).to_hex(), "not hex".to_string()];
    assert_eq!(parse_leaves(&hashes), Err(ProofError::MalformedHex));
}

#[test]
fn single_leaf_root_is_the_leaf() {
    let leaves = vec![leaf(9)];
    assert_eq!(build_root(&leaves), Ok(leaf(9)));
    let (root, proof) = build_proof(&leaves, 0).unwrap();
    assert_eq!(root, leaf(9));
    assert!(proof.is_empty());
    assert_eq!(verify_proof(&leaf(9), &proof), leaf(9));
}

#[test]
fn odd_level_pairs_last_leaf_with_itself() {
    let leaves = vec![leaf(1), leaf(2), leaf(3)];
    let mut h = blake3::Hasher::new();
    h.update(&leaf(1).bytes);
    h.update(&leaf(2).bytes);
    let left = *h.finalize().as_bytes();
    let mut h = blake3::Hasher::new();
    h.update(&leaf(3).bytes);
    h.update(&leaf(3).bytes);
    let right = *h.finalize().as_bytes();
    let mut h = blake3::Hasher::new();
    h.update(&left);
    h.update(&right);
    let root = *h.finalize().as_bytes();
    assert_eq!(build_root(&leaves).unwrap().bytes, root);
    let (proof_root, proof) = build_proof(&leaves, 2).unwrap();
    assert_eq!(proof_root.bytes, root);
    assert_eq!(proof.len(), 2);
    assert_eq!(proof[0].sibling, leaf(3));
    assert_eq!(proof[0].side, Side::Right);
    assert_eq!(proof[1].sibling.bytes, left);
    assert_eq!(proof[1].side, Side::Left);
}

#[test]
fn every_proof_leads_to_the_root() {
    for n in 1..=9u8 {
        let leaves: Vec<Digest> = (0..n).map(leaf).collect();
        let root = build_root(&leaves).unwrap();
        for i in 0..leaves.len() {
            let (proof_root, proof) = build_proof(&leaves, i).unwrap();
            assert_eq!(proof_root, root);
            assert_eq!(verify_proof(&leaves[i], &proof), root);
        }
    }
}

#[test]
fn root_changes_with_any_single_leaf() {
    let leaves: Vec<Digest> = (0..5u8).map(leaf).collect();
    let root = build_root(&leaves).unwrap();
    assert_eq!(build_root(&leaves).unwrap(), root);
    for i in 0..leaves.len() {
        let mut changed = leaves.clone();
        changed[i] = leaf(100);
        assert_ne!(build_root(&changed).unwrap(), root);
    }
}

#[test]
fn proof_for_another_leaf_does_not_verify() {
    let leaves: Vec<Digest> = (0..4u8).map(leaf).collect();
    let (root, proof) = build_proof(&leaves, 1).unwrap();
    assert_ne!(verify_proof(&leaves[2], &proof), root);
}
