use merkle_tree::MerkleTree;
use sha2::{Digest, Sha256};

fn sha(data: &[u8]) -> Vec<u8> {
    let mut h = Sha256::new();
    h.update(data);
    h.finalize().to_vec()
}

fn pair(a: &[u8], b: &[u8]) -> Vec<u8> {
    let mut c = a.to_vec();
    c.extend_from_slice(b);
    sha(&c)
}

fn transactions() -> Vec<Vec<u8>> {
    vec![
        b"transaction1".to_vec(),
        b"transaction2".to_vec(),
        b"transaction3".to_vec(),
        b"transaction4".to_vec(),
    ]
}

#[test]
fn test_merkle_tree() {
    let data = transactions();

    let tree = MerkleTree::new(data.clone());
    let proof = tree.get_proof(&data[0]);

    assert!(MerkleTree::verify(
        &tree.root.unwrap().hash,
        &data[0],
        &proof
    ));
}

#[test]
fn tampered_block_is_rejected() {
    let data = transactions();
    let tree = MerkleTree::new(data.clone());
    let proof = tree.get_proof(&data[0]);
    let root = tree.root.as_ref().unwrap().hash.clone();
    assert!(MerkleTree::verify(&root, b"transaction1", &proof));
    assert!(!MerkleTree::verify(&root, b"transaction1x", &proof));
}

#[test]
fn every_single_byte_flip_is_rejected() {
    let data = transactions();
    let tree = MerkleTree::new(data.clone());
    let proof = tree.get_proof(&data[0]);
    let root = tree.root.as_ref().unwrap().hash.clone();
    for i in 0..data[0].len() {
        let mut b = data[0].clone();
        b[i] ^= 0x01;
        assert!(!MerkleTree::verify(&root, &b, &proof));
    }
}

#[test]
fn substituted_proof_entry_is_rejected() {
    let data = transactions();
    let tree = MerkleTree::new(data.clone());
    let proof = tree.get_proof(&data[0]);
    let root = tree.root.as_ref().unwrap().hash.clone();
    for i in 0..proof.len() {
        let mut forged = proof.clone();
        forged[i] = sha(b"unrelated");
        assert!(!MerkleTree::verify(&root, &data[0], &forged));
    }
}

#[test]
fn wrong_root_is_rejected() {
    let data = transactions();
    let tree = MerkleTree::new(data.clone());
    let proof = tree.get_proof(&data[0]);
    assert!(!MerkleTree::verify(&sha(b"other root"), &data[0], &proof));
}

#[test]
fn building_twice_gives_the_same_root() {
    let data = transactions();
    let a = MerkleTree::new(data.clone());
    let b = MerkleTree::new(data.clone());
    assert_eq!(a.root.unwrap().hash, b.root.unwrap().hash);
}

#[test]
fn singleton_root_is_the_block_digest() {
    let tree = MerkleTree::new(vec![b"only".to_vec()]);
    let root = tree.root.as_ref().unwrap();
    assert_eq!(root.hash, sha(b"only"));
    assert_ne!(root.hash, b"only".to_vec());
    assert!(root.left.is_none() && root.right.is_none());
    let proof = tree.get_proof(b"only");
    assert!(proof.is_empty());
    assert!(MerkleTree::verify(&root.hash, b"only", &proof));
}

#[test]
fn root_digest_of_four_blocks() {
    let data = transactions();
    let tree = MerkleTree::new(data.clone());
    let left = pair(&sha(&data[0]), &sha(&data[1]));
    let right = pair(&sha(&data[2]), &sha(&data[3]));
    assert_eq!(tree.root.unwrap().hash, pair(&left, &right));
}

#[test]
fn root_digest_of_three_blocks_splits_at_floor_half() {
    let data = vec![b"a".to_vec(), b"b".to_vec(), b"c".to_vec()];
    let tree = MerkleTree::new(data);
    let right = pair(&sha(b"b"), &sha(b"c"));
    assert_eq!(tree.root.unwrap().hash, pair(&sha(b"a"), &right));
}

#[test]
fn proof_lists_siblings_from_the_leaf_upward() {
    let data = transactions();
    let tree = MerkleTree::new(data.clone());
    let right = pair(&sha(&data[2]), &sha(&data[3]));
    assert_eq!(tree.get_proof(&data[0]), vec![sha(&data[1]), right.clone()]);
    let left = pair(&sha(&data[0]), &sha(&data[1]));
    assert_eq!(tree.get_proof(&data[3]), vec![sha(&data[2]), left]);
}

#[test]
fn proof_through_a_right_branch_does_not_verify() {
    let data = vec![b"left".to_vec(), b"right".to_vec()];
    let tree = MerkleTree::new(data.clone());
    let root = tree.root.as_ref().unwrap().hash.clone();
    let proof = tree.get_proof(&data[1]);
    assert_eq!(proof, vec![sha(b"left")]);
    assert!(!MerkleTree::verify(&root, &data[1], &proof));
    assert!(MerkleTree::verify(&root, &data[0], &tree.get_proof(&data[0])));
}

#[test]
fn absent_block_is_not_found() {
    let data = transactions();
    let tree = MerkleTree::new(data);
    assert!(tree.get_proof(b"transaction5").is_empty());
    assert!(tree.find_proof(b"transaction5").is_none());
    assert!(tree.find_proof(b"transaction2").is_some());
}

#[test]
fn empty_tree_has_no_root_and_finds_nothing() {
    let tree = MerkleTree::new(Vec::new());
    assert!(tree.root.is_none());
    assert!(tree.leaves.is_empty());
    assert!(tree.get_proof(b"anything").is_empty());
    assert!(tree.find_proof(b"anything").is_none());
}

#[test]
fn duplicate_blocks_prove_the_first_occurrence() {
    let data = vec![b"dup".to_vec(), b"x".to_vec(), b"y".to_vec(), b"dup".to_vec()];
    let tree = MerkleTree::new(data.clone());
    let root = tree.root.as_ref().unwrap().hash.clone();
    let proof = tree.get_proof(b"dup");
    let right = pair(&sha(b"y"), &sha(b"dup"));
    assert_eq!(proof, vec![sha(b"x"), right]);
    assert!(MerkleTree::verify(&root, b"dup", &proof));
}

#[test]
fn leaves_keep_the_blocks_in_order() {
    let data = transactions();
    let tree = MerkleTree::new(data.clone());
    assert_eq!(tree.leaves, data);
}
