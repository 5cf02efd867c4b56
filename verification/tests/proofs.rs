use sparse_merkle::keccak_hasher::KeccakHasher;
use sparse_merkle::mem_kv::MemStore;
use sparse_merkle::tree_hasher::TreeHasher;
use sparse_merkle::SparseMerkleTree;

fn two_key_tree() -> SparseMerkleTree<KeccakHasher, MemStore> {
    let mut smt = SparseMerkleTree::new(
        TreeHasher::new(KeccakHasher::new()),
        MemStore::new(),
        MemStore::new(),
    );
    smt.update(b"k1", b"v1").unwrap();
    smt.update(b"k2", b"v2").unwrap();
    smt
}

fn hasher() -> TreeHasher<KeccakHasher> {
    TreeHasher::new(KeccakHasher::new())
}

#[test]
fn membership_proof_verifies() {
    let smt = two_key_tree();
    let root = smt.root();
    let proof = smt.generate_proof(b"k1", &root).unwrap();
    assert!(proof.non_membership_leaf_node.is_empty());
    assert!(smt.verify_proof(&proof, b"k1", Some(&b"v1".to_vec()), &root));
    assert!(!smt.verify_proof(&proof, b"k1", Some(&b"wrong".to_vec()), &root));
    assert!(!smt.verify_proof(&proof, b"k1", None, &root));
}

#[test]
fn empty_tree_proof_verifies_absence() {
    let smt = SparseMerkleTree::new(
        TreeHasher::new(KeccakHasher::new()),
        MemStore::new(),
        MemStore::new(),
    );
    let root = smt.root();
    let proof = smt.generate_proof(b"anything", &root).unwrap();
    assert!(proof.sidenodes.is_empty());
    assert!(proof.non_membership_leaf_node.is_empty());
    assert!(smt.verify_proof(&proof, b"anything", None, &root));
}

/// A proof for an absent key verifies as a proof of exclusion; when its
/// traversal ends at a foreign leaf, the non-membership leaf is the payload
/// of the leaf whose path shares the longest bit prefix with the key's path.
#[test]
fn non_membership_proof() {
    let smt = two_key_tree();
    let th = hasher();
    let root = smt.root();
    let p1 = th.path(b"k1");
    let p2 = th.path(b"k2");
    let (_, leaf1_payload) = th.digest_leaf(&p1, &th.digest(b"v1"));
    let (_, leaf2_payload) = th.digest_leaf(&p2, &th.digest(b"v2"));

    let mut found_leaf_witness = false;
    for candidate in [
        b"k3".to_vec(),
        b"k4".to_vec(),
        b"k5".to_vec(),
        b"k6".to_vec(),
        b"k7".to_vec(),
        b"k8".to_vec(),
        b"k9".to_vec(),
        b"kA".to_vec(),
    ] {
        let proof = smt.generate_proof(&candidate, &root).unwrap();
        // Every generated proof for an absent key verifies as exclusion.
        assert!(smt.verify_proof(&proof, &candidate, None, &root));
        if !proof.non_membership_leaf_node.is_empty() {
            let p3 = th.path(&candidate);
            let cp1 = sparse_merkle::utils::common_prefix(&p3, &p1);
            let cp2 = sparse_merkle::utils::common_prefix(&p3, &p2);
            let expected = if cp1 >= cp2 { &leaf1_payload } else { &leaf2_payload };
            assert_eq!(&proof.non_membership_leaf_node, expected);
            found_leaf_witness = true;
        }
    }
    assert!(found_leaf_witness);
}

#[test]
fn compact_proof_round_trip() {
    let smt = two_key_tree();
    let root = smt.root();
    for key in [b"k1".to_vec(), b"k2".to_vec(), b"k3".to_vec()] {
        let full = smt.generate_proof(&key, &root).unwrap();
        let compact = smt.generate_compact_proof(&key, &root).unwrap();
        assert!(compact.compact_sidenodes.len() <= full.sidenodes.len());
        let expanded = smt.expand_compact_proof(&compact);
        assert_eq!(expanded.sidenodes, full.sidenodes);
        assert_eq!(
            expanded.non_membership_leaf_node,
            full.non_membership_leaf_node
        );
        // The compact sidenodes are exactly the non-placeholder ones.
        let ph = vec![0u8; 32];
        let real: Vec<Vec<u8>> = full
            .sidenodes
            .iter()
            .filter(|s| *s != &ph)
            .cloned()
            .collect();
        assert_eq!(compact.compact_sidenodes, real);
    }
}

#[test]
fn proofs_over_many_keys() {
    let mut smt = SparseMerkleTree::new(
        TreeHasher::new(KeccakHasher::new()),
        MemStore::new(),
        MemStore::new(),
    );
    let keys: Vec<Vec<u8>> = (0u8..16).map(|i| vec![b'p', i]).collect();
    for (i, k) in keys.iter().enumerate() {
        smt.update(k, &[b'w', i as u8]).unwrap();
    }
    let root = smt.root();
    for (i, k) in keys.iter().enumerate() {
        let full = smt.generate_proof(k, &root).unwrap();
        assert!(smt.verify_proof(&full, k, Some(&vec![b'w', i as u8]), &root));
        assert!(!smt.verify_proof(&full, k, Some(&b"bad".to_vec()), &root));
        let compact = smt.generate_compact_proof(k, &root).unwrap();
        let expanded = smt.expand_compact_proof(&compact);
        assert_eq!(expanded.sidenodes, full.sidenodes);
        assert_eq!(
            expanded.non_membership_leaf_node,
            full.non_membership_leaf_node
        );
        assert!(smt.verify_proof(&expanded, k, Some(&vec![b'w', i as u8]), &root));
    }
    let absent = smt.generate_proof(b"not-there", &root).unwrap();
    assert!(smt.verify_proof(&absent, b"not-there", None, &root));
}

#[test]
fn compact_proof_bitmask_marks_placeholders() {
    let smt = two_key_tree();
    let root = smt.root();
    let full = smt.generate_proof(b"k1", &root).unwrap();
    let compact = smt.generate_compact_proof(b"k1", &root).unwrap();
    let ph = vec![0u8; 32];
    for (i, s) in full.sidenodes.iter().enumerate() {
        let bit = if i / 8 < compact.bitmask.len() {
            sparse_merkle::utils::get_msb_at(&compact.bitmask, i)
        } else {
            0
        };
        assert_eq!(bit == 1, *s == ph);
    }
}
