use sparse_merkle::keccak_hasher::KeccakHasher;
use sparse_merkle::mem_kv::MemStore;
use sparse_merkle::tree_hasher::TreeHasher;
use sparse_merkle::utils::{common_prefix, get_msb_at};
use sparse_merkle::SparseMerkleTree;

fn new_tree() -> SparseMerkleTree<KeccakHasher, MemStore> {
    let hasher = KeccakHasher::new();
    let tree_hasher = TreeHasher::new(hasher);
    let nodes = MemStore::new();
    let values = MemStore::new();
    SparseMerkleTree::new(tree_hasher, nodes, values)
}

fn hasher() -> TreeHasher<KeccakHasher> {
    TreeHasher::new(KeccakHasher::new())
}

#[test]
fn new() {
    let mut smt = new_tree();

    let k1 = b"k1";
    let v1 = b"v1";
    let k2 = b"k2";
    let v2 = b"v2";

    println!("Update K1");
    let res = smt.update(k1, v1).unwrap();
    println!("root {:x?} ", res);
    let res = smt.get(k1).unwrap();
    assert!(res == v1);

    println!("Update K2");
    let res = smt.update(k2, v2).unwrap();
    println!("root {:x?} ", res);
    let res = smt.get(k2).unwrap();
    assert!(res == v2);

    println!("Delete k2...");
    let res = smt.delete(k2).unwrap();
    println!("root {:x?} ", res);
}

#[test]
fn keccak_known_digest() {
    // Keccak-256 of the empty byte string.
    let expected: [u8; 32] = [
        0xc5, 0xd2, 0x46, 0x01, 0x86, 0xf7, 0x23, 0x3c, 0x92, 0x7e, 0x7d, 0xb2, 0xdc, 0xc7, 0x03,
        0xc0, 0xe5, 0x00, 0xb6, 0x53, 0xca, 0x82, 0x27, 0x3b, 0x7b, 0xfa, 0xd8, 0x04, 0x5d, 0x85,
        0xa4, 0x70,
    ];
    let th = hasher();
    let d = th.digest(b"");
    assert_eq!(d, expected.to_vec());
    assert_eq!(th.digest(b"k1").len(), 32);
    assert_ne!(th.digest(b"k1"), th.digest(b"k2"));
}

#[test]
fn empty_root() {
    let smt = new_tree();
    assert_eq!(smt.root(), vec![0u8; 32]);
    assert_eq!(smt.get(b"anything").unwrap(), Vec::<u8>::new());
}

#[test]
fn single_insert() {
    let mut smt = new_tree();
    let th = hasher();
    let root = smt.update(b"k1", b"v1").unwrap();
    let path = th.path(b"k1");
    let value_hash = th.digest(b"v1");
    let (leaf_digest, _) = th.digest_leaf(&path, &value_hash);
    assert_eq!(root, leaf_digest);
    assert_eq!(smt.root(), leaf_digest);
    assert_eq!(smt.get(b"k1").unwrap(), b"v1".to_vec());
}

/// After two inserts with distinct paths, the root is the internal node
/// combining the two leaf digests at the first bit where their paths
/// diverge, rehashed to the top with placeholder siblings along the shared
/// prefix.
#[test]
fn two_inserts() {
    let mut smt = new_tree();
    let th = hasher();
    smt.update(b"k1", b"v1").unwrap();
    let root = smt.update(b"k2", b"v2").unwrap();

    let p1 = th.path(b"k1");
    let p2 = th.path(b"k2");
    let (leaf1, _) = th.digest_leaf(&p1, &th.digest(b"v1"));
    let (leaf2, _) = th.digest_leaf(&p2, &th.digest(b"v2"));
    let ph = vec![0u8; 32];
    let cpl = common_prefix(&p1, &p2);
    assert!(cpl < 256);
    let mut curr = if get_msb_at(&p2, cpl) == 0 {
        th.digest_node(&leaf2, &leaf1).0
    } else {
        th.digest_node(&leaf1, &leaf2).0
    };
    for b in (0..cpl).rev() {
        curr = if get_msb_at(&p2, b) == 0 {
            th.digest_node(&curr, &ph).0
        } else {
            th.digest_node(&ph, &curr).0
        };
    }
    assert_eq!(root, curr);
    assert_eq!(smt.get(b"k1").unwrap(), b"v1".to_vec());
    assert_eq!(smt.get(b"k2").unwrap(), b"v2".to_vec());
}

#[test]
fn delete_to_empty() {
    let mut smt = new_tree();
    smt.update(b"k1", b"v1").unwrap();
    smt.update(b"k2", b"v2").unwrap();
    smt.delete(b"k1").unwrap();
    let root = smt.delete(b"k2").unwrap();
    assert_eq!(root, vec![0u8; 32]);
    assert_eq!(smt.root(), vec![0u8; 32]);
    assert_eq!(smt.get(b"k1").unwrap(), Vec::<u8>::new());
    assert_eq!(smt.get(b"k2").unwrap(), Vec::<u8>::new());
}

#[test]
fn delete_one_of_two() {
    let mut smt = new_tree();
    let th = hasher();
    smt.update(b"k1", b"v1").unwrap();
    smt.update(b"k2", b"v2").unwrap();
    let root = smt.delete(b"k2").unwrap();
    let p1 = th.path(b"k1");
    let (leaf1, _) = th.digest_leaf(&p1, &th.digest(b"v1"));
    assert_eq!(root, leaf1);
    assert_eq!(smt.get(b"k1").unwrap(), b"v1".to_vec());
    assert_eq!(smt.get(b"k2").unwrap(), Vec::<u8>::new());
}

#[test]
fn delete_absent_key_unchanged() {
    let mut smt = new_tree();
    let before = smt.delete(b"nothing").unwrap();
    assert_eq!(before, vec![0u8; 32]);
    smt.update(b"k1", b"v1").unwrap();
    let root = smt.root();
    let after = smt.delete(b"absent").unwrap();
    assert_eq!(after, root);
    assert_eq!(smt.root(), root);
    assert_eq!(smt.get(b"k1").unwrap(), b"v1".to_vec());
}

#[test]
fn insert_same_value_unchanged() {
    let mut smt = new_tree();
    let first = smt.update(b"k1", b"v1").unwrap();
    let second = smt.update(b"k1", b"v1").unwrap();
    assert_eq!(first, second);
    assert_eq!(smt.root(), first);
    assert_eq!(smt.get(b"k1").unwrap(), b"v1".to_vec());
}

#[test]
fn update_replaces_value() {
    let mut smt = new_tree();
    let th = hasher();
    smt.update(b"k1", b"v1").unwrap();
    let root = smt.update(b"k1", b"v9").unwrap();
    let p1 = th.path(b"k1");
    let (leaf, _) = th.digest_leaf(&p1, &th.digest(b"v9"));
    assert_eq!(root, leaf);
    assert_eq!(smt.get(b"k1").unwrap(), b"v9".to_vec());
}

#[test]
fn many_keys_round_trip() {
    let mut smt = new_tree();
    let keys: Vec<Vec<u8>> = (0u8..16).map(|i| vec![b'k', i]).collect();
    for (i, k) in keys.iter().enumerate() {
        smt.update(k, &[b'v', i as u8]).unwrap();
    }
    for (i, k) in keys.iter().enumerate() {
        assert_eq!(smt.get(k).unwrap(), vec![b'v', i as u8]);
    }
    for k in keys.iter().take(15) {
        smt.delete(k).unwrap();
    }
    // The one surviving leaf bubbles up to the root.
    let th = hasher();
    let p = th.path(&keys[15]);
    let (leaf, _) = th.digest_leaf(&p, &th.digest(&[b'v', 15]));
    assert_eq!(smt.root(), leaf);
    let root = smt.delete(&keys[15]).unwrap();
    assert_eq!(root, vec![0u8; 32]);
}

#[test]
fn store_io_error_on_missing_record() {
    let smt = new_tree();
    let th = hasher();
    let path = th.path(b"k1");
    let bogus_root = vec![0x01u8; 32];
    let res = smt.sidenodes(&bogus_root, &path);
    assert_eq!(res.unwrap_err(), sparse_merkle::SmtError::StoreIo);
}
