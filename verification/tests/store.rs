use sparse_merkle::keccak_hasher::KeccakHasher;
use sparse_merkle::mem_kv::MemStore;
use sparse_merkle::node::Node;
use sparse_merkle::tree_hasher::TreeHasher;
use sparse_merkle::KvStore;
use sparse_merkle::SmtError;
use sparse_merkle::SparseMerkleTree;

#[test]
fn mem_store_round_trip() {
    let mut store = MemStore::new();
    assert_eq!(store.get(b"a").unwrap_err(), SmtError::KeyNotFound);
    store.insert(b"a", b"1").unwrap();
    store.insert(b"b", b"2").unwrap();
    assert_eq!(store.get(b"a").unwrap(), b"1".to_vec());
    assert_eq!(store.get(b"b").unwrap(), b"2".to_vec());
    store.insert(b"a", b"3").unwrap();
    assert_eq!(store.get(b"a").unwrap(), b"3".to_vec());
    store.delete(b"a").unwrap();
    assert_eq!(store.get(b"a").unwrap_err(), SmtError::KeyNotFound);
    assert_eq!(store.get(b"b").unwrap(), b"2".to_vec());
    // Deleting an absent key is not an error.
    store.delete(b"zzz").unwrap();
}

/// A store written outside the library, as an embedder would: the tree is
/// generic over any [`KvStore`].
struct BoxStore {
    entries: std::collections::BTreeMap<Vec<u8>, Vec<u8>>,
}

impl KvStore for BoxStore {
    fn get(&self, k: &[u8]) -> Result<Vec<u8>, SmtError> {
        self.entries.get(k).cloned().ok_or(SmtError::KeyNotFound)
    }

    fn insert(&mut self, k: &[u8], v: &[u8]) -> Result<(), SmtError> {
        self.entries.insert(k.to_vec(), v.to_vec());
        Ok(())
    }

    fn delete(&mut self, k: &[u8]) -> Result<(), SmtError> {
        self.entries.remove(k);
        Ok(())
    }
}

#[test]
fn tree_over_custom_store() {
    let nodes = BoxStore { entries: std::collections::BTreeMap::new() };
    let values = BoxStore { entries: std::collections::BTreeMap::new() };
    let mut smt = SparseMerkleTree::new(TreeHasher::new(KeccakHasher::new()), nodes, values);
    smt.update(b"a", b"1").unwrap();
    smt.update(b"b", b"2").unwrap();
    assert_eq!(smt.get(b"a").unwrap(), b"1".to_vec());
    assert_eq!(smt.get(b"b").unwrap(), b"2".to_vec());
    smt.delete(b"a").unwrap();
    assert_eq!(smt.get(b"a").unwrap(), Vec::<u8>::new());
    smt.delete(b"b").unwrap();
    assert_eq!(smt.root(), vec![0u8; 32]);
}

#[test]
fn node_kinds() {
    let internal = Node::InternalNode {
        left: vec![1u8; 32],
        right: vec![2u8; 32],
    };
    let leaf = Node::LeafNode {
        path: vec![3u8; 32],
        value: vec![4u8; 32],
    };
    let empty = Node::Empty;

    assert!(internal.is_branch() && !internal.is_leaf() && !internal.is_empty());
    assert!(leaf.is_leaf() && !leaf.is_branch() && !leaf.is_empty());
    assert!(empty.is_empty() && !empty.is_leaf() && !empty.is_branch());

    let (l, r) = internal.children();
    assert_eq!(l, vec![1u8; 32]);
    assert_eq!(r, vec![2u8; 32]);
    let (l, r) = empty.children();
    assert!(l.is_empty() && r.is_empty());

    assert!(leaf.match_leaf_path(&[3u8; 32]));
    assert!(!leaf.match_leaf_path(&[5u8; 32]));
    assert!(!internal.match_leaf_path(&[1u8; 32]));
}
