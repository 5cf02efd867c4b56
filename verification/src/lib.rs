//! A sparse Merkle tree: an authenticated key–value map over the full space
//! of fixed-width hash digests, with a cryptographic root digest binding the
//! whole mapping, and compact inclusion/exclusion proofs.

pub mod keccak_hasher;
pub mod tree_hasher;
pub mod utils;

pub mod laws;
pub mod mem_kv;
pub mod model;
pub mod node;

use vstd::prelude::*;

use crate::tree_hasher::{copy_bytes, Hasher, TreeHasher};
use crate::utils::{bytes_eq, common_prefix, get_msb_at, set_msb_at};

verus! {

/// Errors surfaced by the tree and its stores.
#[derive(Clone, Copy, PartialEq, Eq, Structural, Debug)]
pub enum SmtError {
    /// An underlying store failure: a node record referenced by the tree is
    /// missing, which indicates store corruption.
    StoreIo,
    /// A key is absent from a key–value store.
    KeyNotFound,
}

/// A byte-to-byte key–value store. The tree keeps two independent instances:
/// a node store (digest to node payload) and a value store (path to raw
/// value). `contents` is the mapping the store currently holds.
pub trait KvStore: Sized {
    /// The mapping the store currently holds. Verified implementations
    /// override this; the default stands in for implementations outside the
    /// reach of verification.
    open spec fn contents(&self) -> Map<Seq<u8>, Seq<u8>> {
        Map::empty()
    }

    /// Looks up `k`; returns its value, or `KeyNotFound` if absent.
    fn get(&self, k: &[u8]) -> (r: Result<Vec<u8>, SmtError>)
        ensures
            self.contents().contains_key(k@) ==> r is Ok && r->Ok_0@ == self.contents()[k@],
            !self.contents().contains_key(k@) ==> r == Result::<Vec<u8>, SmtError>::Err(
                SmtError::KeyNotFound,
            ),
    ;

    /// Binds `k` to `v`, replacing any previous binding.
    fn insert(&mut self, k: &[u8], v: &[u8]) -> (r: Result<(), SmtError>)
        ensures
            r is Ok,
            final(self).contents() == old(self).contents().insert(k@, v@),
    ;

    /// Removes the binding of `k`, if any; removing an absent key is not an
    /// error.
    fn delete(&mut self, k: &[u8]) -> (r: Result<(), SmtError>)
        ensures
            r is Ok,
            final(self).contents() == old(self).contents().remove(k@),
    ;
}

/// A sparse Merkle tree over a hash function `H` and a store `K`: every
/// possible path (a digest of `8n` bits) has a position, absent subtrees are
/// represented by the all-zero placeholder digest, and a subtree holding a
/// single leaf collapses to that leaf. The current root digest binds the
/// entire mapping.
pub struct SparseMerkleTree<H: Hasher, K: KvStore> {
    pub tree_hasher: TreeHasher<H>,
    pub nodes: K,
    pub values: K,
    pub root: Vec<u8>,
}

/// A proof of membership or non-membership of a key under some root.
pub struct SparseMerkleProof {
    /// Sidenodes for the key, deepest-first, up to the root.
    pub sidenodes: Vec<Vec<u8>>,
    /// For a key whose slot is occupied by a leaf of a different path, that
    /// leaf's payload; empty otherwise. It proves that a different key sits
    /// at the deepest point reached along this key's path.
    pub non_membership_leaf_node: Vec<u8>,
}

/// A [`SparseMerkleProof`] with the placeholder sidenodes elided: bit `i` of
/// the bitmask is set iff the `i`-th (deepest-first) sidenode was a
/// placeholder and was omitted.
pub struct SparseMerkleCompactProof {
    /// The non-placeholder sidenodes, deepest-first.
    pub compact_sidenodes: Vec<Vec<u8>>,
    /// For a key whose slot is occupied by a leaf of a different path, that
    /// leaf's payload; empty otherwise.
    pub non_membership_leaf_node: Vec<u8>,
    /// Bit `i` (MSB-first) is set iff sidenode `i` was a placeholder.
    pub bitmask: Vec<u8>,
}

/// Reverses a vector of byte vectors.
fn reversed_vecs(v: &Vec<Vec<u8>>) -> (r: Vec<Vec<u8>>)
    ensures
        r.deep_view() == v.deep_view().reverse(),
{
    let ghost len = v@.len() as int;
    let mut r: Vec<Vec<u8>> = Vec::new();
    let mut i: usize = v.len();
    while i > 0
        invariant
            i <= len,
            len == v@.len(),
            r@.len() == len - i,
            forall|j: int| 0 <= j < r@.len() ==> #[trigger] r.deep_view()[j] == v.deep_view()[len
                - 1 - j],
        decreases i,
    {
        i -= 1;
        let c = copy_bytes(v[i].as_slice());
        proof {
            assert(c.deep_view() =~= v.deep_view()[i as int]);
        }
        let ghost prevd = r.deep_view();
        let ghost prevv = r@;
        r.push(c);
        proof {
            assert(forall|j: int|
                0 <= j < prevv.len() ==> #[trigger] r.deep_view()[j] == prevd[j]) by {
                assert(forall|j: int|
                    0 <= j < prevv.len() ==> #[trigger] r.deep_view()[j] == r@[j].deep_view());
                assert(forall|j: int|
                    0 <= j < prevv.len() ==> #[trigger] prevd[j] == prevv[j].deep_view());
            }
            assert(r.deep_view()[prevv.len() as int] == c.deep_view());
        }
    }
    proof {
        assert(r.deep_view() =~= v.deep_view().reverse());
    }
    r
}

impl<H: Hasher, K: KvStore> SparseMerkleTree<H, K> {
    /// The tree is well-formed: its hasher is consistent, the root has the
    /// digest width, and every node-store record is content-addressed and
    /// shaped as a node payload.
    pub open spec fn wf(&self) -> bool {
        &&& self.tree_hasher.wf()
        &&& self.root@.len() == self.tree_hasher.n_spec()
        &&& model::store_ok(self.tree_hasher, self.nodes.contents())
    }

    /// A tree over the given hasher and stores, with the placeholder root:
    /// the empty mapping.
    pub fn new(tree_hasher: TreeHasher<H>, nodes_store: K, values_store: K) -> (r: Self)
        requires
            tree_hasher.wf(),
            model::store_ok(tree_hasher, nodes_store.contents()),
        ensures
            r.wf(),
            r.tree_hasher == tree_hasher,
            r.nodes == nodes_store,
            r.values == values_store,
            r.root@ == tree_hasher.placeholder_s(),
    {
        let root = copy_bytes(&tree_hasher.zero_hash);
        Self { root, tree_hasher, nodes: nodes_store, values: values_store }
    }

    /// The current root digest.
    pub fn root(&self) -> (r: Vec<u8>)
        ensures
            r@ == self.root@,
    {
        copy_bytes(&self.root)
    }

    /// The depth of the tree: the digest width in bits.
    fn depth(&self) -> (r: usize)
        requires
            self.tree_hasher.wf(),
        ensures
            r == self.tree_hasher.depth_spec(),
    {
        self.tree_hasher.hasher.output_size() * 8
    }

    /// The placeholder digest denoting an empty subtree.
    fn placeholder(&self) -> (r: Vec<u8>)
        ensures
            r@ == self.tree_hasher.zero_hash@,
    {
        copy_bytes(&self.tree_hasher.zero_hash)
    }

    /// The value bound to `key`, or the empty byte string if the tree is
    /// empty or the key is unbound.
    pub fn get(&self, key: &[u8]) -> (r: Result<Vec<u8>, SmtError>)
        requires
            self.wf(),
        ensures
            r is Ok,
            r->Ok_0@ == model::get_result(
                self.tree_hasher,
                self.values.contents(),
                self.root@,
                self.tree_hasher.hash_s(key@),
            ),
    {
        let ph = self.placeholder();
        if bytes_eq(self.root.as_slice(), ph.as_slice()) {
            Ok(Vec::new())
        } else {
            let path = self.tree_hasher.path(key);
            match self.values.get(path.as_slice()) {
                Ok(v) => Ok(v),
                Err(_) => Ok(Vec::new()),
            }
        }
    }

    /// Walks from `root` along `path` and collects `(sidenodes, pathnodes,
    /// leaf_payload)`, deepest-first: the siblings at each visited level,
    /// the digests visited on the path (the root last), and the payload of
    /// the terminal node if it is a leaf (empty if the traversal ended at a
    /// placeholder). Fails iff a digest on the path is missing from the node
    /// store.
    #[verifier::loop_isolation(false)]
    pub fn sidenodes(&self, root: &[u8], path: &[u8]) -> (r: Result<
        (Vec<Vec<u8>>, Vec<Vec<u8>>, Vec<u8>),
        SmtError,
    >)
        requires
            self.wf(),
            path@.len() == self.tree_hasher.n_spec(),
        ensures
            match model::traverse(self.tree_hasher, self.nodes.contents(), root@, path@) {
                Some(t) => r is Ok && r->Ok_0.0.deep_view() == t.0 && r->Ok_0.1.deep_view() == t.1
                    && r->Ok_0.2@ == t.2,
                None => r == Result::<(Vec<Vec<u8>>, Vec<Vec<u8>>, Vec<u8>), SmtError>::Err(
                    SmtError::StoreIo,
                ),
            },
    {
        let ghost th = self.tree_hasher;
        let ghost nm = self.nodes.contents();
        let ghost full = model::traverse(th, nm, root@, path@);
        let mut side_acc: Vec<Vec<u8>> = Vec::new();
        let mut path_acc: Vec<Vec<u8>> = Vec::new();
        path_acc.push(copy_bytes(root));
        proof {
            assert(path_acc.deep_view() =~~= seq![root@]);
        }
        let ph = self.placeholder();
        if bytes_eq(root, ph.as_slice()) {
            proof {
                assert(side_acc.deep_view() =~~= Seq::<Seq<u8>>::empty());
            }
            return Ok((side_acc, path_acc, Vec::new()));
        }
        let mut node = match self.nodes.get(root) {
            Ok(nd) => nd,
            Err(_) => {
                return Err(SmtError::StoreIo);
            },
        };
        if self.tree_hasher.is_leaf(node.as_slice()) {
            proof {
                assert(side_acc.deep_view() =~~= Seq::<Seq<u8>>::empty());
            }
            return Ok((side_acc, path_acc, node));
        }
        let depth = self.depth();
        let n = self.tree_hasher.hasher.output_size();
        let mut i: usize = 0;
        while i < depth
            invariant
                self.wf(),
                path@.len() == self.tree_hasher.n_spec(),
                th == self.tree_hasher,
                nm == self.nodes.contents(),
                full == model::traverse(th, nm, root@, path@),
                depth == th.depth_spec(),
                n == th.n_spec(),
                0 <= i <= depth,
                node@.len() == 1 + 2 * n,
                node@[0] == 1u8,
                match model::walk(th, nm, node@, path@, i as int) {
                    None => full is None,
                    Some(t) => full == Some(
                        (
                            (side_acc.deep_view() + t.0).reverse(),
                            (path_acc.deep_view() + t.1).reverse(),
                            t.2,
                        ),
                    ),
                },
            decreases depth - i,
        {
            let ghost node0 = node@;
            let pr = self.tree_hasher.parse_node(node.as_slice());
            let (left, right) = pr;
            let k_pathnode: Vec<u8>;
            let k_sidenode: Vec<u8>;
            if get_msb_at(path, i) == 0 {
                k_pathnode = left;
                k_sidenode = right;
            } else {
                k_pathnode = right;
                k_sidenode = left;
            }
            let ghost child = k_pathnode@;
            let ghost side = k_sidenode@;
            let ghost old_sides = side_acc.deep_view();
            let ghost old_paths = path_acc.deep_view();
            let is_ph = bytes_eq(k_pathnode.as_slice(), ph.as_slice());
            side_acc.push(k_sidenode);
            path_acc.push(copy_bytes(k_pathnode.as_slice()));
            proof {
                assert(side_acc.deep_view() =~~= old_sides + seq![side]);
                assert(path_acc.deep_view() =~~= old_paths + seq![child]);
                let nn = th.n_spec() as int;
                assert(child == if !crate::utils::bit_of(path@, i as int) {
                    node0.subrange(1, 1 + nn)
                } else {
                    node0.subrange(1 + nn, node0.len() as int)
                });
                assert(side == if !crate::utils::bit_of(path@, i as int) {
                    node0.subrange(1 + nn, node0.len() as int)
                } else {
                    node0.subrange(1, 1 + nn)
                });
                assert(model::walk(th, nm, node0, path@, i as int) == (if child
                    == th.placeholder_s() {
                    Some((seq![side], seq![child], Seq::<u8>::empty()))
                } else if !nm.contains_key(child) {
                    None
                } else if th.is_leaf_s(nm[child]) {
                    Some((seq![side], seq![child], nm[child]))
                } else {
                    match model::walk(th, nm, nm[child], path@, i as int + 1) {
                        None => None,
                        Some(t) => Some((seq![side] + t.0, seq![child] + t.1, t.2)),
                    }
                }));
            }
            if is_ph {
                proof {
                    let t = model::walk(th, nm, node0, path@, i as int).unwrap();
                    assert(t.0 =~= seq![side]);
                    assert(t.1 =~= seq![child]);
                    assert(side_acc.deep_view() =~~= old_sides + t.0);
                    assert(path_acc.deep_view() =~~= old_paths + t.1);
                }
                return Ok((reversed_vecs(&side_acc), reversed_vecs(&path_acc), Vec::new()));
            }
            let next = match self.nodes.get(k_pathnode.as_slice()) {
                Ok(nd) => nd,
                Err(_) => {
                    proof {
                        assert(model::walk(th, nm, node0, path@, i as int) is None);
                    }
                    return Err(SmtError::StoreIo);
                },
            };
            if self.tree_hasher.is_leaf(next.as_slice()) {
                proof {
                    let t = model::walk(th, nm, node0, path@, i as int).unwrap();
                    assert(t.0 =~= seq![side]);
                    assert(t.1 =~= seq![child]);
                    assert(t.2 == next@);
                    assert(side_acc.deep_view() =~~= old_sides + t.0);
                    assert(path_acc.deep_view() =~~= old_paths + t.1);
                }
                return Ok((reversed_vecs(&side_acc), reversed_vecs(&path_acc), next));
            }
            proof {
                match model::walk(th, nm, next@, path@, i + 1) {
                    None => {
                        assert(model::walk(th, nm, node0, path@, i as int) is None);
                    },
                    Some(t) => {
                        let t0 = model::walk(th, nm, node0, path@, i as int).unwrap();
                        assert(t0.0 == seq![side] + t.0);
                        assert(t0.1 == seq![child] + t.1);
                        assert(old_sides + t0.0 =~= side_acc.deep_view() + t.0);
                        assert(old_paths + t0.1 =~= path_acc.deep_view() + t.1);
                    },
                }
            }
            node = next;
            i += 1;
        }
        Ok((reversed_vecs(&side_acc), reversed_vecs(&path_acc), node))
    }

    /// Applies an insert of `value` at `path` given the traversal's outcome,
    /// writing the new leaf, bridging or replacing an existing leaf,
    /// deleting the stale pathnode records, rehashing upward, and binding
    /// the value; returns the new root digest. The stores change exactly as
    /// [`model::update_effect`] says.
    #[verifier::loop_isolation(false)]
    #[verifier::rlimit(60)]
    fn _update(
        &mut self,
        path: &[u8],
        value: &[u8],
        sidenodes: &Vec<Vec<u8>>,
        pathnodes: &Vec<Vec<u8>>,
        old_data: &[u8],
    ) -> (r: Vec<u8>)
        requires
            old(self).wf(),
            path@.len() == old(self).tree_hasher.n_spec(),
            pathnodes@.len() >= 1,
            sidenodes@.len() <= old(self).tree_hasher.depth_spec(),
            forall|j: int|
                0 <= j < sidenodes@.len() ==> (#[trigger] sidenodes@[j])@.len() == old(
                    self,
                ).tree_hasher.n_spec(),
            (pathnodes@[0])@.len() == old(self).tree_hasher.n_spec(),
            (pathnodes@[0])@ != old(self).tree_hasher.placeholder_s() ==> old_data@.len() == 1 + 2
                * old(self).tree_hasher.n_spec(),
        ensures
            ({
                let eff = model::update_effect(
                    old(self).tree_hasher,
                    path@,
                    value@,
                    sidenodes.deep_view(),
                    pathnodes.deep_view(),
                    old_data@,
                    old(self).root@,
                    old(self).nodes.contents(),
                    old(self).values.contents(),
                );
                &&& r@ == eff.0
                &&& final(self).nodes.contents() == eff.1
                &&& final(self).values.contents() == eff.2
            }),
            final(self).root == old(self).root,
            final(self).tree_hasher == old(self).tree_hasher,
            final(self).values.contents() == old(self).values.contents() || (
            final(self).values.contents() == old(self).values.contents().remove(path@).insert(
                path@,
                value@,
            )) || final(self).values.contents() == old(self).values.contents().insert(
                path@,
                value@,
            ),
            final(self).wf(),
            r@.len() == old(self).tree_hasher.n_spec(),
    {
        let ghost th = self.tree_hasher;
        let ghost nodes0 = self.nodes.contents();
        let ghost vals0 = self.values.contents();
        let ghost pns_dv = pathnodes.deep_view();
        let ghost sides_dv = sidenodes.deep_view();
        proof {
            assert(pns_dv[0] == (pathnodes@[0])@);
            assert(forall|j: int|
                0 <= j < sides_dv.len() ==> #[trigger] sides_dv[j] == (sidenodes@[j])@);
            assert(forall|j: int| 0 <= j < pns_dv.len() ==> #[trigger] pns_dv[j] == (pathnodes@[j])@);
        }
        let depth = self.depth();
        let val_hash = self.tree_hasher.digest(value);
        let lp = self.tree_hasher.digest_leaf(path, val_hash.as_slice());
        let mut curr_hash = lp.0;
        let mut curr_data = lp.1;
        let ghost leaf_d = th.leaf_digest_s(path@, th.hash_s(value@));
        let _ = self.nodes.insert(curr_hash.as_slice(), curr_data.as_slice());
        let ghost nodes1 = nodes0.insert(leaf_d, th.leaf_payload_s(path@, th.hash_s(value@)));
        proof {
            assert(self.nodes.contents() == nodes1);
            assert(model::store_ok(th, nodes1));
        }
        let ph = self.placeholder();
        let mut common_prefix_len: usize = depth;
        let mut pathnode_value_hash: Vec<u8> = Vec::new();
        if !bytes_eq(pathnodes[0].as_slice(), ph.as_slice()) {
            let pr = self.tree_hasher.parse_leaf(old_data);
            common_prefix_len = common_prefix(pr.0.as_slice(), path);
            pathnode_value_hash = pr.1;
        }
        let ghost cpl = common_prefix_len as int;
        let ghost case_a = cpl != depth;
        if common_prefix_len != depth {
            let pr2;
            if get_msb_at(path, common_prefix_len) == 0 {
                pr2 = self.tree_hasher.digest_node(curr_hash.as_slice(), pathnodes[0].as_slice());
            } else {
                pr2 = self.tree_hasher.digest_node(pathnodes[0].as_slice(), curr_hash.as_slice());
            }
            curr_hash = pr2.0;
            curr_data = pr2.1;
            let _ = self.nodes.insert(curr_hash.as_slice(), curr_data.as_slice());
            proof {
                assert(curr_hash@ == model::combine_digest(th, path@, cpl, leaf_d, pns_dv[0]));
                assert(curr_data@ == model::combine_payload(th, path@, cpl, leaf_d, pns_dv[0]));
                assert(curr_data@[0] == 1u8);
                assert(curr_data@.len() == 1 + 2 * th.n_spec());
                assert(model::store_ok(th, self.nodes.contents()));
            }
        } else if pathnode_value_hash.len() != 0 {
            if bytes_eq(pathnode_value_hash.as_slice(), val_hash.as_slice()) {
                proof {
                    let eff = model::update_effect(
                        th,
                        path@,
                        value@,
                        sides_dv,
                        pns_dv,
                        old_data@,
                        old(self).root@,
                        nodes0,
                        vals0,
                    );
                    assert(eff.0 == old(self).root@);
                    assert(eff.1 == nodes1);
                    assert(eff.2 == vals0);
                }
                return copy_bytes(&self.root);
            }
            let _ = self.nodes.delete(pathnodes[0].as_slice());
            let _ = self.values.delete(path);
        }
        let ghost nodes_pre_del = self.nodes.contents();
        let ghost vals_pre = self.values.contents();
        let ghost root_pre = self.root;
        proof {
            assert(model::store_ok(th, nodes_pre_del));
        }
        let mut i: usize = 1;
        while i < pathnodes.len()
            invariant
                1 <= i <= pathnodes@.len(),
                self.nodes.contents() == model::remove_seq(
                    nodes_pre_del,
                    pns_dv.subrange(1, i as int),
                ),
                self.values.contents() == vals_pre,
                self.tree_hasher == th,
                self.root == root_pre,
            decreases pathnodes@.len() - i,
        {
            proof {
                model::lemma_remove_seq_push(
                    nodes_pre_del,
                    pns_dv.subrange(1, i as int),
                    pns_dv[i as int],
                );
                assert(pns_dv.subrange(1, i + 1) =~= pns_dv.subrange(1, i as int).push(
                    pns_dv[i as int],
                ));
            }
            let _ = self.nodes.delete(pathnodes[i].as_slice());
            i += 1;
        }
        proof {
            assert(pns_dv.subrange(1, pns_dv.len() as int) =~= pns_dv.drop_first());
            model::lemma_remove_seq_store_ok(th, nodes_pre_del, pns_dv.drop_first());
        }
        let ghost nodes_reh0 = self.nodes.contents();
        let ghost base = curr_hash@;
        let ghost eff_td = if case_a {
            sides_dv.reverse() + model::placeholders(th, cpl - sides_dv.len())
        } else {
            sides_dv.reverse()
        };
        let ghost m_eff = eff_td.len() as int;
        let ghost lo = depth - m_eff;
        proof {
            assert(model::store_ok(th, nodes_reh0));
            assert(m_eff <= depth);
            assert(forall|j: int|
                0 <= j < sides_dv.len() ==> #[trigger] eff_td[sides_dv.len() - 1 - j]
                    == sides_dv[j]);
            assert(forall|j: int|
                sides_dv.len() <= j < m_eff ==> #[trigger] eff_td[j] == th.placeholder_s());
        }
        let leaf_offset = depth - sidenodes.len();
        let mut i: usize = 0;
        while i < depth
            invariant
                0 <= i <= depth,
                curr_hash@.len() == th.n_spec(),
                self.values.contents() == vals_pre,
                self.tree_hasher == th,
                self.root == root_pre,
                model::store_ok(th, self.nodes.contents()),
                (i as int) < lo ==> curr_hash@ == base && self.nodes.contents() == nodes_reh0,
                (i as int) >= lo ==> curr_hash@ == model::rehash_root(
                    th,
                    path@,
                    depth - i,
                    eff_td.subrange(depth - i, m_eff),
                    base,
                ) && self.nodes.contents() == model::rehash_writes(
                    th,
                    path@,
                    depth - i,
                    eff_td.subrange(depth - i, m_eff),
                    base,
                    nodes_reh0,
                ),
            decreases depth - i,
        {
            let sidenode: Vec<u8>;
            if i < leaf_offset {
                if common_prefix_len != depth && common_prefix_len > depth - i - 1 {
                    sidenode = self.placeholder();
                } else {
                    proof {
                        assert(i as int + 1 <= lo);
                    }
                    i += 1;
                    continue;
                }
            } else {
                sidenode = copy_bytes(sidenodes[i - leaf_offset].as_slice());
            }
            proof {
                assert(i as int >= lo);
                assert(sidenode@ == eff_td[depth - i - 1]);
                assert(sidenode@.len() == th.n_spec());
                if i as int == lo {
                    assert(eff_td.subrange(depth - i, m_eff) =~= Seq::<Seq<u8>>::empty());
                }
            }
            let ghost curr0 = curr_hash@;
            let pr3;
            if get_msb_at(path, depth - i - 1) == 0 {
                pr3 = self.tree_hasher.digest_node(curr_hash.as_slice(), sidenode.as_slice());
            } else {
                pr3 = self.tree_hasher.digest_node(sidenode.as_slice(), curr_hash.as_slice());
            }
            curr_hash = pr3.0;
            curr_data = pr3.1;
            proof {
                assert(curr_hash@ == model::combine_digest(
                    th,
                    path@,
                    depth - i - 1,
                    curr0,
                    eff_td[depth - i - 1],
                ));
                assert(curr_data@ == model::combine_payload(
                    th,
                    path@,
                    depth - i - 1,
                    curr0,
                    eff_td[depth - i - 1],
                ));
                assert(curr_data@[0] == 1u8);
                assert(curr_data@.len() == 1 + 2 * th.n_spec());
            }
            let _ = self.nodes.insert(curr_hash.as_slice(), curr_data.as_slice());
            proof {
                let sub1 = eff_td.subrange(depth - i - 1, m_eff);
                assert(sub1[0] == eff_td[depth - i - 1]);
                assert(sub1.drop_first() =~= eff_td.subrange(depth - i, m_eff));
            }
            i += 1;
        }
        proof {
            assert(eff_td.subrange(0, m_eff) =~= eff_td);
            let eff = model::update_effect(
                th,
                path@,
                value@,
                sides_dv,
                pns_dv,
                old_data@,
                old(self).root@,
                nodes0,
                vals0,
            );
            assert(curr_hash@ == eff.0);
        }
        let _ = self.values.insert(path, value);
        curr_hash
    }

    /// Applies a delete at `path` given the traversal's outcome. Deleting a
    /// key whose slot is empty, or whose slot holds a leaf of a different
    /// path, changes nothing and returns the current root. Otherwise the
    /// pathnode records are removed, the tree collapses upward past
    /// placeholder siblings (a lone surviving leaf bubbles up), and the
    /// value record is removed. The stores change exactly as
    /// [`model::delete_effect`] says; an error is reported iff a sibling
    /// record needed by the collapse is missing.
    #[verifier::loop_isolation(false)]
    #[verifier::rlimit(60)]
    fn _delete(
        &mut self,
        path: &[u8],
        sidenodes: &Vec<Vec<u8>>,
        pathnodes: &Vec<Vec<u8>>,
        old_data: &[u8],
    ) -> (r: Result<Vec<u8>, SmtError>)
        requires
            old(self).wf(),
            path@.len() == old(self).tree_hasher.n_spec(),
            pathnodes@.len() >= 1,
            sidenodes@.len() <= old(self).tree_hasher.depth_spec(),
            forall|j: int|
                0 <= j < sidenodes@.len() ==> (#[trigger] sidenodes@[j])@.len() == old(
                    self,
                ).tree_hasher.n_spec(),
            (pathnodes@[0])@ != old(self).tree_hasher.placeholder_s() ==> old_data@.len() == 1 + 2
                * old(self).tree_hasher.n_spec(),
        ensures
            ({
                let eff = model::delete_effect(
                    old(self).tree_hasher,
                    path@,
                    sidenodes.deep_view(),
                    pathnodes.deep_view(),
                    old_data@,
                    old(self).root@,
                    old(self).nodes.contents(),
                    old(self).values.contents(),
                );
                match eff {
                    Some(e) => {
                        &&& r is Ok
                        &&& r->Ok_0@ == e.0
                        &&& r->Ok_0@.len() == old(self).tree_hasher.n_spec()
                        &&& final(self).nodes.contents() == e.1
                        &&& final(self).values.contents() == e.2
                    },
                    None => {
                        &&& r == Result::<Vec<u8>, SmtError>::Err(SmtError::StoreIo)
                        &&& final(self).nodes.contents() == model::remove_seq(
                            old(self).nodes.contents(),
                            pathnodes.deep_view(),
                        )
                        &&& final(self).values.contents() == old(self).values.contents()
                    },
                }
            }),
            final(self).root == old(self).root,
            final(self).tree_hasher == old(self).tree_hasher,
            final(self).wf(),
    {
        let ghost th = self.tree_hasher;
        let ghost nodes0 = self.nodes.contents();
        let ghost pns_dv = pathnodes.deep_view();
        let ghost sides_dv = sidenodes.deep_view();
        proof {
            assert(pns_dv[0] == (pathnodes@[0])@);
            assert(forall|j: int|
                0 <= j < sides_dv.len() ==> #[trigger] sides_dv[j] == (sidenodes@[j])@);
            assert(forall|j: int|
                0 <= j < pns_dv.len() ==> #[trigger] pns_dv[j] == (pathnodes@[j])@);
        }
        let ph = self.placeholder();
        if bytes_eq(pathnodes[0].as_slice(), ph.as_slice()) {
            return Ok(copy_bytes(&self.root));
        }
        // Per the tree's state machine, deleting a key whose slot is
        // occupied by a leaf of a different path is a no-op.
        let pr = self.tree_hasher.parse_leaf(old_data);
        if !bytes_eq(pr.0.as_slice(), path) {
            return Ok(copy_bytes(&self.root));
        }
        let ghost vals_pre = self.values.contents();
        let ghost root_pre = self.root;
        let mut i: usize = 0;
        while i < pathnodes.len()
            invariant
                0 <= i <= pathnodes@.len(),
                self.nodes.contents() == model::remove_seq(nodes0, pns_dv.subrange(0, i as int)),
                self.values.contents() == vals_pre,
                self.tree_hasher == th,
                self.root == root_pre,
            decreases pathnodes@.len() - i,
        {
            proof {
                model::lemma_remove_seq_push(
                    nodes0,
                    pns_dv.subrange(0, i as int),
                    pns_dv[i as int],
                );
                assert(pns_dv.subrange(0, i + 1) =~= pns_dv.subrange(0, i as int).push(
                    pns_dv[i as int],
                ));
            }
            let _ = self.nodes.delete(pathnodes[i].as_slice());
            i += 1;
        }
        proof {
            assert(pns_dv.subrange(0, pns_dv.len() as int) =~= pns_dv);
            model::lemma_remove_seq_store_ok(th, nodes0, pns_dv);
        }
        let ghost nodes1 = self.nodes.contents();
        let mut curr_hash: Vec<u8> = self.placeholder();
        let mut curr_data: Vec<u8> = Vec::new();
        let mut flag: bool = false;
        let mut i: usize = 0;
        proof {
            assert(sides_dv.skip(0) =~= sides_dv);
        }
        while i < sidenodes.len()
            invariant
                0 <= i <= sides_dv.len(),
                curr_hash@.len() == th.n_spec(),
                self.values.contents() == vals_pre,
                self.tree_hasher == th,
                self.root == root_pre,
                model::store_ok(th, self.nodes.contents()),
                !flag ==> self.nodes.contents() == nodes1,
                model::collapse(
                    th,
                    path@,
                    sides_dv.skip(i as int),
                    self.nodes.contents(),
                    curr_hash@,
                    flag,
                ) == model::collapse(th, path@, sides_dv, nodes1, th.placeholder_s(), false),
            decreases sides_dv.len() - i,
        {
            let ghost rem = sides_dv.skip(i as int);
            proof {
                assert(rem[0] == sides_dv[i as int]);
                assert(rem.drop_first() =~= sides_dv.skip(i + 1));
                assert(rem.len() - 1 == sides_dv.len() - i - 1);
            }
            let s_is_ph = bytes_eq(sidenodes[i].as_slice(), ph.as_slice());
            if !flag {
                if !s_is_ph {
                    let curr_is_ph = bytes_eq(curr_hash.as_slice(), ph.as_slice());
                    if curr_is_ph {
                        let nd = match self.nodes.get(sidenodes[i].as_slice()) {
                            Ok(nd) => nd,
                            Err(_) => {
                                proof {
                                    assert(model::collapse(
                                        th,
                                        path@,
                                        rem,
                                        self.nodes.contents(),
                                        curr_hash@,
                                        false,
                                    ) is None);
                                }
                                return Err(SmtError::StoreIo);
                            },
                        };
                        if self.tree_hasher.is_leaf(nd.as_slice()) {
                            curr_hash = copy_bytes(sidenodes[i].as_slice());
                            i += 1;
                            continue;
                        } else {
                            flag = true;
                        }
                    } else {
                        flag = true;
                    }
                } else {
                    i += 1;
                    continue;
                }
            }
            let ghost curr0 = curr_hash@;
            let pr3;
            if get_msb_at(path, sidenodes.len() - i - 1) == 0 {
                pr3 = self.tree_hasher.digest_node(
                    curr_hash.as_slice(),
                    sidenodes[i].as_slice(),
                );
            } else {
                pr3 = self.tree_hasher.digest_node(
                    sidenodes[i].as_slice(),
                    curr_hash.as_slice(),
                );
            }
            curr_hash = pr3.0;
            curr_data = pr3.1;
            proof {
                assert(curr_hash@ == model::combine_digest(
                    th,
                    path@,
                    rem.len() - 1,
                    curr0,
                    sides_dv[i as int],
                ));
                assert(curr_data@ == model::combine_payload(
                    th,
                    path@,
                    rem.len() - 1,
                    curr0,
                    sides_dv[i as int],
                ));
                assert(curr_data@[0] == 1u8);
                assert(curr_data@.len() == 1 + 2 * th.n_spec());
            }
            let _ = self.nodes.insert(curr_hash.as_slice(), curr_data.as_slice());
            i += 1;
        }
        proof {
            assert(sides_dv.skip(sides_dv.len() as int) =~= Seq::<Seq<u8>>::empty());
        }
        let _ = self.values.delete(path);
        Ok(curr_hash)
    }

    /// Traverses to the key's slot and applies either an insert (non-empty
    /// `value`) or a delete (empty `value`), committing the new root.
    fn update_for_root(&mut self, key: &[u8], value: &[u8]) -> (r: Result<Vec<u8>, SmtError>)
        requires
            old(self).wf(),
        ensures
            final(self).tree_hasher == old(self).tree_hasher,
            final(self).wf(),
            r is Ok ==> r->Ok_0@ == final(self).root@,
            value@.len() > 0 ==> match model::update_outcome(
                old(self).tree_hasher,
                old(self).nodes.contents(),
                old(self).values.contents(),
                old(self).root@,
                old(self).tree_hasher.hash_s(key@),
                value@,
            ) {
                None => {
                    &&& r == Result::<Vec<u8>, SmtError>::Err(SmtError::StoreIo)
                    &&& final(self).root == old(self).root
                    &&& final(self).nodes.contents() == old(self).nodes.contents()
                    &&& final(self).values.contents() == old(self).values.contents()
                },
                Some(e) => {
                    &&& r is Ok
                    &&& r->Ok_0@ == e.0
                    &&& final(self).root@ == e.0
                    &&& final(self).nodes.contents() == e.1
                    &&& final(self).values.contents() == e.2
                },
            },
            value@.len() == 0 ==> match model::delete_outcome(
                old(self).tree_hasher,
                old(self).nodes.contents(),
                old(self).values.contents(),
                old(self).root@,
                old(self).tree_hasher.hash_s(key@),
            ) {
                None => {
                    &&& r == Result::<Vec<u8>, SmtError>::Err(SmtError::StoreIo)
                    &&& final(self).root == old(self).root
                    &&& final(self).nodes.contents() == old(self).nodes.contents()
                    &&& final(self).values.contents() == old(self).values.contents()
                },
                Some(None) => {
                    &&& r == Result::<Vec<u8>, SmtError>::Err(SmtError::StoreIo)
                    &&& final(self).root == old(self).root
                    &&& final(self).nodes.contents() == model::remove_seq(
                        old(self).nodes.contents(),
                        model::traverse(
                            old(self).tree_hasher,
                            old(self).nodes.contents(),
                            old(self).root@,
                            old(self).tree_hasher.hash_s(key@),
                        ).unwrap().1,
                    )
                    &&& final(self).values.contents() == old(self).values.contents()
                },
                Some(Some(e)) => {
                    &&& r is Ok
                    &&& r->Ok_0@ == e.0
                    &&& final(self).root@ == e.0
                    &&& final(self).nodes.contents() == e.1
                    &&& final(self).values.contents() == e.2
                },
            },
    {
        let ghost th = self.tree_hasher;
        let ghost nodes0 = self.nodes.contents();
        let path = self.tree_hasher.path(key);
        let trav = self.sidenodes(self.root.as_slice(), path.as_slice());
        let (sides, pns, old_data) = match trav {
            Ok(t) => t,
            Err(e) => {
                return Err(e);
            },
        };
        let ghost t = model::traverse(th, nodes0, self.root@, path@).unwrap();
        proof {
            model::lemma_traverse_props(th, nodes0, self.root@, path@, t);
            assert(forall|j: int|
                0 <= j < sides@.len() ==> (#[trigger] sides@[j])@ == sides.deep_view()[j]);
            assert(forall|j: int|
                0 <= j < pns@.len() ==> (#[trigger] pns@[j])@ == pns.deep_view()[j]);
        }
        if value.len() == 0 {
            let new_root = match self._delete(path.as_slice(), &sides, &pns, old_data.as_slice()) {
                Ok(h) => h,
                Err(e) => {
                    return Err(e);
                },
            };
            self.root = new_root;
        } else {
            let new_root = self._update(
                path.as_slice(),
                value,
                &sides,
                &pns,
                old_data.as_slice(),
            );
            self.root = new_root;
        }
        Ok(copy_bytes(&self.root))
    }

    /// Binds `value` (which must be non-empty) to `key` and returns the new
    /// root digest; the traversal, the store writes, and the new root are
    /// exactly those of [`model::update_outcome`].
    pub fn update(&mut self, key: &[u8], value: &[u8]) -> (r: Result<Vec<u8>, SmtError>)
        requires
            old(self).wf(),
            value@.len() > 0,
        ensures
            final(self).tree_hasher == old(self).tree_hasher,
            final(self).wf(),
            match model::update_outcome(
                old(self).tree_hasher,
                old(self).nodes.contents(),
                old(self).values.contents(),
                old(self).root@,
                old(self).tree_hasher.hash_s(key@),
                value@,
            ) {
                None => {
                    &&& r == Result::<Vec<u8>, SmtError>::Err(SmtError::StoreIo)
                    &&& final(self).root == old(self).root
                    &&& final(self).nodes.contents() == old(self).nodes.contents()
                    &&& final(self).values.contents() == old(self).values.contents()
                },
                Some(e) => {
                    &&& r is Ok
                    &&& r->Ok_0@ == e.0
                    &&& final(self).root@ == e.0
                    &&& final(self).nodes.contents() == e.1
                    &&& final(self).values.contents() == e.2
                },
            },
    {
        self.update_for_root(key, value)
    }

    /// Removes the binding of `key`, if any, and returns the new root
    /// digest; the traversal, the collapse, and the store writes are exactly
    /// those of [`model::delete_outcome`]. Deleting an absent key leaves the
    /// tree unchanged.
    pub fn delete(&mut self, key: &[u8]) -> (r: Result<Vec<u8>, SmtError>)
        requires
            old(self).wf(),
        ensures
            final(self).tree_hasher == old(self).tree_hasher,
            final(self).wf(),
            match model::delete_outcome(
                old(self).tree_hasher,
                old(self).nodes.contents(),
                old(self).values.contents(),
                old(self).root@,
                old(self).tree_hasher.hash_s(key@),
            ) {
                None => {
                    &&& r == Result::<Vec<u8>, SmtError>::Err(SmtError::StoreIo)
                    &&& final(self).root == old(self).root
                    &&& final(self).nodes.contents() == old(self).nodes.contents()
                    &&& final(self).values.contents() == old(self).values.contents()
                },
                Some(None) => {
                    &&& r == Result::<Vec<u8>, SmtError>::Err(SmtError::StoreIo)
                    &&& final(self).root == old(self).root
                    &&& final(self).nodes.contents() == model::remove_seq(
                        old(self).nodes.contents(),
                        model::traverse(
                            old(self).tree_hasher,
                            old(self).nodes.contents(),
                            old(self).root@,
                            old(self).tree_hasher.hash_s(key@),
                        ).unwrap().1,
                    )
                    &&& final(self).values.contents() == old(self).values.contents()
                },
                Some(Some(e)) => {
                    &&& r is Ok
                    &&& r->Ok_0@ == e.0
                    &&& final(self).root@ == e.0
                    &&& final(self).nodes.contents() == e.1
                    &&& final(self).values.contents() == e.2
                },
            },
    {
        let empty: Vec<u8> = Vec::new();
        self.update_for_root(key, empty.as_slice())
    }

    /// Generates a proof for `key` against `root`: the traversal's
    /// sidenodes, and, if the key's slot is occupied by a leaf of a
    /// different path, that leaf's payload as the non-membership leaf.
    /// Whatever the slot holds, the generated proof verifies against `root`
    /// for the key (see [`model::proof_ok`]): for an empty slot or a foreign
    /// leaf as a proof of exclusion, and for the key's own leaf as a proof
    /// of inclusion under its stored value hash.
    pub fn generate_proof(&self, key: &[u8], root: &[u8]) -> (r: Result<
        SparseMerkleProof,
        SmtError,
    >)
        requires
            self.wf(),
            root@.len() == self.tree_hasher.n_spec(),
        ensures
            ({
                let th = self.tree_hasher;
                let n = th.n_spec() as int;
                let path = th.hash_s(key@);
                match model::traverse(th, self.nodes.contents(), root@, path) {
                    None => r == Result::<SparseMerkleProof, SmtError>::Err(SmtError::StoreIo),
                    Some(t) => {
                        &&& r is Ok
                        &&& r->Ok_0.sidenodes.deep_view() == t.0
                        &&& r->Ok_0.non_membership_leaf_node@ == (if t.1[0] != th.placeholder_s()
                            && t.2.subrange(1, 1 + n) != path {
                            t.2
                        } else {
                            Seq::<u8>::empty()
                        })
                        &&& t.1[0] == th.placeholder_s() ==> model::proof_ok(
                            th,
                            path,
                            None,
                            t.0,
                            r->Ok_0.non_membership_leaf_node@,
                            root@,
                        )
                        &&& t.2.len() > 0 && th.is_leaf_s(t.2) && t.2.subrange(1, 1 + n) == path
                            ==> model::proof_ok(
                            th,
                            path,
                            Some(t.2.subrange(1 + n, t.2.len() as int)),
                            t.0,
                            r->Ok_0.non_membership_leaf_node@,
                            root@,
                        )
                        &&& t.2.len() > 0 && th.is_leaf_s(t.2) && t.2.subrange(1, 1 + n) != path
                            ==> model::proof_ok(
                            th,
                            path,
                            None,
                            t.0,
                            r->Ok_0.non_membership_leaf_node@,
                            root@,
                        )
                    },
                }
            }),
    {
        let ghost th = self.tree_hasher;
        let ghost nodes0 = self.nodes.contents();
        let path = self.tree_hasher.path(key);
        let trav = self.sidenodes(root, path.as_slice());
        let (sides, pns, leaf_data) = match trav {
            Ok(t) => t,
            Err(e) => {
                return Err(e);
            },
        };
        let ghost t = model::traverse(th, nodes0, root@, path@).unwrap();
        proof {
            model::lemma_traverse_props(th, nodes0, root@, path@, t);
            assert(sides.deep_view() == t.0);
            assert((pns@[0])@ == pns.deep_view()[0]);
            assert(pns.deep_view()[0] == t.1[0]);
            assert(leaf_data@ == t.2);
        }
        let ph = self.placeholder();
        let mut non_membership_leaf_node: Vec<u8> = Vec::new();
        if !bytes_eq(pns[0].as_slice(), ph.as_slice()) {
            let pr = self.tree_hasher.parse_leaf(leaf_data.as_slice());
            if !bytes_eq(pr.0.as_slice(), path.as_slice()) {
                non_membership_leaf_node = leaf_data;
            }
        }
        proof {
            let n = th.n_spec() as int;
            assert(t.0.reverse().reverse() =~= t.0);
            if t.2.len() > 0 && th.is_leaf_s(t.2) && t.2.subrange(1, 1 + n) == path@ {
                let vh = t.2.subrange(1 + n, t.2.len() as int);
                assert(t.2 =~= th.leaf_payload_s(path@, vh));
            }
        }
        Ok(SparseMerkleProof { sidenodes: sides, non_membership_leaf_node })
    }

    /// Checks a proof for `key` against `root`: rebuilds the claimed leaf
    /// digest — from the key's path and the hash of `value` for a
    /// membership claim, else from the proof's non-membership leaf or the
    /// placeholder — and rehashes it up through the sidenodes, comparing
    /// the result to `root`.
    #[verifier::loop_isolation(false)]
    pub fn verify_proof(
        &self,
        proof: &SparseMerkleProof,
        key: &[u8],
        value: Option<&Vec<u8>>,
        root: &[u8],
    ) -> (r: bool)
        requires
            self.tree_hasher.wf(),
        ensures
            r == model::proof_ok(
                self.tree_hasher,
                self.tree_hasher.hash_s(key@),
                match value {
                    Some(v) => Some(self.tree_hasher.hash_s(v@)),
                    None => None,
                },
                proof.sidenodes.deep_view(),
                proof.non_membership_leaf_node@,
                root@,
            ),
    {
        let ghost th = self.tree_hasher;
        let ghost sides_dv = proof.sidenodes.deep_view();
        proof {
            assert(forall|j: int|
                0 <= j < sides_dv.len() ==> #[trigger] sides_dv[j] == (proof.sidenodes@[j])@);
        }
        let n = self.tree_hasher.hasher.output_size();
        let depth = self.depth();
        let l = proof.sidenodes.len();
        if l > depth {
            return false;
        }
        let path = self.tree_hasher.path(key);
        let mut curr_hash: Vec<u8>;
        match value {
            Some(v) => {
                let vh = self.tree_hasher.digest(v.as_slice());
                let lp = self.tree_hasher.digest_leaf(path.as_slice(), vh.as_slice());
                curr_hash = lp.0;
            },
            None => {
                if proof.non_membership_leaf_node.len() == 0 {
                    curr_hash = self.placeholder();
                } else {
                    let nm = &proof.non_membership_leaf_node;
                    if nm.len() != 1 + 2 * n {
                        return false;
                    }
                    if !self.tree_hasher.is_leaf(nm.as_slice()) {
                        return false;
                    }
                    let pr = self.tree_hasher.parse_leaf(nm.as_slice());
                    if bytes_eq(pr.0.as_slice(), path.as_slice()) {
                        return false;
                    }
                    curr_hash = self.tree_hasher.digest(nm.as_slice());
                }
            },
        }
        let ghost start = curr_hash@;
        let ghost eff_td = sides_dv.reverse();
        let mut i: usize = 0;
        proof {
            assert(eff_td.subrange(l as int, l as int) =~= Seq::<Seq<u8>>::empty());
        }
        while i < l
            invariant
                0 <= i <= l,
                curr_hash@ == model::rehash_root(
                    th,
                    path@,
                    l - i,
                    eff_td.subrange(l - i, l as int),
                    start,
                ),
            decreases l - i,
        {
            let ghost curr0 = curr_hash@;
            let pr3;
            if get_msb_at(path.as_slice(), l - i - 1) == 0 {
                pr3 = self.tree_hasher.digest_node(
                    curr_hash.as_slice(),
                    proof.sidenodes[i].as_slice(),
                );
            } else {
                pr3 = self.tree_hasher.digest_node(
                    proof.sidenodes[i].as_slice(),
                    curr_hash.as_slice(),
                );
            }
            curr_hash = pr3.0;
            proof {
                assert(eff_td[l - i - 1] == sides_dv[i as int]);
                assert(curr_hash@ == model::combine_digest(
                    th,
                    path@,
                    l - i - 1,
                    curr0,
                    eff_td[l - i - 1],
                ));
                let sub1 = eff_td.subrange(l - i - 1, l as int);
                assert(sub1[0] == eff_td[l - i - 1]);
                assert(sub1.drop_first() =~= eff_td.subrange(l - i, l as int));
            }
            i += 1;
        }
        proof {
            assert(eff_td.subrange(0, l as int) =~= eff_td);
        }
        bytes_eq(curr_hash.as_slice(), root)
    }

    /// Generates a compact proof for `key` against `root`: the proof of
    /// [`Self::generate_proof`] with every placeholder sidenode omitted and
    /// bit `i` of the bitmask set in its stead.
    #[verifier::loop_isolation(false)]
    pub fn generate_compact_proof(&self, key: &[u8], root: &[u8]) -> (r: Result<
        SparseMerkleCompactProof,
        SmtError,
    >)
        requires
            self.wf(),
            root@.len() == self.tree_hasher.n_spec(),
        ensures
            ({
                let th = self.tree_hasher;
                let n = th.n_spec() as int;
                let path = th.hash_s(key@);
                match model::traverse(th, self.nodes.contents(), root@, path) {
                    None => r == Result::<SparseMerkleCompactProof, SmtError>::Err(
                        SmtError::StoreIo,
                    ),
                    Some(t) => {
                        &&& r is Ok
                        &&& r->Ok_0.compact_sidenodes.deep_view() == model::compact_of(th, t.0)
                        &&& r->Ok_0.bitmask@ == model::mask_of(th, t.0)
                        &&& r->Ok_0.non_membership_leaf_node@ == (if t.1[0] != th.placeholder_s()
                            && t.2.subrange(1, 1 + n) != path {
                            t.2
                        } else {
                            Seq::<u8>::empty()
                        })
                    },
                }
            }),
    {
        let ghost th = self.tree_hasher;
        let proof_full = match self.generate_proof(key, root) {
            Ok(p) => p,
            Err(e) => {
                return Err(e);
            },
        };
        let ghost t = model::traverse(
            th,
            self.nodes.contents(),
            root@,
            th.hash_s(key@),
        ).unwrap();
        let ghost sides_dv = proof_full.sidenodes.deep_view();
        proof {
            assert(forall|j: int|
                0 <= j < sides_dv.len() ==> #[trigger] sides_dv[j] == (
                proof_full.sidenodes@[j])@);
        }
        let ph = self.placeholder();
        let mut compact_sidenodes: Vec<Vec<u8>> = Vec::new();
        let mut bitmask: Vec<u8> = Vec::new();
        let mut index: usize = 0;
        proof {
            assert(sides_dv.subrange(0, 0) =~= Seq::<Seq<u8>>::empty());
            assert(compact_sidenodes.deep_view() =~= model::compact_of(
                th,
                sides_dv.subrange(0, 0),
            ));
        }
        while index < proof_full.sidenodes.len()
            invariant
                0 <= index <= sides_dv.len(),
                compact_sidenodes.deep_view() == model::compact_of(
                    th,
                    sides_dv.subrange(0, index as int),
                ),
                bitmask@ == model::mask_of(th, sides_dv.subrange(0, index as int)),
            decreases sides_dv.len() - index,
        {
            proof {
                assert(sides_dv.subrange(0, index + 1).drop_last() =~= sides_dv.subrange(
                    0,
                    index as int,
                ));
                assert(sides_dv.subrange(0, index + 1).last() == sides_dv[index as int]);
            }
            if !bytes_eq(proof_full.sidenodes[index].as_slice(), ph.as_slice()) {
                let ghost prevd = compact_sidenodes.deep_view();
                let c = copy_bytes(proof_full.sidenodes[index].as_slice());
                proof {
                    assert(c.deep_view() =~= sides_dv[index as int]);
                }
                compact_sidenodes.push(c);
                proof {
                    assert(compact_sidenodes.deep_view() =~= prevd.push(sides_dv[index as int]));
                }
            } else {
                set_msb_at(&mut bitmask, index);
            }
            index += 1;
        }
        proof {
            assert(sides_dv.subrange(0, sides_dv.len() as int) =~= sides_dv);
        }
        Ok(
            SparseMerkleCompactProof {
                compact_sidenodes,
                bitmask,
                non_membership_leaf_node: proof_full.non_membership_leaf_node,
            },
        )
    }

    /// Expands a compact proof back into a full proof: position `i` of the
    /// sidenode list is the placeholder where bit `i` of the bitmask is
    /// set, and the next compact sidenode otherwise; the total length is
    /// the number of compact sidenodes plus the number of set bits.
    #[verifier::loop_isolation(false)]
    pub fn expand_compact_proof(&self, proof: &SparseMerkleCompactProof) -> (r: SparseMerkleProof)
        requires
            self.tree_hasher.wf(),
            proof.compact_sidenodes@.len() + 8 * proof.bitmask@.len() <= usize::MAX,
        ensures
            r.sidenodes.deep_view() == model::expand_spec(
                self.tree_hasher,
                proof.compact_sidenodes.deep_view(),
                proof.bitmask@,
            ),
            r.non_membership_leaf_node@ == proof.non_membership_leaf_node@,
    {
        let ghost th = self.tree_hasher;
        let ghost compact_dv = proof.compact_sidenodes.deep_view();
        let ghost mask = proof.bitmask@;
        proof {
            assert(forall|j: int|
                0 <= j < compact_dv.len() ==> #[trigger] compact_dv[j] == (
                proof.compact_sidenodes@[j])@);
        }
        let set_bits = popcount_bytes(proof.bitmask.as_slice());
        let total = proof.compact_sidenodes.len() + set_bits;
        let mut sidenodes: Vec<Vec<u8>> = Vec::new();
        let mut j: usize = 0;
        let mut i: usize = 0;
        while i < total
            invariant
                0 <= i <= total,
                total == compact_dv.len() + model::popcount(mask),
                j <= compact_dv.len(),
                (sidenodes.deep_view(), j as int) == model::expand_build(
                    th,
                    compact_dv,
                    mask,
                    i as int,
                ),
            decreases total - i,
        {
            let ghost prevd = sidenodes.deep_view();
            let in_mask = i < 8 * proof.bitmask.len() && get_msb_at(proof.bitmask.as_slice(), i)
                == 1;
            if in_mask {
                sidenodes.push(self.placeholder());
                proof {
                    assert(sidenodes.deep_view() =~~= prevd.push(th.placeholder_s()));
                }
            } else if j < proof.compact_sidenodes.len() {
                let c = copy_bytes(proof.compact_sidenodes[j].as_slice());
                proof {
                    assert(c.deep_view() =~= compact_dv[j as int]);
                }
                sidenodes.push(c);
                proof {
                    assert(sidenodes.deep_view() =~= prevd.push(compact_dv[j as int]));
                }
                j += 1;
            } else {
                sidenodes.push(self.placeholder());
                proof {
                    assert(sidenodes.deep_view() =~~= prevd.push(th.placeholder_s()));
                }
            }
            i += 1;
        }
        SparseMerkleProof {
            sidenodes,
            non_membership_leaf_node: copy_bytes(proof.non_membership_leaf_node.as_slice()),
        }
    }
}

/// The number of set bits in `mask`.
fn popcount_bytes(mask: &[u8]) -> (r: usize)
    requires
        8 * mask@.len() <= usize::MAX,
    ensures
        r == model::popcount(mask@),
        r <= 8 * mask@.len(),
{
    let mut count: usize = 0;
    let mut i: usize = 0;
    while i < mask.len()
        invariant
            0 <= i <= mask@.len(),
            count == model::popcount(mask@.subrange(0, i as int)),
            count <= 8 * i,
            8 * mask@.len() <= usize::MAX,
        decreases mask@.len() - i,
    {
        let b = mask[i];
        proof {
            assert(((b >> 7) & 1) <= 1 && ((b >> 6) & 1) <= 1 && ((b >> 5) & 1) <= 1 && ((b >> 4)
                & 1) <= 1 && ((b >> 3) & 1) <= 1 && ((b >> 2) & 1) <= 1 && ((b >> 1) & 1) <= 1 && (
            b & 1) <= 1) by (bit_vector);
            assert(mask@.subrange(0, i + 1).drop_last() =~= mask@.subrange(0, i as int));
            assert(mask@.subrange(0, i + 1).last() == mask@[i as int]);
        }
        let ones = ((b >> 7) & 1) + ((b >> 6) & 1) + ((b >> 5) & 1) + ((b >> 4) & 1) + ((b >> 3)
            & 1) + ((b >> 2) & 1) + ((b >> 1) & 1) + (b & 1);
        count = count + ones as usize;
        i += 1;
    }
    proof {
        assert(mask@.subrange(0, mask@.len() as int) =~= mask@);
    }
    count
}

} // verus!
