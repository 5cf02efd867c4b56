//! Laws of the tree, proved once and for all against the model: what an
//! insert of an unchanged value does, what a delete of an absent key does,
//! what a delete leaves in the value store, that the order of two inserts
//! does not matter, that a delete collapses a lone surviving leaf up to the
//! root, and that deleting every key restores the empty tree.

use vstd::prelude::*;
use crate::tree_hasher::{Hasher, TreeHasher};
use crate::model;

verus! {

/// Every record of a well-formed node store is content-addressed: its key
/// is the digest of its payload. The tree's operations require and preserve
/// this (it is part of [`crate::SparseMerkleTree::wf`]), so it holds of
/// every record they write.
pub proof fn lemma_content_addressing<H: Hasher>(
    th: TreeHasher<H>,
    nodes: Map<Seq<u8>, Seq<u8>>,
)
    requires
        model::store_ok(th, nodes),
    ensures
        forall|d: Seq<u8>| #[trigger]
            nodes.contains_key(d) ==> d == th.hash_s(nodes[d]),
{
}

/// Deleting a key whose slot is empty, or whose slot is occupied by a leaf
/// of a different path, changes nothing: the root, the node store and the
/// value store all stay as they were.
pub proof fn lemma_delete_absent_unchanged<H: Hasher>(
    th: TreeHasher<H>,
    nodes: Map<Seq<u8>, Seq<u8>>,
    vals: Map<Seq<u8>, Seq<u8>>,
    root: Seq<u8>,
    path: Seq<u8>,
)
    requires
        model::traverse(th, nodes, root, path) is Some,
        ({
            let t = model::traverse(th, nodes, root, path).unwrap();
            t.1[0] == th.placeholder_s() || t.2.subrange(1, 1 + th.n_spec() as int) != path
        }),
    ensures
        model::delete_outcome(th, nodes, vals, root, path) == Some(Some((root, nodes, vals))),
{
}

/// Inserting a value whose hash matches the value hash already stored in
/// the key's own leaf changes nothing: the root stays as it is, the value
/// store is untouched, and the one record written — the recomputed leaf —
/// is byte-identical to the record already in the node store.
pub proof fn lemma_update_same_value_hash<H: Hasher>(
    th: TreeHasher<H>,
    nodes: Map<Seq<u8>, Seq<u8>>,
    vals: Map<Seq<u8>, Seq<u8>>,
    root: Seq<u8>,
    path: Seq<u8>,
    value: Seq<u8>,
)
    requires
        th.wf(),
        model::store_ok(th, nodes),
        root.len() == th.n_spec(),
        path.len() == th.n_spec(),
        model::traverse(th, nodes, root, path) is Some,
        model::traverse(th, nodes, root, path).unwrap().2 == th.leaf_payload_s(
            path,
            th.hash_s(value),
        ),
    ensures
        model::update_outcome(th, nodes, vals, root, path, value) == Some(((root, nodes, vals))),
{
    let t = model::traverse(th, nodes, root, path).unwrap();
    let n = th.n_spec() as int;
    let vh = th.hash_s(value);
    model::lemma_traverse_props(th, nodes, root, path, t);
    assert(t.2.len() == 1 + n + vh.len());
    assert(t.2.len() == 1 + 2 * n);
    assert(t.2.subrange(1, 1 + n) =~= path);
    assert(t.2.subrange(1 + n, t.2.len() as int) =~= vh);
    crate::utils::lemma_common_prefix_from_same(path, 0);
    assert(crate::utils::common_prefix_of(path, path) == th.depth_spec());
    let leaf_d = th.leaf_digest_s(path, vh);
    assert(t.1[0] == th.hash_s(t.2));
    assert(leaf_d == t.1[0]);
    assert(nodes[leaf_d] == t.2);
    assert(nodes.insert(leaf_d, t.2) =~= nodes);
    let eff = model::update_effect(th, path, value, t.0, t.1, t.2, root, nodes, vals);
    assert(eff.0 == root);
}

/// After a delete that found the key's own leaf, the value store holds no
/// record at the key's path; after a delete that found nothing to do, the
/// value store is exactly what it was.
pub proof fn lemma_delete_clears_value<H: Hasher>(
    th: TreeHasher<H>,
    nodes: Map<Seq<u8>, Seq<u8>>,
    vals: Map<Seq<u8>, Seq<u8>>,
    root: Seq<u8>,
    path: Seq<u8>,
)
    requires
        model::delete_outcome(th, nodes, vals, root, path) matches Some(Some(e)),
    ensures
        ({
            let t = model::traverse(th, nodes, root, path).unwrap();
            let e = model::delete_outcome(th, nodes, vals, root, path).unwrap().unwrap();
            if t.1[0] != th.placeholder_s() && t.2.subrange(1, 1 + th.n_spec() as int) == path {
                e.2 == vals.remove(path) && !e.2.contains_key(path)
            } else {
                e.2 == vals
            }
        }),
{
}

/// After an insert whose new root is not the placeholder, and which did not
/// hit the idempotent case (the slot already holding this key's leaf with
/// this value's hash), reading the key back yields exactly the value.
pub proof fn lemma_update_then_get<H: Hasher>(
    th: TreeHasher<H>,
    nodes: Map<Seq<u8>, Seq<u8>>,
    vals: Map<Seq<u8>, Seq<u8>>,
    root: Seq<u8>,
    path: Seq<u8>,
    value: Seq<u8>,
)
    requires
        model::update_outcome(th, nodes, vals, root, path, value) is Some,
        model::update_outcome(th, nodes, vals, root, path, value).unwrap().0
            != th.placeholder_s(),
        ({
            let t = model::traverse(th, nodes, root, path).unwrap();
            let n = th.n_spec() as int;
            t.1[0] == th.placeholder_s() || crate::utils::common_prefix_of(
                t.2.subrange(1, 1 + n),
                path,
            ) != th.depth_spec() || t.2.subrange(1 + n, t.2.len() as int) != th.hash_s(value)
        }),
    ensures
        ({
            let e = model::update_outcome(th, nodes, vals, root, path, value).unwrap();
            model::get_result(th, e.2, e.0, path) == value
        }),
{
}

/// Deleting the only key of a tree that consists of a single leaf restores
/// the empty tree: the root becomes the placeholder, the leaf record is
/// removed from the node store, and the value record is removed.
pub proof fn lemma_delete_single_leaf<H: Hasher>(
    th: TreeHasher<H>,
    nodes: Map<Seq<u8>, Seq<u8>>,
    vals: Map<Seq<u8>, Seq<u8>>,
    root: Seq<u8>,
    path: Seq<u8>,
)
    requires
        th.wf(),
        root != th.placeholder_s(),
        nodes.contains_key(root),
        th.is_leaf_s(nodes[root]),
        nodes[root].subrange(1, 1 + th.n_spec() as int) == path,
    ensures
        model::delete_outcome(th, nodes, vals, root, path) == Some(
            Some((th.placeholder_s(), nodes.remove(root), vals.remove(path))),
        ),
{
    let t = model::traverse(th, nodes, root, path).unwrap();
    assert(t.1[0] == root);
    assert(t.2 == nodes[root]);
    let pns = seq![root];
    assert(pns.drop_first() =~= Seq::<Seq<u8>>::empty());
    assert(model::remove_seq(nodes.remove(root), pns.drop_first()) == nodes.remove(root));
    assert(model::remove_seq(nodes, t.1) == nodes.remove(root));
    assert(model::collapse(th, path, t.0, nodes.remove(root), th.placeholder_s(), false)
        == Some((th.placeholder_s(), nodes.remove(root))));
}

/// Deleting a key whose leaf has exactly one non-placeholder sibling along
/// its path — a leaf — collapses the tree to that surviving leaf: the new
/// root is the survivor's own digest, whatever depth the tree had.
pub proof fn lemma_delete_promotes_surviving_leaf<H: Hasher>(
    th: TreeHasher<H>,
    nodes: Map<Seq<u8>, Seq<u8>>,
    vals: Map<Seq<u8>, Seq<u8>>,
    root: Seq<u8>,
    path: Seq<u8>,
)
    requires
        model::traverse(th, nodes, root, path) is Some,
        ({
            let t = model::traverse(th, nodes, root, path).unwrap();
            let survivor = t.0[0];
            let nodes1 = model::remove_seq(nodes, t.1);
            &&& t.1[0] != th.placeholder_s()
            &&& t.2.subrange(1, 1 + th.n_spec() as int) == path
            &&& t.0.len() >= 1
            &&& survivor != th.placeholder_s()
            &&& nodes1.contains_key(survivor)
            &&& th.is_leaf_s(nodes1[survivor])
            &&& forall|j: int| 1 <= j < t.0.len() ==> #[trigger] t.0[j] == th.placeholder_s()
        }),
    ensures
        ({
            let t = model::traverse(th, nodes, root, path).unwrap();
            model::delete_outcome(th, nodes, vals, root, path) == Some(
                Some((t.0[0], model::remove_seq(nodes, t.1), vals.remove(path))),
            )
        }),
{
    let t = model::traverse(th, nodes, root, path).unwrap();
    let nodes1 = model::remove_seq(nodes, t.1);
    model::lemma_collapse_promotes_lone_leaf(th, path, t.0, nodes1);
}

/// The root after an insert into the empty tree is the new leaf's digest,
/// the node store holds exactly that leaf record, and the value store binds
/// the path to the value.
pub proof fn lemma_insert_into_empty<H: Hasher>(
    th: TreeHasher<H>,
    path: Seq<u8>,
    value: Seq<u8>,
)
    requires
        th.wf(),
        path.len() == th.n_spec(),
    ensures
        model::update_outcome(
            th,
            Map::empty(),
            Map::empty(),
            th.placeholder_s(),
            path,
            value,
        ) == Some(
            (
                th.leaf_digest_s(path, th.hash_s(value)),
                Map::<Seq<u8>, Seq<u8>>::empty().insert(
                    th.leaf_digest_s(path, th.hash_s(value)),
                    th.leaf_payload_s(path, th.hash_s(value)),
                ),
                Map::<Seq<u8>, Seq<u8>>::empty().insert(path, value),
            ),
        ),
{
    let t = model::traverse(
        th,
        Map::empty(),
        th.placeholder_s(),
        path,
    ).unwrap();
    assert(t.1[0] == th.placeholder_s());
    assert(t.1.drop_first() =~= Seq::<Seq<u8>>::empty());
    assert(t.0.reverse() =~= Seq::<Seq<u8>>::empty());
}

/// Inserting two bindings with distinct paths into the empty tree gives the
/// same root and the same value store in either order: the root combines
/// the two leaf digests at the first bit where the paths diverge, under
/// placeholder siblings along the shared prefix.
pub proof fn lemma_two_inserts_commute<H: Hasher>(
    th: TreeHasher<H>,
    p1: Seq<u8>,
    p2: Seq<u8>,
    v1: Seq<u8>,
    v2: Seq<u8>,
)
    requires
        th.wf(),
        p1.len() == th.n_spec(),
        p2.len() == th.n_spec(),
        p1 != p2,
        th.leaf_digest_s(p1, th.hash_s(v1)) != th.placeholder_s(),
        th.leaf_digest_s(p2, th.hash_s(v2)) != th.placeholder_s(),
    ensures
        ({
            let empty_m = Map::<Seq<u8>, Seq<u8>>::empty();
            let e1 = model::update_outcome(th, empty_m, empty_m, th.placeholder_s(), p1, v1);
            let e12 = model::update_outcome(
                th,
                e1.unwrap().1,
                e1.unwrap().2,
                e1.unwrap().0,
                p2,
                v2,
            );
            let e2 = model::update_outcome(th, empty_m, empty_m, th.placeholder_s(), p2, v2);
            let e21 = model::update_outcome(
                th,
                e2.unwrap().1,
                e2.unwrap().2,
                e2.unwrap().0,
                p1,
                v1,
            );
            &&& e1 is Some && e12 is Some && e2 is Some && e21 is Some
            &&& e12.unwrap().0 == e21.unwrap().0
            &&& e12.unwrap().2 == e21.unwrap().2
        }),
{
    let n = th.n_spec() as int;
    let depth = th.depth_spec() as int;
    let empty_m = Map::<Seq<u8>, Seq<u8>>::empty();
    let vh1 = th.hash_s(v1);
    let vh2 = th.hash_s(v2);
    let leaf1_d = th.leaf_digest_s(p1, vh1);
    let leaf1_p = th.leaf_payload_s(p1, vh1);
    let leaf2_d = th.leaf_digest_s(p2, vh2);
    let leaf2_p = th.leaf_payload_s(p2, vh2);

    lemma_insert_into_empty(th, p1, v1);
    lemma_insert_into_empty(th, p2, v2);
    let nodes1 = empty_m.insert(leaf1_d, leaf1_p);
    let nodes2 = empty_m.insert(leaf2_d, leaf2_p);

    // The common prefix of the two paths, the same in either order, is
    // shorter than the full width, the bits agree below it and differ at it.
    crate::utils::lemma_common_prefix_sym(p1, p2, 0);
    crate::utils::lemma_common_prefix_props(p1, p2, 0);
    let cpl = crate::utils::common_prefix_of(p1, p2);
    assert(cpl < depth) by {
        if cpl == depth {
            crate::utils::lemma_bits_eq_bytes(p1, p2);
        }
    }

    // Second insert, first order: the traversal finds the first leaf.
    assert(leaf1_p[0] == 0u8);
    assert(th.is_leaf_s(leaf1_p));
    let t12 = model::traverse(th, nodes1, leaf1_d, p2).unwrap();
    assert(t12.0 == Seq::<Seq<u8>>::empty() && t12.1 == seq![leaf1_d] && t12.2 == leaf1_p);
    assert(leaf1_p.subrange(1, 1 + n) =~= p1);
    assert(t12.1.drop_first() =~= Seq::<Seq<u8>>::empty());
    assert(t12.0.reverse() =~= Seq::<Seq<u8>>::empty());
    assert(t12.0.reverse() + model::placeholders(th, cpl - 0) =~= model::placeholders(th, cpl));
    let bridge12 = model::combine_digest(th, p2, cpl, leaf2_d, leaf1_d);
    let root12 = model::rehash_root(th, p2, 0, model::placeholders(th, cpl), bridge12);
    let e12 = model::update_effect(th, p2, v2, t12.0, t12.1, t12.2, leaf1_d, nodes1, empty_m.insert(p1, v1));
    assert(e12.0 == root12);
    assert(e12.2 == empty_m.insert(p1, v1).insert(p2, v2));

    // Second insert, other order.
    assert(leaf2_p[0] == 0u8);
    let t21 = model::traverse(th, nodes2, leaf2_d, p1).unwrap();
    assert(t21.0 == Seq::<Seq<u8>>::empty() && t21.1 == seq![leaf2_d] && t21.2 == leaf2_p);
    assert(leaf2_p.subrange(1, 1 + n) =~= p2);
    crate::utils::lemma_common_prefix_sym(p2, p1, 0);
    assert(crate::utils::common_prefix_of(p2, p1) == cpl);
    assert(t21.1.drop_first() =~= Seq::<Seq<u8>>::empty());
    assert(t21.0.reverse() =~= Seq::<Seq<u8>>::empty());
    assert(t21.0.reverse() + model::placeholders(th, cpl - 0) =~= model::placeholders(th, cpl));
    let bridge21 = model::combine_digest(th, p1, cpl, leaf1_d, leaf2_d);
    let root21 = model::rehash_root(th, p1, 0, model::placeholders(th, cpl), bridge21);
    let e21 = model::update_effect(th, p1, v1, t21.0, t21.1, t21.2, leaf2_d, nodes2, empty_m.insert(p2, v2));
    assert(e21.0 == root21);

    // The bridging node is the same in both orders: the diverging bit puts
    // each leaf on the same side.
    assert(crate::utils::bit_of(p1, cpl) != crate::utils::bit_of(p2, cpl));
    assert(model::combine_payload(th, p2, cpl, leaf2_d, leaf1_d) == model::combine_payload(
        th,
        p1,
        cpl,
        leaf1_d,
        leaf2_d,
    ));
    assert(bridge12 == bridge21);

    // The placeholder levels above it read only the shared prefix bits.
    assert(forall|q: int|
        0 <= q < cpl ==> #[trigger] crate::utils::bit_of(p1, q) == crate::utils::bit_of(p2, q));
    model::lemma_rehash_root_agrees(th, p1, p2, 0, model::placeholders(th, cpl), bridge12);
    assert(root12 == root21);

    // The value stores agree because the paths are distinct keys.
    assert(empty_m.insert(p1, v1).insert(p2, v2) =~= empty_m.insert(p2, v2).insert(p1, v1));
}

/// The chain of digests an insert of the second of two keys writes above
/// their bridging node: entry `j` is the digest at depth `j`, entry `cpl`
/// (at the first diverging bit) the bridging node's own digest.
pub open spec fn two_leaf_chain<H: Hasher>(
    th: TreeHasher<H>,
    p1: Seq<u8>,
    p2: Seq<u8>,
    v1: Seq<u8>,
    v2: Seq<u8>,
) -> Seq<Seq<u8>> {
    let cpl = crate::utils::common_prefix_of(p1, p2);
    let bridge_d = model::combine_digest(
        th,
        p2,
        cpl,
        th.leaf_digest_s(p2, th.hash_s(v2)),
        th.leaf_digest_s(p1, th.hash_s(v1)),
    );
    Seq::new(
        (cpl + 1) as nat,
        |j: int| model::rehash_root(th, p2, j, model::placeholders(th, cpl - j), bridge_d),
    )
}

/// The digests a two-leaf tree writes are benign: they have the hash's
/// width, none is the placeholder or one of the two leaf digests, and they
/// do not collide with each other. Any collision-resistant hash satisfies
/// this on all but a vanishing fraction of inputs; it cannot be derived
/// from an uninterpreted hash function.
pub open spec fn two_leaf_chain_benign<H: Hasher>(
    th: TreeHasher<H>,
    p1: Seq<u8>,
    p2: Seq<u8>,
    v1: Seq<u8>,
    v2: Seq<u8>,
) -> bool {
    let cpl = crate::utils::common_prefix_of(p1, p2);
    let chain = two_leaf_chain(th, p1, p2, v1, v2);
    let leaf1_d = th.leaf_digest_s(p1, th.hash_s(v1));
    let leaf2_d = th.leaf_digest_s(p2, th.hash_s(v2));
    &&& forall|j: int, k: int| 0 <= j < k <= cpl ==> #[trigger] chain[j] != #[trigger] chain[k]
    &&& forall|j: int|
        0 <= j <= cpl ==> (#[trigger] chain[j]) != th.placeholder_s() && chain[j] != leaf1_d
            && chain[j] != leaf2_d && chain[j].len() == th.n_spec()
    &&& leaf1_d != leaf2_d
    &&& leaf1_d != th.placeholder_s()
    &&& leaf2_d != th.placeholder_s()
    &&& leaf1_d.len() == th.n_spec()
    &&& leaf2_d.len() == th.n_spec()
}

/// The payload of the two-leaf tree's node at depth `j`: the bridging node
/// at the diverging bit, or an internal node holding the next chain digest
/// beside a placeholder above it.
spec fn two_leaf_payload<H: Hasher>(
    th: TreeHasher<H>,
    p1: Seq<u8>,
    p2: Seq<u8>,
    v1: Seq<u8>,
    v2: Seq<u8>,
    j: int,
) -> Seq<u8> {
    let cpl = crate::utils::common_prefix_of(p1, p2);
    let chain = two_leaf_chain(th, p1, p2, v1, v2);
    if j == cpl {
        model::combine_payload(
            th,
            p2,
            cpl,
            th.leaf_digest_s(p2, th.hash_s(v2)),
            th.leaf_digest_s(p1, th.hash_s(v1)),
        )
    } else {
        model::combine_payload(th, p2, j, chain[j + 1], th.placeholder_s())
    }
}

/// The node store of the two-leaf tree: both leaf records, the bridging
/// record, and the chain above it.
spec fn two_leaf_nodes<H: Hasher>(
    th: TreeHasher<H>,
    p1: Seq<u8>,
    p2: Seq<u8>,
    v1: Seq<u8>,
    v2: Seq<u8>,
) -> Map<Seq<u8>, Seq<u8>> {
    let cpl = crate::utils::common_prefix_of(p1, p2);
    let chain = two_leaf_chain(th, p1, p2, v1, v2);
    let m3 = Map::<Seq<u8>, Seq<u8>>::empty().insert(
        th.leaf_digest_s(p1, th.hash_s(v1)),
        th.leaf_payload_s(p1, th.hash_s(v1)),
    ).insert(th.leaf_digest_s(p2, th.hash_s(v2)), th.leaf_payload_s(p2, th.hash_s(v2))).insert(
        chain[cpl],
        two_leaf_payload(th, p1, p2, v1, v2, cpl),
    );
    model::rehash_writes(th, p2, 0, model::placeholders(th, cpl), chain[cpl], m3)
}

/// What the walk below depth `j` of the two-leaf tree returns: placeholder
/// siblings with the first leaf's digest at the bottom, the chain of
/// pathnodes ending in the second leaf's digest, and the second leaf's
/// payload.
spec fn two_leaf_walk_expected<H: Hasher>(
    th: TreeHasher<H>,
    p1: Seq<u8>,
    p2: Seq<u8>,
    v1: Seq<u8>,
    v2: Seq<u8>,
    j: int,
) -> (Seq<Seq<u8>>, Seq<Seq<u8>>, Seq<u8>) {
    let cpl = crate::utils::common_prefix_of(p1, p2);
    let chain = two_leaf_chain(th, p1, p2, v1, v2);
    (
        model::placeholders(th, cpl - j).push(th.leaf_digest_s(p1, th.hash_s(v1))),
        Seq::new(
            (cpl - j + 1) as nat,
            |k: int|
                if k < cpl - j {
                    chain[j + 1 + k]
                } else {
                    th.leaf_digest_s(p2, th.hash_s(v2))
                },
        ),
        th.leaf_payload_s(p2, th.hash_s(v2)),
    )
}

/// Below depth `j`, the two-leaf tree's walk along the second path passes
/// the placeholder siblings and the first leaf's digest, and ends at the
/// second leaf.
proof fn lemma_two_leaf_walk<H: Hasher>(
    th: TreeHasher<H>,
    p1: Seq<u8>,
    p2: Seq<u8>,
    v1: Seq<u8>,
    v2: Seq<u8>,
    j: int,
)
    requires
        th.wf(),
        p1.len() == th.n_spec(),
        p2.len() == th.n_spec(),
        p1 != p2,
        two_leaf_chain_benign(th, p1, p2, v1, v2),
        0 <= j <= crate::utils::common_prefix_of(p1, p2),
    ensures
        model::walk(
            th,
            two_leaf_nodes(th, p1, p2, v1, v2),
            two_leaf_payload(th, p1, p2, v1, v2, j),
            p2,
            j,
        ) == Some(two_leaf_walk_expected(th, p1, p2, v1, v2, j)),
    decreases crate::utils::common_prefix_of(p1, p2) - j,
{
    let n = th.n_spec() as int;
    let depth = th.depth_spec() as int;
    crate::utils::lemma_common_prefix_props(p1, p2, 0);
    let cpl = crate::utils::common_prefix_of(p1, p2);
    assert(cpl < depth) by {
        if cpl == depth {
            crate::utils::lemma_bits_eq_bytes(p1, p2);
        }
    }
    let chain = two_leaf_chain(th, p1, p2, v1, v2);
    let leaf1_d = th.leaf_digest_s(p1, th.hash_s(v1));
    let leaf1_p = th.leaf_payload_s(p1, th.hash_s(v1));
    let leaf2_d = th.leaf_digest_s(p2, th.hash_s(v2));
    let leaf2_p = th.leaf_payload_s(p2, th.hash_s(v2));
    let nodes12 = two_leaf_nodes(th, p1, p2, v1, v2);
    let tds = model::placeholders(th, cpl);
    let m3 = Map::<Seq<u8>, Seq<u8>>::empty().insert(leaf1_d, leaf1_p).insert(
        leaf2_d,
        leaf2_p,
    ).insert(chain[cpl], two_leaf_payload(th, p1, p2, v1, v2, cpl));
    assert(forall|k: int| 0 <= k < cpl ==> #[trigger] tds.skip(k) =~= model::placeholders(
        th,
        cpl - k,
    ));
    assert(forall|k: int|
        0 <= k < cpl ==> model::rehash_root(th, p2, k, #[trigger] tds.skip(k), chain[cpl])
            == chain[k]);
    let payload_j = two_leaf_payload(th, p1, p2, v1, v2, j);
    if j == cpl {
        // The bridging node: its child on the path is the second leaf, its
        // sibling the first.
        let child = leaf2_d;
        let side = leaf1_d;
        assert(payload_j.subrange(1, 1 + n) =~= (if !crate::utils::bit_of(p2, cpl) {
            child
        } else {
            side
        }));
        assert(payload_j.subrange(1 + n, payload_j.len() as int) =~= (if !crate::utils::bit_of(
            p2,
            cpl,
        ) {
            side
        } else {
            child
        }));
        model::lemma_rehash_writes_other(th, p2, 0, tds, chain[cpl], m3, leaf2_d);
        assert(nodes12.contains_key(leaf2_d) && nodes12[leaf2_d] == leaf2_p);
        assert(leaf2_p[0] == 0u8);
        let expected = two_leaf_walk_expected(th, p1, p2, v1, v2, j);
        assert(expected.0 =~= seq![side]);
        assert(expected.1 =~= seq![child]);
        assert(model::walk(th, nodes12, payload_j, p2, j) == Some(expected));
    } else {
        let child = chain[j + 1];
        assert(payload_j.subrange(1, 1 + n) =~= (if !crate::utils::bit_of(p2, j) {
            child
        } else {
            th.placeholder_s()
        }));
        assert(payload_j.subrange(1 + n, payload_j.len() as int) =~= (if !crate::utils::bit_of(
            p2,
            j,
        ) {
            th.placeholder_s()
        } else {
            child
        }));
        // The child record holds the next level's payload.
        if j + 1 == cpl {
            model::lemma_rehash_writes_other(th, p2, 0, tds, chain[cpl], m3, chain[cpl]);
            assert(nodes12.contains_key(chain[cpl]) && nodes12[chain[cpl]]
                == two_leaf_payload(th, p1, p2, v1, v2, cpl));
        } else {
            model::lemma_rehash_writes_level(th, p2, 0, tds, chain[cpl], m3, j + 1);
            assert(tds.skip(j + 2) =~= model::placeholders(th, cpl - (j + 2)));
            assert(nodes12[chain[j + 1]] == model::combine_payload(
                th,
                p2,
                j + 1,
                chain[j + 2],
                tds[j + 1],
            ));
            assert(nodes12[chain[j + 1]] == two_leaf_payload(th, p1, p2, v1, v2, j + 1));
        }
        assert(nodes12[child][0] == 1u8);
        lemma_two_leaf_walk(th, p1, p2, v1, v2, j + 1);
        let inner = two_leaf_walk_expected(th, p1, p2, v1, v2, j + 1);
        assert(model::walk(th, nodes12, payload_j, p2, j) == Some(
            (seq![th.placeholder_s()] + inner.0, seq![child] + inner.1, inner.2),
        ));
        let expected = two_leaf_walk_expected(th, p1, p2, v1, v2, j);
        assert(expected.0 =~= seq![th.placeholder_s()] + inner.0);
        assert(expected.1 =~= seq![child] + inner.1);
        assert(model::walk(th, nodes12, payload_j, p2, j) == Some(expected));
    }
}

/// Inserting two bindings with distinct paths into the empty tree and then
/// deleting them again, assuming the written digests do not collide:
/// deleting the second key collapses the tree to the first key's leaf — the
/// root is exactly that leaf's digest, whatever depth the tree reached —
/// and deleting the first key then restores the placeholder root and the
/// empty value store.
pub proof fn lemma_two_inserts_then_deletes<H: Hasher>(
    th: TreeHasher<H>,
    p1: Seq<u8>,
    p2: Seq<u8>,
    v1: Seq<u8>,
    v2: Seq<u8>,
)
    requires
        th.wf(),
        p1.len() == th.n_spec(),
        p2.len() == th.n_spec(),
        p1 != p2,
        two_leaf_chain_benign(th, p1, p2, v1, v2),
    ensures
        ({
            let empty_m = Map::<Seq<u8>, Seq<u8>>::empty();
            let e1 = model::update_outcome(th, empty_m, empty_m, th.placeholder_s(), p1, v1);
            let e12 = model::update_outcome(
                th,
                e1.unwrap().1,
                e1.unwrap().2,
                e1.unwrap().0,
                p2,
                v2,
            );
            let d2 = model::delete_outcome(
                th,
                e12.unwrap().1,
                e12.unwrap().2,
                e12.unwrap().0,
                p2,
            );
            &&& e1 is Some && e12 is Some
            &&& d2 is Some && d2.unwrap() is Some
            &&& d2.unwrap().unwrap().0 == th.leaf_digest_s(p1, th.hash_s(v1))
            &&& d2.unwrap().unwrap().2 == Map::<Seq<u8>, Seq<u8>>::empty().insert(p1, v1)
            &&& ({
                let s3 = d2.unwrap().unwrap();
                let d1 = model::delete_outcome(th, s3.1, s3.2, s3.0, p1);
                &&& d1 is Some && d1.unwrap() is Some
                &&& d1.unwrap().unwrap().0 == th.placeholder_s()
                &&& d1.unwrap().unwrap().2 == Map::<Seq<u8>, Seq<u8>>::empty()
            })
        }),
{
    let n = th.n_spec() as int;
    let depth = th.depth_spec() as int;
    let empty_m = Map::<Seq<u8>, Seq<u8>>::empty();
    let vh1 = th.hash_s(v1);
    let vh2 = th.hash_s(v2);
    let leaf1_d = th.leaf_digest_s(p1, vh1);
    let leaf1_p = th.leaf_payload_s(p1, vh1);
    let leaf2_d = th.leaf_digest_s(p2, vh2);
    let leaf2_p = th.leaf_payload_s(p2, vh2);
    let chain = two_leaf_chain(th, p1, p2, v1, v2);
    crate::utils::lemma_common_prefix_props(p1, p2, 0);
    let cpl = crate::utils::common_prefix_of(p1, p2);
    assert(cpl < depth) by {
        if cpl == depth {
            crate::utils::lemma_bits_eq_bytes(p1, p2);
        }
    }
    let bridge_d = model::combine_digest(th, p2, cpl, leaf2_d, leaf1_d);
    let bridge_p = model::combine_payload(th, p2, cpl, leaf2_d, leaf1_d);
    assert(model::placeholders(th, 0) =~= Seq::<Seq<u8>>::empty());
    assert(chain[cpl] == bridge_d);

    // The two inserts build exactly the two-leaf tree.
    lemma_insert_into_empty(th, p1, v1);
    let nodes1 = empty_m.insert(leaf1_d, leaf1_p);
    assert(leaf1_p[0] == 0u8);
    let t12 = model::traverse(th, nodes1, leaf1_d, p2).unwrap();
    assert(t12.0 == Seq::<Seq<u8>>::empty() && t12.1 == seq![leaf1_d] && t12.2 == leaf1_p);
    assert(leaf1_p.subrange(1, 1 + n) =~= p1);
    assert(t12.1.drop_first() =~= Seq::<Seq<u8>>::empty());
    let m3 = nodes1.insert(leaf2_d, leaf2_p).insert(chain[cpl], two_leaf_payload(th, p1, p2, v1, v2, cpl));
    let sides_td = t12.0.reverse() + model::placeholders(th, cpl - t12.0.len());
    assert(sides_td =~= model::placeholders(th, cpl));
    let nodes12 = two_leaf_nodes(th, p1, p2, v1, v2);
    let vals12 = empty_m.insert(p1, v1).insert(p2, v2);
    let e12 = model::update_effect(th, p2, v2, t12.0, t12.1, t12.2, leaf1_d, nodes1, empty_m.insert(p1, v1));
    assert(e12.0 == chain[0]);
    assert(e12.1 == nodes12);
    assert(e12.2 == vals12);

    // The traversal of the second path walks the chain down to its leaf.
    let tds = model::placeholders(th, cpl);
    assert(forall|k: int| 0 <= k < cpl ==> #[trigger] tds.skip(k) =~= model::placeholders(
        th,
        cpl - k,
    ));
    assert(forall|k: int|
        0 <= k < cpl ==> model::rehash_root(th, p2, k, #[trigger] tds.skip(k), chain[cpl])
            == chain[k]);
    if cpl == 0 {
        assert(nodes12 == m3);
        assert(nodes12.contains_key(chain[0]) && nodes12[chain[0]] == two_leaf_payload(
            th,
            p1,
            p2,
            v1,
            v2,
            0,
        ));
    } else {
        model::lemma_rehash_writes_level(th, p2, 0, tds, chain[cpl], m3, 0);
        assert(tds.skip(1) =~= model::placeholders(th, cpl - 1));
        assert(nodes12.contains_key(chain[0]) && nodes12[chain[0]] == two_leaf_payload(
            th,
            p1,
            p2,
            v1,
            v2,
            0,
        ));
    }
    assert(nodes12[chain[0]][0] == 1u8);
    lemma_two_leaf_walk(th, p1, p2, v1, v2, 0);
    let w = two_leaf_walk_expected(th, p1, p2, v1, v2, 0);
    let t = model::traverse(th, nodes12, chain[0], p2).unwrap();
    assert(t.0 == w.0.reverse() && t.1 == (seq![chain[0]] + w.1).reverse() && t.2 == leaf2_p);
    assert(t.0 =~= seq![leaf1_d] + model::placeholders(th, cpl));
    assert(t.0[0] == leaf1_d);
    assert(forall|j: int| 1 <= j < t.0.len() ==> #[trigger] t.0[j] == th.placeholder_s());
    assert(t.1.len() == cpl + 2);
    assert(forall|m: int|
        0 <= m < t.1.len() ==> #[trigger] t.1[m] == (if m == 0 {
            leaf2_d
        } else {
            chain[cpl + 1 - m]
        }));
    assert(t.2.subrange(1, 1 + n) =~= p2);

    // The first delete promotes the surviving leaf.
    let nodes_del = model::remove_seq(nodes12, t.1);
    assert(forall|m: int| 0 <= m < t.1.len() ==> #[trigger] t.1[m] != leaf1_d);
    model::lemma_remove_seq_other(nodes12, t.1, leaf1_d);
    model::lemma_rehash_writes_other(th, p2, 0, tds, chain[cpl], m3, leaf1_d);
    assert(nodes_del.contains_key(leaf1_d) && nodes_del[leaf1_d] == leaf1_p);
    lemma_delete_promotes_surviving_leaf(th, nodes12, vals12, chain[0], p2);
    assert(model::delete_outcome(th, nodes12, vals12, chain[0], p2) == Some(
        Some((leaf1_d, nodes_del, vals12.remove(p2))),
    ));
    assert(vals12.remove(p2) =~= empty_m.insert(p1, v1));

    // The second delete empties the tree.
    lemma_delete_single_leaf(th, nodes_del, empty_m.insert(p1, v1), leaf1_d, p1);
    assert(empty_m.insert(p1, v1).remove(p1) =~= empty_m);
}

} // verus!
