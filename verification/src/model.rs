//! The mathematical model of the tree: a spec-level mirror of the sidenode
//! traversal, of the upward rehash performed by insert and delete, and of the
//! store records each operation writes. The engine's contracts are stated
//! against these functions.

use vstd::prelude::*;
use crate::tree_hasher::{Hasher, TreeHasher};
use crate::utils::bit_of;

verus! {

/// The payload of the internal node formed by combining the running digest
/// `curr` with the sibling `side` at depth `i`: `curr` goes on the side the
/// path's bit `i` selects.
pub open spec fn combine_payload<H: Hasher>(
    th: TreeHasher<H>,
    path: Seq<u8>,
    i: int,
    curr: Seq<u8>,
    side: Seq<u8>,
) -> Seq<u8> {
    if !bit_of(path, i) {
        th.node_payload_s(curr, side)
    } else {
        th.node_payload_s(side, curr)
    }
}

/// The digest of that combined internal node.
pub open spec fn combine_digest<H: Hasher>(
    th: TreeHasher<H>,
    path: Seq<u8>,
    i: int,
    curr: Seq<u8>,
    side: Seq<u8>,
) -> Seq<u8> {
    th.hash_s(combine_payload(th, path, i, curr, side))
}

/// Every record of the node store is well-formed: the key is the digest of
/// the payload (content-addressing), payloads have the exact width of a node
/// payload, and their first byte is one of the two node kinds.
pub open spec fn store_ok<H: Hasher>(th: TreeHasher<H>, nodes: Map<Seq<u8>, Seq<u8>>) -> bool {
    forall|d: Seq<u8>| #[trigger]
        nodes.contains_key(d) ==> {
            &&& nodes[d].len() == 1 + 2 * th.n_spec()
            &&& (nodes[d][0] == 0u8 || nodes[d][0] == 1u8)
            &&& d == th.hash_s(nodes[d])
            &&& d.len() == th.n_spec()
        }
}

/// One step of the downward traversal below an internal node whose payload
/// is `payload`, at depth `i`: returns the sidenodes and pathnodes collected
/// below that node, top-down, and the terminal leaf payload (empty if the
/// traversal ended at a placeholder). `None` means a digest on the path is
/// missing from the node store.
pub open spec fn walk<H: Hasher>(
    th: TreeHasher<H>,
    nodes: Map<Seq<u8>, Seq<u8>>,
    payload: Seq<u8>,
    path: Seq<u8>,
    i: int,
) -> Option<(Seq<Seq<u8>>, Seq<Seq<u8>>, Seq<u8>)>
    decreases th.depth_spec() - i,
{
    if i < 0 || i >= th.depth_spec() {
        Some((Seq::empty(), Seq::empty(), payload))
    } else {
        let n = th.n_spec() as int;
        let left = payload.subrange(1, 1 + n);
        let right = payload.subrange(1 + n, payload.len() as int);
        let child = if !bit_of(path, i) {
            left
        } else {
            right
        };
        let side = if !bit_of(path, i) {
            right
        } else {
            left
        };
        if child == th.placeholder_s() {
            Some((seq![side], seq![child], Seq::empty()))
        } else if !nodes.contains_key(child) {
            None
        } else if th.is_leaf_s(nodes[child]) {
            Some((seq![side], seq![child], nodes[child]))
        } else {
            match walk(th, nodes, nodes[child], path, i + 1) {
                None => None,
                Some(t) => Some((seq![side] + t.0, seq![child] + t.1, t.2)),
            }
        }
    }
}

/// The sidenode traversal from `root` along `path`: the sidenodes and
/// pathnodes deepest-first (the root is the last pathnode), and the terminal
/// leaf payload, empty if the slot of `path` is empty. `None` means a digest
/// on the path is missing from the node store.
pub open spec fn traverse<H: Hasher>(
    th: TreeHasher<H>,
    nodes: Map<Seq<u8>, Seq<u8>>,
    root: Seq<u8>,
    path: Seq<u8>,
) -> Option<(Seq<Seq<u8>>, Seq<Seq<u8>>, Seq<u8>)> {
    if root == th.placeholder_s() {
        Some((Seq::empty(), seq![root], Seq::empty()))
    } else if !nodes.contains_key(root) {
        None
    } else if th.is_leaf_s(nodes[root]) {
        Some((Seq::empty(), seq![root], nodes[root]))
    } else {
        match walk(th, nodes, nodes[root], path, 0) {
            None => None,
            Some(t) => Some((t.0.reverse(), (seq![root] + t.1).reverse(), t.2)),
        }
    }
}

/// The digest at the top of rehashing `base` upward through the top-down
/// sidenode list `sides_td`, whose first element sits at depth `i`.
pub open spec fn rehash_root<H: Hasher>(
    th: TreeHasher<H>,
    path: Seq<u8>,
    i: int,
    sides_td: Seq<Seq<u8>>,
    base: Seq<u8>,
) -> Seq<u8>
    decreases sides_td.len(),
{
    if sides_td.len() == 0 {
        base
    } else {
        combine_digest(
            th,
            path,
            i,
            rehash_root(th, path, i + 1, sides_td.drop_first(), base),
            sides_td[0],
        )
    }
}

/// The node store after writing every internal record that rehash creates,
/// deepest record first.
pub open spec fn rehash_writes<H: Hasher>(
    th: TreeHasher<H>,
    path: Seq<u8>,
    i: int,
    sides_td: Seq<Seq<u8>>,
    base: Seq<u8>,
    nodes: Map<Seq<u8>, Seq<u8>>,
) -> Map<Seq<u8>, Seq<u8>>
    decreases sides_td.len(),
{
    if sides_td.len() == 0 {
        nodes
    } else {
        let below = rehash_writes(th, path, i + 1, sides_td.drop_first(), base, nodes);
        let curr = rehash_root(th, path, i + 1, sides_td.drop_first(), base);
        below.insert(
            combine_digest(th, path, i, curr, sides_td[0]),
            combine_payload(th, path, i, curr, sides_td[0]),
        )
    }
}

/// `count` placeholder digests (none if `count` is not positive).
pub open spec fn placeholders<H: Hasher>(th: TreeHasher<H>, count: int) -> Seq<Seq<u8>> {
    if count >= 0 {
        Seq::new(count as nat, |j: int| th.placeholder_s())
    } else {
        Seq::empty()
    }
}

/// `m` with every key of `ks` removed, in order.
pub open spec fn remove_seq(m: Map<Seq<u8>, Seq<u8>>, ks: Seq<Seq<u8>>) -> Map<Seq<u8>, Seq<u8>>
    decreases ks.len(),
{
    if ks.len() == 0 {
        m
    } else {
        remove_seq(m.remove(ks[0]), ks.drop_first())
    }
}

/// Removing one more key at the end of the list removes it from the result.
pub proof fn lemma_remove_seq_push(m: Map<Seq<u8>, Seq<u8>>, ks: Seq<Seq<u8>>, k: Seq<u8>)
    ensures
        remove_seq(m, ks.push(k)) == remove_seq(m, ks).remove(k),
    decreases ks.len(),
{
    assert(ks.push(k)[0] == if ks.len() == 0 {
        k
    } else {
        ks[0]
    });
    if ks.len() == 0 {
        assert(ks.push(k).drop_first() =~= Seq::<Seq<u8>>::empty());
        assert(remove_seq(m.remove(k), Seq::<Seq<u8>>::empty()) == m.remove(k));
        assert(remove_seq(m, ks.push(k)) == remove_seq(
            m.remove(k),
            ks.push(k).drop_first(),
        ));
    } else {
        lemma_remove_seq_push(m.remove(ks[0]), ks.drop_first(), k);
        assert(ks.push(k).drop_first() =~= ks.drop_first().push(k));
    }
}

/// The result and the store effects of an insert of `value` at `path`,
/// given the traversal's outcome `(sides_df, pns_df, old_leaf)` (sidenodes
/// and pathnodes deepest-first, and the terminal leaf payload): the new
/// root, the new node store, and the new value store.
///
/// If the slot is empty the new leaf attaches at the bottom of the descended
/// portion; if it holds a leaf of the same path with the same value hash
/// nothing changes but the (byte-identical) leaf record; if the value hash
/// differs the old leaf and value records are replaced; if it holds a leaf
/// of a different path, the tree is extended with placeholder siblings down
/// to the first bit at which the two paths diverge, where an internal node
/// bridges the two leaves. Stale internal records along the path are
/// removed, the path is rehashed upward, and the value is bound to the path.
pub open spec fn update_effect<H: Hasher>(
    th: TreeHasher<H>,
    path: Seq<u8>,
    value: Seq<u8>,
    sides_df: Seq<Seq<u8>>,
    pns_df: Seq<Seq<u8>>,
    old_leaf: Seq<u8>,
    root: Seq<u8>,
    nodes: Map<Seq<u8>, Seq<u8>>,
    vals: Map<Seq<u8>, Seq<u8>>,
) -> (Seq<u8>, Map<Seq<u8>, Seq<u8>>, Map<Seq<u8>, Seq<u8>>) {
    let n = th.n_spec() as int;
    let depth = th.depth_spec() as int;
    let vh = th.hash_s(value);
    let leaf_d = th.leaf_digest_s(path, vh);
    let leaf_p = th.leaf_payload_s(path, vh);
    let nodes1 = nodes.insert(leaf_d, leaf_p);
    let cpl = if pns_df[0] == th.placeholder_s() {
        depth
    } else {
        crate::utils::common_prefix_of(old_leaf.subrange(1, 1 + n), path)
    };
    let old_vh = old_leaf.subrange(1 + n, old_leaf.len() as int);
    if cpl != depth {
        let bridge_d = combine_digest(th, path, cpl, leaf_d, pns_df[0]);
        let bridge_p = combine_payload(th, path, cpl, leaf_d, pns_df[0]);
        let nodes2 = remove_seq(nodes1.insert(bridge_d, bridge_p), pns_df.drop_first());
        let sides_td = sides_df.reverse() + placeholders(th, cpl - sides_df.len());
        (
            rehash_root(th, path, 0, sides_td, bridge_d),
            rehash_writes(th, path, 0, sides_td, bridge_d, nodes2),
            vals.insert(path, value),
        )
    } else if pns_df[0] != th.placeholder_s() && old_vh == vh {
        (root, nodes1, vals)
    } else {
        let nodes2 = if pns_df[0] != th.placeholder_s() {
            nodes1.remove(pns_df[0])
        } else {
            nodes1
        };
        let vals2 = if pns_df[0] != th.placeholder_s() {
            vals.remove(path)
        } else {
            vals
        };
        let nodes3 = remove_seq(nodes2, pns_df.drop_first());
        let sides_td = sides_df.reverse();
        (
            rehash_root(th, path, 0, sides_td, leaf_d),
            rehash_writes(th, path, 0, sides_td, leaf_d, nodes3),
            vals2.insert(path, value),
        )
    }
}

/// The collapse scan of a delete: walks the sidenodes deepest-first with the
/// running digest starting as the placeholder. Placeholder siblings before
/// the first real one are skipped; a first real sibling that is a leaf is
/// promoted and bubbles up; from the first sibling that stays in place
/// onward, every level is rehashed and its record written. `None` means a
/// sibling that had to be loaded is missing from the node store.
pub open spec fn collapse<H: Hasher>(
    th: TreeHasher<H>,
    path: Seq<u8>,
    sides: Seq<Seq<u8>>,
    nodes: Map<Seq<u8>, Seq<u8>>,
    curr: Seq<u8>,
    started: bool,
) -> Option<(Seq<u8>, Map<Seq<u8>, Seq<u8>>)>
    decreases sides.len(),
{
    if sides.len() == 0 {
        Some((curr, nodes))
    } else {
        let s = sides[0];
        if !started && s == th.placeholder_s() {
            collapse(th, path, sides.drop_first(), nodes, curr, false)
        } else if !started && curr == th.placeholder_s() && !nodes.contains_key(s) {
            None
        } else if !started && curr == th.placeholder_s() && th.is_leaf_s(nodes[s]) {
            collapse(th, path, sides.drop_first(), nodes, s, false)
        } else {
            let d = combine_digest(th, path, sides.len() - 1, curr, s);
            let p = combine_payload(th, path, sides.len() - 1, curr, s);
            collapse(th, path, sides.drop_first(), nodes.insert(d, p), d, true)
        }
    }
}

/// The result and the store effects of a delete at `path`, given the
/// traversal's outcome. Deleting a key whose slot is empty, or whose slot is
/// occupied by a leaf of a different path, changes nothing. Otherwise every
/// pathnode record is removed, the tree is collapsed upward, and the value
/// record at `path` is removed. `None` means a sibling record needed by the
/// collapse is missing from the node store; the engine then reports an error
/// after having removed the pathnode records only.
pub open spec fn delete_effect<H: Hasher>(
    th: TreeHasher<H>,
    path: Seq<u8>,
    sides_df: Seq<Seq<u8>>,
    pns_df: Seq<Seq<u8>>,
    old_leaf: Seq<u8>,
    root: Seq<u8>,
    nodes: Map<Seq<u8>, Seq<u8>>,
    vals: Map<Seq<u8>, Seq<u8>>,
) -> Option<(Seq<u8>, Map<Seq<u8>, Seq<u8>>, Map<Seq<u8>, Seq<u8>>)> {
    let n = th.n_spec() as int;
    if pns_df[0] == th.placeholder_s() || old_leaf.subrange(1, 1 + n) != path {
        Some((root, nodes, vals))
    } else {
        let nodes1 = remove_seq(nodes, pns_df);
        match collapse(th, path, sides_df, nodes1, th.placeholder_s(), false) {
            None => None,
            Some(c) => Some((c.0, c.1, vals.remove(path))),
        }
    }
}

/// The outcome of a whole insert: the traversal from `root` along `path`
/// followed by [`update_effect`]. `None` means the traversal failed on a
/// missing record and nothing was changed.
pub open spec fn update_outcome<H: Hasher>(
    th: TreeHasher<H>,
    nodes: Map<Seq<u8>, Seq<u8>>,
    vals: Map<Seq<u8>, Seq<u8>>,
    root: Seq<u8>,
    path: Seq<u8>,
    value: Seq<u8>,
) -> Option<(Seq<u8>, Map<Seq<u8>, Seq<u8>>, Map<Seq<u8>, Seq<u8>>)> {
    match traverse(th, nodes, root, path) {
        None => None,
        Some(t) => Some(update_effect(th, path, value, t.0, t.1, t.2, root, nodes, vals)),
    }
}

/// The outcome of a whole delete: the traversal from `root` along `path`
/// followed by [`delete_effect`]. The outer `None` means the traversal
/// failed and nothing was changed; an inner `None` means the collapse
/// failed after the pathnode records had been removed.
pub open spec fn delete_outcome<H: Hasher>(
    th: TreeHasher<H>,
    nodes: Map<Seq<u8>, Seq<u8>>,
    vals: Map<Seq<u8>, Seq<u8>>,
    root: Seq<u8>,
    path: Seq<u8>,
) -> Option<Option<(Seq<u8>, Map<Seq<u8>, Seq<u8>>, Map<Seq<u8>, Seq<u8>>)>> {
    match traverse(th, nodes, root, path) {
        None => None,
        Some(t) => Some(delete_effect(th, path, t.0, t.1, t.2, root, nodes, vals)),
    }
}

/// What `get` returns: the value bound to the key's path, or the empty byte
/// string if the tree is empty or the path is unbound.
pub open spec fn get_result<H: Hasher>(
    th: TreeHasher<H>,
    vals: Map<Seq<u8>, Seq<u8>>,
    root: Seq<u8>,
    path: Seq<u8>,
) -> Seq<u8> {
    if root == th.placeholder_s() {
        Seq::empty()
    } else if vals.contains_key(path) {
        vals[path]
    } else {
        Seq::empty()
    }
}

/// Removing records from a well-formed store keeps it well-formed.
pub proof fn lemma_remove_seq_store_ok<H: Hasher>(
    th: TreeHasher<H>,
    m: Map<Seq<u8>, Seq<u8>>,
    ks: Seq<Seq<u8>>,
)
    requires
        store_ok(th, m),
    ensures
        store_ok(th, remove_seq(m, ks)),
    decreases ks.len(),
{
    if ks.len() > 0 {
        lemma_remove_seq_store_ok(th, m.remove(ks[0]), ks.drop_first());
    }
}

/// What it means for a proof to verify against `root` for a key with path
/// `path`: the claimed leaf digest — rebuilt from the path and the value
/// hash for a membership claim, from the non-membership leaf for an
/// occupied-by-another-leaf claim, or the placeholder for an empty slot —
/// rehashed up through the sidenodes, equals `root`. A non-membership leaf
/// must be a well-formed leaf payload whose path differs from `path`.
pub open spec fn proof_ok<H: Hasher>(
    th: TreeHasher<H>,
    path: Seq<u8>,
    value_hash: Option<Seq<u8>>,
    sides_df: Seq<Seq<u8>>,
    nm_leaf: Seq<u8>,
    root: Seq<u8>,
) -> bool {
    let n = th.n_spec() as int;
    let start = match value_hash {
        Some(vh) => th.leaf_digest_s(path, vh),
        None => if nm_leaf.len() == 0 {
            th.placeholder_s()
        } else {
            th.hash_s(nm_leaf)
        },
    };
    let claim_ok = match value_hash {
        Some(vh) => true,
        None => nm_leaf.len() == 0 || (nm_leaf.len() == 1 + 2 * n && nm_leaf[0] == 0u8
            && nm_leaf.subrange(1, 1 + n) != path),
    };
    &&& sides_df.len() <= th.depth_spec()
    &&& claim_ok
    &&& rehash_root(th, path, 0, sides_df.reverse(), start) == root
}

/// The sidenode list with every placeholder removed, keeping the order of
/// the rest.
pub open spec fn compact_of<H: Hasher>(th: TreeHasher<H>, sides: Seq<Seq<u8>>) -> Seq<Seq<u8>>
    decreases sides.len(),
{
    if sides.len() == 0 {
        Seq::empty()
    } else {
        let c = compact_of(th, sides.drop_last());
        if sides.last() == th.placeholder_s() {
            c
        } else {
            c.push(sides.last())
        }
    }
}

/// The bitmask of a sidenode list: bit `i` (MSB-first) is set iff sidenode
/// `i` is the placeholder, the byte string growing just enough to hold the
/// highest set bit.
pub open spec fn mask_of<H: Hasher>(th: TreeHasher<H>, sides: Seq<Seq<u8>>) -> Seq<u8>
    decreases sides.len(),
{
    if sides.len() == 0 {
        Seq::empty()
    } else {
        let m = mask_of(th, sides.drop_last());
        if sides.last() == th.placeholder_s() {
            crate::utils::set_bit_seq(m, sides.len() - 1)
        } else {
            m
        }
    }
}

/// The number of set bits in one byte.
pub open spec fn ones8(b: u8) -> int {
    ((b >> 7) & 1) + ((b >> 6) & 1) + ((b >> 5) & 1) + ((b >> 4) & 1) + ((b >> 3) & 1) + ((b >> 2)
        & 1) + ((b >> 1) & 1) + (b & 1)
}

/// The number of set bits in a byte string.
pub open spec fn popcount(mask: Seq<u8>) -> int
    decreases mask.len(),
{
    if mask.len() == 0 {
        0
    } else {
        popcount(mask.drop_last()) + ones8(mask.last())
    }
}

/// The first `i` entries of the expansion of a compact sidenode list under
/// `mask`, together with how many compact entries they consumed: position
/// `q` is the placeholder if bit `q` of the mask is set, and the next
/// compact entry otherwise (the placeholder again if the compact list is
/// exhausted).
pub open spec fn expand_build<H: Hasher>(
    th: TreeHasher<H>,
    compact: Seq<Seq<u8>>,
    mask: Seq<u8>,
    i: int,
) -> (Seq<Seq<u8>>, int)
    decreases i,
{
    if i <= 0 {
        (Seq::empty(), 0)
    } else {
        let prev = expand_build(th, compact, mask, i - 1);
        if i - 1 < 8 * mask.len() && crate::utils::bit_of(mask, i - 1) {
            (prev.0.push(th.placeholder_s()), prev.1)
        } else if prev.1 < compact.len() {
            (prev.0.push(compact[prev.1]), prev.1 + 1)
        } else {
            (prev.0.push(th.placeholder_s()), prev.1)
        }
    }
}

/// The full sidenode list a compact proof stands for: as many entries as
/// the compact entries and the mask's set bits together.
pub open spec fn expand_spec<H: Hasher>(
    th: TreeHasher<H>,
    compact: Seq<Seq<u8>>,
    mask: Seq<u8>,
) -> Seq<Seq<u8>> {
    expand_build(th, compact, mask, compact.len() + popcount(mask)).0
}

/// Rehashing the same base through the same sidenodes gives the same
/// digest for two paths that agree on the bits the rehash reads.
pub proof fn lemma_rehash_root_agrees<H: Hasher>(
    th: TreeHasher<H>,
    p1: Seq<u8>,
    p2: Seq<u8>,
    i: int,
    sides_td: Seq<Seq<u8>>,
    base: Seq<u8>,
)
    requires
        forall|q: int|
            i <= q < i + sides_td.len() ==> #[trigger] crate::utils::bit_of(p1, q)
                == crate::utils::bit_of(p2, q),
    ensures
        rehash_root(th, p1, i, sides_td, base) == rehash_root(th, p2, i, sides_td, base),
    decreases sides_td.len(),
{
    if sides_td.len() > 0 {
        lemma_rehash_root_agrees(th, p1, p2, i + 1, sides_td.drop_first(), base);
        assert(crate::utils::bit_of(p1, i) == crate::utils::bit_of(p2, i));
    }
}

/// Removing listed keys leaves every other key alone.
pub proof fn lemma_remove_seq_other(m: Map<Seq<u8>, Seq<u8>>, ks: Seq<Seq<u8>>, d: Seq<u8>)
    requires
        forall|j: int| 0 <= j < ks.len() ==> #[trigger] ks[j] != d,
    ensures
        remove_seq(m, ks).contains_key(d) == m.contains_key(d),
        m.contains_key(d) ==> remove_seq(m, ks)[d] == m[d],
    decreases ks.len(),
{
    if ks.len() > 0 {
        assert(forall|j: int|
            0 <= j < ks.drop_first().len() ==> #[trigger] ks.drop_first()[j] == ks[j + 1]);
        lemma_remove_seq_other(m.remove(ks[0]), ks.drop_first(), d);
    }
}

/// The rehash writes leave every key that is none of the level digests
/// alone.
pub proof fn lemma_rehash_writes_other<H: Hasher>(
    th: TreeHasher<H>,
    path: Seq<u8>,
    i: int,
    sides_td: Seq<Seq<u8>>,
    base: Seq<u8>,
    m0: Map<Seq<u8>, Seq<u8>>,
    d: Seq<u8>,
)
    requires
        forall|j: int|
            0 <= j < sides_td.len() ==> d != rehash_root(th, path, i + j, #[trigger] sides_td.skip(j), base),
    ensures
        rehash_writes(th, path, i, sides_td, base, m0).contains_key(d) == m0.contains_key(d),
        m0.contains_key(d) ==> rehash_writes(th, path, i, sides_td, base, m0)[d] == m0[d],
    decreases sides_td.len(),
{
    if sides_td.len() > 0 {
        assert(sides_td.skip(0) =~= sides_td);
        assert(d != rehash_root(th, path, i, sides_td, base));
        assert forall|j: int| 0 <= j < sides_td.drop_first().len() implies d != rehash_root(
            th,
            path,
            i + 1 + j,
            #[trigger] sides_td.drop_first().skip(j),
            base,
        ) by {
            assert(sides_td.drop_first().skip(j) =~= sides_td.skip(j + 1));
        }
        lemma_rehash_writes_other(th, path, i + 1, sides_td.drop_first(), base, m0, d);
    }
}

/// The rehash writes hold, at each level's digest, that level's payload —
/// provided no shallower level collides with it.
pub proof fn lemma_rehash_writes_level<H: Hasher>(
    th: TreeHasher<H>,
    path: Seq<u8>,
    i: int,
    sides_td: Seq<Seq<u8>>,
    base: Seq<u8>,
    m0: Map<Seq<u8>, Seq<u8>>,
    j: int,
)
    requires
        0 <= j < sides_td.len(),
        forall|k: int|
            0 <= k < j ==> rehash_root(th, path, i + k, #[trigger] sides_td.skip(k), base)
                != rehash_root(th, path, i + j, sides_td.skip(j), base),
    ensures
        ({
            let w = rehash_writes(th, path, i, sides_td, base, m0);
            let d = rehash_root(th, path, i + j, sides_td.skip(j), base);
            &&& w.contains_key(d)
            &&& w[d] == combine_payload(
                th,
                path,
                i + j,
                rehash_root(th, path, i + j + 1, sides_td.skip(j + 1), base),
                sides_td[j],
            )
        }),
    decreases j,
{
    assert(sides_td.skip(0) =~= sides_td);
    assert(sides_td.drop_first() =~= sides_td.skip(1));
    if j == 0 {
        assert(rehash_root(th, path, i, sides_td, base) == combine_digest(
            th,
            path,
            i,
            rehash_root(th, path, i + 1, sides_td.skip(1), base),
            sides_td[0],
        ));
    } else {
        assert forall|k: int| 0 <= k < j - 1 implies rehash_root(
            th,
            path,
            i + 1 + k,
            #[trigger] sides_td.drop_first().skip(k),
            base,
        ) != rehash_root(th, path, i + 1 + (j - 1), sides_td.drop_first().skip(j - 1), base) by {
            assert(sides_td.drop_first().skip(k) =~= sides_td.skip(k + 1));
            assert(sides_td.drop_first().skip(j - 1) =~= sides_td.skip(j));
        }
        lemma_rehash_writes_level(th, path, i + 1, sides_td.drop_first(), base, m0, j - 1);
        assert(sides_td.drop_first().skip(j - 1) =~= sides_td.skip(j));
        assert(sides_td.drop_first().skip(j) =~= sides_td.skip(j + 1));
        assert(sides_td.drop_first()[j - 1] == sides_td[j]);
        let d = rehash_root(th, path, i + j, sides_td.skip(j), base);
        assert(d != rehash_root(th, path, i, sides_td, base));
    }
}

/// The collapse scan leaves a promoted digest alone while every remaining
/// sibling is a placeholder.
pub proof fn lemma_collapse_all_placeholders<H: Hasher>(
    th: TreeHasher<H>,
    path: Seq<u8>,
    sides: Seq<Seq<u8>>,
    nodes: Map<Seq<u8>, Seq<u8>>,
    curr: Seq<u8>,
)
    requires
        forall|j: int| 0 <= j < sides.len() ==> #[trigger] sides[j] == th.placeholder_s(),
    ensures
        collapse(th, path, sides, nodes, curr, false) == Some((curr, nodes)),
    decreases sides.len(),
{
    if sides.len() > 0 {
        lemma_collapse_all_placeholders(th, path, sides.drop_first(), nodes, curr);
    }
}

/// The collapse scan promotes a lone leaf sibling to the top when every
/// sibling above it is a placeholder, writing nothing.
pub proof fn lemma_collapse_promotes_lone_leaf<H: Hasher>(
    th: TreeHasher<H>,
    path: Seq<u8>,
    sides: Seq<Seq<u8>>,
    nodes: Map<Seq<u8>, Seq<u8>>,
)
    requires
        sides.len() >= 1,
        sides[0] != th.placeholder_s(),
        nodes.contains_key(sides[0]),
        th.is_leaf_s(nodes[sides[0]]),
        forall|j: int| 1 <= j < sides.len() ==> #[trigger] sides[j] == th.placeholder_s(),
    ensures
        collapse(th, path, sides, nodes, th.placeholder_s(), false) == Some((sides[0], nodes)),
{
    lemma_collapse_all_placeholders(th, path, sides.drop_first(), nodes, sides[0]);
}

/// A byte with no set bit contributes nothing to the count.
proof fn lemma_ones8_zero()
    by (bit_vector)
    ensures
        ones8(0u8) == 0,
{
}

/// Setting a clear bit of a byte raises its count of set bits by one.
proof fn lemma_ones8_or(b: u8, m: u8)
    by (bit_vector)
    requires
        m < 8,
        b & (1u8 << m) == 0,
    ensures
        ones8(b | (1u8 << m)) == ones8(b) + 1,
{
}

/// Appending zero bytes does not change the number of set bits.
proof fn lemma_popcount_zero_pad(s: Seq<u8>, m: int)
    requires
        m >= 0,
    ensures
        popcount(s + crate::utils::zero_bytes(m)) == popcount(s),
    decreases m,
{
    if m == 0 {
        assert(s + crate::utils::zero_bytes(0) =~= s);
    } else {
        lemma_popcount_zero_pad(s, m - 1);
        let t = s + crate::utils::zero_bytes(m);
        assert(t.drop_last() =~= s + crate::utils::zero_bytes(m - 1));
        assert(t.last() == 0u8);
        lemma_ones8_zero();
    }
}

/// Replacing one byte changes the count of set bits by the difference of
/// the two bytes' counts.
proof fn lemma_popcount_update(s: Seq<u8>, i: int, b: u8)
    requires
        0 <= i < s.len(),
    ensures
        popcount(s.update(i, b)) == popcount(s) - ones8(s[i]) + ones8(b),
    decreases s.len(),
{
    let t = s.update(i, b);
    if i == s.len() - 1 {
        assert(t.drop_last() =~= s.drop_last());
    } else {
        assert(t.drop_last() =~= s.drop_last().update(i, b));
        assert(t.last() == s.last());
        lemma_popcount_update(s.drop_last(), i, b);
    }
}

/// Setting a bit that was not set raises the count of set bits by one.
proof fn lemma_popcount_set_bit(s: Seq<u8>, p: int)
    requires
        p >= 0,
        !(p / 8 < s.len() && crate::utils::bit_of(s, p)),
    ensures
        popcount(crate::utils::set_bit_seq(s, p)) == popcount(s) + 1,
{
    let padded = if s.len() > p / 8 {
        s
    } else {
        s + crate::utils::zero_bytes(p / 8 + 1 - s.len())
    };
    if s.len() <= p / 8 {
        lemma_popcount_zero_pad(s, p / 8 + 1 - s.len());
    }
    let old_b = padded[p / 8];
    let m = (7 - p % 8) as u8;
    assert(old_b & (1u8 << m) == 0) by {
        if p / 8 < s.len() {
            assert(!crate::utils::byte_bit(s[p / 8], p % 8));
        } else {
            assert(old_b == 0u8);
            assert(0u8 & (1u8 << m) == 0) by (bit_vector);
        }
    }
    lemma_ones8_or(old_b, m);
    lemma_popcount_update(padded, p / 8, old_b | (1u8 << m));
}

/// The bits of a sidenode list's bitmask: bit `q` is set exactly for the
/// placeholder positions, and the bitmask is just long enough to hold them.
proof fn lemma_mask_of_bits<H: Hasher>(th: TreeHasher<H>, sides: Seq<Seq<u8>>)
    ensures
        8 * mask_of(th, sides).len() <= 8 * sides.len(),
        forall|q: int|
            0 <= q < sides.len() ==> ((#[trigger] sides[q]) == th.placeholder_s()) == (q < 8
                * mask_of(th, sides).len() && crate::utils::bit_of(mask_of(th, sides), q)),
        forall|q: int|
            sides.len() <= q && q < 8 * mask_of(th, sides).len() ==> !crate::utils::bit_of(
                mask_of(th, sides),
                q,
            ),
    decreases sides.len(),
{
    if sides.len() > 0 {
        lemma_mask_of_bits(th, sides.drop_last());
        let prev = mask_of(th, sides.drop_last());
        let cur = mask_of(th, sides);
        let last = sides.len() - 1;
        assert(forall|q: int|
            0 <= q < last ==> sides.drop_last()[q] == #[trigger] sides[q]);
        if sides.last() == th.placeholder_s() {
            crate::utils::lemma_set_bit_seq_bits(prev, last);
            assert(cur == crate::utils::set_bit_seq(prev, last));
            assert(prev.len() <= cur.len() && 8 * cur.len() <= 8 * sides.len());
            assert(sides[last] == th.placeholder_s());
            assert(last < 8 * cur.len() && crate::utils::bit_of(cur, last));
            assert forall|q: int| 0 <= q < last implies ((#[trigger] sides[q])
                == th.placeholder_s()) == (q < 8 * cur.len() && crate::utils::bit_of(
                cur,
                q,
            )) by {
                if q < 8 * cur.len() {
                    assert(crate::utils::bit_of(cur, q) == (q / 8 < prev.len()
                        && crate::utils::bit_of(prev, q)));
                }
            }
            assert forall|q: int| sides.len() <= q && q < 8 * cur.len() implies !crate::utils::bit_of(
                cur,
                q,
            ) by {
                assert(crate::utils::bit_of(cur, q) == (q / 8 < prev.len()
                    && crate::utils::bit_of(prev, q)));
            }
        } else {
            assert(cur == prev);
            assert(!(last < 8 * cur.len() && crate::utils::bit_of(cur, last)));
        }
    }
}

/// The compact sidenodes and the bitmask's set bits together account for
/// every sidenode.
proof fn lemma_compact_mask_sizes<H: Hasher>(th: TreeHasher<H>, sides: Seq<Seq<u8>>)
    ensures
        compact_of(th, sides).len() + popcount(mask_of(th, sides)) == sides.len(),
        popcount(mask_of(th, sides)) >= 0,
    decreases sides.len(),
{
    if sides.len() == 0 {
    } else {
        lemma_compact_mask_sizes(th, sides.drop_last());
        lemma_mask_of_bits(th, sides.drop_last());
        let prev = mask_of(th, sides.drop_last());
        let last = sides.len() - 1;
        if sides.last() == th.placeholder_s() {
            assert(!(last / 8 < prev.len() && crate::utils::bit_of(prev, last))) by {
                if last / 8 < prev.len() {
                    assert(last >= sides.drop_last().len());
                }
            }
            lemma_popcount_set_bit(prev, last);
        }
    }
}

/// Positions of the compact list: the compact form of a prefix is a prefix
/// of the compact form.
proof fn lemma_compact_of_take<H: Hasher>(th: TreeHasher<H>, sides: Seq<Seq<u8>>, k: int)
    requires
        0 <= k <= sides.len(),
    ensures
        compact_of(th, sides.take(k)).len() <= compact_of(th, sides).len(),
        compact_of(th, sides.take(k)) == compact_of(th, sides).take(
            compact_of(th, sides.take(k)).len() as int,
        ),
    decreases sides.len() - k,
{
    if k == sides.len() {
        assert(sides.take(k) =~= sides);
        assert(compact_of(th, sides).take(compact_of(th, sides).len() as int) =~= compact_of(
            th,
            sides,
        ));
    } else {
        lemma_compact_of_take(th, sides, k + 1);
        assert(sides.take(k + 1).drop_last() =~= sides.take(k));
        assert(sides.take(k + 1).last() == sides[k]);
        let ck = compact_of(th, sides.take(k));
        let ck1 = compact_of(th, sides.take(k + 1));
        if sides[k] == th.placeholder_s() {
            assert(ck == ck1);
        } else {
            assert(ck1 == ck.push(sides[k]));
            assert(ck1.take(ck.len() as int) =~= ck);
            assert(compact_of(th, sides).take(ck.len() as int) =~= ck1.take(ck.len() as int));
        }
    }
}

/// Expanding the compact sidenodes of a list under its own bitmask yields
/// the list back.
pub proof fn lemma_compact_expand_round_trip<H: Hasher>(th: TreeHasher<H>, sides: Seq<Seq<u8>>)
    ensures
        expand_spec(th, compact_of(th, sides), mask_of(th, sides)) == sides,
{
    let c = compact_of(th, sides);
    let m = mask_of(th, sides);
    lemma_compact_mask_sizes(th, sides);
    lemma_mask_of_bits(th, sides);
    lemma_expand_build_prefix(th, sides, sides.len() as int);
    assert(sides.take(sides.len() as int) =~= sides);
}

/// The first `k` expanded entries are the first `k` sidenodes, consuming
/// exactly the compact entries among them.
proof fn lemma_expand_build_prefix<H: Hasher>(th: TreeHasher<H>, sides: Seq<Seq<u8>>, k: int)
    requires
        0 <= k <= sides.len(),
    ensures
        expand_build(th, compact_of(th, sides), mask_of(th, sides), k) == (
            sides.take(k),
            compact_of(th, sides.take(k)).len() as int,
        ),
    decreases k,
{
    let c = compact_of(th, sides);
    let m = mask_of(th, sides);
    lemma_mask_of_bits(th, sides);
    if k == 0 {
        assert(sides.take(0) =~= Seq::<Seq<u8>>::empty());
        assert(expand_build(th, c, m, 0).0 =~= sides.take(0));
    } else {
        lemma_expand_build_prefix(th, sides, k - 1);
        lemma_compact_of_take(th, sides, k - 1);
        lemma_compact_of_take(th, sides, k);
        assert(sides.take(k).drop_last() =~= sides.take(k - 1));
        assert(sides.take(k).last() == sides[k - 1]);
        let j = compact_of(th, sides.take(k - 1)).len() as int;
        if sides[k - 1] == th.placeholder_s() {
            assert(k - 1 < 8 * m.len() && crate::utils::bit_of(m, k - 1));
            assert(expand_build(th, c, m, k).0 =~= sides.take(k - 1).push(th.placeholder_s()));
            assert(sides.take(k) =~= sides.take(k - 1).push(sides[k - 1]));
        } else {
            assert(!(k - 1 < 8 * m.len() && crate::utils::bit_of(m, k - 1)));
            assert(compact_of(th, sides.take(k)) == compact_of(th, sides.take(k - 1)).push(
                sides[k - 1],
            ));
            assert(compact_of(th, sides.take(k)).len() == j + 1);
            assert(j < c.len());
            assert(c[j] == sides[k - 1]) by {
                assert(compact_of(th, sides.take(k)) == c.take(j + 1));
                assert(c.take(j + 1)[j] == c[j]);
            }
            assert(expand_build(th, c, m, k).0 =~= sides.take(k - 1).push(sides[k - 1]));
            assert(sides.take(k) =~= sides.take(k - 1).push(sides[k - 1]));
        }
    }
}

/// Facts about a completed walk: the two lists have the same length, at most
/// one entry per remaining level, every entry is a digest of the tree's
/// width; the digest of the node walked from is recovered by rehashing the
/// deepest pathnode up through the sidenodes; and the terminal payload is
/// empty exactly for a placeholder terminal, and otherwise is the stored,
/// well-formed payload of the deepest pathnode.
pub proof fn lemma_walk_props<H: Hasher>(
    th: TreeHasher<H>,
    nodes: Map<Seq<u8>, Seq<u8>>,
    payload: Seq<u8>,
    path: Seq<u8>,
    i: int,
    t: (Seq<Seq<u8>>, Seq<Seq<u8>>, Seq<u8>),
)
    requires
        th.wf(),
        store_ok(th, nodes),
        walk(th, nodes, payload, path, i) == Some(t),
        payload.len() == 1 + 2 * th.n_spec(),
        payload[0] == 1u8,
        0 <= i <= th.depth_spec(),
    ensures
        t.0.len() == t.1.len(),
        t.0.len() <= th.depth_spec() - i,
        i < th.depth_spec() ==> t.0.len() >= 1,
        forall|j: int| 0 <= j < t.0.len() ==> (#[trigger] t.0[j]).len() == th.n_spec(),
        forall|j: int| 0 <= j < t.1.len() ==> (#[trigger] t.1[j]).len() == th.n_spec(),
        t.1.len() == 0 ==> t.0 == Seq::<Seq<u8>>::empty() && t.2 == payload,
        t.1.len() > 0 ==> th.hash_s(payload) == rehash_root(th, path, i, t.0, t.1.last()),
        t.2.len() == 0 ==> t.1.len() > 0 && t.1.last() == th.placeholder_s(),
        t.2.len() > 0 && t.1.len() > 0 ==> t.1.last() != th.placeholder_s() && nodes.contains_key(
            t.1.last(),
        ) && nodes[t.1.last()] == t.2,
        t.2.len() > 0 ==> t.2.len() == 1 + 2 * th.n_spec() && (t.2[0] == 0u8 || t.2[0] == 1u8),
    decreases th.depth_spec() - i,
{
    let n = th.n_spec() as int;
    if i >= th.depth_spec() {
    } else {
        let left = payload.subrange(1, 1 + n);
        let right = payload.subrange(1 + n, payload.len() as int);
        let child = if !bit_of(path, i) {
            left
        } else {
            right
        };
        let side = if !bit_of(path, i) {
            right
        } else {
            left
        };
        assert(payload =~= th.node_payload_s(left, right));
        if child == th.placeholder_s() {
            assert(t.0 =~= seq![side]);
            assert(t.1 =~= seq![child]);
            assert(t.0.drop_first() =~= Seq::<Seq<u8>>::empty());
            assert(t.1.last() == child);
            assert(rehash_root(th, path, i + 1, t.0.drop_first(), child) == child);
            assert(rehash_root(th, path, i, t.0, t.1.last()) == combine_digest(
                th,
                path,
                i,
                child,
                side,
            ));
        } else if !nodes.contains_key(child) {
            assert(false);
        } else if th.is_leaf_s(nodes[child]) {
            assert(t.0 =~= seq![side]);
            assert(t.1 =~= seq![child]);
            assert(t.0.drop_first() =~= Seq::<Seq<u8>>::empty());
            assert(t.1.last() == child);
            assert(rehash_root(th, path, i + 1, t.0.drop_first(), child) == child);
            assert(rehash_root(th, path, i, t.0, t.1.last()) == combine_digest(
                th,
                path,
                i,
                child,
                side,
            ));
        } else {
            let inner = walk(th, nodes, nodes[child], path, i + 1).unwrap();
            lemma_walk_props(th, nodes, nodes[child], path, i + 1, inner);
            assert(t.0 =~= seq![side] + inner.0);
            assert(t.1 =~= seq![child] + inner.1);
            if inner.1.len() == 0 {
                assert(t.1.last() == child);
                assert(rehash_root(th, path, i + 1, inner.0, child) == child);
                assert(t.0.drop_first() =~= inner.0);
                assert(rehash_root(th, path, i, t.0, t.1.last()) == combine_digest(
                    th,
                    path,
                    i,
                    child,
                    side,
                ));
            } else {
                assert(t.1.last() == inner.1.last());
                assert(t.0.drop_first() =~= inner.0);
                assert(rehash_root(th, path, i + 1, inner.0, inner.1.last()) == th.hash_s(
                    nodes[child],
                ));
                assert(child == th.hash_s(nodes[child]));
                assert(rehash_root(th, path, i, t.0, t.1.last()) == combine_digest(
                    th,
                    path,
                    i,
                    child,
                    side,
                ));
            }
        }
    }
}

/// Facts about a completed traversal: lengths and widths of the returned
/// lists, that the root is recovered by rehashing the deepest pathnode up
/// through the sidenodes, and what the terminal payload is.
pub proof fn lemma_traverse_props<H: Hasher>(
    th: TreeHasher<H>,
    nodes: Map<Seq<u8>, Seq<u8>>,
    root: Seq<u8>,
    path: Seq<u8>,
    t: (Seq<Seq<u8>>, Seq<Seq<u8>>, Seq<u8>),
)
    requires
        th.wf(),
        store_ok(th, nodes),
        traverse(th, nodes, root, path) == Some(t),
        root.len() == th.n_spec(),
    ensures
        t.1.len() == t.0.len() + 1,
        t.0.len() <= th.depth_spec(),
        t.1.last() == root,
        forall|j: int| 0 <= j < t.0.len() ==> (#[trigger] t.0[j]).len() == th.n_spec(),
        forall|j: int| 0 <= j < t.1.len() ==> (#[trigger] t.1[j]).len() == th.n_spec(),
        root == rehash_root(th, path, 0, t.0.reverse(), t.1[0]),
        t.2.len() == 0 <==> t.1[0] == th.placeholder_s(),
        t.2.len() > 0 ==> t.2.len() == 1 + 2 * th.n_spec() && (t.2[0] == 0u8 || t.2[0] == 1u8)
            && t.1[0] == th.hash_s(t.2) && nodes.contains_key(t.1[0]) && nodes[t.1[0]] == t.2,
{
    if root == th.placeholder_s() {
        assert(t.0.reverse() =~= Seq::<Seq<u8>>::empty());
    } else if th.is_leaf_s(nodes[root]) {
        assert(t.0.reverse() =~= Seq::<Seq<u8>>::empty());
    } else {
        let w = walk(th, nodes, nodes[root], path, 0).unwrap();
        lemma_walk_props(th, nodes, nodes[root], path, 0, w);
        assert(t.0 == w.0.reverse());
        assert(t.1 == (seq![root] + w.1).reverse());
        assert(t.0.reverse() =~= w.0);
        assert(t.1.len() == w.1.len() + 1);
        assert(t.1.last() == (seq![root] + w.1)[0]);
        assert((seq![root] + w.1)[0] == root);
        assert(t.1[0] == (seq![root] + w.1).last());
        assert((seq![root] + w.1).last() == w.1.last());
        assert(forall|j: int|
            0 <= j < t.0.len() ==> t.0[j] == w.0[w.0.len() - 1 - j]);
        assert(forall|j: int|
            0 <= j < t.1.len() ==> t.1[j] == (seq![root] + w.1)[t.1.len() - 1 - j]);
        assert(root == th.hash_s(nodes[root]));
    }
}

} // verus!
