//! An in-memory [`KvStore`]: a list of key–value pairs where a later binding
//! of a key shadows an earlier one.

use vstd::prelude::*;
use crate::KvStore;
use crate::SmtError;
use crate::utils::bytes_eq;
use crate::tree_hasher::copy_bytes;

verus! {

/// The views of a list of byte-vector pairs.
pub open spec fn pairs_view(s: Seq<(Vec<u8>, Vec<u8>)>) -> Seq<(Seq<u8>, Seq<u8>)> {
    s.map_values(|p: (Vec<u8>, Vec<u8>)| (p.0@, p.1@))
}

/// The mapping an association list holds: later pairs shadow earlier ones.
pub open spec fn assoc_map(s: Seq<(Seq<u8>, Seq<u8>)>) -> Map<Seq<u8>, Seq<u8>>
    decreases s.len(),
{
    if s.len() == 0 {
        Map::empty()
    } else {
        assoc_map(s.drop_last()).insert(s.last().0, s.last().1)
    }
}

/// `s` with every pair whose key is `k` removed, keeping the order of the
/// rest.
pub open spec fn remove_key_seq(s: Seq<(Seq<u8>, Seq<u8>)>, k: Seq<u8>) -> Seq<(Seq<u8>, Seq<u8>)>
    decreases s.len(),
{
    if s.len() == 0 {
        s
    } else {
        let rest = remove_key_seq(s.drop_last(), k);
        if s.last().0 == k {
            rest
        } else {
            rest.push(s.last())
        }
    }
}

/// If no pair at or after index `i` has key `k`, the mapping of `s` agrees
/// at `k` with the mapping of the first `i` pairs.
proof fn lemma_assoc_map_suffix(s: Seq<(Seq<u8>, Seq<u8>)>, k: Seq<u8>, i: int)
    requires
        0 <= i <= s.len(),
        forall|j: int| i <= j < s.len() ==> (#[trigger] s[j]).0 != k,
    ensures
        assoc_map(s).contains_key(k) <==> assoc_map(s.take(i)).contains_key(k),
        assoc_map(s).contains_key(k) ==> assoc_map(s)[k] == assoc_map(s.take(i))[k],
    decreases s.len() - i,
{
    if i == s.len() {
        assert(s.take(i) =~= s);
    } else {
        lemma_assoc_map_suffix(s, k, i + 1);
        assert(s.take(i + 1).drop_last() =~= s.take(i));
        assert(s.take(i + 1).last() == s[i]);
    }
}

/// Removing every pair with key `k` removes exactly `k` from the mapping.
proof fn lemma_remove_key_assoc(s: Seq<(Seq<u8>, Seq<u8>)>, k: Seq<u8>)
    ensures
        assoc_map(remove_key_seq(s, k)) == assoc_map(s).remove(k),
    decreases s.len(),
{
    if s.len() == 0 {
        assert(assoc_map(remove_key_seq(s, k)) =~= assoc_map(s).remove(k));
    } else {
        lemma_remove_key_assoc(s.drop_last(), k);
        let rest = remove_key_seq(s.drop_last(), k);
        if s.last().0 == k {
            assert(assoc_map(rest) =~= assoc_map(s).remove(k));
        } else {
            assert(rest.push(s.last()).drop_last() =~= rest);
            assert(assoc_map(rest.push(s.last())) =~= assoc_map(s).remove(k));
        }
    }
}

/// An in-memory key–value store backed by an association list.
pub struct MemStore {
    entries: Vec<(Vec<u8>, Vec<u8>)>,
}

impl MemStore {
    /// A fresh, empty store.
    pub fn new() -> (r: Self)
        ensures
            r.contents() == Map::<Seq<u8>, Seq<u8>>::empty(),
    {
        MemStore { entries: Vec::new() }
    }
}

impl KvStore for MemStore {
    closed spec fn contents(&self) -> Map<Seq<u8>, Seq<u8>> {
        assoc_map(pairs_view(self.entries@))
    }

    fn get(&self, k: &[u8]) -> (r: Result<Vec<u8>, SmtError>) {
        let ghost s = pairs_view(self.entries@);
        let mut idx = self.entries.len();
        while idx > 0
            invariant
                idx <= self.entries@.len(),
                s == pairs_view(self.entries@),
                forall|j: int| idx <= j < s.len() ==> (#[trigger] s[j]).0 != k@,
            decreases idx,
        {
            idx = idx - 1;
            if bytes_eq(&self.entries[idx].0, k) {
                proof {
                    lemma_assoc_map_suffix(s, k@, idx + 1);
                    assert(s.take(idx + 1).drop_last() =~= s.take(idx as int));
                    assert(s.take(idx + 1).last() == s[idx as int]);
                }
                return Ok(copy_bytes(&self.entries[idx].1));
            }
        }
        proof {
            lemma_assoc_map_suffix(s, k@, 0);
            assert(s.take(0) =~= Seq::<(Seq<u8>, Seq<u8>)>::empty());
        }
        Err(SmtError::KeyNotFound)
    }

    fn insert(&mut self, k: &[u8], v: &[u8]) -> (r: Result<(), SmtError>) {
        let ghost s = pairs_view(self.entries@);
        self.entries.push((copy_bytes(k), copy_bytes(v)));
        proof {
            let s2 = pairs_view(self.entries@);
            assert(s2.drop_last() =~= s);
            assert(s2.last() == (k@, v@));
        }
        Ok(())
    }

    fn delete(&mut self, k: &[u8]) -> (r: Result<(), SmtError>) {
        let ghost s = pairs_view(self.entries@);
        let mut kept: Vec<(Vec<u8>, Vec<u8>)> = Vec::new();
        let mut i: usize = 0;
        while i < self.entries.len()
            invariant
                0 <= i <= self.entries@.len(),
                s == pairs_view(self.entries@),
                pairs_view(kept@) == remove_key_seq(s.take(i as int), k@),
            decreases self.entries@.len() - i,
        {
            proof {
                assert(s.take(i + 1).drop_last() =~= s.take(i as int));
                assert(s.take(i + 1).last() == s[i as int]);
            }
            if !bytes_eq(&self.entries[i].0, k) {
                let pair = (copy_bytes(&self.entries[i].0), copy_bytes(&self.entries[i].1));
                kept.push(pair);
                proof {
                    assert(pairs_view(kept@).drop_last() =~= remove_key_seq(
                        s.take(i as int),
                        k@,
                    ));
                    assert(pairs_view(kept@) =~= remove_key_seq(s.take(i + 1), k@));
                }
            }
            i += 1;
        }
        proof {
            assert(s.take(s.len() as int) =~= s);
            lemma_remove_key_assoc(s, k@);
        }
        self.entries = kept;
        Ok(())
    }
}

} // verus!
