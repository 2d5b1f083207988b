//! A store of fixed-width keys and values in memory that keeps its keys in
//! order, so that a scan hands them out in ascending order.
use crate::mem_store::{
    held, lemma_held_dom, lemma_held_insert, lemma_held_remove, lemma_key_number,
    lemma_key_number_order, number_key, scan_len, to_key, to_number, MemStore,
};
use crate::order::{bytes_lt, lemma_bytes_lt_irreflexive};
use std::collections::BTreeMap;
use vstd::prelude::*;
use vstd::std_specs::cmp::OrdSpec;
use vstd::std_specs::iter::IteratorSpec;

verus! {

broadcast use {vstd::std_specs::btree::group_btree_axioms, vstd::laws_cmp::group_laws_cmp};

/// A store in memory over an ordered map.
pub struct BTreeMemStore {
    map: BTreeMap<u64, [u8; 256]>,
}

impl BTreeMemStore {
    /// An empty store.
    pub fn new() -> (store: Self)
        ensures
            store.contents() == Map::<Seq<u8>, Seq<u8>>::empty(),
    {
        let store = BTreeMemStore { map: BTreeMap::new() };
        assert(store.contents() =~= Map::<Seq<u8>, Seq<u8>>::empty());
        store
    }
}

/// The keys that an ordered map of numbers hands out come in ascending
/// order of their numbers.
proof fn lemma_keys_ascend(keys: Seq<&u64>, i: int, j: int)
    requires
        vstd::std_specs::btree::increasing_seq(keys),
        0 <= i < j < keys.len(),
    ensures
        *keys[i] < *keys[j],
{
    vstd::std_specs::btree::axiom_increasing_seq_meaning(keys);
    assert(OrdSpec::cmp_spec(&keys[i], &keys[j]) is Less);
}

impl MemStore for BTreeMemStore {
    closed spec fn contents(&self) -> Map<Seq<u8>, Seq<u8>> {
        held(self.map@)
    }

    fn put(&mut self, key: [u8; 8], value: [u8; 256]) {
        let n = to_number(&key);
        self.map.insert(n, value);
        proof {
            lemma_held_insert(old(self).map@, key@, value);
        }
    }

    fn get(&self, key: &[u8; 8]) -> (r: Option<&[u8; 256]>) {
        let n = to_number(key);
        self.map.get(&n)
    }

    fn delete(&mut self, key: [u8; 8]) -> (r: Option<[u8; 256]>) {
        let n = to_number(&key);
        let r = self.map.remove(&n);
        proof {
            lemma_held_remove(old(self).map@, key@);
        }
        r
    }

    /// The keys come in ascending order, byte by byte, and the cursor for
    /// the next scan is the one just after the last key scanned.
    fn scan(&self, at: usize, count: usize) -> (r: (usize, Vec<[u8; 8]>))
        ensures
            r.0 == at + r.1@.len(),
            forall|i: int, j: int|
                0 <= i < j < r.1@.len() ==> bytes_lt((#[trigger] r.1@[i])@, (#[trigger] r.1@[j])@),
    {
        proof {
            lemma_held_dom(self.map@);
        }
        let len = self.map.len();
        let mut result: Vec<[u8; 8]> = Vec::new();
        let mut index: usize = 0;
        let ghost keys = vstd::std_specs::btree::spec_keys_iter(&self.map).remaining();
        for k in iter: self.map.keys()
            invariant
                index == iter.index(),
                len == self.map@.dom().len(),
                iter.seq() == keys,
                keys.len() == len,
                result@.len() == scan_len(index as nat, at, count),
                forall|p: int|
                    0 <= p < result@.len() ==> (#[trigger] result@[p])@ == number_key(
                        *keys[at + p],
                    ),
        {
            if index >= at && result.len() < count {
                result.push(to_key(*k));
            }
            index += 1;
        }
        proof {
            assert forall|i: int| 0 <= i < result@.len() implies self.contents().contains_key(
                #[trigger] result@[i]@,
            ) by {
                assert(keys.unref().to_set().contains(keys.unref()[at + i]));
            }
            assert forall|i: int, j: int| 0 <= i < j < result@.len() implies bytes_lt(
                (#[trigger] result@[i])@,
                (#[trigger] result@[j])@,
            ) by {
                lemma_keys_ascend(keys, at + i, at + j);
                lemma_key_number(Seq::empty(), *keys[at + i]);
                lemma_key_number(Seq::empty(), *keys[at + j]);
                lemma_key_number_order(result@[i]@, result@[j]@);
            }
            assert forall|i: int, j: int| 0 <= i < j < result@.len() implies (
            #[trigger] result@[i])@ != (#[trigger] result@[j])@ by {
                lemma_bytes_lt_irreflexive(result@[i]@);
            }
        }
        let scanned = result.len();
        (at + scanned, result)
    }
}

} // verus!
