//! A store of string values under string keys, over a storage chosen when
//! the store is made.
use crate::error::Error;
use crate::lsm_tree::{LSMTree, Segments};
use crate::storage::{stored, text_of, HashMapStorage, KvStorage};
use vstd::prelude::*;

verus! {

/// The `KvStore` stores string key/value pairs.
///
/// The pairs are kept in a `KvStorage`; every operation is handed on to it.
pub struct KvStore {
    storage: Box<dyn KvStorage>,
}

impl Default for KvStore {
    /// Creates a default `KvStore`: empty, over a hash map in memory.
    fn default() -> (store: Self)
        ensures
            store.inv(),
            store.contents() == Map::<Seq<char>, Seq<char>>::empty(),
    {
        KvStore { storage: Box::new(HashMapStorage::new()) }
    }
}

impl KvStore {
    /// The pairs of key and value that the store holds.
    pub closed spec fn contents(&self) -> Map<Seq<char>, Seq<char>> {
        self.storage.contents()
    }

    /// Whether the storage of the store is sound.
    pub closed spec fn inv(&self) -> bool {
        self.storage.inv()
    }

    /// A store over a log-structured tree on the given bytes of its log
    /// segment, index segment and offset index.
    pub fn open(small_tree: Vec<u8>, large_tree: Vec<u8>, large_tree_meta: Vec<u8>) -> (r: Result<
        KvStore,
        Error,
    >)
        ensures
            r is Ok,
            r matches Ok(store) ==> store.contents() == (Segments {
                small: small_tree@,
                large: large_tree@,
                meta: large_tree_meta@,
            }).contents() && store.inv() == ((Segments {
                small: small_tree@,
                large: large_tree@,
                meta: large_tree_meta@,
            }).index_ok() && (Segments {
                small: small_tree@,
                large: large_tree@,
                meta: large_tree_meta@,
            }).log_ok()),
    {
        let tree = LSMTree::new(small_tree, large_tree, large_tree_meta);
        Ok(KvStore { storage: Box::new(tree) })
    }

    /// Sets the value of a string key to a string. If the key already
    /// exists, the previous value is overwritten.
    pub fn set(&mut self, key: String, value: String) -> (r: Result<(), Error>)
        ensures
            old(self).inv() ==> r is Ok && final(self).inv()
                && final(self).contents() == old(self).contents().insert(key@, value@),
    {
        self.storage.insert(key, value)
    }

    /// Gets the string value of a given string key. Returns `None` if the
    /// given key does not exist.
    pub fn get(&self, key: String) -> (r: Result<Option<String>, Error>)
        ensures
            self.inv() ==> r is Ok && text_of(r->Ok_0) == stored(self.contents(), key@),
    {
        self.storage.get(key.as_str())
    }

    /// Removes a given key. Fails with `KeyNotFound`, changing nothing, if
    /// the given key does not exist.
    pub fn remove(&mut self, key: String) -> (r: Result<(), Error>)
        ensures
            old(self).inv() ==> final(self).inv() && if old(self).contents().contains_key(key@) {
                r is Ok && final(self).contents() == old(self).contents().remove(key@)
            } else {
                r is Err && r->Err_0 is KeyNotFound && final(self).contents() == old(self).contents()
            },
    {
        self.storage.remove(key.as_str())
    }
}

} // verus!
