//! The capability set of a key/value store: insert, get and remove.
use crate::error::Error;
use crate::index::find;
use crate::sorted_map::{lemma_erase, lemma_upsert, SortedMap};
use std::string::FromUtf8Error;
use vstd::hash_map::StringHashMap;
use vstd::prelude::*;
use vstd::utf8::{decode_utf8, valid_utf8};

verus! {

/// The value of an optional string.
pub open spec fn text_of(s: Option<String>) -> Option<Seq<char>> {
    match s {
        Some(v) => Some(v@),
        None => None,
    }
}

/// What a store that holds `contents` has under `key`, if anything.
pub open spec fn stored(contents: Map<Seq<char>, Seq<char>>, key: Seq<char>) -> Option<
    Seq<char>,
> {
    if contents.contains_key(key) {
        Some(contents[key])
    } else {
        None
    }
}

/// A store of string values under string keys.
///
/// An implementation states what it holds as a map, and under which
/// condition `inv` on its state it answers for that map. A storage that
/// states neither answers for nothing: its operations may fail, and say
/// nothing of what it holds.
pub trait KvStorage {
    /// The pairs of key and value that the store holds. Nothing, unless an
    /// implementation says otherwise.
    open spec fn contents(&self) -> Map<Seq<char>, Seq<char>> {
        Map::empty()
    }

    /// Whether the store is sound: its operations act on `contents` as the
    /// operations of a map and do not fail, but for the removal of a key
    /// that is not there. Never, unless an implementation says otherwise.
    open spec fn inv(&self) -> bool {
        false
    }

    /// Puts `value` under `key`, replacing what was there.
    fn insert(&mut self, key: String, value: String) -> (r: Result<(), Error>)
        ensures
            old(self).inv() ==> r is Ok && final(self).inv()
                && final(self).contents() == old(self).contents().insert(key@, value@),
    ;

    /// The value under `key`, or `None` where the store holds none.
    fn get(&self, key: &str) -> (r: Result<Option<String>, Error>)
        ensures
            self.inv() ==> r is Ok && text_of(r->Ok_0) == stored(self.contents(), key@),
    ;

    /// Takes `key` out of the store; fails with `KeyNotFound`, changing
    /// nothing, where the store holds nothing under it.
    fn remove(&mut self, key: &str) -> (r: Result<(), Error>)
        ensures
            old(self).inv() ==> final(self).inv() && if old(self).contents().contains_key(key@) {
                r is Ok && final(self).contents() == old(self).contents().remove(key@)
            } else {
                r is Err && r->Err_0 is KeyNotFound && final(self).contents() == old(self).contents()
            },
    ;
}

/// `String::from_utf8`: succeeds exactly on valid UTF-8, and then yields
/// the string that the bytes spell.
#[verifier::external_body]
fn string_from_utf8(bytes: Vec<u8>) -> (r: Result<String, FromUtf8Error>)
    ensures
        r is Ok <==> valid_utf8(bytes@),
        r matches Ok(s) ==> s@ == decode_utf8(bytes@),
{
    String::from_utf8(bytes)
}

/// The value that a storage which keeps values as bytes has found, as a
/// string: fails where the bytes are not valid UTF-8.
pub fn value_from_bytes(found: Option<Vec<u8>>) -> (r: Result<Option<String>, Error>)
    ensures
        match found {
            None => r matches Ok(None),
            Some(bytes) => if valid_utf8(bytes@) {
                r matches Ok(Some(s)) && s@ == decode_utf8(bytes@)
            } else {
                r matches Err(e) && e is Utf8
            },
        },
{
    match found {
        None => Ok(None),
        Some(bytes) => match string_from_utf8(bytes) {
            Ok(s) => Ok(Some(s)),
            Err(e) => Err(Error::Utf8(e)),
        },
    }
}

/// The result of a removal in a storage that tells what it has removed:
/// fails with `KeyNotFound` where it has removed nothing.
pub fn removal_result<T>(removed: Option<T>) -> (r: Result<(), Error>)
    ensures
        removed is Some ==> r is Ok,
        removed is None ==> r is Err && r->Err_0 is KeyNotFound,
{
    match removed {
        Some(_) => Ok(()),
        None => Err(Error::KeyNotFound),
    }
}

/// A hash map in memory as a storage. Every operation is handed on to the
/// map; it is always sound and never fails but for the removal of a key it
/// does not hold.
pub struct HashMapStorage {
    map: StringHashMap<String>,
}

impl HashMapStorage {
    /// An empty storage.
    pub fn new() -> (storage: Self)
        ensures
            storage.contents() == Map::<Seq<char>, Seq<char>>::empty(),
    {
        let storage = HashMapStorage { map: StringHashMap::new() };
        assert(storage.contents() =~= Map::<Seq<char>, Seq<char>>::empty());
        storage
    }
}

impl KvStorage for HashMapStorage {
    closed spec fn contents(&self) -> Map<Seq<char>, Seq<char>> {
        Map::new(|k: Seq<char>| self.map@.contains_key(k), |k: Seq<char>| self.map@[k]@)
    }

    open spec fn inv(&self) -> bool {
        true
    }

    fn insert(&mut self, key: String, value: String) -> (r: Result<(), Error>)
        ensures
            r is Ok,
    {
        let ghost k = key@;
        let ghost v = value@;
        self.map.insert(key, value);
        assert(self.contents() =~= old(self).contents().insert(k, v));
        Ok(())
    }

    fn get(&self, key: &str) -> (r: Result<Option<String>, Error>)
        ensures
            r is Ok,
    {
        match self.map.get(key) {
            Some(value) => Ok(Some(value.clone())),
            None => Ok(None),
        }
    }

    fn remove(&mut self, key: &str) -> (r: Result<(), Error>)
        ensures
            r is Ok <==> old(self).contents().contains_key(key@),
            r is Err ==> r->Err_0 is KeyNotFound,
    {
        if self.map.contains_key(key) {
            self.map.remove(key);
            assert(self.contents() =~= old(self).contents().remove(key@));
            Ok(())
        } else {
            Err(Error::KeyNotFound)
        }
    }
}

/// An ordered map in memory as a storage. Every operation is handed on to
/// the map; it is always sound and never fails but for the removal of a key
/// it does not hold.
pub struct OrderedMapStorage {
    map: SortedMap<String>,
}

impl OrderedMapStorage {
    /// An empty storage.
    pub fn new() -> (storage: Self)
        ensures
            storage.contents() == Map::<Seq<char>, Seq<char>>::empty(),
    {
        let storage = OrderedMapStorage { map: SortedMap::new() };
        assert(storage.contents() =~= Map::<Seq<char>, Seq<char>>::empty());
        storage
    }
}

impl KvStorage for OrderedMapStorage {
    closed spec fn contents(&self) -> Map<Seq<char>, Seq<char>> {
        Map::new(|k: Seq<char>| find(self.map@, k) is Some, |k: Seq<char>| find(self.map@, k)->0)
    }

    open spec fn inv(&self) -> bool {
        true
    }

    fn insert(&mut self, key: String, value: String) -> (r: Result<(), Error>)
        ensures
            r is Ok,
    {
        let ghost k = key@;
        let ghost v = value@;
        self.map.insert(key, value);
        proof {
            lemma_upsert(old(self).map@, k, v);
            assert(self.contents() =~= old(self).contents().insert(k, v));
        }
        Ok(())
    }

    fn get(&self, key: &str) -> (r: Result<Option<String>, Error>)
        ensures
            r is Ok,
    {
        match self.map.get(key) {
            Some(value) => Ok(Some(value.clone())),
            None => Ok(None),
        }
    }

    fn remove(&mut self, key: &str) -> (r: Result<(), Error>)
        ensures
            r is Ok <==> old(self).contents().contains_key(key@),
            r is Err ==> r->Err_0 is KeyNotFound,
    {
        let removed = self.map.remove(key);
        proof {
            lemma_erase(old(self).map@, key@);
        }
        match removed {
            Some(_) => {
                assert(self.contents() =~= old(self).contents().remove(key@));
                Ok(())
            },
            None => {
                assert(self.contents() =~= old(self).contents());
                Err(Error::KeyNotFound)
            },
        }
    }
}

} // verus!
