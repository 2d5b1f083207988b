//! The fixed-width store: a store in memory with a redo log of its changes.
use crate::mem_store::{scan_len, MemStore};
use crate::redo_log::{
    delete_record, lemma_replayed_logged, put_record, replayed, whole, RedoLog,
};
use vstd::prelude::*;

verus! {

/// A store of 256-byte values under 8-byte keys, held in memory, that
/// writes every change to a redo log and is rebuilt from the log when it
/// is made.
///
/// The store in memory and the log are chosen once, when the store is
/// made, and are parameters of the type: what they state of themselves is
/// then known of the store that holds them.
pub struct Store<S: MemStore, L: RedoLog> {
    mem_store: S,
    redo_log: L,
}

impl<S: MemStore, L: RedoLog> Store<S, L> {
    /// The store in memory.
    pub closed spec fn mem_store(&self) -> S {
        self.mem_store
    }

    /// The redo log.
    pub closed spec fn redo_log(&self) -> L {
        self.redo_log
    }

    /// The values that the store holds, each under its key.
    pub open spec fn contents(&self) -> Map<Seq<u8>, Seq<u8>> {
        self.mem_store().contents()
    }

    /// The bytes of the redo log.
    pub open spec fn log(&self) -> Seq<u8> {
        self.redo_log().bytes()
    }

    /// Whether the redo log can be relied on: every write to it so far has
    /// gone through.
    pub open spec fn log_sound(&self) -> bool {
        self.redo_log().sound()
    }

    /// Whether the store can be rebuilt from its log: the log holds whole
    /// records only, and redoing them on an empty store yields what the
    /// store holds.
    pub open spec fn rebuilds(&self) -> bool {
        &&& whole(self.log())
        &&& self.contents() == replayed(Map::empty(), self.log())
    }

    /// A store over `mem_store` and `redo_log`, with the records of the log
    /// redone on the store in memory.
    pub fn new(mem_store: S, redo_log: L) -> (store: Self)
        ensures
            store.log_sound() ==> redo_log.sound() && store.log() == redo_log.bytes()
                && store.contents() == replayed(mem_store.contents(), redo_log.bytes()),
            store.log_sound() && whole(redo_log.bytes()) && mem_store.contents() == Map::<
                Seq<u8>,
                Seq<u8>,
            >::empty() ==> store.rebuilds(),
    {
        let mut mem_store = mem_store;
        let mut redo_log = redo_log;
        redo_log.redo(&mut mem_store);
        Store { mem_store, redo_log }
    }

    /// Puts `value` under `key` and logs the change.
    pub fn put(&mut self, key: [u8; 8], value: [u8; 256])
        ensures
            final(self).contents() == old(self).contents().insert(key@, value@),
            final(self).log_sound() ==> old(self).log_sound()
                && final(self).log() == old(self).log() + put_record(key@, value@),
            final(self).log_sound() && old(self).rebuilds() ==> final(self).rebuilds(),
    {
        proof {
            if old(self).rebuilds() {
                lemma_replayed_logged(old(self).log(), key@, value@);
            }
        }
        self.mem_store.put(key, value);
        self.redo_log.log_put(&key, &value);
    }

    /// The value under `key`, or `None` where there is none.
    pub fn get(&self, key: &[u8; 8]) -> (r: Option<&[u8; 256]>)
        ensures
            match r {
                Some(value) => self.contents().contains_key(key@) && self.contents()[key@]
                    == value@,
                None => !self.contents().contains_key(key@),
            },
    {
        self.mem_store.get(key)
    }

    /// Takes `key` out of the store and returns the value it had. Where it
    /// had one, the change is logged; where it had none, nothing is.
    pub fn delete(&mut self, key: [u8; 8]) -> (r: Option<[u8; 256]>)
        ensures
            final(self).contents() == old(self).contents().remove(key@),
            match r {
                Some(value) => old(self).contents().contains_key(key@)
                    && old(self).contents()[key@] == value@
                    && (final(self).log_sound() ==> old(self).log_sound()
                    && final(self).log() == old(self).log() + delete_record(key@)),
                None => !old(self).contents().contains_key(key@)
                    && final(self).log() == old(self).log()
                    && final(self).log_sound() == old(self).log_sound(),
            },
            final(self).log_sound() && old(self).rebuilds() ==> final(self).rebuilds(),
    {
        proof {
            if old(self).rebuilds() {
                lemma_replayed_logged(old(self).log(), key@, Seq::new(256, |i: int| 0u8));
            }
        }
        let result = self.mem_store.delete(key);
        if result.is_some() {
            self.redo_log.log_delete(&key);
        } else {
            assert(old(self).contents().remove(key@) =~= old(self).contents());
        }
        result
    }

    /// Scans at most `count` keys from the cursor `at` on. Returns the
    /// cursor for the next scan and the keys scanned: keys of the store,
    /// no key twice, and as many as are left from the cursor on, up to
    /// `count`.
    pub fn scan(&self, at: usize, count: usize) -> (r: (usize, Vec<[u8; 8]>))
        ensures
            self.contents().dom().finite(),
            r.1@.len() == scan_len(self.contents().dom().len(), at, count),
            forall|i: int| 0 <= i < r.1@.len() ==> self.contents().contains_key(#[trigger] r.1@[i]@),
            forall|i: int, j: int|
                0 <= i < j < r.1@.len() ==> (#[trigger] r.1@[i])@ != (#[trigger] r.1@[j])@,
            r.0 == 0 || r.0 == at + r.1@.len(),
    {
        self.mem_store.scan(at, count)
    }
}

} // verus!
