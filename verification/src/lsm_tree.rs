//! A log-structured store with two levels.
//!
//! The small tree is the log segment: an unordered, append-only record of
//! the operations made since the last compaction. The large tree is the
//! index segment: one record per key in ascending key order, with a
//! parallel offset index that makes it searchable by bisection. A read asks
//! the small tree first and then the large one. When the small tree grows
//! beyond a limit, a compaction merges it into a new large tree and empties
//! it.
//!
//! The store works on the bytes of the three segments held in memory; it
//! is for the caller to load them from and write them back to files.
use crate::compaction::{
    buffer_of, compacted, emitted, followed_by, lemma_compacted, lemma_merge_of_nothing, merge,
};
use crate::error::Error;
use crate::index::{
    entry_count, find, has_key_at, index_records, index_wf, key_at, lemma_lookup_finds,
    lemma_written_index_wf, lookup, offset_at, offsets_bytes, record_bytes, record_fits,
    records_bytes, search, value_start,
};
use crate::log_entry::{
    append_entry, entry_bytes, is_clean, latest, lemma_parse_log_append, outcome, parse_log,
    replay, views, LogEntry, Op,
};
use crate::order::{lemma_rank_meaning, rank, Rank};
use crate::sorted_map::SortedMap;
use crate::storage::{text_of, KvStorage};
use crate::wire::{
    decode_u64, get_text, has_text, leading_text, put_text, put_word, spec_tail, tail, word, WORD_LEN,
};
use vstd::prelude::*;

verus! {

/// Size of the small tree in bytes beyond which a compaction is due.
pub const COMPAT_LIMIT: u64 = 4096;

/// The bytes of the three segments of a tree.
pub struct Segments {
    /// The log segment.
    pub small: Seq<u8>,
    /// The index segment.
    pub large: Seq<u8>,
    /// The offset index.
    pub meta: Seq<u8>,
}

impl Segments {
    /// Whether the index segment and its offset index are consistent.
    pub open spec fn index_ok(self) -> bool {
        index_wf(self.large, self.meta)
    }

    /// Whether no torn or foreign bytes follow the last entry of the log.
    pub open spec fn log_ok(self) -> bool {
        is_clean(self.small)
    }

    /// What the segments hold under `key`: the last word of the log about
    /// it, or else what the index holds.
    pub open spec fn value_in(self, key: Seq<char>) -> Option<Seq<char>> {
        outcome(parse_log(self.small), key, find(index_records(self.large, self.meta), key))
    }

    /// The map that the segments stand for: the records of the index with
    /// every operation of the log applied on top, in log order.
    pub open spec fn contents(self) -> Map<Seq<char>, Seq<char>> {
        Map::new(|k: Seq<char>| self.value_in(k) is Some, |k: Seq<char>| self.value_in(k)->0)
    }

    /// What a read of `key` yields on any segments: the last word of the
    /// log if it speaks of the key, else the result of a lookup in the
    /// index. `None` stands for a lookup that meets an unreadable record.
    pub open spec fn read(self, key: Seq<char>) -> Option<Option<Seq<char>>> {
        match latest(parse_log(self.small), key) {
            Some(state) => Some(state),
            None => lookup(self.large, self.meta, key),
        }
    }

    /// The segments after `op` is appended to the log.
    pub open spec fn appended(self, op: Op) -> Segments {
        Segments { small: self.small + entry_bytes(op), large: self.large, meta: self.meta }
    }

    /// The segments that a compaction leaves, and whether it succeeds. It
    /// fails, changing nothing, when the index cannot be read through;
    /// else it writes the merged records and their offsets and empties the
    /// log.
    pub open spec fn compaction(self) -> (Segments, bool) {
        match compacted(self.small, self.large, self.meta) {
            Some(recs) => (
                Segments {
                    small: Seq::empty(),
                    large: records_bytes(recs),
                    meta: offsets_bytes(recs),
                },
                true,
            ),
            None => (self, false),
        }
    }

    /// The segments once a change has settled: compacted where the log is
    /// larger than `limit` bytes, and as they are where it is not.
    pub open spec fn settled(self, limit: u64) -> (Segments, bool) {
        if self.small.len() > limit {
            self.compaction()
        } else {
            (self, true)
        }
    }
}

/// A simplified log-structured merge tree with two levels.
pub struct LSMTree {
    small_tree: Vec<u8>,
    large_tree: Vec<u8>,
    large_tree_meta: Vec<u8>,
    limit: u64,
}

impl LSMTree {
    /// The bytes of the three segments.
    pub closed spec fn segments(&self) -> Segments {
        Segments {
            small: self.small_tree@,
            large: self.large_tree@,
            meta: self.large_tree_meta@,
        }
    }

    /// The bytes of the log segment.
    pub open spec fn small(&self) -> Seq<u8> {
        self.segments().small
    }

    /// The bytes of the index segment.
    pub open spec fn large(&self) -> Seq<u8> {
        self.segments().large
    }

    /// The bytes of the offset index.
    pub open spec fn meta(&self) -> Seq<u8> {
        self.segments().meta
    }

    /// The size of the log segment beyond which a compaction is due.
    pub closed spec fn limit(&self) -> u64 {
        self.limit
    }

    /// Whether the index segment and its offset index are consistent.
    pub open spec fn index_ok(&self) -> bool {
        self.segments().index_ok()
    }

    /// Whether no torn or foreign bytes follow the last entry of the log.
    pub open spec fn log_ok(&self) -> bool {
        self.segments().log_ok()
    }

    /// The map that the tree stands for.
    pub open spec fn view(&self) -> Map<Seq<char>, Seq<char>> {
        self.segments().contents()
    }

    /// A tree on the given bytes of the log segment, the index segment and
    /// the offset index, with the default compaction limit. Empty bytes
    /// stand for a segment that does not exist yet.
    pub fn new(small_tree: Vec<u8>, large_tree: Vec<u8>, large_tree_meta: Vec<u8>) -> (tree: Self)
        ensures
            tree.small() == small_tree@,
            tree.large() == large_tree@,
            tree.meta() == large_tree_meta@,
            tree.limit() == COMPAT_LIMIT,
    {
        LSMTree { small_tree, large_tree, large_tree_meta, limit: COMPAT_LIMIT }
    }

    /// A tree on the given segments that compacts once its log segment is
    /// larger than `limit` bytes.
    pub fn with_limit(
        small_tree: Vec<u8>,
        large_tree: Vec<u8>,
        large_tree_meta: Vec<u8>,
        limit: u64,
    ) -> (tree: Self)
        ensures
            tree.small() == small_tree@,
            tree.large() == large_tree@,
            tree.meta() == large_tree_meta@,
            tree.limit() == limit,
    {
        LSMTree { small_tree, large_tree, large_tree_meta, limit }
    }

    /// The bytes of the log segment.
    pub fn small_tree(&self) -> (bytes: &Vec<u8>)
        ensures
            bytes@ == self.small(),
    {
        &self.small_tree
    }

    /// The bytes of the index segment.
    pub fn large_tree(&self) -> (bytes: &Vec<u8>)
        ensures
            bytes@ == self.large(),
    {
        &self.large_tree
    }

    /// The bytes of the offset index.
    pub fn large_tree_meta(&self) -> (bytes: &Vec<u8>)
        ensures
            bytes@ == self.meta(),
    {
        &self.large_tree_meta
    }

    /// What the small tree says last about `key`: the value it was given,
    /// and whether it was removed. Both are empty where the small tree does
    /// not speak of the key.
    pub fn find_in_small_tree(&self, key: &str) -> (r: (Option<String>, bool))
        ensures
            match latest(parse_log(self.small()), key@) {
                Some(Some(value)) => text_of(r.0) == Some(value) && !r.1,
                Some(None) => r.0 is None && r.1,
                None => r.0 is None && !r.1,
            },
    {
        let entries = replay(self.small_tree.as_slice());
        let ghost ops = parse_log(self.small());
        let mut result: Option<String> = None;
        let mut removed = false;
        let mut n: usize = 0;
        while n < entries.len()
            invariant
                n <= entries@.len(),
                views(entries@) == ops,
                match latest(ops.take(n as int), key@) {
                    Some(Some(value)) => text_of(result) == Some(value) && !removed,
                    Some(None) => result is None && removed,
                    None => result is None && !removed,
                },
            decreases entries@.len() - n,
        {
            proof {
                assert(ops.take(n + 1).drop_last() =~= ops.take(n as int));
                assert(ops.take(n + 1).last() == entries@[n as int]@);
            }
            match &entries[n] {
                LogEntry::Put(k, v) => {
                    proof {
                        lemma_rank_meaning(key@, k@);
                    }
                    if rank(key, k.as_str()) == Rank::Same {
                        result = Some(v.clone());
                        removed = false;
                    }
                },
                LogEntry::Remove(k) => {
                    proof {
                        lemma_rank_meaning(key@, k@);
                    }
                    if rank(key, k.as_str()) == Rank::Same {
                        result = None;
                        removed = true;
                    }
                },
            }
            n += 1;
        }
        assert(ops.take(n as int) =~= ops);
        (result, removed)
    }

    /// Reads the key of the record at byte position `offset` of the large
    /// tree, and tells the position just after the key, at which the value
    /// of the record starts.
    pub fn read_key_in_large_tree(&self, offset: u64) -> (r: Result<(String, u64), Error>)
        ensures
            r is Ok <==> has_key_at(self.large(), offset),
            r matches Ok((key, next)) ==> key@ == key_at(self.large(), offset) && next
                == value_start(self.large(), offset),
            r matches Err(e) ==> e is BincodeError,
    {
        let _ = self.large_tree.len();
        match get_text(tail(self.large_tree.as_slice(), offset)) {
            Ok((key, n)) => Ok((key, offset + n as u64)),
            Err(e) => Err(Error::BincodeError(e)),
        }
    }

    /// Reads the value that starts at byte position `start` of the large
    /// tree.
    fn read_value_in_large_tree(&self, start: u64) -> (r: Result<String, Error>)
        ensures
            r is Ok <==> has_text(spec_tail(self.large(), start as int)),
            r matches Ok(value) ==> value@ == leading_text(spec_tail(self.large(), start as int)),
            r matches Err(e) ==> e is BincodeError,
    {
        match get_text(tail(self.large_tree.as_slice(), start)) {
            Ok((value, _)) => Ok(value),
            Err(e) => Err(Error::BincodeError(e)),
        }
    }

    /// Number of offsets in the offset index.
    fn count(&self) -> (n: usize)
        ensures
            n == entry_count(self.meta()),
            n * 8 <= usize::MAX,
    {
        self.large_tree_meta.len() / WORD_LEN
    }

    /// Reads the `i`-th offset of the offset index.
    fn read_offset(&self, i: usize) -> (r: Result<u64, Error>)
        requires
            i < entry_count(self.meta()),
        ensures
            r is Ok,
            r matches Ok(offset) ==> offset == offset_at(self.meta(), i as int),
    {
        let _ = self.large_tree_meta.len();
        let at = (i * WORD_LEN) as u64;
        match decode_u64(tail(self.large_tree_meta.as_slice(), at)) {
            Ok(offset) => Ok(offset),
            Err(e) => Err(Error::BincodeError(e)),
        }
    }

    /// Looks `key` up in the large tree by bisection over the offset index.
    /// On a consistent index this finds the value of a key that is present
    /// and nothing for any other key.
    pub fn find_in_large_tree(&self, key: &str) -> (r: Result<Option<String>, Error>)
        ensures
            match lookup(self.large(), self.meta(), key@) {
                Some(found) => r matches Ok(value) && text_of(value) == found,
                None => r matches Err(e) && e is BincodeError,
            },
            self.index_ok() ==> (r matches Ok(value) && text_of(value) == find(
                index_records(self.large(), self.meta()),
                key@,
            )),
    {
        proof {
            if self.index_ok() {
                lemma_lookup_finds(self.large(), self.meta(), key@);
            }
        }
        let mut left: usize = 0;
        let mut right: usize = self.count();
        while left < right
            invariant
                0 <= left <= right <= entry_count(self.meta()),
                right * 8 <= usize::MAX,
                self.index_ok() ==> lookup(self.large(), self.meta(), key@) == Some(
                    find(index_records(self.large(), self.meta()), key@),
                ),
                lookup(self.large(), self.meta(), key@) == search(
                    self.large(),
                    self.meta(),
                    key@,
                    left as int,
                    right as int,
                ),
            decreases right - left,
        {
            let mid = (left + right) / 2;
            let offset = self.read_offset(mid)?;
            let (key_found, value_start) = self.read_key_in_large_tree(offset)?;
            match rank(key, key_found.as_str()) {
                Rank::Same => {
                    let value = self.read_value_in_large_tree(value_start)?;
                    return Ok(Some(value));
                },
                Rank::Before => {
                    right = mid;
                },
                Rank::After => {
                    left = mid + 1;
                },
            }
        }
        Ok(None)
    }

    /// Folds the small tree into a buffer that holds, for every key the log
    /// speaks of, its last word about the key.
    fn fold_small_tree(&self) -> (buffer: SortedMap<Option<String>>)
        ensures
            buffer@ == buffer_of(parse_log(self.small())),
    {
        let entries = replay(self.small_tree.as_slice());
        let ghost ops = parse_log(self.small());
        let mut buffer: SortedMap<Option<String>> = SortedMap::new();
        let mut n: usize = 0;
        assert(ops.take(0) =~= Seq::<Op>::empty());
        while n < entries.len()
            invariant
                n <= entries@.len(),
                views(entries@) == ops,
                buffer@ == buffer_of(ops.take(n as int)),
            decreases entries@.len() - n,
        {
            proof {
                assert(ops.take(n + 1).drop_last() =~= ops.take(n as int));
                assert(ops.take(n + 1).last() == entries@[n as int]@);
            }
            match &entries[n] {
                LogEntry::Put(k, v) => {
                    buffer.insert(k.clone(), Some(v.clone()));
                },
                LogEntry::Remove(k) => {
                    buffer.insert(k.clone(), None);
                },
            }
            n += 1;
        }
        assert(ops.take(n as int) =~= ops);
        buffer
    }

    /// Merges the small tree into the large one: writes a new large tree
    /// that holds, for every key, what the small tree says last about it or
    /// else what the old large tree held, leaves out the keys that were
    /// removed, and empties the small tree. What the tree holds does not
    /// change. Where a record of the old large tree cannot be read, the
    /// compaction fails and changes nothing.
    pub fn compact(&mut self) -> (r: Result<(), Error>)
        ensures
            final(self).limit() == old(self).limit(),
            (final(self).segments(), r is Ok) == old(self).segments().compaction(),
            r matches Err(e) ==> e is BincodeError,
            old(self).index_ok() ==> r is Ok && final(self).index_ok() && final(self).log_ok()
                && final(self)@ == old(self)@,
    {
        let ghost before = self.segments();
        let buffer = self.fold_small_tree();
        let ghost buf = buffer@;
        proof {
            if before.index_ok() {
                lemma_compacted(before.small, before.large, before.meta);
            }
        }
        let mut new_large: Vec<u8> = Vec::new();
        let mut new_meta: Vec<u8> = Vec::new();
        let count = self.count();
        let mut i: usize = 0;
        let mut j: usize = 0;
        let ghost mut out: Seq<(Seq<char>, Seq<char>)> = Seq::empty();
        while i < buffer.len() || j < count
            invariant
                *self == *old(self),
                self.segments() == before,
                buffer@ == buf,
                buf == buffer_of(parse_log(before.small)),
                before.index_ok() ==> compacted(before.small, before.large, before.meta) is Some,
                0 <= i <= buf.len(),
                0 <= j <= count == entry_count(before.meta),
                new_large@ == records_bytes(out),
                new_meta@ == offsets_bytes(out),
                forall|p: int| 0 <= p < out.len() ==> record_fits(#[trigger] out[p]),
                merge(buf, 0, before.large, before.meta, 0) == followed_by(
                    out,
                    merge(buf, i as int, before.large, before.meta, j as int),
                ),
            decreases buf.len() - i + count - j,
        {
            let ghost rest = merge(buf, i as int, before.large, before.meta, j as int);
            let mut from_buffer = j == count;
            let mut advance_index = i == buffer.len();
            let mut key_found: Option<(String, u64)> = None;
            if j < count {
                let offset = self.read_offset(j)?;
                let (key, value_start) = self.read_key_in_large_tree(offset)?;
                if i < buffer.len() {
                    match rank(buffer.key_at(i).as_str(), key.as_str()) {
                        Rank::Before => {
                            from_buffer = true;
                        },
                        Rank::Same => {
                            from_buffer = true;
                            advance_index = true;
                        },
                        Rank::After => {
                            advance_index = true;
                        },
                    }
                }
                key_found = Some((key, value_start));
            }
            if from_buffer {
                let ghost step = emitted(buf[i as int]);
                let ghost next = merge(
                    buf,
                    i + 1,
                    before.large,
                    before.meta,
                    if advance_index { j + 1 } else { j as int },
                );
                assert(rest == followed_by(step, next));
                match buffer.value_at(i) {
                    Some(value) => {
                        write_record(
                            &mut new_large,
                            &mut new_meta,
                            buffer.key_at(i).as_str(),
                            value.as_str(),
                        )?;
                    },
                    None => {},
                }
                proof {
                    assert(records_bytes(out + step) =~= new_large@ && offsets_bytes(out + step)
                        =~= new_meta@) by {
                        if step.len() > 0 {
                            assert((out + step).drop_last() =~= out);
                        } else {
                            assert(out + step =~= out);
                        }
                    }
                    lemma_followed_twice(out, step, next);
                    out = out + step;
                }
                i += 1;
                if advance_index {
                    j += 1;
                }
            } else {
                let (key, value_start) = key_found.unwrap();
                let value = self.read_value_in_large_tree(value_start)?;
                let ghost record = (key@, value@);
                let ghost next = merge(buf, i as int, before.large, before.meta, j + 1);
                assert(rest == followed_by(seq![record], next));
                write_record(&mut new_large, &mut new_meta, key.as_str(), value.as_str())?;
                proof {
                    assert((out + seq![record]).drop_last() =~= out);
                    lemma_followed_twice(out, seq![record], next);
                    out = out + seq![record];
                }
                j += 1;
            }
        }
        proof {
            assert(out + Seq::<(Seq<char>, Seq<char>)>::empty() =~= out);
            assert(compacted(before.small, before.large, before.meta) == Some(out));
        }
        let written = new_large.len();
        self.large_tree = new_large;
        self.large_tree_meta = new_meta;
        self.small_tree.clear();
        proof {
            if before.index_ok() {
                lemma_written_index_wf(out);
                let after = self.segments();
                assert(parse_log(after.small) =~= Seq::<Op>::empty());
                assert forall|k: Seq<char>| after.value_in(k) == before.value_in(k) by {
                    assert(find(out, k) == before.value_in(k));
                }
                assert(after.contents() =~= before.contents());
            }
        }
        Ok(())
    }

    /// Compacts the small tree into the large one if it has grown beyond
    /// the limit.
    pub fn compact_if_necessary(&mut self) -> (r: Result<(), Error>)
        ensures
            final(self).limit() == old(self).limit(),
            (final(self).segments(), r is Ok) == old(self).segments().settled(old(self).limit()),
            r matches Err(e) ==> e is BincodeError,
            r is Ok ==> final(self).small().len() <= old(self).limit(),
            old(self).index_ok() ==> r is Ok && final(self).index_ok() && final(self)@ == old(self)@,
            old(self).index_ok() && old(self).log_ok() ==> final(self).log_ok(),
    {
        if self.small_tree.len() as u64 > self.limit {
            self.compact()?;
        }
        Ok(())
    }

    /// Appends `entry` to the small tree and compacts if it has grown
    /// beyond the limit.
    fn record(&mut self, entry: &LogEntry) -> (r: Result<(), Error>)
        ensures
            final(self).limit() == old(self).limit(),
            (final(self).segments(), r is Ok) == old(self).segments().appended(entry@).settled(
                old(self).limit(),
            ),
            r matches Err(e) ==> e is BincodeError,
            old(self).index_ok() ==> r is Ok && final(self).index_ok(),
            old(self).index_ok() && old(self).log_ok() ==> final(self).log_ok()
                && final(self).segments().contents()
                == old(self).segments().appended(entry@).contents(),
            entry@.fits(),
    {
        let ghost before = self.segments();
        match append_entry(&mut self.small_tree, entry) {
            Ok(_) => {},
            Err(e) => {
                return Err(Error::BincodeError(e));
            },
        }
        proof {
            if before.log_ok() {
                lemma_parse_log_append(before.small, entry@);
            }
        }
        self.compact_if_necessary()
    }
}

impl KvStorage for LSMTree {
    open spec fn contents(&self) -> Map<Seq<char>, Seq<char>> {
        self@
    }

    /// The tree behaves as a map when its index is consistent and its log
    /// holds nothing but whole entries.
    open spec fn inv(&self) -> bool {
        self.index_ok() && self.log_ok()
    }

    /// Appends a `Put` entry to the small tree, then compacts if the small
    /// tree has grown beyond the limit. On a sound tree this always
    /// succeeds.
    fn insert(&mut self, key: String, value: String) -> (r: Result<(), Error>)
        ensures
            final(self).limit() == old(self).limit(),
            (final(self).segments(), r is Ok) == old(self).segments().appended(
                Op::Put(key@, value@),
            ).settled(old(self).limit()),
            final(self).segments() == step(
                old(self).segments(),
                Op::Put(key@, value@),
                old(self).limit(),
            ),
            r matches Err(e) ==> e is BincodeError,
            old(self).index_ok() ==> r is Ok,
    {
        let ghost before = self.segments();
        let ghost op = Op::Put(key@, value@);
        let r = self.record(&LogEntry::Put(key, value));
        proof {
            if before.index_ok() && before.log_ok() {
                lemma_parse_log_append(before.small, op);
                lemma_appended_contents(before, op);
            }
        }
        r
    }

    /// Reads the value under `key`: the last word of the small tree about
    /// the key if it has one, else what the large tree holds.
    fn get(&self, key: &str) -> (r: Result<Option<String>, Error>)
        ensures
            match self.segments().read(key@) {
                Some(found) => r matches Ok(value) && text_of(value) == found,
                None => r matches Err(e) && e is BincodeError,
            },
            self.index_ok() ==> (r matches Ok(value) && text_of(value) == self.segments().value_in(
                key@,
            )),
    {
        let (in_small_tree, removed) = self.find_in_small_tree(key);
        if removed {
            return Ok(None);
        }
        match in_small_tree {
            Some(v) => Ok(Some(v)),
            None => self.find_in_large_tree(key),
        }
    }

    /// Reads `key` first. Where the read fails, the failure is passed on;
    /// where it finds no value, the removal fails with `KeyNotFound`; in
    /// both cases nothing changes. Where it finds a value, a `Remove` entry
    /// is appended to the small tree, and the small tree compacted if it has
    /// grown beyond the limit.
    fn remove(&mut self, key: &str) -> (r: Result<(), Error>)
        ensures
            final(self).limit() == old(self).limit(),
            old(self).segments().read(key@) is None ==> r is Err && r->Err_0 is BincodeError
                && final(self).segments() == old(self).segments(),
            old(self).segments().read(key@) == Some(None::<Seq<char>>) ==> r is Err
                && r->Err_0 is KeyNotFound && final(self).segments() == old(self).segments(),
            old(self).segments().read(key@) matches Some(Some(_)) ==> (r is Err
                ==> r->Err_0 is BincodeError) && (final(self).segments(), r is Ok)
                == old(self).segments().appended(Op::Remove(key@)).settled(old(self).limit()),
            final(self).segments() == step(
                old(self).segments(),
                Op::Remove(key@),
                old(self).limit(),
            ),
            old(self).index_ok() ==> (r is Ok <==> old(self).segments().value_in(key@) is Some)
                && (r is Err ==> r->Err_0 is KeyNotFound),
    {
        let ghost before = self.segments();
        let ghost op = Op::Remove(key@);
        match self.get(key) {
            Ok(None) => Err(Error::KeyNotFound),
            Err(e) => Err(e),
            Ok(Some(_)) => {
                let r = self.record(&LogEntry::Remove(key.to_owned()));
                proof {
                    if before.index_ok() && before.log_ok() {
                        lemma_parse_log_append(before.small, op);
                        lemma_appended_contents(before, op);
                    }
                }
                r
            },
        }
    }
}

/// Segments without any bytes are sound and hold nothing.
pub proof fn lemma_empty_segments()
    ensures
        (Segments { small: Seq::empty(), large: Seq::empty(), meta: Seq::empty() }).index_ok(),
        (Segments { small: Seq::empty(), large: Seq::empty(), meta: Seq::empty() }).log_ok(),
        (Segments { small: Seq::empty(), large: Seq::empty(), meta: Seq::empty() }).contents()
            == Map::<Seq<char>, Seq<char>>::empty(),
{
    let s = Segments { small: Seq::empty(), large: Seq::empty(), meta: Seq::empty() };
    assert(parse_log(s.small) =~= Seq::<Op>::empty());
    assert forall|k: Seq<char>| s.value_in(k) is None by {
        assert(index_records(s.large, s.meta).len() == 0);
    }
    assert(s.contents() =~= Map::<Seq<char>, Seq<char>>::empty());
}

/// On segments with a consistent index a read finds what the segments hold:
/// the last value given to the key, unless the key was removed since.
pub proof fn lemma_read_finds(s: Segments, key: Seq<char>)
    requires
        s.index_ok(),
    ensures
        s.read(key) == Some(s.value_in(key)),
{
    lemma_lookup_finds(s.large, s.meta, key);
}

/// Reads do not see compactions. On segments with a consistent index a
/// compaction succeeds and leaves a consistent index and an empty log; the
/// segments hold the same map, and a read of any key yields the same
/// result before and after it.
pub proof fn lemma_compaction_keeps_reads(s: Segments, key: Seq<char>)
    requires
        s.index_ok(),
        s.compaction().0.large.len() <= u64::MAX,
    ensures
        s.compaction().1,
        s.compaction().0.index_ok(),
        s.compaction().0.log_ok(),
        s.compaction().0.contents() == s.contents(),
        s.compaction().0.read(key) == s.read(key),
{
    lemma_compacted(s.small, s.large, s.meta);
    let recs = compacted(s.small, s.large, s.meta)->0;
    let after = s.compaction().0;
    lemma_written_index_wf(recs);
    assert(parse_log(after.small) =~= Seq::<Op>::empty());
    assert forall|k: Seq<char>| after.value_in(k) == s.value_in(k) by {
        assert(find(recs, k) == s.value_in(k));
    }
    assert(after.contents() =~= s.contents());
    lemma_read_finds(s, key);
    lemma_read_finds(after, key);
}

/// Settling after a change does not change what is read, whether it
/// compacts or not.
pub proof fn lemma_settling_keeps_reads(s: Segments, limit: u64, key: Seq<char>)
    requires
        s.index_ok(),
        s.compaction().0.large.len() <= u64::MAX,
    ensures
        s.settled(limit).1,
        s.settled(limit).0.index_ok(),
        s.settled(limit).0.contents() == s.contents(),
        s.settled(limit).0.read(key) == s.read(key),
{
    lemma_compaction_keeps_reads(s, key);
}

/// Compaction is idempotent: a second compaction right after a first one
/// writes the very bytes that the first one wrote.
pub proof fn lemma_compaction_idempotent(s: Segments)
    requires
        s.index_ok(),
        s.compaction().0.large.len() <= u64::MAX,
    ensures
        s.compaction().0.compaction() == s.compaction(),
{
    lemma_compacted(s.small, s.large, s.meta);
    let recs = compacted(s.small, s.large, s.meta)->0;
    let after = s.compaction().0;
    lemma_written_index_wf(recs);
    assert(parse_log(after.small) =~= Seq::<Op>::empty());
    lemma_merge_of_nothing(after.large, after.meta, 0);
    assert(index_records(after.large, after.meta).skip(0) =~= recs);
}

/// The segments after one change is asked of a tree with the given limit:
/// the operation is appended to the log and the log compacted if it has
/// grown beyond the limit; but a removal is refused and changes nothing
/// unless a read of its key finds a value.
pub open spec fn step(s: Segments, op: Op, limit: u64) -> Segments {
    if op is Remove && !(s.read(op.key()) matches Some(Some(_))) {
        s
    } else {
        s.appended(op).settled(limit).0
    }
}

/// The segments after the changes `ops` are asked, in order, of a tree with
/// the given limit.
pub open spec fn run(s: Segments, ops: Seq<Op>, limit: u64) -> Segments
    decreases ops.len(),
{
    if ops.len() == 0 {
        s
    } else {
        step(run(s, ops.drop_last(), limit), ops.last(), limit)
    }
}

/// Whether the changes `ops` stay within what can be stored: every string
/// is short enough to be encoded, and no compaction on the way writes an
/// index segment too large for its offsets to address.
pub open spec fn storable(s: Segments, ops: Seq<Op>, limit: u64) -> bool
    decreases ops.len(),
{
    if ops.len() == 0 {
        true
    } else {
        &&& storable(s, ops.drop_last(), limit)
        &&& ops.last().fits()
        &&& run(s, ops.drop_last(), limit).appended(ops.last()).compaction().0.large.len()
            <= u64::MAX
    }
}

/// The map that results from making the changes `ops`, in order, to `m`.
pub open spec fn applied(m: Map<Seq<char>, Seq<char>>, ops: Seq<Op>) -> Map<Seq<char>, Seq<char>>
    decreases ops.len(),
{
    if ops.len() == 0 {
        m
    } else {
        match ops.last() {
            Op::Put(key, value) => applied(m, ops.drop_last()).insert(key, value),
            Op::Remove(key) => applied(m, ops.drop_last()).remove(key),
        }
    }
}

/// The last write wins, whenever compactions run. After any sequence of
/// changes to a sound tree, with any limit, the tree is sound and holds
/// the map that the changes make of what it held: under each key the
/// value last put since it was last removed. A read of a key finds that
/// value.
pub proof fn lemma_run(s: Segments, ops: Seq<Op>, limit: u64, key: Seq<char>)
    requires
        s.index_ok(),
        s.log_ok(),
        storable(s, ops, limit),
    ensures
        run(s, ops, limit).index_ok(),
        run(s, ops, limit).log_ok(),
        run(s, ops, limit).contents() == applied(s.contents(), ops),
        run(s, ops, limit).read(key) == Some(
            if applied(s.contents(), ops).contains_key(key) {
                Some(applied(s.contents(), ops)[key])
            } else {
                None
            },
        ),
    decreases ops.len(),
{
    if ops.len() > 0 {
        let before = run(s, ops.drop_last(), limit);
        let op = ops.last();
        lemma_run(s, ops.drop_last(), limit, op.key());
        if op is Remove && !(before.read(op.key()) matches Some(Some(_))) {
            assert(before.contents().remove(op.key()) =~= before.contents());
        } else {
            lemma_appended_contents(before, op);
            lemma_settling_keeps_reads(before.appended(op), limit, key);
            if before.appended(op).small.len() > limit {
                lemma_compaction_keeps_reads(before.appended(op), key);
            }
        }
    }
    lemma_read_finds(run(s, ops, limit), key);
}

/// Reads do not depend on when compactions run: after the same changes, a
/// tree that compacts at one limit and a tree that compacts at another
/// read the same under every key.
pub proof fn lemma_reads_ignore_limit(
    s: Segments,
    ops: Seq<Op>,
    limit: u64,
    other_limit: u64,
    key: Seq<char>,
)
    requires
        s.index_ok(),
        s.log_ok(),
        storable(s, ops, limit),
        storable(s, ops, other_limit),
    ensures
        run(s, ops, limit).read(key) == run(s, ops, other_limit).read(key),
{
    lemma_run(s, ops, limit, key);
    lemma_run(s, ops, other_limit, key);
}

/// Once a change has settled, the log is no larger than the limit unless
/// a compaction that was due has failed.
pub proof fn lemma_settled_log_is_small(s: Segments, limit: u64)
    ensures
        s.settled(limit).1 ==> s.settled(limit).0.small.len() <= limit,
{
}

/// Appending an operation to a clean log changes what the segments hold as
/// the operation says.
pub proof fn lemma_appended_contents(s: Segments, op: Op)
    requires
        s.log_ok(),
        op.fits(),
    ensures
        s.appended(op).log_ok(),
        s.appended(op).contents() == match op {
            Op::Put(key, value) => s.contents().insert(key, value),
            Op::Remove(key) => s.contents().remove(key),
        },
{
    lemma_parse_log_append(s.small, op);
    let after = s.appended(op);
    let ops = parse_log(s.small);
    assert(ops.push(op).drop_last() =~= ops);
    let expected = match op {
        Op::Put(key, value) => s.contents().insert(key, value),
        Op::Remove(key) => s.contents().remove(key),
    };
    assert forall|k: Seq<char>| after.value_in(k) == if k == op.key() {
        op.state()
    } else {
        s.value_in(k)
    } by {
    }
    assert(after.contents() =~= expected);
}

/// Appends a record of `key` and `value` to an index segment under
/// construction, and the position at which the record starts to its offset
/// index.
fn write_record(large: &mut Vec<u8>, meta: &mut Vec<u8>, key: &str, value: &str) -> (r: Result<
    (),
    Error,
>)
    ensures
        r is Ok,
        final(large)@ == old(large)@ + record_bytes((key@, value@)),
        final(meta)@ == old(meta)@ + word(old(large)@.len() as u64),
        record_fits((key@, value@)),
{
    let start = large.len() as u64;
    let r1 = put_word(meta, start);
    let r2 = put_text(large, key);
    let r3 = put_text(large, value);
    assert(large@ =~= old(large)@ + record_bytes((key@, value@)));
    match (r1, r2, r3) {
        (Err(e), _, _) => Err(Error::BincodeError(e)),
        (_, Err(e), _) => Err(Error::BincodeError(e)),
        (_, _, Err(e)) => Err(Error::BincodeError(e)),
        _ => Ok(()),
    }
}

/// Records already written, then a step, then the rest of the walk are the
/// records written with the step, then the rest.
proof fn lemma_followed_twice(
    out: Seq<(Seq<char>, Seq<char>)>,
    step: Seq<(Seq<char>, Seq<char>)>,
    next: Option<Seq<(Seq<char>, Seq<char>)>>,
)
    ensures
        followed_by(out, followed_by(step, next)) == followed_by(out + step, next),
{
    if let Some(records) = next {
        assert(out + (step + records) =~= (out + step) + records);
    }
}

} // verus!
