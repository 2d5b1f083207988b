//! The index segment and its offset index, as byte sequences.
//!
//! The index segment is a concatenation of encoded records, each a key
//! followed by a value. The offset index is a concatenation of words, the
//! i-th being the byte position at which the i-th record starts. A lookup
//! searches the offset index by bisection, reading only the keys it probes.
//!
//! Nothing here assumes that the two byte sequences are consistent: every
//! reading function says what it finds on any input. `index_wf` states when
//! they are, and the lemmas say what then follows.
use crate::order::{
    key_lt, lemma_key_lt_asymmetric, lemma_key_lt_transitive, lemma_rank_meaning, spec_rank, Rank,
};
use crate::wire::{
    fits, has_text, leading_text, leading_word, lemma_text_reads_back, lemma_word_reads_back,
    spec_tail, text, text_len, word,
};
use vstd::prelude::*;

verus! {

/// Whether the keys of `s` are strictly ascending.
pub open spec fn ascending<V>(s: Seq<(Seq<char>, V)>) -> bool {
    forall|i: int, j: int| #![trigger s[i], s[j]] 0 <= i < j < s.len() ==> key_lt(s[i].0, s[j].0)
}

/// Whether some entry of `s` has the key `key`.
pub open spec fn has_key<V>(s: Seq<(Seq<char>, V)>, key: Seq<char>) -> bool {
    exists|i: int| 0 <= i < s.len() && (#[trigger] s[i]).0 == key
}

/// A position of `s` at which the key `key` stands, if there is one.
pub open spec fn position<V>(s: Seq<(Seq<char>, V)>, key: Seq<char>) -> int {
    choose|i: int| 0 <= i < s.len() && (#[trigger] s[i]).0 == key
}

/// What `s` holds under `key`, if anything.
pub open spec fn find<V>(s: Seq<(Seq<char>, V)>, key: Seq<char>) -> Option<V> {
    if has_key(s, key) {
        Some(s[position(s, key)].1)
    } else {
        None
    }
}

/// In an ascending sequence the entry at `i` is the one found under its key.
pub proof fn lemma_find_at<V>(s: Seq<(Seq<char>, V)>, i: int)
    requires
        ascending(s),
        0 <= i < s.len(),
    ensures
        find(s, s[i].0) == Some(s[i].1),
{
    let key = s[i].0;
    assert(has_key(s, key));
    let j = position(s, key);
    if j < i {
        lemma_key_lt_asymmetric(s[j].0, s[i].0);
    } else if i < j {
        lemma_key_lt_asymmetric(s[i].0, s[j].0);
    }
}

/// A key that lies strictly between two neighbours of an ascending
/// sequence, or before its first or after its last entry, is not in it.
pub proof fn lemma_find_gap<V>(s: Seq<(Seq<char>, V)>, key: Seq<char>, at: int)
    requires
        ascending(s),
        0 <= at <= s.len(),
        at > 0 ==> key_lt(s[at - 1].0, key),
        at < s.len() ==> key_lt(key, s[at].0),
    ensures
        find(s, key) is None,
{
    if has_key(s, key) {
        let j = position(s, key);
        if j < at {
            if j < at - 1 {
                lemma_key_lt_transitive(s[j].0, s[at - 1].0, key);
            }
            lemma_key_lt_asymmetric(s[j].0, key);
        } else {
            if at < j {
                lemma_key_lt_transitive(key, s[at].0, s[j].0);
            }
            lemma_key_lt_asymmetric(key, s[j].0);
        }
    }
}

/// A key that comes before every key of `s` is not in it.
pub proof fn lemma_find_above<V>(s: Seq<(Seq<char>, V)>, key: Seq<char>)
    requires
        forall|i: int| 0 <= i < s.len() ==> key_lt(key, (#[trigger] s[i]).0),
    ensures
        find(s, key) is None,
{
    if has_key(s, key) {
        lemma_key_lt_asymmetric(key, s[position(s, key)].0);
    }
}

/// Every entry of an ascending sequence from `i` on has a key after `key`
/// as soon as the entry at `i` has.
pub proof fn lemma_suffix_above<V>(s: Seq<(Seq<char>, V)>, i: int, key: Seq<char>)
    requires
        ascending(s),
        0 <= i <= s.len(),
        i < s.len() ==> key_lt(key, s[i].0),
    ensures
        forall|a: int| i <= a < s.len() ==> key_lt(key, (#[trigger] s[a]).0),
{
    assert forall|a: int| i <= a < s.len() implies key_lt(key, (#[trigger] s[a]).0) by {
        if i < a {
            lemma_key_lt_transitive(key, s[i].0, s[a].0);
        }
    }
}

/// Putting an entry in front of an ascending sequence whose keys all come
/// after its key gives an ascending sequence that holds the entry and is
/// otherwise as before.
pub proof fn lemma_find_cons<V>(x: (Seq<char>, V), rest: Seq<(Seq<char>, V)>)
    requires
        ascending(rest),
        forall|p: int| 0 <= p < rest.len() ==> key_lt(x.0, (#[trigger] rest[p]).0),
    ensures
        ascending(seq![x] + rest),
        forall|k: Seq<char>|
            #![trigger find(seq![x] + rest, k)]
            find(seq![x] + rest, k) == if k == x.0 {
                Some(x.1)
            } else {
                find(rest, k)
            },
{
    let all = seq![x] + rest;
    assert forall|i: int, j: int| 0 <= i < j < all.len() implies key_lt(
        (#[trigger] all[i]).0,
        (#[trigger] all[j]).0,
    ) by {
        assert(all[j] == rest[j - 1]);
        if i > 0 {
            assert(all[i] == rest[i - 1]);
        }
    }
    assert forall|k: Seq<char>| #![trigger find(all, k)] find(all, k) == if k == x.0 {
        Some(x.1)
    } else {
        find(rest, k)
    } by {
        assert(all[0] == x);
        if has_key(all, k) {
            let p = position(all, k);
            lemma_find_at(all, p);
            lemma_find_at(all, 0);
            if p > 0 {
                assert(all[p] == rest[p - 1]);
                lemma_find_at(rest, p - 1);
                lemma_key_lt_asymmetric(x.0, k);
            }
        } else if has_key(rest, k) {
            let p = position(rest, k);
            assert(all[p + 1] == rest[p]);
        }
    }
}

/// What an ascending sequence holds from `i` on: the entry at `i`, and what
/// it holds from `i + 1` on.
pub proof fn lemma_find_skip<V>(s: Seq<(Seq<char>, V)>, i: int, key: Seq<char>)
    requires
        ascending(s),
        0 <= i < s.len(),
    ensures
        find(s.skip(i), key) == if key == s[i].0 {
            Some(s[i].1)
        } else {
            find(s.skip(i + 1), key)
        },
{
    let rest = s.skip(i + 1);
    assert(s.skip(i) =~= seq![s[i]] + rest);
    assert forall|p: int, q: int| 0 <= p < q < rest.len() implies key_lt(
        (#[trigger] rest[p]).0,
        (#[trigger] rest[q]).0,
    ) by {
        assert(rest[p] == s[i + 1 + p] && rest[q] == s[i + 1 + q]);
    }
    assert forall|p: int| 0 <= p < rest.len() implies key_lt(s[i].0, (#[trigger] rest[p]).0) by {
        assert(rest[p] == s[i + 1 + p]);
    }
    lemma_find_cons(s[i], rest);
}

/// The encoding of one record.
pub open spec fn record_bytes(r: (Seq<char>, Seq<char>)) -> Seq<u8> {
    text(r.0) + text(r.1)
}

/// Whether both strings of the record are short enough to be encoded.
pub open spec fn record_fits(r: (Seq<char>, Seq<char>)) -> bool {
    fits(r.0) && fits(r.1)
}

/// The bytes of an index segment that holds `recs` in this order.
pub open spec fn records_bytes(recs: Seq<(Seq<char>, Seq<char>)>) -> Seq<u8>
    decreases recs.len(),
{
    if recs.len() == 0 {
        Seq::empty()
    } else {
        records_bytes(recs.drop_last()) + record_bytes(recs.last())
    }
}

/// The bytes of the offset index that goes with `records_bytes(recs)`.
pub open spec fn offsets_bytes(recs: Seq<(Seq<char>, Seq<char>)>) -> Seq<u8>
    decreases recs.len(),
{
    if recs.len() == 0 {
        Seq::empty()
    } else {
        offsets_bytes(recs.drop_last()) + word(records_bytes(recs.drop_last()).len() as u64)
    }
}

/// Number of complete offsets in an offset index; bytes of an incomplete
/// last offset are not counted.
pub open spec fn entry_count(meta: Seq<u8>) -> int {
    meta.len() as int / 8
}

/// The `i`-th offset of an offset index.
pub open spec fn offset_at(meta: Seq<u8>, i: int) -> u64 {
    leading_word(meta.skip(8 * i))
}

/// Whether a key can be read at byte position `offset` of an index segment.
pub open spec fn has_key_at(large: Seq<u8>, offset: u64) -> bool {
    has_text(spec_tail(large, offset as int))
}

/// The key read at byte position `offset`.
pub open spec fn key_at(large: Seq<u8>, offset: u64) -> Seq<char> {
    leading_text(spec_tail(large, offset as int))
}

/// The byte position just after the key read at `offset`, where its value
/// starts.
pub open spec fn value_start(large: Seq<u8>, offset: u64) -> int {
    offset + text_len(spec_tail(large, offset as int))
}

/// Whether a whole record, key and value, can be read at `offset`.
pub open spec fn has_record_at(large: Seq<u8>, offset: u64) -> bool {
    &&& has_key_at(large, offset)
    &&& has_text(spec_tail(large, value_start(large, offset)))
}

/// The value of the record read at `offset`.
pub open spec fn value_at(large: Seq<u8>, offset: u64) -> Seq<char> {
    leading_text(spec_tail(large, value_start(large, offset)))
}

/// The record read at `offset`.
pub open spec fn record_at(large: Seq<u8>, offset: u64) -> (Seq<char>, Seq<char>) {
    (key_at(large, offset), value_at(large, offset))
}

/// The records that the offsets point at, in the order of the offsets.
pub open spec fn index_records(large: Seq<u8>, meta: Seq<u8>) -> Seq<(Seq<char>, Seq<char>)> {
    Seq::new(entry_count(meta) as nat, |i: int| record_at(large, offset_at(meta, i)))
}

/// Whether an index segment and an offset index are consistent: every
/// offset points at a readable record, and the keys of these records are
/// strictly ascending, so that no key occurs twice.
pub open spec fn index_wf(large: Seq<u8>, meta: Seq<u8>) -> bool {
    &&& forall|i: int|
        0 <= i < entry_count(meta) ==> has_record_at(large, #[trigger] offset_at(meta, i))
    &&& ascending(index_records(large, meta))
}

/// What a bisection for `key` between the offsets `lo` and `hi` finds:
/// `None` when a probe cannot be read, else the value under the key, if any.
pub open spec fn search(large: Seq<u8>, meta: Seq<u8>, key: Seq<char>, lo: int, hi: int) -> Option<
    Option<Seq<char>>,
>
    decreases hi - lo,
{
    if lo >= hi {
        Some(None)
    } else {
        let mid = (lo + hi) / 2;
        let offset = offset_at(meta, mid);
        if !has_key_at(large, offset) {
            None
        } else {
            match spec_rank(key, key_at(large, offset)) {
                Rank::Same => if has_record_at(large, offset) {
                    Some(Some(value_at(large, offset)))
                } else {
                    None
                },
                Rank::Before => search(large, meta, key, lo, mid),
                Rank::After => search(large, meta, key, mid + 1, hi),
            }
        }
    }
}

/// What a lookup of `key` in the index finds.
pub open spec fn lookup(large: Seq<u8>, meta: Seq<u8>, key: Seq<char>) -> Option<
    Option<Seq<char>>,
> {
    search(large, meta, key, 0, entry_count(meta))
}

/// On a consistent index, a bisection between bounds that enclose every
/// record that could hold the key finds what the index holds under the key.
pub proof fn lemma_search_finds(large: Seq<u8>, meta: Seq<u8>, key: Seq<char>, lo: int, hi: int)
    requires
        index_wf(large, meta),
        0 <= lo <= hi <= entry_count(meta),
        lo > 0 ==> key_lt(index_records(large, meta)[lo - 1].0, key),
        hi < entry_count(meta) ==> key_lt(key, index_records(large, meta)[hi].0),
    ensures
        search(large, meta, key, lo, hi) == Some(find(index_records(large, meta), key)),
    decreases hi - lo,
{
    let recs = index_records(large, meta);
    if lo >= hi {
        lemma_find_gap(recs, key, lo);
    } else {
        let mid = (lo + hi) / 2;
        let offset = offset_at(meta, mid);
        assert(has_record_at(large, offset));
        assert(recs[mid] == record_at(large, offset));
        lemma_rank_meaning(key, recs[mid].0);
        match spec_rank(key, key_at(large, offset)) {
            Rank::Same => {
                lemma_find_at(recs, mid);
            },
            Rank::Before => {
                lemma_search_finds(large, meta, key, lo, mid);
            },
            Rank::After => {
                lemma_search_finds(large, meta, key, mid + 1, hi);
            },
        }
    }
}

/// Binary search is correct: on a consistent index a lookup never fails,
/// yields the value of a key that is present, and nothing for any other key.
pub proof fn lemma_lookup_finds(large: Seq<u8>, meta: Seq<u8>, key: Seq<char>)
    requires
        index_wf(large, meta),
    ensures
        lookup(large, meta, key) == Some(find(index_records(large, meta), key)),
{
    lemma_search_finds(large, meta, key, 0, entry_count(meta));
}

/// The encoded records up to the `i`-th are a prefix of the whole, and the
/// `i`-th record follows them.
pub proof fn lemma_records_split(recs: Seq<(Seq<char>, Seq<char>)>, i: int) -> (rest: Seq<u8>)
    requires
        0 <= i < recs.len(),
    ensures
        records_bytes(recs) == records_bytes(recs.take(i)) + (record_bytes(recs[i]) + rest),
    decreases recs.len(),
{
    let front = recs.drop_last();
    if i == recs.len() - 1 {
        assert(recs.take(i) =~= front);
        assert(records_bytes(recs) =~= records_bytes(front) + (record_bytes(recs[i])
            + Seq::<u8>::empty()));
        Seq::empty()
    } else {
        let inner = lemma_records_split(front, i);
        assert(front.take(i) =~= recs.take(i));
        let rest = inner + record_bytes(recs.last());
        assert(records_bytes(recs) =~= records_bytes(recs.take(i)) + (record_bytes(recs[i])
            + rest));
        rest
    }
}

/// The encoded records grow with the number of records.
pub proof fn lemma_records_len_monotonic(recs: Seq<(Seq<char>, Seq<char>)>, i: int)
    requires
        0 <= i <= recs.len(),
    ensures
        records_bytes(recs.take(i)).len() <= records_bytes(recs).len(),
    decreases recs.len(),
{
    if i == recs.len() {
        assert(recs.take(i) =~= recs);
    } else {
        lemma_records_len_monotonic(recs.drop_last(), i);
        assert(recs.drop_last().take(i) =~= recs.take(i));
    }
}

/// The offset index written for `recs` has one word per record, and its
/// `i`-th offset is the length of the encoded records before the `i`-th.
pub proof fn lemma_offsets_read_back(recs: Seq<(Seq<char>, Seq<char>)>, i: int)
    requires
        0 <= i < recs.len(),
        records_bytes(recs).len() <= u64::MAX,
    ensures
        offsets_bytes(recs).len() == 8 * recs.len(),
        entry_count(offsets_bytes(recs)) == recs.len(),
        offset_at(offsets_bytes(recs), i) == records_bytes(recs.take(i)).len(),
    decreases recs.len(),
{
    let front = recs.drop_last();
    let last_offset = records_bytes(front).len() as u64;
    lemma_offsets_len(recs);
    lemma_offsets_len(front);
    lemma_word_reads_back(last_offset, Seq::empty());
    let all = offsets_bytes(recs);
    if i == recs.len() - 1 {
        assert(all.skip(8 * i) =~= word(last_offset) + Seq::<u8>::empty());
        assert(recs.take(i) =~= front);
    } else {
        lemma_offsets_read_back(front, i);
        assert(front.take(i) =~= recs.take(i));
        assert(all.skip(8 * i).subrange(0, 8) =~= offsets_bytes(front).skip(8 * i).subrange(0, 8));
    }
}

/// The offset index written for `recs` has one word per record.
pub proof fn lemma_offsets_len(recs: Seq<(Seq<char>, Seq<char>)>)
    ensures
        offsets_bytes(recs).len() == 8 * recs.len(),
    decreases recs.len(),
{
    if recs.len() > 0 {
        lemma_offsets_len(recs.drop_last());
        lemma_word_reads_back(records_bytes(recs.drop_last()).len() as u64, Seq::empty());
    }
}

/// The segments written for `recs` read back as `recs`: every offset points
/// at its record.
pub proof fn lemma_written_record_reads_back(recs: Seq<(Seq<char>, Seq<char>)>, i: int)
    requires
        0 <= i < recs.len(),
        records_bytes(recs).len() <= u64::MAX,
        forall|j: int| 0 <= j < recs.len() ==> record_fits(#[trigger] recs[j]),
    ensures
        has_record_at(records_bytes(recs), offset_at(offsets_bytes(recs), i)),
        record_at(records_bytes(recs), offset_at(offsets_bytes(recs), i)) == recs[i],
{
    let large = records_bytes(recs);
    let offset = offset_at(offsets_bytes(recs), i);
    lemma_offsets_read_back(recs, i);
    lemma_records_len_monotonic(recs, i);
    let rest = lemma_records_split(recs, i);
    let (k, v) = recs[i];
    assert(record_fits(recs[i]));
    assert(spec_tail(large, offset as int) =~= text(k) + (text(v) + rest));
    lemma_text_reads_back(k, text(v) + rest);
    lemma_text_reads_back(v, rest);
    assert(spec_tail(large, value_start(large, offset)) =~= text(v) + rest);
}

/// Segments written from ascending records are consistent and hold exactly
/// those records.
pub proof fn lemma_written_index_wf(recs: Seq<(Seq<char>, Seq<char>)>)
    requires
        ascending(recs),
        records_bytes(recs).len() <= u64::MAX,
        forall|j: int| 0 <= j < recs.len() ==> record_fits(#[trigger] recs[j]),
    ensures
        index_wf(records_bytes(recs), offsets_bytes(recs)),
        index_records(records_bytes(recs), offsets_bytes(recs)) == recs,
{
    let large = records_bytes(recs);
    let meta = offsets_bytes(recs);
    lemma_offsets_len(recs);
    assert forall|i: int| 0 <= i < entry_count(meta) implies has_record_at(
        large,
        #[trigger] offset_at(meta, i),
    ) && record_at(large, offset_at(meta, i)) == recs[i] by {
        lemma_written_record_reads_back(recs, i);
    }
    assert(index_records(large, meta) =~= recs);
}

} // verus!
