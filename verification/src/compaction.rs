//! What a compaction computes.
//!
//! A compaction folds the operations of the log into an ascending buffer
//! that holds, for each key the log speaks of, its last word about the key:
//! a value, or that the key is removed. It then walks the buffer and the
//! records of the index side by side in key order. A key of the buffer wins
//! over the same key in the index; a removed key is left out.
//!
//! `compacted` states the result on any input, `None` standing for a walk
//! that meets an unreadable record. The lemmas state what the result is when
//! the index is consistent.
use crate::index::{
    ascending, entry_count, find, has_key_at, has_record_at, index_records, index_wf, key_at,
    lemma_find_above, lemma_find_cons, lemma_find_skip, lemma_suffix_above, offset_at, record_at,
    record_fits,
};
use crate::log_entry::{has_entry, latest, lemma_entry_len_bounds, outcome, parse_log, entry_len, Op};
use crate::order::{key_lt, lemma_rank_meaning, spec_rank, Rank};
use crate::sorted_map::{lemma_upsert, lemma_upsert_keeps, upsert};
use crate::wire::{fits, lemma_text_is_canonical, leading_tag, spec_tail, text_len};
use vstd::prelude::*;

verus! {

/// The buffer a compaction builds from the operations of the log: ascending
/// by key, each key with the last word of the log about it.
pub open spec fn buffer_of(ops: Seq<Op>) -> Seq<(Seq<char>, Option<Seq<char>>)>
    decreases ops.len(),
{
    if ops.len() == 0 {
        Seq::empty()
    } else {
        upsert(buffer_of(ops.drop_last()), ops.last().key(), ops.last().state())
    }
}

/// The records an entry of the buffer contributes: its key and value, or
/// nothing when the key is removed.
pub open spec fn emitted(entry: (Seq<char>, Option<Seq<char>>)) -> Seq<(Seq<char>, Seq<char>)> {
    match entry.1 {
        Some(value) => seq![(entry.0, value)],
        None => Seq::empty(),
    }
}

/// `head` followed by the records of `rest`, if the rest could be computed.
pub open spec fn followed_by(
    head: Seq<(Seq<char>, Seq<char>)>,
    rest: Option<Seq<(Seq<char>, Seq<char>)>>,
) -> Option<Seq<(Seq<char>, Seq<char>)>> {
    match rest {
        Some(records) => Some(head + records),
        None => None,
    }
}

/// The records a merge walk emits from entry `i` of the buffer and offset
/// `j` of the index on; `None` when the walk meets a record it cannot read.
pub open spec fn merge(
    buf: Seq<(Seq<char>, Option<Seq<char>>)>,
    i: int,
    large: Seq<u8>,
    meta: Seq<u8>,
    j: int,
) -> Option<Seq<(Seq<char>, Seq<char>)>>
    decreases buf.len() - i + entry_count(meta) - j,
{
    let n = entry_count(meta);
    if i < 0 || i > buf.len() || j < 0 || j > n {
        None
    } else if i == buf.len() {
        if j == n {
            Some(Seq::empty())
        } else if has_record_at(large, offset_at(meta, j)) {
            followed_by(
                seq![record_at(large, offset_at(meta, j))],
                merge(buf, i, large, meta, j + 1),
            )
        } else {
            None
        }
    } else if j == n {
        followed_by(emitted(buf[i]), merge(buf, i + 1, large, meta, j))
    } else if !has_key_at(large, offset_at(meta, j)) {
        None
    } else {
        match spec_rank(buf[i].0, key_at(large, offset_at(meta, j))) {
            Rank::Before => followed_by(emitted(buf[i]), merge(buf, i + 1, large, meta, j)),
            Rank::Same => followed_by(emitted(buf[i]), merge(buf, i + 1, large, meta, j + 1)),
            Rank::After => if has_record_at(large, offset_at(meta, j)) {
                followed_by(
                    seq![record_at(large, offset_at(meta, j))],
                    merge(buf, i, large, meta, j + 1),
                )
            } else {
                None
            },
        }
    }
}

/// The records of the index that a compaction of the three segments writes;
/// `None` when the index cannot be read through.
pub open spec fn compacted(small: Seq<u8>, large: Seq<u8>, meta: Seq<u8>) -> Option<
    Seq<(Seq<char>, Seq<char>)>,
> {
    merge(buffer_of(parse_log(small)), 0, large, meta, 0)
}

/// Whether the strings of an entry of the buffer are short enough to be
/// encoded.
pub open spec fn entry_fits(entry: (Seq<char>, Option<Seq<char>>)) -> bool {
    fits(entry.0) && (entry.1 matches Some(value) ==> fits(value))
}

/// What is under a key when the buffer says `pending` about it and the
/// index holds `stored`.
pub open spec fn combined(pending: Option<Option<Seq<char>>>, stored: Option<Seq<char>>) -> Option<
    Seq<char>,
> {
    match pending {
        Some(state) => state,
        None => stored,
    }
}

/// The buffer is ascending and holds for every key the last word of the
/// operations about it.
pub proof fn lemma_buffer_of(ops: Seq<Op>)
    ensures
        ascending(buffer_of(ops)),
        forall|k: Seq<char>| #![trigger find(buffer_of(ops), k)] find(buffer_of(ops), k) == latest(ops, k),
    decreases ops.len(),
{
    if ops.len() > 0 {
        let front = ops.drop_last();
        lemma_buffer_of(front);
        lemma_upsert(buffer_of(front), ops.last().key(), ops.last().state());
        assert forall|k: Seq<char>| #![trigger find(buffer_of(ops), k)] find(buffer_of(ops), k)
            == latest(ops, k) by {
            assert(find(buffer_of(front), k) == latest(front, k));
        }
    } else {
        assert forall|k: Seq<char>| #![trigger find(buffer_of(ops), k)] find(buffer_of(ops), k)
            == latest(ops, k) by {
        }
    }
}

/// Every operation read from a log has strings short enough to be encoded.
pub proof fn lemma_parsed_ops_fit(bytes: Seq<u8>)
    ensures
        forall|p: int| 0 <= p < parse_log(bytes).len() ==> (#[trigger] parse_log(bytes)[p]).fits(),
    decreases bytes.len(),
{
    if has_entry(bytes) {
        lemma_entry_len_bounds(bytes);
        let rest = bytes.skip(entry_len(bytes));
        lemma_parsed_ops_fit(rest);
        lemma_text_is_canonical(bytes.skip(4));
        if leading_tag(bytes) == 0 {
            lemma_text_is_canonical(bytes.skip(4 + text_len(bytes.skip(4))));
        }
        assert forall|p: int| 0 <= p < parse_log(bytes).len() implies (#[trigger] parse_log(
            bytes,
        )[p]).fits() by {
            if p > 0 {
                assert(parse_log(bytes)[p] == parse_log(rest)[p - 1]);
            }
        }
    }
}

/// The buffer built from operations that can be encoded holds only entries
/// that can be encoded.
pub proof fn lemma_buffer_fits(ops: Seq<Op>)
    requires
        forall|p: int| 0 <= p < ops.len() ==> (#[trigger] ops[p]).fits(),
    ensures
        forall|a: int| 0 <= a < buffer_of(ops).len() ==> entry_fits(#[trigger] buffer_of(ops)[a]),
    decreases ops.len(),
{
    if ops.len() > 0 {
        let front = ops.drop_last();
        assert forall|p: int| 0 <= p < front.len() implies (#[trigger] front[p]).fits() by {
            assert(front[p] == ops[p]);
        }
        lemma_buffer_fits(front);
        assert(ops.last().fits());
        lemma_upsert_keeps(
            buffer_of(front),
            ops.last().key(),
            ops.last().state(),
            |e: (Seq<char>, Option<Seq<char>>)| entry_fits(e),
        );
    }
}

/// Every record of a consistent index has strings short enough to be
/// encoded.
pub proof fn lemma_index_records_fit(large: Seq<u8>, meta: Seq<u8>)
    requires
        index_wf(large, meta),
    ensures
        forall|b: int|
            0 <= b < entry_count(meta) ==> record_fits(#[trigger] index_records(large, meta)[b]),
{
    let recs = index_records(large, meta);
    assert forall|b: int| 0 <= b < entry_count(meta) implies record_fits(#[trigger] recs[b]) by {
        let offset = offset_at(meta, b);
        assert(has_record_at(large, offset));
        lemma_text_is_canonical(spec_tail(large, offset as int));
        lemma_text_is_canonical(
            spec_tail(large, offset + text_len(spec_tail(large, offset as int))),
        );
    }
}

/// Whether a record was emitted for an entry of the buffer at or after `i`.
pub open spec fn from_buffer(
    buf: Seq<(Seq<char>, Option<Seq<char>>)>,
    i: int,
    r: (Seq<char>, Seq<char>),
) -> bool {
    exists|a: int| i <= a < buf.len() && #[trigger] buf[a] == (r.0, Some(r.1))
}

/// Whether a record is one of the records of the index at or after `j`.
pub open spec fn from_index(
    recs: Seq<(Seq<char>, Seq<char>)>,
    j: int,
    r: (Seq<char>, Seq<char>),
) -> bool {
    exists|b: int| j <= b < recs.len() && #[trigger] recs[b] == r
}

/// Whether every record of `out` stems from the buffer at or after `i`, or
/// from the index at or after `j`.
pub open spec fn drawn(
    buf: Seq<(Seq<char>, Option<Seq<char>>)>,
    i: int,
    recs: Seq<(Seq<char>, Seq<char>)>,
    j: int,
    out: Seq<(Seq<char>, Seq<char>)>,
) -> bool {
    forall|p: int|
        0 <= p < out.len() ==> from_buffer(buf, i, #[trigger] out[p]) || from_index(
            recs,
            j,
            out[p],
        )
}

/// Records drawn from what is left of the buffer and of the index have keys
/// after every key that comes before both of these.
proof fn lemma_drawn_above(
    buf: Seq<(Seq<char>, Option<Seq<char>>)>,
    i: int,
    recs: Seq<(Seq<char>, Seq<char>)>,
    j: int,
    out: Seq<(Seq<char>, Seq<char>)>,
    key: Seq<char>,
)
    requires
        ascending(buf),
        ascending(recs),
        0 <= i <= buf.len(),
        0 <= j <= recs.len(),
        drawn(buf, i, recs, j, out),
        i < buf.len() ==> key_lt(key, buf[i].0),
        j < recs.len() ==> key_lt(key, recs[j].0),
    ensures
        forall|p: int| 0 <= p < out.len() ==> key_lt(key, (#[trigger] out[p]).0),
{
    lemma_suffix_above(buf, i, key);
    lemma_suffix_above(recs, j, key);
    assert forall|p: int| 0 <= p < out.len() implies key_lt(key, (#[trigger] out[p]).0) by {
        if from_buffer(buf, i, out[p]) {
            let a = choose|a: int| i <= a < buf.len() && #[trigger] buf[a] == (out[p].0, Some(out[p].1));
            assert(key_lt(key, buf[a].0));
        } else {
            let b = choose|b: int| j <= b < recs.len() && #[trigger] recs[b] == out[p];
            assert(key_lt(key, recs[b].0));
        }
    }
}

/// Records drawn from what is left stay drawn from what was left earlier.
proof fn lemma_drawn_widens(
    buf: Seq<(Seq<char>, Option<Seq<char>>)>,
    i: int,
    recs: Seq<(Seq<char>, Seq<char>)>,
    j: int,
    out: Seq<(Seq<char>, Seq<char>)>,
    i0: int,
    j0: int,
)
    requires
        drawn(buf, i, recs, j, out),
        i0 <= i,
        j0 <= j,
    ensures
        drawn(buf, i0, recs, j0, out),
{
    assert forall|p: int| 0 <= p < out.len() implies from_buffer(buf, i0, #[trigger] out[p])
        || from_index(recs, j0, out[p]) by {
        if from_buffer(buf, i, out[p]) {
            let a = choose|a: int| i <= a < buf.len() && #[trigger] buf[a] == (out[p].0, Some(out[p].1));
            assert(buf[a] == (out[p].0, Some(out[p].1)));
        } else {
            let b = choose|b: int| j <= b < recs.len() && #[trigger] recs[b] == out[p];
            assert(recs[b] == out[p]);
        }
    }
}

/// One step of the walk that emits the entry `i` of the buffer.
proof fn lemma_emit_from_buffer(
    buf: Seq<(Seq<char>, Option<Seq<char>>)>,
    i: int,
    recs: Seq<(Seq<char>, Seq<char>)>,
    j: int,
    j_next: int,
    rest: Seq<(Seq<char>, Seq<char>)>,
)
    requires
        ascending(buf),
        ascending(recs),
        0 <= i < buf.len(),
        0 <= j <= j_next <= recs.len(),
        j_next <= j + 1,
        j < recs.len() && j_next == j ==> key_lt(buf[i].0, recs[j].0),
        j_next == j + 1 ==> buf[i].0 == recs[j].0,
        ascending(rest),
        drawn(buf, i + 1, recs, j_next, rest),
        forall|k: Seq<char>|
            #![trigger find(rest, k)]
            find(rest, k) == combined(find(buf.skip(i + 1), k), find(recs.skip(j_next), k)),
    ensures
        ascending(emitted(buf[i]) + rest),
        drawn(buf, i, recs, j, emitted(buf[i]) + rest),
        forall|k: Seq<char>|
            #![trigger find(emitted(buf[i]) + rest, k)]
            find(emitted(buf[i]) + rest, k) == combined(
                find(buf.skip(i), k),
                find(recs.skip(j), k),
            ),
{
    let key = buf[i].0;
    let out = emitted(buf[i]) + rest;
    if i + 1 < buf.len() {
        assert(key_lt(buf[i].0, buf[i + 1].0));
    }
    if j_next < recs.len() && j_next == j + 1 {
        assert(key_lt(recs[j].0, recs[j_next].0));
    }
    lemma_drawn_above(buf, i + 1, recs, j_next, rest, key);
    lemma_drawn_widens(buf, i + 1, recs, j_next, rest, i, j);
    match buf[i].1 {
        Some(value) => {
            lemma_find_cons((key, value), rest);
            assert forall|p: int| 0 <= p < out.len() implies from_buffer(buf, i, #[trigger] out[p])
                || from_index(recs, j, out[p]) by {
                if p == 0 {
                    assert(buf[i] == (out[p].0, Some(out[p].1)));
                } else {
                    assert(out[p] == rest[p - 1]);
                }
            }
        },
        None => {
            assert(out =~= rest);
            lemma_find_above(rest, key);
        },
    }
    assert forall|k: Seq<char>| #![trigger find(out, k)] find(out, k) == combined(
        find(buf.skip(i), k),
        find(recs.skip(j), k),
    ) by {
        lemma_find_skip(buf, i, k);
        assert(find(rest, k) == combined(find(buf.skip(i + 1), k), find(recs.skip(j_next), k)));
        if j_next == j + 1 {
            lemma_find_skip(recs, j, k);
        }
    }
}

/// One step of the walk that emits the record `j` of the index.
proof fn lemma_emit_from_index(
    buf: Seq<(Seq<char>, Option<Seq<char>>)>,
    i: int,
    recs: Seq<(Seq<char>, Seq<char>)>,
    j: int,
    rest: Seq<(Seq<char>, Seq<char>)>,
)
    requires
        ascending(buf),
        ascending(recs),
        0 <= i <= buf.len(),
        0 <= j < recs.len(),
        i < buf.len() ==> key_lt(recs[j].0, buf[i].0),
        ascending(rest),
        drawn(buf, i, recs, j + 1, rest),
        forall|k: Seq<char>|
            #![trigger find(rest, k)]
            find(rest, k) == combined(find(buf.skip(i), k), find(recs.skip(j + 1), k)),
    ensures
        ascending(seq![recs[j]] + rest),
        drawn(buf, i, recs, j, seq![recs[j]] + rest),
        forall|k: Seq<char>|
            #![trigger find(seq![recs[j]] + rest, k)]
            find(seq![recs[j]] + rest, k) == combined(find(buf.skip(i), k), find(recs.skip(j), k)),
{
    let key = recs[j].0;
    let out = seq![recs[j]] + rest;
    if j + 1 < recs.len() {
        assert(key_lt(recs[j].0, recs[j + 1].0));
    }
    lemma_drawn_above(buf, i, recs, j + 1, rest, key);
    lemma_drawn_widens(buf, i, recs, j + 1, rest, i, j);
    lemma_find_cons(recs[j], rest);
    assert forall|p: int| 0 <= p < out.len() implies from_buffer(buf, i, #[trigger] out[p])
        || from_index(recs, j, out[p]) by {
        if p == 0 {
            assert(recs[j] == out[p]);
        } else {
            assert(out[p] == rest[p - 1]);
        }
    }
    lemma_suffix_above(buf, i, key);
    let tail = buf.skip(i);
    assert forall|a: int| 0 <= a < tail.len() implies key_lt(key, (#[trigger] tail[a]).0) by {
        assert(tail[a] == buf[i + a]);
    }
    lemma_find_above(tail, key);
    assert forall|k: Seq<char>| #![trigger find(out, k)] find(out, k) == combined(
        find(buf.skip(i), k),
        find(recs.skip(j), k),
    ) by {
        lemma_find_skip(recs, j, k);
        assert(find(rest, k) == combined(find(buf.skip(i), k), find(recs.skip(j + 1), k)));
    }
}

/// On a consistent index the walk from `i` and `j` on reads every record,
/// emits ascending records drawn from what is left of the buffer and the
/// index, and these hold, for every key, what the buffer says of it or else
/// what the index holds.
pub proof fn lemma_merge(
    buf: Seq<(Seq<char>, Option<Seq<char>>)>,
    i: int,
    large: Seq<u8>,
    meta: Seq<u8>,
    j: int,
)
    requires
        ascending(buf),
        index_wf(large, meta),
        0 <= i <= buf.len(),
        0 <= j <= entry_count(meta),
    ensures
        merge(buf, i, large, meta, j) is Some,
        ascending(merge(buf, i, large, meta, j)->0),
        drawn(buf, i, index_records(large, meta), j, merge(buf, i, large, meta, j)->0),
        forall|k: Seq<char>|
            #![trigger find(merge(buf, i, large, meta, j)->0, k)]
            find(merge(buf, i, large, meta, j)->0, k) == combined(
                find(buf.skip(i), k),
                find(index_records(large, meta).skip(j), k),
            ),
    decreases buf.len() - i + entry_count(meta) - j,
{
    let n = entry_count(meta);
    let recs = index_records(large, meta);
    let out = merge(buf, i, large, meta, j);
    if i == buf.len() && j == n {
        assert(buf.skip(i) =~= Seq::empty());
        assert(recs.skip(j) =~= Seq::empty());
        assert forall|k: Seq<char>| #![trigger find(out->0, k)] find(out->0, k) == combined(
            find(buf.skip(i), k),
            find(recs.skip(j), k),
        ) by {
        }
    } else if j < n {
        let offset = offset_at(meta, j);
        assert(has_record_at(large, offset));
        assert(recs[j] == record_at(large, offset));
        if i < buf.len() {
            lemma_rank_meaning(buf[i].0, recs[j].0);
        }
        if i == buf.len() || spec_rank(buf[i].0, recs[j].0) == Rank::After {
            lemma_merge(buf, i, large, meta, j + 1);
            lemma_emit_from_index(buf, i, recs, j, merge(buf, i, large, meta, j + 1)->0);
        } else if spec_rank(buf[i].0, recs[j].0) == Rank::Before {
            lemma_merge(buf, i + 1, large, meta, j);
            lemma_emit_from_buffer(buf, i, recs, j, j, merge(buf, i + 1, large, meta, j)->0);
        } else {
            lemma_merge(buf, i + 1, large, meta, j + 1);
            lemma_emit_from_buffer(
                buf,
                i,
                recs,
                j,
                j + 1,
                merge(buf, i + 1, large, meta, j + 1)->0,
            );
        }
    } else {
        lemma_merge(buf, i + 1, large, meta, j);
        lemma_emit_from_buffer(buf, i, recs, j, j, merge(buf, i + 1, large, meta, j)->0);
    }
}

/// With an empty buffer the walk over a consistent index emits the records
/// of the index from `j` on, unchanged.
pub proof fn lemma_merge_of_nothing(large: Seq<u8>, meta: Seq<u8>, j: int)
    requires
        index_wf(large, meta),
        0 <= j <= entry_count(meta),
    ensures
        merge(Seq::empty(), 0, large, meta, j) == Some(index_records(large, meta).skip(j)),
    decreases entry_count(meta) - j,
{
    let recs = index_records(large, meta);
    if j < entry_count(meta) {
        let offset = offset_at(meta, j);
        assert(has_record_at(large, offset));
        assert(recs[j] == record_at(large, offset));
        lemma_merge_of_nothing(large, meta, j + 1);
        assert(seq![recs[j]] + recs.skip(j + 1) =~= recs.skip(j));
    } else {
        assert(recs.skip(j) =~= Seq::empty());
    }
}

/// Merge correctness: on a consistent index a compaction reads every
/// record, and the records it writes are ascending, can be encoded, and
/// hold for every key what applying the operations of the log in order on
/// top of the index leaves under it.
pub proof fn lemma_compacted(small: Seq<u8>, large: Seq<u8>, meta: Seq<u8>)
    requires
        index_wf(large, meta),
    ensures
        compacted(small, large, meta) is Some,
        ascending(compacted(small, large, meta)->0),
        forall|p: int|
            0 <= p < compacted(small, large, meta)->0.len() ==> record_fits(
                #[trigger] compacted(small, large, meta)->0[p],
            ),
        forall|k: Seq<char>|
            #![trigger find(compacted(small, large, meta)->0, k)]
            find(compacted(small, large, meta)->0, k) == outcome(
                parse_log(small),
                k,
                find(index_records(large, meta), k),
            ),
{
    let ops = parse_log(small);
    let buf = buffer_of(ops);
    let recs = index_records(large, meta);
    let out = compacted(small, large, meta)->0;
    lemma_buffer_of(ops);
    lemma_parsed_ops_fit(small);
    lemma_buffer_fits(ops);
    lemma_index_records_fit(large, meta);
    lemma_merge(buf, 0, large, meta, 0);
    assert(buf.skip(0) =~= buf);
    assert(recs.skip(0) =~= recs);
    assert forall|p: int| 0 <= p < out.len() implies record_fits(#[trigger] out[p]) by {
        if from_buffer(buf, 0, out[p]) {
            let a = choose|a: int| 0 <= a < buf.len() && #[trigger] buf[a] == (out[p].0, Some(out[p].1));
            assert(entry_fits(buf[a]));
        } else {
            let b = choose|b: int| 0 <= b < recs.len() && #[trigger] recs[b] == out[p];
            assert(record_fits(recs[b]));
        }
    }
    assert forall|k: Seq<char>| #![trigger find(out, k)] find(out, k) == outcome(
        ops,
        k,
        find(recs, k),
    ) by {
        assert(find(buf, k) == latest(ops, k));
    }
}

} // verus!
