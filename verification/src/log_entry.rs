//! The entries of the log segment and their byte encoding.
//!
//! The log segment is a plain concatenation of encoded entries in the order
//! in which the operations were made. Each entry starts with a tag telling
//! its variant, followed by its strings. Replaying reads entries from the
//! start until the bytes left no longer begin with a well-formed entry.
use crate::wire::{
    decode_u32, fits, get_text, has_text, leading_tag, leading_text, lemma_tag_reads_back,
    lemma_text_ignores_tail, lemma_text_reads_back, put_tag, put_text, tag, tail, text, text_len,
    TAG_LEN,
};
use vstd::prelude::*;

verus! {

/// One operation recorded in the log segment.
#[derive(Debug)]
pub enum LogEntry {
    /// The key was given the value.
    Put(String, String),
    /// The key was removed.
    Remove(String),
}

/// The mathematical value of a log entry.
pub enum Op {
    /// The key was given the value.
    Put(Seq<char>, Seq<char>),
    /// The key was removed.
    Remove(Seq<char>),
}

impl Op {
    /// The key the operation is about.
    pub open spec fn key(self) -> Seq<char> {
        match self {
            Op::Put(k, _) => k,
            Op::Remove(k) => k,
        }
    }

    /// What the operation leaves under its key: a value, or nothing.
    pub open spec fn state(self) -> Option<Seq<char>> {
        match self {
            Op::Put(_, v) => Some(v),
            Op::Remove(_) => None,
        }
    }

    /// Whether the strings of the operation are short enough to be encoded.
    pub open spec fn fits(self) -> bool {
        match self {
            Op::Put(k, v) => fits(k) && fits(v),
            Op::Remove(k) => fits(k),
        }
    }
}

impl View for LogEntry {
    type V = Op;

    open spec fn view(&self) -> Op {
        match self {
            LogEntry::Put(k, v) => Op::Put(k@, v@),
            LogEntry::Remove(k) => Op::Remove(k@),
        }
    }
}

/// The values of a sequence of entries.
pub open spec fn views(entries: Seq<LogEntry>) -> Seq<Op> {
    entries.map_values(|e: LogEntry| e@)
}

/// What the operations say last about `key`: `None` when none of them is
/// about it, `Some(None)` when the last one removes it, and `Some(Some(v))`
/// when the last one gives it the value `v`.
pub open spec fn latest(ops: Seq<Op>, key: Seq<char>) -> Option<Option<Seq<char>>>
    decreases ops.len(),
{
    if ops.len() == 0 {
        None
    } else if ops.last().key() == key {
        Some(ops.last().state())
    } else {
        latest(ops.drop_last(), key)
    }
}

/// What is under `key` once the operations are applied in order on top of
/// `before`: the last word of the operations if they speak of the key, and
/// `before` if they do not.
pub open spec fn outcome(ops: Seq<Op>, key: Seq<char>, before: Option<Seq<char>>) -> Option<
    Seq<char>,
> {
    match latest(ops, key) {
        Some(state) => state,
        None => before,
    }
}

/// Tag of a `Put` entry.
pub const TAG_PUT: u32 = 0;

/// Tag of a `Remove` entry.
pub const TAG_REMOVE: u32 = 1;

/// The encoding of an operation.
pub open spec fn entry_bytes(op: Op) -> Seq<u8> {
    match op {
        Op::Put(k, v) => tag(0) + text(k) + text(v),
        Op::Remove(k) => tag(1) + text(k),
    }
}

/// Whether `bytes` begins with a complete, valid encoded entry.
pub open spec fn has_entry(bytes: Seq<u8>) -> bool {
    &&& bytes.len() >= 4
    &&& has_text(bytes.skip(4))
    &&& leading_tag(bytes) == 0 ==> has_text(bytes.skip(4 + text_len(bytes.skip(4))))
    &&& leading_tag(bytes) <= 1
}

/// Number of bytes taken by the entry at the start of `bytes`.
pub open spec fn entry_len(bytes: Seq<u8>) -> int {
    if leading_tag(bytes) == 0 {
        4 + text_len(bytes.skip(4)) + text_len(bytes.skip(4 + text_len(bytes.skip(4))))
    } else {
        4 + text_len(bytes.skip(4))
    }
}

/// The entry encoded at the start of `bytes`.
pub open spec fn leading_entry(bytes: Seq<u8>) -> Op {
    if leading_tag(bytes) == 0 {
        Op::Put(
            leading_text(bytes.skip(4)),
            leading_text(bytes.skip(4 + text_len(bytes.skip(4)))),
        )
    } else {
        Op::Remove(leading_text(bytes.skip(4)))
    }
}

/// The operations a replay of `bytes` yields: the entries read from the
/// start, up to the first position where no well-formed entry begins.
pub open spec fn parse_log(bytes: Seq<u8>) -> Seq<Op>
    decreases bytes.len(),
{
    if has_entry(bytes) {
        seq![leading_entry(bytes)] + parse_log(bytes.skip(entry_len(bytes)))
    } else {
        Seq::empty()
    }
}

/// Number of bytes a replay of `bytes` reads as entries.
pub open spec fn parsed_len(bytes: Seq<u8>) -> int
    decreases bytes.len(),
{
    if has_entry(bytes) {
        entry_len(bytes) + parsed_len(bytes.skip(entry_len(bytes)))
    } else {
        0
    }
}

/// Whether a replay of `bytes` reads all of it: no torn or foreign bytes
/// follow the last entry.
pub open spec fn is_clean(bytes: Seq<u8>) -> bool {
    parsed_len(bytes) == bytes.len()
}

/// An entry found at the start of `bytes` lies within `bytes`.
pub proof fn lemma_entry_len_bounds(bytes: Seq<u8>)
    requires
        has_entry(bytes),
    ensures
        12 <= entry_len(bytes) <= bytes.len(),
{
}

/// An encoded operation followed by anything reads back as the operation,
/// and the read consumes exactly the encoding.
pub proof fn lemma_entry_reads_back(op: Op, rest: Seq<u8>)
    requires
        op.fits(),
    ensures
        has_entry(entry_bytes(op) + rest),
        leading_entry(entry_bytes(op) + rest) == op,
        entry_len(entry_bytes(op) + rest) == entry_bytes(op).len(),
{
    let all = entry_bytes(op) + rest;
    match op {
        Op::Put(k, v) => {
            lemma_tag_reads_back(0, text(k) + text(v) + rest);
            assert(all =~= tag(0) + (text(k) + text(v) + rest));
            assert(all.skip(4) =~= text(k) + (text(v) + rest));
            lemma_text_reads_back(k, text(v) + rest);
            assert(all.skip(4 + text(k).len() as int) =~= text(v) + rest);
            lemma_text_reads_back(v, rest);
        },
        Op::Remove(k) => {
            lemma_tag_reads_back(1, text(k) + rest);
            assert(all =~= tag(1) + (text(k) + rest));
            assert(all.skip(4) =~= text(k) + rest);
            lemma_text_reads_back(k, rest);
        },
    }
}

/// What a read of an entry finds depends only on the bytes it consumes.
pub proof fn lemma_entry_ignores_tail(bytes: Seq<u8>, extra: Seq<u8>)
    requires
        has_entry(bytes),
    ensures
        has_entry(bytes + extra),
        leading_entry(bytes + extra) == leading_entry(bytes),
        entry_len(bytes + extra) == entry_len(bytes),
{
    let all = bytes + extra;
    assert(all.subrange(0, 4) =~= bytes.subrange(0, 4));
    assert(all.skip(4) =~= bytes.skip(4) + extra);
    lemma_text_ignores_tail(bytes.skip(4), extra);
    if leading_tag(bytes) == 0 {
        let n = 4 + text_len(bytes.skip(4));
        assert(all.skip(n) =~= bytes.skip(n) + extra);
        lemma_text_ignores_tail(bytes.skip(n), extra);
    }
}

/// Appending an encoded operation to a clean log appends the operation to
/// what a replay yields, and leaves the log clean.
pub proof fn lemma_parse_log_append(log: Seq<u8>, op: Op)
    requires
        is_clean(log),
        op.fits(),
    ensures
        parse_log(log + entry_bytes(op)) == parse_log(log).push(op),
        is_clean(log + entry_bytes(op)),
    decreases log.len(),
{
    let e = entry_bytes(op);
    let all = log + e;
    if has_entry(log) {
        let n = entry_len(log);
        lemma_entry_len_bounds(log);
        lemma_entry_ignores_tail(log, e);
        assert(all.skip(n) =~= log.skip(n) + e);
        lemma_parse_log_append(log.skip(n), op);
        assert(parse_log(all) == seq![leading_entry(log)] + parse_log(log.skip(n) + e));
        assert(parse_log(log) == seq![leading_entry(log)] + parse_log(log.skip(n)));
        assert(parse_log(all) =~= parse_log(log).push(op));
        assert(parsed_len(all) == n + parsed_len(log.skip(n) + e));
    } else {
        assert(log.len() == 0);
        assert(all =~= e + Seq::<u8>::empty());
        lemma_entry_reads_back(op, Seq::empty());
        assert(all.skip(e.len() as int) =~= Seq::<u8>::empty());
        assert(parse_log(all) == seq![op] + parse_log(Seq::<u8>::empty()));
        assert(parse_log(all) =~= parse_log(log).push(op));
        assert(parsed_len(all) == e.len() + parsed_len(Seq::<u8>::empty()));
    }
}

/// Appends the encoding of `entry` to `out`.
pub fn append_entry(out: &mut Vec<u8>, entry: &LogEntry) -> (r: Result<
    (),
    Box<bincode::ErrorKind>,
>)
    ensures
        r is Ok,
        final(out)@ == old(out)@ + entry_bytes(entry@),
        entry@.fits(),
{
    match entry {
        LogEntry::Put(k, v) => {
            let r1 = put_tag(out, TAG_PUT);
            let r2 = put_text(out, k.as_str());
            let r3 = put_text(out, v.as_str());
            assert(out@ =~= old(out)@ + entry_bytes(entry@));
            match (r1, r2, r3) {
                (Err(e), _, _) => Err(e),
                (_, Err(e), _) => Err(e),
                (_, _, Err(e)) => Err(e),
                _ => Ok(()),
            }
        },
        LogEntry::Remove(k) => {
            let r1 = put_tag(out, TAG_REMOVE);
            let r2 = put_text(out, k.as_str());
            assert(out@ =~= old(out)@ + entry_bytes(entry@));
            match (r1, r2) {
                (Err(e), _) => Err(e),
                (_, Err(e)) => Err(e),
                _ => Ok(()),
            }
        },
    }
}

/// Reads the entry at the start of `bytes` and tells how many bytes it took;
/// `None` when no well-formed entry begins there.
pub fn read_entry(bytes: &[u8]) -> (r: Option<(LogEntry, usize)>)
    ensures
        r is Some <==> has_entry(bytes@),
        r matches Some((e, n)) ==> e@ == leading_entry(bytes@) && n == entry_len(bytes@),
{
    let _ = bytes.len();
    let t = match decode_u32(bytes) {
        Ok(t) => t,
        Err(_) => {
            return None;
        },
    };
    if t > TAG_REMOVE {
        return None;
    }
    let after_tag = tail(bytes, TAG_LEN as u64);
    let (key, key_len) = match get_text(after_tag) {
        Ok(found) => found,
        Err(_) => {
            return None;
        },
    };
    if t == TAG_REMOVE {
        return Some((LogEntry::Remove(key), TAG_LEN + key_len));
    }
    let after_key = tail(bytes, (TAG_LEN + key_len) as u64);
    let (value, value_len) = match get_text(after_key) {
        Ok(found) => found,
        Err(_) => {
            return None;
        },
    };
    Some((LogEntry::Put(key, value), TAG_LEN + key_len + value_len))
}

/// Replays a log segment: the entries it holds, in the order in which they
/// were appended, up to the first position where no well-formed entry begins.
pub fn replay(log: &[u8]) -> (entries: Vec<LogEntry>)
    ensures
        views(entries@) == parse_log(log@),
{
    let mut entries: Vec<LogEntry> = Vec::new();
    let mut pos: usize = 0;
    let total = log.len();
    assert(log@.skip(0) =~= log@);
    assert(views(entries@) =~= Seq::<Op>::empty());
    loop
        invariant
            pos <= log@.len(),
            total == log@.len(),
            parse_log(log@) == views(entries@) + parse_log(log@.skip(pos as int)),
        decreases log@.len() - pos,
    {
        let rest = tail(log, pos as u64);
        match read_entry(rest) {
            Some((entry, n)) => {
                proof {
                    lemma_entry_len_bounds(rest@);
                    assert(rest@.skip(n as int) =~= log@.skip(pos + n));
                    assert(views(entries@.push(entry)) =~= views(entries@).push(entry@));
                    assert(views(entries@).push(entry@) + parse_log(log@.skip(pos + n))
                        =~= views(entries@) + parse_log(rest@));
                }
                entries.push(entry);
                pos = pos + n;
            },
            None => {
                assert(views(entries@) + Seq::<Op>::empty() =~= views(entries@));
                return entries;
            },
        }
    }
}

} // verus!
