//! The redo log of the fixed-width store.
//!
//! The log is a concatenation of records. A record starts with six bytes
//! that name the operation, "   put" or "delete", followed by the eight
//! bytes of the key and, for a put, the 256 bytes of the value. Redoing a
//! log applies its records in order to a store in memory.
use crate::bytes::filled;
use crate::mem_store::MemStore;
use vstd::prelude::*;
use vstd::slice::slice_subrange;

verus! {

/// Length in bytes of the name of an operation.
pub const OP_LEN: usize = 6;

/// Length in bytes of a key.
pub const KEY_LEN: usize = 8;

/// Length in bytes of a value.
pub const VALUE_LEN: usize = 256;

/// The six bytes that start the record of a put: three blanks and "put".
pub open spec fn put_op() -> Seq<u8> {
    seq![0x20u8, 0x20u8, 0x20u8, 0x70u8, 0x75u8, 0x74u8]
}

/// The six bytes that start the record of a delete: "delete".
pub open spec fn delete_op() -> Seq<u8> {
    seq![0x64u8, 0x65u8, 0x6cu8, 0x65u8, 0x74u8, 0x65u8]
}

/// The record of a put of `value` under `key`.
pub open spec fn put_record(key: Seq<u8>, value: Seq<u8>) -> Seq<u8> {
    put_op() + key + value
}

/// The record of a delete of `key`.
pub open spec fn delete_record(key: Seq<u8>) -> Seq<u8> {
    delete_op() + key
}

/// What a store that holds `contents` holds after the records of `log`
/// are redone on it. Redoing stops where fewer than six bytes are left or
/// the next six bytes name no operation. A record cut short by the end of
/// the log is redone with zero bytes in place of those that are missing.
pub open spec fn replayed(contents: Map<Seq<u8>, Seq<u8>>, log: Seq<u8>) -> Map<Seq<u8>, Seq<u8>>
    decreases log.len(),
{
    if log.len() < 6 {
        contents
    } else if log.subrange(0, 6) == put_op() {
        let key = filled(log.skip(6), 8, 0);
        let value = filled(spec_rest(log, 14), 256, 0);
        replayed(contents.insert(key, value), spec_rest(log, 270))
    } else if log.subrange(0, 6) == delete_op() {
        let key = filled(log.skip(6), 8, 0);
        replayed(contents.remove(key), spec_rest(log, 14))
    } else {
        contents
    }
}

/// What is left of `log` after its first `n` bytes; nothing when it holds
/// no more than `n`.
pub open spec fn spec_rest(log: Seq<u8>, n: int) -> Seq<u8> {
    if n <= log.len() {
        log.skip(n)
    } else {
        Seq::empty()
    }
}

/// Redoing a whole record of a put on top of a log that is redone to its
/// end puts the value under the key.
pub proof fn lemma_replayed_put(contents: Map<Seq<u8>, Seq<u8>>, key: Seq<u8>, value: Seq<u8>)
    requires
        key.len() == 8,
        value.len() == 256,
    ensures
        replayed(contents, put_record(key, value)) == contents.insert(key, value),
{
    let log = put_record(key, value);
    assert(log.subrange(0, 6) =~= put_op());
    assert(filled(log.skip(6), 8, 0) =~= key);
    assert(filled(spec_rest(log, 14), 256, 0) =~= value);
    assert(spec_rest(log, 270).len() == 0);
    assert(replayed(contents.insert(key, value), spec_rest(log, 270)) == contents.insert(
        key,
        value,
    ));
}

/// Redoing a whole record of a delete takes the key out.
pub proof fn lemma_replayed_delete(contents: Map<Seq<u8>, Seq<u8>>, key: Seq<u8>)
    requires
        key.len() == 8,
    ensures
        replayed(contents, delete_record(key)) == contents.remove(key),
{
    let log = delete_record(key);
    assert(log.subrange(0, 6) =~= delete_op());
    assert(put_op()[3] != delete_op()[3]);
    assert(filled(log.skip(6), 8, 0) =~= key);
    assert(spec_rest(log, 14).len() == 0);
    assert(replayed(contents.remove(key), spec_rest(log, 14)) == contents.remove(key));
}

/// Whether `log` consists of whole records and of nothing else.
pub open spec fn whole(log: Seq<u8>) -> bool
    decreases log.len(),
{
    if log.len() == 0 {
        true
    } else if log.len() >= 270 && log.subrange(0, 6) == put_op() {
        whole(log.skip(270))
    } else if log.len() >= 14 && log.subrange(0, 6) == delete_op() {
        whole(log.skip(14))
    } else {
        false
    }
}

/// Redoing a log of whole records followed by more bytes is redoing the
/// log and then the bytes that follow.
pub proof fn lemma_replayed_append(contents: Map<Seq<u8>, Seq<u8>>, log: Seq<u8>, more: Seq<u8>)
    requires
        whole(log),
    ensures
        replayed(contents, log + more) == replayed(replayed(contents, log), more),
        whole(more) ==> whole(log + more),
    decreases log.len(),
{
    let all = log + more;
    if log.len() == 0 {
        assert(all =~= more);
    } else {
        assert(all.subrange(0, 6) =~= log.subrange(0, 6));
        assert(put_op()[3] != delete_op()[3]);
        assert(filled(all.skip(6), 8, 0) =~= filled(log.skip(6), 8, 0));
        if log.subrange(0, 6) == put_op() {
            assert(filled(spec_rest(all, 14), 256, 0) =~= filled(spec_rest(log, 14), 256, 0));
            let key = filled(log.skip(6), 8, 0);
            let value = filled(spec_rest(log, 14), 256, 0);
            assert(spec_rest(all, 270) =~= log.skip(270) + more);
            lemma_replayed_append(contents.insert(key, value), log.skip(270), more);
        } else {
            let key = filled(log.skip(6), 8, 0);
            assert(spec_rest(all, 14) =~= log.skip(14) + more);
            lemma_replayed_append(contents.remove(key), log.skip(14), more);
        }
    }
}

/// A store is rebuilt from its log: redoing the log of whole records that
/// a store has written, on an empty store, yields what the store holds,
/// and stays so when the store makes a change and logs its record.
pub proof fn lemma_replayed_logged(log: Seq<u8>, key: Seq<u8>, value: Seq<u8>)
    requires
        whole(log),
        key.len() == 8,
        value.len() == 256,
    ensures
        whole(log + put_record(key, value)),
        whole(log + delete_record(key)),
        replayed(Map::empty(), log + put_record(key, value)) == replayed(
            Map::empty(),
            log,
        ).insert(key, value),
        replayed(Map::empty(), log + delete_record(key)) == replayed(Map::empty(), log).remove(
            key,
        ),
{
    let held = replayed(Map::<Seq<u8>, Seq<u8>>::empty(), log);
    let put = put_record(key, value);
    let delete = delete_record(key);
    assert(put.subrange(0, 6) =~= put_op());
    assert(delete.subrange(0, 6) =~= delete_op());
    assert(put_op()[3] != delete_op()[3]);
    assert(whole(put)) by {
        assert(put.skip(270).len() == 0);
        assert(whole(put.skip(270)));
    }
    assert(whole(delete)) by {
        assert(delete.skip(14).len() == 0);
        assert(whole(delete.skip(14)));
    }
    lemma_replayed_append(Map::empty(), log, put);
    lemma_replayed_append(Map::empty(), log, delete);
    lemma_replayed_put(held, key, value);
    lemma_replayed_delete(held, key);
}

/// A log of the changes made to a store, from which the store can be
/// rebuilt.
pub trait RedoLog {
    /// The bytes that the log holds. Nothing, unless an implementation says
    /// otherwise.
    open spec fn bytes(&self) -> Seq<u8> {
        Seq::empty()
    }

    /// Whether the log can be relied on: every write to it so far has gone
    /// through, and a read of it yields its bytes. A log that has failed
    /// once stays unsound. Never, unless an implementation says otherwise.
    open spec fn sound(&self) -> bool {
        false
    }

    /// Appends the record of a put, unless the write fails.
    fn log_put(&mut self, key: &[u8; 8], value: &[u8; 256])
        ensures
            final(self).sound() ==> old(self).sound() && final(self).bytes() == old(self).bytes()
                + put_record(key@, value@),
    ;

    /// Appends the record of a delete, unless the write fails.
    fn log_delete(&mut self, key: &[u8; 8])
        ensures
            final(self).sound() ==> old(self).sound() && final(self).bytes() == old(self).bytes()
                + delete_record(key@),
    ;

    /// Redoes the records of the log on `store`.
    fn redo<S: MemStore>(&mut self, store: &mut S)
        ensures
            final(self).sound() ==> old(self).sound() && final(self).bytes() == old(self).bytes()
                && final(store).contents() == replayed(old(store).contents(), old(self).bytes()),
    ;
}

/// Which operation the six bytes at the start of `bytes` name.
#[derive(Clone, Copy, Debug, PartialEq, Eq, Structural)]
pub enum OpName {
    /// "   put"
    Put,
    /// "delete"
    Delete,
    /// Anything else.
    Unknown,
}

/// Tells which operation the first six bytes of `bytes` name.
pub fn op_name(bytes: &[u8]) -> (name: OpName)
    requires
        bytes@.len() >= 6,
    ensures
        name == OpName::Put <==> bytes@.subrange(0, 6) == put_op(),
        name == OpName::Delete <==> bytes@.subrange(0, 6) == delete_op(),
{
    let ghost head = bytes@.subrange(0, 6);
    assert(forall|i: int| 0 <= i < 6 ==> head[i] == bytes@[i]);
    assert(put_op()[3] != delete_op()[3]);
    if bytes[0] == 0x20 && bytes[1] == 0x20 && bytes[2] == 0x20 && bytes[3] == 0x70 && bytes[4]
        == 0x75 && bytes[5] == 0x74 {
        assert(head =~= put_op());
        OpName::Put
    } else if bytes[0] == 0x64 && bytes[1] == 0x65 && bytes[2] == 0x6c && bytes[3] == 0x65
        && bytes[4] == 0x74 && bytes[5] == 0x65 {
        assert(head =~= delete_op());
        OpName::Delete
    } else {
        assert(head != put_op()) by {
            if head == put_op() {
                assert(head[0] == put_op()[0] && head[1] == put_op()[1] && head[2] == put_op()[2]
                    && head[3] == put_op()[3] && head[4] == put_op()[4] && head[5] == put_op()[5]);
            }
        }
        assert(head != delete_op()) by {
            if head == delete_op() {
                assert(head[0] == delete_op()[0] && head[1] == delete_op()[1] && head[2]
                    == delete_op()[2] && head[3] == delete_op()[3] && head[4] == delete_op()[4]
                    && head[5] == delete_op()[5]);
            }
        }
        OpName::Unknown
    }
}

/// What is left of `log` from position `pos` on; nothing when `pos` lies
/// beyond its end.
fn rest(log: &[u8], pos: usize) -> (r: &[u8])
    ensures
        r@ == spec_rest(log@, pos as int),
{
    if pos <= log.len() {
        slice_subrange(log, pos, log.len())
    } else {
        slice_subrange(log, log.len(), log.len())
    }
}

/// The first `N` bytes of `from` as an array, with zero bytes in the
/// places that `from` is too short to provide.
fn key_of(from: &[u8]) -> (key: [u8; 8])
    ensures
        key@ == filled(from@, 8, 0),
{
    let mut key: [u8; 8] = [0u8; 8];
    let mut i: usize = 0;
    while i < 8
        invariant
            i <= 8,
            forall|j: int| 0 <= j < i ==> key@[j] == filled(from@, 8, 0)[j],
        decreases 8 - i,
    {
        if i < from.len() {
            key[i] = from[i];
        } else {
            key[i] = 0;
        }
        i += 1;
    }
    assert(key@ =~= filled(from@, 8, 0));
    key
}

/// The first 256 bytes of `from` as an array, with zero bytes in the
/// places that `from` is too short to provide.
fn value_of(from: &[u8]) -> (value: [u8; 256])
    ensures
        value@ == filled(from@, 256, 0),
{
    let mut value: [u8; 256] = [0u8; 256];
    let mut i: usize = 0;
    while i < 256
        invariant
            i <= 256,
            forall|j: int| 0 <= j < i ==> value@[j] == filled(from@, 256, 0)[j],
        decreases 256 - i,
    {
        if i < from.len() {
            value[i] = from[i];
        } else {
            value[i] = 0;
        }
        i += 1;
    }
    assert(value@ =~= filled(from@, 256, 0));
    value
}

/// Redoes the records of `log` on `store`.
pub fn redo_bytes<S: MemStore>(log: &[u8], store: &mut S)
    ensures
        final(store).contents() == replayed(old(store).contents(), log@),
{
    let mut left: &[u8] = log;
    loop
        invariant
            replayed(old(store).contents(), log@) == replayed(store.contents(), left@),
        decreases left@.len(),
    {
        if left.len() < OP_LEN {
            return ;
        }
        match op_name(left) {
            OpName::Put => {
                let key = key_of(rest(left, OP_LEN));
                let value = value_of(rest(left, OP_LEN + KEY_LEN));
                store.put(key, value);
                left = rest(left, OP_LEN + KEY_LEN + VALUE_LEN);
            },
            OpName::Delete => {
                let key = key_of(rest(left, OP_LEN));
                store.delete(key);
                left = rest(left, OP_LEN + KEY_LEN);
            },
            OpName::Unknown => {
                return ;
            },
        }
    }
}

/// A redo log kept in memory as a vector of bytes.
pub struct ByteLog {
    data: Vec<u8>,
}

impl ByteLog {
    /// A log that holds `data`.
    pub fn new(data: Vec<u8>) -> (log: Self)
        ensures
            log.bytes() == data@,
    {
        ByteLog { data }
    }

    /// The bytes that the log holds.
    pub fn data(&self) -> (data: &Vec<u8>)
        ensures
            data@ == self.bytes(),
    {
        &self.data
    }
}

impl RedoLog for ByteLog {
    closed spec fn bytes(&self) -> Seq<u8> {
        self.data@
    }

    /// A log in memory takes every record.
    open spec fn sound(&self) -> bool {
        true
    }

    fn log_put(&mut self, key: &[u8; 8], value: &[u8; 256]) {
        let op: [u8; 6] = [0x20, 0x20, 0x20, 0x70, 0x75, 0x74];
        assert(op@ =~= put_op());
        append(&mut self.data, op.as_slice());
        append(&mut self.data, key.as_slice());
        append(&mut self.data, value.as_slice());
        assert(self.data@ =~= old(self).data@ + put_record(key@, value@));
    }

    fn log_delete(&mut self, key: &[u8; 8]) {
        let op: [u8; 6] = [0x64, 0x65, 0x6c, 0x65, 0x74, 0x65];
        assert(op@ =~= delete_op());
        append(&mut self.data, op.as_slice());
        append(&mut self.data, key.as_slice());
        assert(self.data@ =~= old(self).data@ + delete_record(key@));
    }

    fn redo<S: MemStore>(&mut self, store: &mut S)
        ensures
            final(self).bytes() == old(self).bytes(),
    {
        redo_bytes(self.data.as_slice(), store)
    }
}

/// Appends the bytes of `more` to `data`.
fn append(data: &mut Vec<u8>, more: &[u8])
    ensures
        final(data)@ == old(data)@ + more@,
{
    let mut i: usize = 0;
    while i < more.len()
        invariant
            i <= more@.len(),
            data@ == old(data)@ + more@.take(i as int),
        decreases more@.len() - i,
    {
        data.push(more[i]);
        assert(more@.take(i + 1) =~= more@.take(i as int).push(more@[i as int]));
        assert(data@ =~= old(data)@ + more@.take(i + 1));
        i += 1;
    }
    assert(more@.take(i as int) =~= more@);
}

} // verus!
