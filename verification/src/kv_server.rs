//! The handlers of the remote-procedure service: each takes the message of
//! a request and yields the message to answer with, against a fixed-width
//! store.
use crate::bytes::filled;
use crate::mem_store::{scan_len, MemStore};
use crate::minikv::{
    DeleteRequest, DeleteResponse, GetRequest, GetResponse, PutRequest, PutResponse, ScanRequest,
    ScanResponse,
};
use crate::minikv_grpc::MiniKvServer;
use crate::redo_log::{delete_record, put_record, RedoLog};
use crate::store::Store;
use vstd::prelude::*;
use vstd::slice::slice_to_vec;
use vstd::string::StringExecFns;

verus! {

/// Number of keys that one scan request hands out at most.
pub const SCAN_COUNT: usize = 16;

/// The service of a fixed-width store.
pub struct KVServer<S: MemStore, L: RedoLog> {
    store: Store<S, L>,
}

/// The first eight bytes of `from` as a key, with zero bytes in the places
/// that `from` is too short to provide.
fn key_from(from: &[u8]) -> (key: [u8; 8])
    ensures
        key@ == filled(from@, 8, 0),
{
    let mut key: [u8; 8] = [0u8; 8];
    crate::bytes::copy_bytes(from, &mut key);
    assert(key@ =~= filled(from@, 8, 0));
    key
}

/// The first 256 bytes of `from` as a value, with zero bytes in the places
/// that `from` is too short to provide.
fn value_from(from: &[u8]) -> (value: [u8; 256])
    ensures
        value@ == filled(from@, 256, 0),
{
    let mut value: [u8; 256] = [0u8; 256];
    crate::bytes::copy_bytes(from, &mut value);
    assert(value@ =~= filled(from@, 256, 0));
    value
}

impl<S: MemStore, L: RedoLog> KVServer<S, L> {
    /// The store that the service works on.
    pub closed spec fn store(&self) -> Store<S, L> {
        self.store
    }

    /// A service on `store`.
    pub fn new(store: Store<S, L>) -> (server: Self)
        ensures
            server.store() == store,
    {
        KVServer { store }
    }
}

/// The position in the store at which a scan from `cursor` starts: the
/// cursor itself, or the largest position there is where the cursor lies
/// beyond it.
pub open spec fn scan_start(cursor: u64) -> usize {
    if cursor > usize::MAX {
        usize::MAX
    } else {
        cursor as usize
    }
}

/// What to answer where a key is not in the store.
pub open spec fn key_not_found() -> Seq<char> {
    "key not found"@
}

/// What to answer to a put whose key is not of eight bytes.
pub open spec fn bad_key_length() -> Seq<char> {
    "the key must be 8 bytes, padding if necessary"@
}

/// What to answer to a put whose value is not of 256 bytes.
pub open spec fn bad_value_length() -> Seq<char> {
    "the key must be 256 bytes, padding if necessary"@
}

/// What to answer to a put with the given lengths of key and value: the
/// complaints that apply, one to a line, or nothing where none applies.
pub open spec fn put_complaint(key_len: nat, value_len: nat) -> Seq<char> {
    if key_len != 8 && value_len != 256 {
        bad_key_length() + "\n"@ + bad_value_length()
    } else if key_len != 8 {
        bad_key_length()
    } else if value_len != 256 {
        bad_value_length()
    } else {
        Seq::empty()
    }
}

impl<S: MemStore, L: RedoLog> MiniKvServer for KVServer<S, L> {
    /// Reads the value under the key of the request, the key cut or padded
    /// with zero bytes to eight bytes.
    fn get(&mut self, req: GetRequest) -> (response: GetResponse)
        ensures
            final(self).store() == old(self).store(),
            response.success == old(self).store().contents().contains_key(filled(req.key@, 8, 0)),
            response.success ==> response.value@ == old(self).store().contents()[filled(
                req.key@,
                8,
                0,
            )] && response.error_message@ == Seq::<char>::empty(),
            !response.success ==> response.value@ == Seq::<u8>::empty()
                && response.error_message@ == key_not_found(),
    {
        let key = key_from(req.key.as_slice());
        match self.store.get(&key) {
            Some(value) => GetResponse {
                success: true,
                value: slice_to_vec(value.as_slice()),
                error_message: String::new(),
            },
            None => GetResponse {
                success: false,
                value: Vec::new(),
                error_message: "key not found".to_owned(),
            },
        }
    }

    /// Puts the value of the request under its key, provided the key is of
    /// eight bytes and the value of 256; else changes nothing and answers
    /// with the complaints that apply.
    fn put(&mut self, req: PutRequest) -> (response: PutResponse)
        ensures
            response.success == (req.key@.len() == 8 && req.value@.len() == 256),
            response.error_message@ == put_complaint(req.key@.len(), req.value@.len()),
            response.success ==> final(self).store().contents()
                == old(self).store().contents().insert(req.key@, req.value@),
            response.success && final(self).store().log_sound() ==> old(self).store().log_sound()
                && final(self).store().log()
                == old(self).store().log() + put_record(req.key@, req.value@),
            !response.success ==> final(self).store() == old(self).store(),
    {
        let key_ok = req.key.len() == 8;
        let value_ok = req.value.len() == 256;
        let mut error_message = String::new();
        if !key_ok {
            error_message.append("the key must be 8 bytes, padding if necessary");
        }
        if !value_ok {
            if !key_ok {
                error_message.append("\n");
            }
            error_message.append("the key must be 256 bytes, padding if necessary");
        }
        assert(error_message@ =~= put_complaint(req.key@.len(), req.value@.len()));
        let key = key_from(req.key.as_slice());
        let value = value_from(req.value.as_slice());
        if key_ok && value_ok {
            assert(key@ =~= req.key@);
            assert(value@ =~= req.value@);
            self.store.put(key, value);
        }
        PutResponse { success: key_ok && value_ok, error_message }
    }

    /// Takes the key of the request, cut or padded with zero bytes to
    /// eight bytes, out of the store.
    fn delete(&mut self, req: DeleteRequest) -> (response: DeleteResponse)
        ensures
            response.success == old(self).store().contents().contains_key(filled(req.key@, 8, 0)),
            response.error_message@ == if response.success {
                Seq::<char>::empty()
            } else {
                key_not_found()
            },
            final(self).store().contents() == old(self).store().contents().remove(
                filled(req.key@, 8, 0),
            ),
            response.success && final(self).store().log_sound() ==> old(self).store().log_sound()
                && final(self).store().log() == old(self).store().log() + delete_record(
                filled(req.key@, 8, 0),
            ),
            !response.success ==> final(self).store().log() == old(self).store().log(),
    {
        let key = key_from(req.key.as_slice());
        match self.store.delete(key) {
            Some(_) => DeleteResponse { success: true, error_message: String::new() },
            None => DeleteResponse { success: false, error_message: "key not found".to_owned() },
        }
    }

    /// Scans at most sixteen keys from the cursor of the request on.
    fn scan(&mut self, req: ScanRequest) -> (response: ScanResponse)
        ensures
            final(self).store() == old(self).store(),
            old(self).store().contents().dom().finite(),
            response.result@.len() == scan_len(
                old(self).store().contents().dom().len(),
                scan_start(req.cursor),
                16,
            ),
            forall|i: int|
                0 <= i < response.result@.len() ==> old(self).store().contents().contains_key(
                    #[trigger] response.result@[i]@,
                ),
            forall|i: int, j: int|
                0 <= i < j < response.result@.len() ==> (#[trigger] response.result@[i])@ != (
                #[trigger] response.result@[j])@,
            response.cursor == 0 || response.cursor == scan_start(req.cursor)
                + response.result@.len(),
    {
        let at = if req.cursor > usize::MAX as u64 {
            usize::MAX
        } else {
            req.cursor as usize
        };
        let (cursor, keys) = self.store.scan(at, SCAN_COUNT);
        let mut result: Vec<Vec<u8>> = Vec::new();
        let mut i: usize = 0;
        while i < keys.len()
            invariant
                i <= keys@.len(),
                result@.len() == i,
                forall|j: int| 0 <= j < i ==> (#[trigger] result@[j])@ == keys@[j]@,
            decreases keys@.len() - i,
        {
            result.push(slice_to_vec(keys[i].as_slice()));
            i += 1;
        }
        ScanResponse { cursor: cursor as u64, result }
    }
}

} // verus!
