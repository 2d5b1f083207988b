//! The server side of the request/response protocol: one request in, one
//! response out, against a storage chosen when the server is made.
use crate::common::{GetResponse, RemoveResponse, Request, SetResponse};
use crate::error::{is_message_of, Error};
use crate::storage::{stored, text_of, HashMapStorage, KvStorage};
use vstd::prelude::*;

verus! {

/// The answer to a request, of the kind that goes with the request.
#[derive(Debug)]
pub enum Response {
    /// The answer to a `Get` request.
    Get(GetResponse),
    /// The answer to a `Put` request.
    Put(SetResponse),
    /// The answer to a `Remove` request.
    Remove(RemoveResponse),
}

/// A server of string key/value pairs kept in a `KvStorage`.
///
/// The storage is chosen once, when the server is made, and is a parameter
/// of the type: what the storage states of itself is then known of the
/// server that holds it.
pub struct KvServer<S: KvStorage> {
    storage: S,
}

impl Default for KvServer<HashMapStorage> {
    /// Creates a default `KvServer`: empty, over a hash map in memory.
    fn default() -> (server: Self)
        ensures
            server.inv(),
            server.contents() == Map::<Seq<char>, Seq<char>>::empty(),
    {
        KvServer { storage: HashMapStorage::new() }
    }
}

impl<S: KvStorage> KvServer<S> {
    /// The pairs of key and value that the storage of the server holds.
    pub closed spec fn contents(&self) -> Map<Seq<char>, Seq<char>> {
        self.storage.contents()
    }

    /// Whether the storage of the server is sound.
    pub closed spec fn inv(&self) -> bool {
        self.storage.inv()
    }

    /// Creates a `KvServer` whose storage backend is `storage`.
    pub fn new(storage: S) -> (r: Result<Self, Error>)
        ensures
            r is Ok,
            r matches Ok(server) ==> server.contents() == storage.contents() && server.inv()
                == storage.inv(),
    {
        Ok(KvServer { storage })
    }

    /// Serves one request: performs the operation on the storage and
    /// answers with the response of the same kind, which carries the result
    /// or the text of the error, as `get_reply`, `set_reply` and
    /// `remove_reply` make it of what the storage returns.
    pub fn serve(&mut self, req: Request) -> (resp: Response)
        ensures
            old(self).inv() ==> final(self).inv() && answers(
                old(self).contents(),
                final(self).contents(),
                req,
                resp,
            ),
            req is Get ==> resp is Get,
            req is Put ==> resp is Put,
            req is Remove ==> resp is Remove,
    {
        match req {
            Request::Get { key } => {
                Response::Get(get_reply(self.storage.get(key.as_str())))
            },
            Request::Put { key, value } => {
                Response::Put(set_reply(self.storage.insert(key, value)))
            },
            Request::Remove { key } => {
                Response::Remove(remove_reply(self.storage.remove(key.as_str())))
            },
        }
    }
}

/// The answer to a `Get` request of which the storage has returned
/// `result`: the value found, or the message of the error.
pub fn get_reply(result: Result<Option<String>, Error>) -> (resp: GetResponse)
    ensures
        match result {
            Ok(found) => resp == GetResponse::Success(found),
            Err(e) => resp is Failure && is_message_of(e, resp->Failure_0@),
        },
{
    match result {
        Ok(value) => GetResponse::Success(value),
        Err(e) => GetResponse::Failure(e.message()),
    }
}

/// The answer to a `Put` request of which the storage has returned
/// `result`: success, or the message of the error.
pub fn set_reply(result: Result<(), Error>) -> (resp: SetResponse)
    ensures
        match result {
            Ok(_) => resp is Success,
            Err(e) => resp is Failure && is_message_of(e, resp->Failure_0@),
        },
{
    match result {
        Ok(_) => SetResponse::Success(()),
        Err(e) => SetResponse::Failure(e.message()),
    }
}

/// The answer to a `Remove` request of which the storage has returned
/// `result`: success, or the message of the error, which for a key that is
/// not there is "Key not found".
pub fn remove_reply(result: Result<(), Error>) -> (resp: RemoveResponse)
    ensures
        match result {
            Ok(_) => resp is Success,
            Err(e) => resp is Failure && is_message_of(e, resp->Failure_0@),
        },
{
    match result {
        Ok(_) => RemoveResponse::Success(()),
        Err(e) => RemoveResponse::Failure(e.message()),
    }
}

/// Whether `resp` is the answer of a sound store to `req`, and `after` what
/// the store holds once it has served the request, having held `before`.
pub open spec fn answers(
    before: Map<Seq<char>, Seq<char>>,
    after: Map<Seq<char>, Seq<char>>,
    req: Request,
    resp: Response,
) -> bool {
    match req {
        Request::Get { key } => {
            &&& after == before
            &&& resp matches Response::Get(GetResponse::Success(found))
            &&& text_of(found) == stored(before, key@)
        },
        Request::Put { key, value } => {
            &&& after == before.insert(key@, value@)
            &&& resp matches Response::Put(SetResponse::Success(_))
        },
        Request::Remove { key } => if before.contains_key(key@) {
            &&& after == before.remove(key@)
            &&& resp matches Response::Remove(RemoveResponse::Success(_))
        } else {
            &&& after == before
            &&& resp matches Response::Remove(RemoveResponse::Failure(text))
            &&& text@ == "Key not found"@
        },
    }
}

} // verus!
