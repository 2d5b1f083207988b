//! The remote-procedure service of the fixed-width store: its methods, the
//! calls a client makes, and the routing of a call to its handler.
//!
//! Nothing here touches the network. A client describes the call to make;
//! a service hands the message of a call to the handler of its method and
//! returns the message to answer with. Sending and receiving is for the
//! caller.
use crate::minikv::{
    DeleteRequest, DeleteResponse, GetRequest, GetResponse, PutRequest, PutResponse, ScanRequest,
    ScanResponse,
};
use vstd::prelude::*;
use vstd::slice::slice_to_vec;

verus! {

/// The methods of the service. All of them are unary: one message in, one
/// message out.
#[derive(Clone, Copy, Debug, PartialEq, Eq, Structural)]
pub enum Method {
    /// Read the value under a key.
    Get,
    /// Put a value under a key.
    Put,
    /// Take a key out of the store.
    Delete,
    /// Scan keys from a cursor on.
    Scan,
}

/// The path under which `method` is called.
pub open spec fn spec_method_name(method: Method) -> Seq<char> {
    match method {
        Method::Get => "/MiniKVServer/Get"@,
        Method::Put => "/MiniKVServer/Put"@,
        Method::Delete => "/MiniKVServer/Delete"@,
        Method::Scan => "/MiniKVServer/Scan"@,
    }
}

/// The path under which `method` is called.
pub fn method_name(method: Method) -> (name: &'static str)
    ensures
        name@ == spec_method_name(method),
{
    match method {
        Method::Get => "/MiniKVServer/Get",
        Method::Put => "/MiniKVServer/Put",
        Method::Delete => "/MiniKVServer/Delete",
        Method::Scan => "/MiniKVServer/Scan",
    }
}

/// The message of a request, of any of the methods.
#[derive(Debug)]
pub enum Message {
    /// The message of a `Get` call.
    Get(GetRequest),
    /// The message of a `Put` call.
    Put(PutRequest),
    /// The message of a `Delete` call.
    Delete(DeleteRequest),
    /// The message of a `Scan` call.
    Scan(ScanRequest),
}

/// The message of an answer, of any of the methods.
#[derive(Debug)]
pub enum Reply {
    /// The answer to a `Get` call.
    Get(GetResponse),
    /// The answer to a `Put` call.
    Put(PutResponse),
    /// The answer to a `Delete` call.
    Delete(DeleteResponse),
    /// The answer to a `Scan` call.
    Scan(ScanResponse),
}

/// How a call is to be made.
#[derive(Clone, Copy, Debug, PartialEq, Eq, Structural)]
pub struct CallOption {
    /// After how many milliseconds to give the call up; never, where none
    /// is given.
    pub timeout_millis: Option<u64>,
}

impl Default for CallOption {
    /// The options of a call made without options: no timeout.
    fn default() -> (opt: Self)
        ensures
            opt == (CallOption { timeout_millis: None }),
    {
        CallOption { timeout_millis: None }
    }
}

/// A call for a client to make: the method, the message to send, the
/// options of the call, and whether the caller waits for the answer or
/// takes a receiver for it.
#[derive(Debug)]
pub struct UnaryCall {
    /// The method to call.
    pub method: Method,
    /// The message to send.
    pub message: Message,
    /// The options of the call.
    pub option: CallOption,
    /// Whether the caller waits for the answer.
    pub wait: bool,
}

/// The client of the service, bound to the address of a server.
#[derive(Debug)]
pub struct MiniKvServerClient {
    channel: String,
}

impl MiniKvServerClient {
    /// The address of the server that the client is bound to.
    pub closed spec fn target(&self) -> Seq<char> {
        self.channel@
    }

    /// A client bound to the server at the address `channel`.
    pub fn new(channel: String) -> (client: Self)
        ensures
            client.target() == channel@,
    {
        MiniKvServerClient { channel }
    }

    /// The address of the server that the client is bound to.
    pub fn channel(&self) -> (address: &str)
        ensures
            address@ == self.target(),
    {
        self.channel.as_str()
    }

    /// A `Get` call with the given options, waited for.
    pub fn get_opt(&self, req: &GetRequest, opt: CallOption) -> (call: UnaryCall)
        ensures
            call.method == Method::Get,
            call.message matches Message::Get(m) && m.key@ == req.key@,
            call.option == opt,
            call.wait,
    {
        UnaryCall {
            method: Method::Get,
            message: Message::Get(GetRequest { key: slice_to_vec(req.key.as_slice()) }),
            option: opt,
            wait: true,
        }
    }

    /// A `Get` call with default options, waited for.
    pub fn get(&self, req: &GetRequest) -> (call: UnaryCall)
        ensures
            call.method == Method::Get,
            call.message matches Message::Get(m) && m.key@ == req.key@,
            call.option == (CallOption { timeout_millis: None }),
            call.wait,
    {
        self.get_opt(req, CallOption::default())
    }

    /// A `Get` call with the given options, not waited for.
    pub fn get_async_opt(&self, req: &GetRequest, opt: CallOption) -> (call: UnaryCall)
        ensures
            call.method == Method::Get,
            call.message matches Message::Get(m) && m.key@ == req.key@,
            call.option == opt,
            !call.wait,
    {
        UnaryCall {
            method: Method::Get,
            message: Message::Get(GetRequest { key: slice_to_vec(req.key.as_slice()) }),
            option: opt,
            wait: false,
        }
    }

    /// A `Get` call with default options, not waited for.
    pub fn get_async(&self, req: &GetRequest) -> (call: UnaryCall)
        ensures
            call.method == Method::Get,
            call.message matches Message::Get(m) && m.key@ == req.key@,
            call.option == (CallOption { timeout_millis: None }),
            !call.wait,
    {
        self.get_async_opt(req, CallOption::default())
    }

    /// A `Put` call with the given options, waited for.
    pub fn put_opt(&self, req: &PutRequest, opt: CallOption) -> (call: UnaryCall)
        ensures
            call.method == Method::Put,
            call.message matches Message::Put(m) && m.key@ == req.key@ && m.value@ == req.value@,
            call.option == opt,
            call.wait,
    {
        UnaryCall {
            method: Method::Put,
            message: Message::Put(
                PutRequest {
                    key: slice_to_vec(req.key.as_slice()),
                    value: slice_to_vec(req.value.as_slice()),
                },
            ),
            option: opt,
            wait: true,
        }
    }

    /// A `Put` call with default options, waited for.
    pub fn put(&self, req: &PutRequest) -> (call: UnaryCall)
        ensures
            call.method == Method::Put,
            call.message matches Message::Put(m) && m.key@ == req.key@ && m.value@ == req.value@,
            call.option == (CallOption { timeout_millis: None }),
            call.wait,
    {
        self.put_opt(req, CallOption::default())
    }

    /// A `Put` call with the given options, not waited for.
    pub fn put_async_opt(&self, req: &PutRequest, opt: CallOption) -> (call: UnaryCall)
        ensures
            call.method == Method::Put,
            call.message matches Message::Put(m) && m.key@ == req.key@ && m.value@ == req.value@,
            call.option == opt,
            !call.wait,
    {
        UnaryCall {
            method: Method::Put,
            message: Message::Put(
                PutRequest {
                    key: slice_to_vec(req.key.as_slice()),
                    value: slice_to_vec(req.value.as_slice()),
                },
            ),
            option: opt,
            wait: false,
        }
    }

    /// A `Put` call with default options, not waited for.
    pub fn put_async(&self, req: &PutRequest) -> (call: UnaryCall)
        ensures
            call.method == Method::Put,
            call.message matches Message::Put(m) && m.key@ == req.key@ && m.value@ == req.value@,
            call.option == (CallOption { timeout_millis: None }),
            !call.wait,
    {
        self.put_async_opt(req, CallOption::default())
    }

    /// A `Delete` call with the given options, waited for.
    pub fn delete_opt(&self, req: &DeleteRequest, opt: CallOption) -> (call: UnaryCall)
        ensures
            call.method == Method::Delete,
            call.message matches Message::Delete(m) && m.key@ == req.key@,
            call.option == opt,
            call.wait,
    {
        UnaryCall {
            method: Method::Delete,
            message: Message::Delete(DeleteRequest { key: slice_to_vec(req.key.as_slice()) }),
            option: opt,
            wait: true,
        }
    }

    /// A `Delete` call with default options, waited for.
    pub fn delete(&self, req: &DeleteRequest) -> (call: UnaryCall)
        ensures
            call.method == Method::Delete,
            call.message matches Message::Delete(m) && m.key@ == req.key@,
            call.option == (CallOption { timeout_millis: None }),
            call.wait,
    {
        self.delete_opt(req, CallOption::default())
    }

    /// A `Delete` call with the given options, not waited for.
    pub fn delete_async_opt(&self, req: &DeleteRequest, opt: CallOption) -> (call: UnaryCall)
        ensures
            call.method == Method::Delete,
            call.message matches Message::Delete(m) && m.key@ == req.key@,
            call.option == opt,
            !call.wait,
    {
        UnaryCall {
            method: Method::Delete,
            message: Message::Delete(DeleteRequest { key: slice_to_vec(req.key.as_slice()) }),
            option: opt,
            wait: false,
        }
    }

    /// A `Delete` call with default options, not waited for.
    pub fn delete_async(&self, req: &DeleteRequest) -> (call: UnaryCall)
        ensures
            call.method == Method::Delete,
            call.message matches Message::Delete(m) && m.key@ == req.key@,
            call.option == (CallOption { timeout_millis: None }),
            !call.wait,
    {
        self.delete_async_opt(req, CallOption::default())
    }

    /// A `Scan` call with the given options, waited for.
    pub fn scan_opt(&self, req: &ScanRequest, opt: CallOption) -> (call: UnaryCall)
        ensures
            call.method == Method::Scan,
            call.message matches Message::Scan(m) && m.cursor == req.cursor,
            call.option == opt,
            call.wait,
    {
        UnaryCall {
            method: Method::Scan,
            message: Message::Scan(ScanRequest { cursor: req.cursor }),
            option: opt,
            wait: true,
        }
    }

    /// A `Scan` call with default options, waited for.
    pub fn scan(&self, req: &ScanRequest) -> (call: UnaryCall)
        ensures
            call.method == Method::Scan,
            call.message matches Message::Scan(m) && m.cursor == req.cursor,
            call.option == (CallOption { timeout_millis: None }),
            call.wait,
    {
        self.scan_opt(req, CallOption::default())
    }

    /// A `Scan` call with the given options, not waited for.
    pub fn scan_async_opt(&self, req: &ScanRequest, opt: CallOption) -> (call: UnaryCall)
        ensures
            call.method == Method::Scan,
            call.message matches Message::Scan(m) && m.cursor == req.cursor,
            call.option == opt,
            !call.wait,
    {
        UnaryCall {
            method: Method::Scan,
            message: Message::Scan(ScanRequest { cursor: req.cursor }),
            option: opt,
            wait: false,
        }
    }

    /// A `Scan` call with default options, not waited for.
    pub fn scan_async(&self, req: &ScanRequest) -> (call: UnaryCall)
        ensures
            call.method == Method::Scan,
            call.message matches Message::Scan(m) && m.cursor == req.cursor,
            call.option == (CallOption { timeout_millis: None }),
            !call.wait,
    {
        self.scan_async_opt(req, CallOption::default())
    }
}

/// The handlers of the service, one for each method: each takes the
/// message of a request and yields the message to answer with.
pub trait MiniKvServer {
    /// Handles a `Get` call.
    fn get(&mut self, req: GetRequest) -> GetResponse;

    /// Handles a `Put` call.
    fn put(&mut self, req: PutRequest) -> PutResponse;

    /// Handles a `Delete` call.
    fn delete(&mut self, req: DeleteRequest) -> DeleteResponse;

    /// Handles a `Scan` call.
    fn scan(&mut self, req: ScanRequest) -> ScanResponse;
}

/// A service: the handlers of a server, each registered under the method it
/// handles.
pub struct Service<S: MiniKvServer> {
    /// The server whose handlers the service routes to.
    pub instance: S,
}

impl<S: MiniKvServer> Service<S> {
    /// Hands the message of a call to the handler of `method` and returns
    /// the answer of the handler. A message that is not of the kind of the
    /// method reaches no handler and gets no answer.
    pub fn call(&mut self, method: Method, message: Message) -> (reply: Option<Reply>)
        ensures
            reply is Some <==> routed(method, message),
            reply matches Some(answer) ==> answers(method, answer),
            reply is None ==> final(self).instance == old(self).instance,
    {
        match (method, message) {
            (Method::Get, Message::Get(req)) => Some(Reply::Get(self.instance.get(req))),
            (Method::Put, Message::Put(req)) => Some(Reply::Put(self.instance.put(req))),
            (Method::Delete, Message::Delete(req)) => Some(
                Reply::Delete(self.instance.delete(req)),
            ),
            (Method::Scan, Message::Scan(req)) => Some(Reply::Scan(self.instance.scan(req))),
            _ => None,
        }
    }
}

/// Whether `message` is of the kind that `method` takes.
pub open spec fn routed(method: Method, message: Message) -> bool {
    match method {
        Method::Get => message is Get,
        Method::Put => message is Put,
        Method::Delete => message is Delete,
        Method::Scan => message is Scan,
    }
}

/// Whether `reply` is of the kind that `method` answers with.
pub open spec fn answers(method: Method, reply: Reply) -> bool {
    match method {
        Method::Get => reply is Get,
        Method::Put => reply is Put,
        Method::Delete => reply is Delete,
        Method::Scan => reply is Scan,
    }
}

/// Makes a service of the server `s`, with its four handlers registered
/// under the methods they handle.
pub fn create_mini_kv_server<S: MiniKvServer>(s: S) -> (service: Service<S>)
    ensures
        service.instance == s,
{
    Service { instance: s }
}

} // verus!
