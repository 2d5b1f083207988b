//! The envelopes exchanged between a client and the server.
use vstd::prelude::*;

verus! {

/// An operation asked of the server.
#[derive(Debug)]
pub enum Request {
    /// Read the value under a key.
    Get {
        /// The key to read.
        key: String,
    },
    /// Put a value under a key.
    Put {
        /// The key to write.
        key: String,
        /// The value to put under it.
        value: String,
    },
    /// Take a key out of the store.
    Remove {
        /// The key to take out.
        key: String,
    },
}

/// The answer to a `Get` request.
#[derive(Debug)]
pub enum GetResponse {
    /// The read succeeded and found this value, if any.
    Success(Option<String>),
    /// The read failed, for the reason given.
    Failure(String),
}

/// The answer to a `Put` request.
#[derive(Debug)]
pub enum SetResponse {
    /// The write succeeded.
    Success(()),
    /// The write failed, for the reason given.
    Failure(String),
}

/// The answer to a `Remove` request.
#[derive(Debug)]
pub enum RemoveResponse {
    /// The key was taken out.
    Success(()),
    /// The removal failed, for the reason given.
    Failure(String),
}

} // verus!
