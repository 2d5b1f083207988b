//! The messages of the remote-procedure service of the fixed-width store.
use vstd::prelude::*;

verus! {

/// Asks for the value under a key.
#[derive(Debug)]
pub struct GetRequest {
    /// The key to read.
    pub key: Vec<u8>,
}

/// Answers a `GetRequest`.
#[derive(Debug)]
pub struct GetResponse {
    /// Whether the key was found.
    pub success: bool,
    /// The value found; empty where none was.
    pub value: Vec<u8>,
    /// What went wrong; empty where nothing did.
    pub error_message: String,
}

/// Asks to put a value under a key.
#[derive(Debug)]
pub struct PutRequest {
    /// The key to write.
    pub key: Vec<u8>,
    /// The value to put under it.
    pub value: Vec<u8>,
}

/// Answers a `PutRequest`.
#[derive(Debug)]
pub struct PutResponse {
    /// Whether the value was put.
    pub success: bool,
    /// What went wrong; empty where nothing did.
    pub error_message: String,
}

/// Asks to take a key out of the store.
#[derive(Debug)]
pub struct DeleteRequest {
    /// The key to take out.
    pub key: Vec<u8>,
}

/// Answers a `DeleteRequest`.
#[derive(Debug)]
pub struct DeleteResponse {
    /// Whether the key was there and has been taken out.
    pub success: bool,
    /// What went wrong; empty where nothing did.
    pub error_message: String,
}

/// Asks for keys of the store from a cursor on.
#[derive(Debug)]
pub struct ScanRequest {
    /// The cursor from which to scan; 0 to start.
    pub cursor: u64,
}

/// Answers a `ScanRequest`.
#[derive(Debug)]
pub struct ScanResponse {
    /// The cursor at which the next scan goes on.
    pub cursor: u64,
    /// The keys scanned.
    pub result: Vec<Vec<u8>>,
}

} // verus!
