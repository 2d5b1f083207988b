//! The error type of the store.
use sled::Error as SledError;
use std::string::FromUtf8Error;
use vstd::prelude::*;
use vstd::std_specs::convert::FromSpecImpl;
use vstd::string::StringExecFns;

verus! {

/// `std::io::Error`, carried through as it comes.
#[verifier::external_type_specification]
#[verifier::external_body]
pub struct ExIoError(std::io::Error);

/// `std::string::FromUtf8Error`, carried through as it comes.
#[verifier::external_type_specification]
#[verifier::external_body]
pub struct ExFromUtf8Error(FromUtf8Error);

/// `sled::Error`, carried through as it comes.
#[verifier::external_type_specification]
#[verifier::external_body]
pub struct ExSledError(SledError);

/// What can go wrong in an operation on a store.
#[derive(Debug)]
pub enum Error {
    /// A record could not be encoded or decoded.
    BincodeError(Box<bincode::ErrorKind>),
    /// A file could not be opened, read, written or sought in.
    IoError(std::io::Error),
    /// Bytes that should spell a string are not valid UTF-8.
    Utf8(FromUtf8Error),
    /// The embedded engine has failed.
    Sled(SledError),
    /// The key to remove is not in the store.
    KeyNotFound,
    /// A failure reported as text.
    StringError(String),
}

/// Whether `text` begins with `prefix`.
pub open spec fn begins_with(text: Seq<char>, prefix: Seq<char>) -> bool {
    prefix.len() <= text.len() && text.subrange(0, prefix.len() as int) == prefix
}

/// Whether `text` is a message of `error`: the fixed text of a missing key,
/// the text that a failure reported as text carries, or, for an error that
/// stems from elsewhere, a text that begins with the words that tell its
/// kind.
pub open spec fn is_message_of(error: Error, text: Seq<char>) -> bool {
    match error {
        Error::BincodeError(_) => begins_with(text, "bincode error: "@),
        Error::IoError(_) => begins_with(text, "IO error: "@),
        Error::Utf8(_) => begins_with(text, "UTF-8 error: "@),
        Error::Sled(_) => begins_with(text, "sled error: "@),
        Error::KeyNotFound => text == "Key not found"@,
        Error::StringError(m) => text == m@,
    }
}

/// `kind` followed by `detail`.
fn prefixed(kind: &str, detail: String) -> (text: String)
    ensures
        text@ == kind@ + detail@,
        begins_with(text@, kind@),
{
    let text = kind.to_owned().concat(detail.as_str());
    assert(text@.subrange(0, kind@.len() as int) =~= kind@);
    text
}

impl Error {
    /// The error as text fit for a reply to a client. For an error that
    /// stems from elsewhere, its own text follows a few words that tell its
    /// kind.
    pub fn message(&self) -> (text: String)
        ensures
            is_message_of(*self, text@),
    {
        match self {
            Error::BincodeError(e) => prefixed("bincode error: ", describe_bincode(e)),
            Error::IoError(e) => prefixed("IO error: ", describe_io(e)),
            Error::Utf8(e) => prefixed("UTF-8 error: ", describe_utf8(e)),
            Error::Sled(e) => prefixed("sled error: ", describe_sled(e)),
            Error::KeyNotFound => "Key not found".to_owned(),
            Error::StringError(m) => m.clone(),
        }
    }
}

impl From<Box<bincode::ErrorKind>> for Error {
    fn from(e: Box<bincode::ErrorKind>) -> (error: Self) {
        Error::BincodeError(e)
    }
}

impl FromSpecImpl<Box<bincode::ErrorKind>> for Error {
    open spec fn obeys_from_spec() -> bool {
        true
    }

    open spec fn from_spec(e: Box<bincode::ErrorKind>) -> Self {
        Error::BincodeError(e)
    }
}

impl From<std::io::Error> for Error {
    fn from(e: std::io::Error) -> (error: Self) {
        Error::IoError(e)
    }
}

impl FromSpecImpl<std::io::Error> for Error {
    open spec fn obeys_from_spec() -> bool {
        true
    }

    open spec fn from_spec(e: std::io::Error) -> Self {
        Error::IoError(e)
    }
}

impl From<FromUtf8Error> for Error {
    fn from(e: FromUtf8Error) -> (error: Self) {
        Error::Utf8(e)
    }
}

impl FromSpecImpl<FromUtf8Error> for Error {
    open spec fn obeys_from_spec() -> bool {
        true
    }

    open spec fn from_spec(e: FromUtf8Error) -> Self {
        Error::Utf8(e)
    }
}

impl From<SledError> for Error {
    fn from(e: SledError) -> (error: Self) {
        Error::Sled(e)
    }
}

impl FromSpecImpl<SledError> for Error {
    open spec fn obeys_from_spec() -> bool {
        true
    }

    open spec fn from_spec(e: SledError) -> Self {
        Error::Sled(e)
    }
}

/// The `Display` text of a `bincode::ErrorKind`. Nothing is claimed of the
/// text.
#[verifier::external_body]
fn describe_bincode(e: &bincode::ErrorKind) -> String {
    format!("{}", e)
}

/// The `Display` text of a `std::io::Error`. Nothing is claimed of the text.
#[verifier::external_body]
fn describe_io(e: &std::io::Error) -> String {
    format!("{}", e)
}

/// The `Display` text of a `FromUtf8Error`. Nothing is claimed of the text.
#[verifier::external_body]
fn describe_utf8(e: &FromUtf8Error) -> String {
    format!("{}", e)
}

/// The `Display` text of a `sled::Error`. Nothing is claimed of the text.
#[verifier::external_body]
fn describe_sled(e: &SledError) -> String {
    format!("{}", e)
}

} // verus!
