//! What can go wrong, and the text that says so.
use crate::text::{decimal_text, owned};
use vstd::prelude::*;

verus! {

/// An error of the library. Errors of the network and of the file system carry the text that
/// the system gave.
#[derive(Debug)]
pub enum AzcpError {
    Http(String),
    Io(String),
    Storage { status: u16, message: String },
    Auth(String),
    InvalidUrl(String),
    Transfer(String),
    AlreadyExists(String),
    Md5Mismatch { path: String, expected: String, actual: String },
    Xml(String),
}

pub type Result<T> = std::result::Result<T, AzcpError>;

/// The text that a user sees for an error.
pub open spec fn message_of(e: AzcpError) -> Seq<char> {
    match e {
        AzcpError::Http(s) => "HTTP request failed: "@ + s@,
        AzcpError::Io(s) => "IO: "@ + s@,
        AzcpError::Storage { status, message } => "Azure Storage ("@ + crate::text::decimal(
            status as nat,
        ) + "): "@ + message@,
        AzcpError::Auth(s) => "Authentication failed: "@ + s@,
        AzcpError::InvalidUrl(s) => "Invalid URL: "@ + s@,
        AzcpError::Transfer(s) => "Transfer failed: "@ + s@,
        AzcpError::AlreadyExists(s) => "Destination blob already exists: "@ + s@,
        AzcpError::Md5Mismatch { path, expected, actual } => "MD5 mismatch for "@ + path@
            + ": expected "@ + expected@ + ", got "@ + actual@,
        AzcpError::Xml(s) => "XML parse: "@ + s@,
    }
}

fn prefixed(front: &str, s: &String) -> (out: String)
    ensures
        out@ == front@ + s@,
{
    let mut out = owned(front);
    out.append(s.as_str());
    out
}

impl AzcpError {
    /// The text that a user sees.
    pub fn message(&self) -> (out: String)
        ensures
            out@ == message_of(*self),
    {
        match self {
            AzcpError::Http(s) => prefixed("HTTP request failed: ", s),
            AzcpError::Io(s) => prefixed("IO: ", s),
            AzcpError::Storage { status, message } => {
                let mut out = owned("Azure Storage (");
                out.append(decimal_text(*status as u64).as_str());
                out.append("): ");
                out.append(message.as_str());
                out
            },
            AzcpError::Auth(s) => prefixed("Authentication failed: ", s),
            AzcpError::InvalidUrl(s) => prefixed("Invalid URL: ", s),
            AzcpError::Transfer(s) => prefixed("Transfer failed: ", s),
            AzcpError::AlreadyExists(s) => prefixed("Destination blob already exists: ", s),
            AzcpError::Md5Mismatch { path, expected, actual } => {
                let mut out = owned("MD5 mismatch for ");
                out.append(path.as_str());
                out.append(": expected ");
                out.append(expected.as_str());
                out.append(", got ");
                out.append(actual.as_str());
                out
            },
            AzcpError::Xml(s) => prefixed("XML parse: ", s),
        }
    }
}

/// What a user sees of an error says what kind it is and what went wrong.
pub proof fn law_messages(s: String, status: u16)
    ensures
        message_of(AzcpError::Http(s)) == "HTTP request failed: "@ + s@,
        message_of(AzcpError::Io(s)) == "IO: "@ + s@,
        message_of(AzcpError::Storage { status, message: s }) == "Azure Storage ("@
            + crate::text::decimal(status as nat) + "): "@ + s@,
        message_of(AzcpError::Auth(s)) == "Authentication failed: "@ + s@,
        message_of(AzcpError::InvalidUrl(s)) == "Invalid URL: "@ + s@,
        message_of(AzcpError::Transfer(s)) == "Transfer failed: "@ + s@,
        message_of(AzcpError::AlreadyExists(s)) == "Destination blob already exists: "@ + s@,
        message_of(AzcpError::Xml(s)) == "XML parse: "@ + s@,
{
}

/// What a user sees of a digest that differs names the blob, the digest that it should have, and
/// the one that it has, in this order.
pub proof fn law_mismatch_names_both_digests(path: String, expected: String, actual: String)
    ensures
        message_of(AzcpError::Md5Mismatch { path, expected, actual }) == "MD5 mismatch for "@
            + path@ + ": expected "@ + expected@ + ", got "@ + actual@,
{
}

} // verus!
