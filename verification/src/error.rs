//! The library's error type and its one-line rendering.

use vstd::prelude::*;
use crate::text::{decimal, push_decimal};

verus! {

/// What can go wrong while talking to the sync server or reading local files.
///
/// Failures of the operating system (network or file system) are carried
/// as the text the system reported.
#[derive(Debug)]
pub enum SyncError {
    /// The server address is not of the form `http://host[:port]`.
    InvalidBaseUrl(String),
    /// The server could not be reached, or the exchange broke off.
    Connection(String),
    /// A local file or directory could not be read.
    Io(String),
    /// The server's reply is not a well-formed HTTP response.
    Protocol(String),
    /// The server answered with a status that is not a success.
    Server(u16, String),
    /// A path that was to be synced is not a regular file or directory.
    InvalidPath(String),
}

/// The one-line description of an error, as shown to users.
pub open spec fn error_message(e: SyncError) -> Seq<char> {
    match e {
        SyncError::InvalidBaseUrl(url) => "invalid base url: "@ + url@,
        SyncError::Connection(m) => "network error: "@ + m@,
        SyncError::Io(m) => "file system error: "@ + m@,
        SyncError::Protocol(m) => "protocol error: "@ + m@,
        SyncError::Server(status, body) => "server returned "@ + decimal(status as nat) + ": "@
            + body@,
        SyncError::InvalidPath(p) => "invalid path: "@ + p@,
    }
}

/// A string with the same characters as `s`.
pub(crate) fn copy_text(s: &String) -> (r: String)
    ensures
        r == *s,
{
    s.clone()
}

impl SyncError {
    /// The one-line description of this error.
    pub fn message(&self) -> (r: String)
        ensures
            r@ == error_message(*self),
    {
        match self {
            SyncError::InvalidBaseUrl(url) => {
                let mut r = String::from_str("invalid base url: ");
                r.append(url.as_str());
                r
            },
            SyncError::Connection(m) => {
                let mut r = String::from_str("network error: ");
                r.append(m.as_str());
                r
            },
            SyncError::Io(m) => {
                let mut r = String::from_str("file system error: ");
                r.append(m.as_str());
                r
            },
            SyncError::Protocol(m) => {
                let mut r = String::from_str("protocol error: ");
                r.append(m.as_str());
                r
            },
            SyncError::Server(status, body) => {
                let mut r = String::from_str("server returned ");
                push_decimal(&mut r, *status as u64);
                r.append(": ");
                r.append(body.as_str());
                r
            },
            SyncError::InvalidPath(p) => {
                let mut r = String::from_str("invalid path: ");
                r.append(p.as_str());
                r
            },
        }
    }

    /// An equal copy of this error.
    pub fn duplicate(&self) -> (r: SyncError)
        ensures
            r == *self,
    {
        match self {
            SyncError::InvalidBaseUrl(u) => SyncError::InvalidBaseUrl(copy_text(u)),
            SyncError::Connection(m) => SyncError::Connection(copy_text(m)),
            SyncError::Io(m) => SyncError::Io(copy_text(m)),
            SyncError::Protocol(m) => SyncError::Protocol(copy_text(m)),
            SyncError::Server(s, b) => SyncError::Server(*s, copy_text(b)),
            SyncError::InvalidPath(p) => SyncError::InvalidPath(copy_text(p)),
        }
    }
}

} // verus!
