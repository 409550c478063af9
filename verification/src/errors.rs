//! The library's error type.
//!
//! A single flat sum carries every error kind the daemon logic can surface:
//! malformed wire data, registry-invariant violations, and protocol misuse.
//! Transport-level I/O failures never reach this type; they are handled by
//! the process that owns the sockets.

use vstd::prelude::*;

verus! {

#[derive(Debug, Clone, PartialEq, Eq)]
pub enum CollabError {
    Error(String),
}

impl CollabError {
    /// Build an error carrying the given message.
    pub fn new(msg: &str) -> (e: CollabError)
        ensures
            e matches CollabError::Error(m) && m@ == msg@,
    {
        CollabError::Error(msg.to_owned())
    }

    /// The human-readable message.
    pub fn describe(&self) -> (m: &str)
        ensures
            self matches CollabError::Error(s) && s@ == m@,
    {
        match self {
            CollabError::Error(s) => s.as_str(),
        }
    }
}

} // verus!
