//! Relative paths.
//!
//! Every registry key and every path on the wire is relative to the session
//! root and uses `/` as its separator on every host.  `RelPath` makes that
//! invariant a type: a `RelPath` never starts with a separator and never
//! contains a backslash, so it cannot smuggle in an absolute location or a
//! host-specific separator.  Only the code that touches the disk combines a
//! `RelPath` with the absolute root.

use vstd::prelude::*;

use crate::errors::CollabError;

verus! {

/// Validity of a relative path, stated over its UTF-8 bytes.  All excluded
/// bytes are ASCII, so in a UTF-8 string they occur exactly where the
/// characters `/`, `\` and `:` occur: no leading separator, no backslash
/// anywhere, and no drive-style prefix (a colon in second position).
pub open spec fn rel_bytes_ok(b: Seq<u8>) -> bool {
    &&& b.len() > 0 ==> b[0] != 0x2f
    &&& b.len() >= 2 ==> b[1] != 0x3a
    &&& forall|i: int| 0 <= i < b.len() ==> b[i] != 0x5c
}

/// Validity of a relative path, stated over its characters.
pub open spec fn is_rel_path(s: Seq<char>) -> bool {
    rel_bytes_ok(vstd::utf8::encode_utf8(s))
}

/// A path relative to the session root, `/`-separated.
#[derive(Debug, PartialEq, Eq, Hash)]
pub struct RelPath {
    s: String,
}

impl View for RelPath {
    type V = Seq<char>;

    closed spec fn view(&self) -> Seq<char> {
        self.s@
    }
}

impl Clone for RelPath {
    fn clone(&self) -> (r: Self)
        ensures
            r@ == self@,
    {
        RelPath { s: self.s.clone() }
    }
}

/// Check a candidate path's bytes for validity.
fn bytes_are_rel(b: &[u8]) -> (r: bool)
    ensures
        r == rel_bytes_ok(b@),
{
    if b.len() > 0 && b[0] == 0x2f {
        return false;
    }
    if b.len() >= 2 && b[1] == 0x3a {
        return false;
    }
    let mut i: usize = 0;
    while i < b.len()
        invariant
            i <= b@.len(),
            b@.len() > 0 ==> b@[0] != 0x2f,
            b@.len() >= 2 ==> b@[1] != 0x3a,
            forall|j: int| 0 <= j < i ==> b@[j] != 0x5c,
        decreases b@.len() - i,
    {
        if b[i] == 0x5c {
            return false;
        }
        i = i + 1;
    }
    true
}

impl RelPath {
    /// Well-formedness: the stored string is a valid relative path.
    pub open spec fn wf(&self) -> bool {
        is_rel_path(self@)
    }

    /// Validate a string as a relative path.
    pub fn new(s: String) -> (r: Result<RelPath, CollabError>)
        ensures
            r is Ok <==> is_rel_path(s@),
            r matches Ok(p) ==> p@ == s@ && p.wf(),
    {
        if bytes_are_rel(s.as_str().as_bytes()) {
            Ok(RelPath { s })
        } else {
            Err(CollabError::new("path is not relative"))
        }
    }

    /// The path's text.
    pub fn as_str(&self) -> (r: &str)
        ensures
            r@ == self@,
    {
        self.s.as_str()
    }

    /// Equality of two paths, usable under contracts.
    pub fn same(&self, other: &RelPath) -> (r: bool)
        ensures
            r == (self@ == other@),
    {
        self.s.eq(&other.s)
    }
}

} // verus!
