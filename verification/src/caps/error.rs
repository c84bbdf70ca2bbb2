//! Construction and attenuation errors.
use super::Interface;
use crate::text;
use vstd::prelude::*;

verus! {

/// Why construction or attenuation was refused.
#[derive(Debug, PartialEq, Eq)]
pub enum CapsError {
    /// A `files` or `dirs` entry was relative or contained `..`.
    NonCanonicalPath(Vec<u8>),
    /// Duplicate path, directory root, or authority.
    Duplicate(String),
    /// Grants present for an interface whose bit is clear.
    OrphanGrant(Interface),
    /// Requested set is not a subset of the parent.
    Escalation(String),
    /// Method name not among the six methods.
    UnknownMethod(String),
    /// Interface name not among the defined interfaces.
    UnknownInterface(String),
    /// Path or authority is not in the intern table.
    NotInterned(String),
}

/// A [`CapsError`] with its texts as character sequences.
pub ghost enum CapsFault {
    NonCanonicalPath(Seq<u8>),
    Duplicate(Seq<char>),
    OrphanGrant(Interface),
    Escalation(Seq<char>),
    UnknownMethod(Seq<char>),
    UnknownInterface(Seq<char>),
    NotInterned(Seq<char>),
}

impl View for CapsError {
    type V = CapsFault;

    open spec fn view(&self) -> CapsFault {
        match *self {
            CapsError::NonCanonicalPath(p) => CapsFault::NonCanonicalPath(p@),
            CapsError::Duplicate(s) => CapsFault::Duplicate(s@),
            CapsError::OrphanGrant(i) => CapsFault::OrphanGrant(i),
            CapsError::Escalation(s) => CapsFault::Escalation(s@),
            CapsError::UnknownMethod(s) => CapsFault::UnknownMethod(s@),
            CapsError::UnknownInterface(s) => CapsFault::UnknownInterface(s@),
            CapsError::NotInterned(s) => CapsFault::NotInterned(s@),
        }
    }
}

impl CapsFault {
    /// The message shown to people.
    pub open spec fn message(self) -> Seq<char> {
        match self {
            CapsFault::NonCanonicalPath(p) => "file grant path is not canonical: "@
                + text::lossy_text(p),
            CapsFault::Duplicate(s) => "duplicate grant: "@ + s,
            CapsFault::OrphanGrant(i) => "grants present for unlinked interface "@ + i.spec_name(),
            CapsFault::Escalation(s) => "requested set exceeds parent: "@ + s,
            CapsFault::UnknownMethod(s) => "unknown method: "@ + s,
            CapsFault::UnknownInterface(s) => "unknown interface: "@ + s,
            CapsFault::NotInterned(s) => "not interned: "@ + s,
        }
    }
}

impl CapsError {
    /// The message shown to people.
    pub fn message(&self) -> (r: String)
        ensures
            r@ == self@.message(),
    {
        match self {
            CapsError::NonCanonicalPath(p) => {
                let shown = text::string_from_utf8_lossy(p.as_slice());
                text::join("file grant path is not canonical: ", shown.as_str())
            },
            CapsError::Duplicate(s) => text::join("duplicate grant: ", s.as_str()),
            CapsError::OrphanGrant(i) => {
                text::join("grants present for unlinked interface ", i.name())
            },
            CapsError::Escalation(s) => text::join("requested set exceeds parent: ", s.as_str()),
            CapsError::UnknownMethod(s) => text::join("unknown method: ", s.as_str()),
            CapsError::UnknownInterface(s) => text::join("unknown interface: ", s.as_str()),
            CapsError::NotInterned(s) => text::join("not interned: ", s.as_str()),
        }
    }
}

} // verus!
