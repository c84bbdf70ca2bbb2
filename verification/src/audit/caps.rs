//! Content-addressed store of capability sets.
//!
//! Path: `<audit dir>/caps/<hex sha256>.cbor`. Content is deterministic CBOR of
//! the set with paths and authorities as texts (not intern ids):
//!
//! ```text
//! {
//!   "dirs":  [ { "mode": <text>, "path": <text> }, ... ],
//!   "files": [ { "mode": <text>, "path": <text> }, ... ],
//!   "hosts": [ { "authority": <text>, "methods": [<text>, ...] }, ... ],
//!   "interfaces": [<text>, ...],
//! }
//! ```
//!
//! Keys are in byte order, and grants are sorted by path or authority, so that
//! sets that grant the same give the same bytes whatever their intern ids.
use crate::caps::{FileMode, Interface, Method};
use crate::text;
use vstd::prelude::*;

pub mod decoding;
pub mod encoding;
pub mod laws;
pub mod store;
pub mod view;

pub use decoding::decode_capability_set;
pub use encoding::encode_capability_set;
pub use store::CapsStore;
pub use view::capability_set_to_json;

verus! {

/// Why a set could not be encoded, read or stored.
#[derive(Clone, Debug, PartialEq, Eq)]
pub enum CapsStoreError {
    Io(String),
    Encode(String),
    Decode(String),
    NonUtf8Path(String),
    UnresolvedId(String),
    UnknownInterface(String),
    UnknownMode(String),
    UnknownMethod(String),
    ContentConflict { hash: String, path: String },
    HashMismatch { expected: String, actual: String },
    Indefinite,
    Structure(String),
}

/// A [`CapsStoreError`] with its texts as character sequences.
pub ghost enum CapsStoreFault {
    Io(Seq<char>),
    Encode(Seq<char>),
    Decode(Seq<char>),
    NonUtf8Path(Seq<char>),
    UnresolvedId(Seq<char>),
    UnknownInterface(Seq<char>),
    UnknownMode(Seq<char>),
    UnknownMethod(Seq<char>),
    ContentConflict { hash: Seq<char>, path: Seq<char> },
    HashMismatch { expected: Seq<char>, actual: Seq<char> },
    Indefinite,
    Structure(Seq<char>),
}

impl View for CapsStoreError {
    type V = CapsStoreFault;

    open spec fn view(&self) -> CapsStoreFault {
        match *self {
            CapsStoreError::Io(s) => CapsStoreFault::Io(s@),
            CapsStoreError::Encode(s) => CapsStoreFault::Encode(s@),
            CapsStoreError::Decode(s) => CapsStoreFault::Decode(s@),
            CapsStoreError::NonUtf8Path(s) => CapsStoreFault::NonUtf8Path(s@),
            CapsStoreError::UnresolvedId(s) => CapsStoreFault::UnresolvedId(s@),
            CapsStoreError::UnknownInterface(s) => CapsStoreFault::UnknownInterface(s@),
            CapsStoreError::UnknownMode(s) => CapsStoreFault::UnknownMode(s@),
            CapsStoreError::UnknownMethod(s) => CapsStoreFault::UnknownMethod(s@),
            CapsStoreError::ContentConflict { hash, path } => CapsStoreFault::ContentConflict {
                hash: hash@,
                path: path@,
            },
            CapsStoreError::HashMismatch { expected, actual } => CapsStoreFault::HashMismatch {
                expected: expected@,
                actual: actual@,
            },
            CapsStoreError::Indefinite => CapsStoreFault::Indefinite,
            CapsStoreError::Structure(s) => CapsStoreFault::Structure(s@),
        }
    }
}

impl CapsStoreFault {
    /// The message shown to people.
    pub open spec fn message(self) -> Seq<char> {
        match self {
            CapsStoreFault::Io(s) => "io: "@ + s,
            CapsStoreFault::Encode(s) => "cbor encode: "@ + s,
            CapsStoreFault::Decode(s) => "cbor decode: "@ + s,
            CapsStoreFault::NonUtf8Path(s) => "path is not utf-8: "@ + s,
            CapsStoreFault::UnresolvedId(s) =>
                "intern id not resolvable (CapabilitySet missing Interner binding): "@ + s,
            CapsStoreFault::UnknownInterface(s) => "unknown interface wire name: "@ + s,
            CapsStoreFault::UnknownMode(s) => "unknown file mode wire name: "@ + s,
            CapsStoreFault::UnknownMethod(s) => "unknown method wire name: "@ + s,
            CapsStoreFault::ContentConflict { hash, path } =>
                "caps side file already exists with different content for hash "@ + hash + " at "@
                + path,
            CapsStoreFault::HashMismatch { expected, actual } =>
                "caps side file hash mismatch: expected "@ + expected + ", content hashes to "@
                + actual,
            CapsStoreFault::Indefinite => "indefinite-length CBOR rejected"@,
            CapsStoreFault::Structure(s) => "unexpected CBOR structure: "@ + s,
        }
    }
}

impl CapsStoreError {
    /// The message shown to people.
    pub fn message(&self) -> (r: String)
        ensures
            r@ == self@.message(),
    {
        match self {
            CapsStoreError::Io(s) => text::join("io: ", s.as_str()),
            CapsStoreError::Encode(s) => text::join("cbor encode: ", s.as_str()),
            CapsStoreError::Decode(s) => text::join("cbor decode: ", s.as_str()),
            CapsStoreError::NonUtf8Path(s) => text::join("path is not utf-8: ", s.as_str()),
            CapsStoreError::UnresolvedId(s) => text::join(
                "intern id not resolvable (CapabilitySet missing Interner binding): ",
                s.as_str(),
            ),
            CapsStoreError::UnknownInterface(s) => text::join(
                "unknown interface wire name: ",
                s.as_str(),
            ),
            CapsStoreError::UnknownMode(s) => text::join(
                "unknown file mode wire name: ",
                s.as_str(),
            ),
            CapsStoreError::UnknownMethod(s) => text::join(
                "unknown method wire name: ",
                s.as_str(),
            ),
            CapsStoreError::ContentConflict { hash, path } => {
                let mut s = text::join3(
                    "caps side file already exists with different content for hash ",
                    hash.as_str(),
                    " at ",
                );
                s.append(path.as_str());
                s
            },
            CapsStoreError::HashMismatch { expected, actual } => {
                let mut s = text::join3(
                    "caps side file hash mismatch: expected ",
                    expected.as_str(),
                    ", content hashes to ",
                );
                s.append(actual.as_str());
                s
            },
            CapsStoreError::Indefinite => "indefinite-length CBOR rejected".to_owned(),
            CapsStoreError::Structure(s) => text::join("unexpected CBOR structure: ", s.as_str()),
        }
    }
}

/// The wire name of an interface.
pub open spec fn interface_text(i: Interface) -> Seq<char> {
    match i {
        Interface::Stdio => "stdio"@,
        Interface::Clocks => "clocks"@,
        Interface::Random => "random"@,
        Interface::Filesystem => "filesystem"@,
        Interface::HttpOutbound => "http_outbound"@,
    }
}

/// The wire name of a mode.
pub open spec fn mode_text(m: FileMode) -> Seq<char> {
    match m {
        FileMode::Read => "read"@,
        FileMode::ReadWrite => "read_write"@,
    }
}

/// The wire name of a method.
pub open spec fn method_text(m: Method) -> Seq<char> {
    match m {
        Method::Get => "GET"@,
        Method::Head => "HEAD"@,
        Method::Post => "POST"@,
        Method::Put => "PUT"@,
        Method::Patch => "PATCH"@,
        Method::Delete => "DELETE"@,
    }
}

/// The interface with this wire name.
pub open spec fn interface_named(s: Seq<char>) -> Option<Interface> {
    if s == "stdio"@ {
        Some(Interface::Stdio)
    } else if s == "clocks"@ {
        Some(Interface::Clocks)
    } else if s == "random"@ {
        Some(Interface::Random)
    } else if s == "filesystem"@ {
        Some(Interface::Filesystem)
    } else if s == "http_outbound"@ {
        Some(Interface::HttpOutbound)
    } else {
        None
    }
}

/// The mode with this wire name.
pub open spec fn mode_named(s: Seq<char>) -> Option<FileMode> {
    if s == "read"@ {
        Some(FileMode::Read)
    } else if s == "read_write"@ {
        Some(FileMode::ReadWrite)
    } else {
        None
    }
}

/// The method with this wire name.
pub open spec fn method_named(s: Seq<char>) -> Option<Method> {
    if s == "GET"@ {
        Some(Method::Get)
    } else if s == "HEAD"@ {
        Some(Method::Head)
    } else if s == "POST"@ {
        Some(Method::Post)
    } else if s == "PUT"@ {
        Some(Method::Put)
    } else if s == "PATCH"@ {
        Some(Method::Patch)
    } else if s == "DELETE"@ {
        Some(Method::Delete)
    } else {
        None
    }
}

/// Wire names read back.
pub proof fn names_round_trip(i: Interface, f: FileMode, m: Method)
    ensures
        interface_named(interface_text(i)) == Some(i),
        mode_named(mode_text(f)) == Some(f),
        method_named(method_text(m)) == Some(m),
{
    reveal_strlit("stdio");
    reveal_strlit("clocks");
    reveal_strlit("random");
    reveal_strlit("filesystem");
    reveal_strlit("http_outbound");
    reveal_strlit("read");
    reveal_strlit("read_write");
    reveal_strlit("GET");
    reveal_strlit("HEAD");
    reveal_strlit("POST");
    reveal_strlit("PUT");
    reveal_strlit("PATCH");
    reveal_strlit("DELETE");
    assert("stdio"@.len() == 5 && "clocks"@.len() == 6 && "random"@.len() == 6);
    assert("filesystem"@.len() == 10 && "http_outbound"@.len() == 13);
    assert("clocks"@[0] == 'c' && "random"@[0] == 'r');
    assert("read"@.len() == 4 && "read_write"@.len() == 10);
    assert("GET"@.len() == 3 && "PUT"@.len() == 3 && "HEAD"@.len() == 4 && "POST"@.len() == 4);
    assert("PATCH"@.len() == 5 && "DELETE"@.len() == 6);
    assert("GET"@[0] == 'G' && "PUT"@[0] == 'P' && "HEAD"@[0] == 'H' && "POST"@[0] == 'P');
}

/// The wire name of an interface.
pub fn interface_name(i: Interface) -> (r: &'static str)
    ensures
        r@ == interface_text(i),
{
    match i {
        Interface::Stdio => "stdio",
        Interface::Clocks => "clocks",
        Interface::Random => "random",
        Interface::Filesystem => "filesystem",
        Interface::HttpOutbound => "http_outbound",
    }
}

/// The wire name of a mode.
pub fn mode_name(m: FileMode) -> (r: &'static str)
    ensures
        r@ == mode_text(m),
{
    match m {
        FileMode::Read => "read",
        FileMode::ReadWrite => "read_write",
    }
}

/// The wire name of a method.
pub fn method_name(m: Method) -> (r: &'static str)
    ensures
        r@ == method_text(m),
{
    match m {
        Method::Get => "GET",
        Method::Head => "HEAD",
        Method::Post => "POST",
        Method::Put => "PUT",
        Method::Patch => "PATCH",
        Method::Delete => "DELETE",
    }
}

/// The interface with this wire name.
pub fn parse_interface(name: &str) -> (r: Result<Interface, CapsStoreError>)
    ensures
        match r {
            Ok(i) => interface_named(name@) == Some(i),
            Err(e) => interface_named(name@) is None && e@ == CapsStoreFault::UnknownInterface(
                name@,
            ),
        },
{
    if text::str_eq(name, "stdio") {
        Ok(Interface::Stdio)
    } else if text::str_eq(name, "clocks") {
        Ok(Interface::Clocks)
    } else if text::str_eq(name, "random") {
        Ok(Interface::Random)
    } else if text::str_eq(name, "filesystem") {
        Ok(Interface::Filesystem)
    } else if text::str_eq(name, "http_outbound") {
        Ok(Interface::HttpOutbound)
    } else {
        Err(CapsStoreError::UnknownInterface(name.to_owned()))
    }
}

/// The mode with this wire name.
pub fn parse_mode(name: &str) -> (r: Result<FileMode, CapsStoreError>)
    ensures
        match r {
            Ok(m) => mode_named(name@) == Some(m),
            Err(e) => mode_named(name@) is None && e@ == CapsStoreFault::UnknownMode(name@),
        },
{
    if text::str_eq(name, "read") {
        Ok(FileMode::Read)
    } else if text::str_eq(name, "read_write") {
        Ok(FileMode::ReadWrite)
    } else {
        Err(CapsStoreError::UnknownMode(name.to_owned()))
    }
}

/// The method with this wire name.
pub fn parse_method(name: &str) -> (r: Result<Method, CapsStoreError>)
    ensures
        match r {
            Ok(m) => method_named(name@) == Some(m),
            Err(e) => method_named(name@) is None && e@ == CapsStoreFault::UnknownMethod(name@),
        },
{
    if text::str_eq(name, "GET") {
        Ok(Method::Get)
    } else if text::str_eq(name, "HEAD") {
        Ok(Method::Head)
    } else if text::str_eq(name, "POST") {
        Ok(Method::Post)
    } else if text::str_eq(name, "PUT") {
        Ok(Method::Put)
    } else if text::str_eq(name, "PATCH") {
        Ok(Method::Patch)
    } else if text::str_eq(name, "DELETE") {
        Ok(Method::Delete)
    } else {
        Err(CapsStoreError::UnknownMethod(name.to_owned()))
    }
}

/// A wire name is read only as what it is the name of.
pub proof fn names_read_as_nothing_else(s: Seq<char>)
    ensures
        interface_named(s) matches Some(i) ==> interface_text(i) == s,
        mode_named(s) matches Some(m) ==> mode_text(m) == s,
        method_named(s) matches Some(m) ==> method_text(m) == s,
{
}

/// The wire names.
pub proof fn wire_names_are_these()
    ensures
        interface_text(Interface::Stdio) == "stdio"@,
        interface_text(Interface::Clocks) == "clocks"@,
        interface_text(Interface::Random) == "random"@,
        interface_text(Interface::Filesystem) == "filesystem"@,
        interface_text(Interface::HttpOutbound) == "http_outbound"@,
        mode_text(FileMode::Read) == "read"@,
        mode_text(FileMode::ReadWrite) == "read_write"@,
        method_text(Method::Get) == "GET"@,
        method_text(Method::Head) == "HEAD"@,
        method_text(Method::Post) == "POST"@,
        method_text(Method::Put) == "PUT"@,
        method_text(Method::Patch) == "PATCH"@,
        method_text(Method::Delete) == "DELETE"@,
{
}

} // verus!
