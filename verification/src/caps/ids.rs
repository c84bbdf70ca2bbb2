//! Identity, digest, request id, and interface bit names.
use vstd::prelude::*;

verus! {

/// The thumbprint of an agent's Ed25519 public key, as raw bytes.
#[derive(Clone, Copy, PartialEq, Eq, Hash, Debug)]
pub struct Identity([u8; 32]);

impl View for Identity {
    type V = Seq<u8>;

    closed spec fn view(&self) -> Seq<u8> {
        self.0@
    }
}

impl Identity {
    /// Construct from a raw 32-byte thumbprint.
    #[must_use]
    pub fn from_bytes(bytes: [u8; 32]) -> (r: Identity)
        ensures
            r@ == bytes@,
    {
        Identity(bytes)
    }

    /// Raw 32-byte thumbprint.
    #[must_use]
    pub fn as_bytes(&self) -> (r: &[u8; 32])
        ensures
            r@ == self@,
    {
        &self.0
    }
}

/// SHA-256 of the bytes of a WebAssembly component.
#[derive(Clone, Copy, PartialEq, Eq, Hash, Debug)]
pub struct ToolDigest([u8; 32]);

impl View for ToolDigest {
    type V = Seq<u8>;

    closed spec fn view(&self) -> Seq<u8> {
        self.0@
    }
}

impl ToolDigest {
    /// Construct from a raw 32-byte digest.
    #[must_use]
    pub fn from_bytes(bytes: [u8; 32]) -> (r: ToolDigest)
        ensures
            r@ == bytes@,
    {
        ToolDigest(bytes)
    }

    /// Raw 32-byte digest.
    #[must_use]
    pub fn as_bytes(&self) -> (r: &[u8; 32])
        ensures
            r@ == self@,
    {
        &self.0
    }
}

/// ULID of an invocation. Written as a 26-character Crockford base32 string.
#[derive(Clone, Copy, PartialEq, Eq, Structural, Hash, Debug)]
pub struct RequestId(u128);

impl View for RequestId {
    type V = u128;

    closed spec fn view(&self) -> u128 {
        self.0
    }
}

impl RequestId {
    /// Construct from a raw ULID `u128`.
    #[must_use]
    pub fn from_u128(value: u128) -> (r: RequestId)
        ensures
            r@ == value,
    {
        RequestId(value)
    }

    /// Raw ULID as `u128`.
    #[must_use]
    pub fn as_u128(self) -> (r: u128)
        ensures
            r == self@,
    {
        self.0
    }
}

/// Bit positions in a capability set's interfaces bitset. Append-only; never
/// renumber.
#[derive(Clone, Copy, PartialEq, Eq, Structural, Debug)]
pub enum Interface {
    /// wasi:cli stdin/stdout/stderr
    Stdio,
    /// wasi:clocks monotonic and wall
    Clocks,
    /// wasi:random
    Random,
    /// wasi:filesystem, scoped by `files` and `dirs`
    Filesystem,
    /// wasi:http outgoing-handler, scoped by `hosts`
    HttpOutbound,
}

impl Interface {
    /// The bit of this interface.
    pub open spec fn spec_bit(self) -> u64 {
        match self {
            Interface::Stdio => 1,
            Interface::Clocks => 2,
            Interface::Random => 4,
            Interface::Filesystem => 8,
            Interface::HttpOutbound => 16,
        }
    }

    /// Bit mask for this interface in the internal `u64` bitset.
    #[must_use]
    pub fn bit(self) -> (r: u64)
        ensures
            r == self.spec_bit(),
    {
        match self {
            Interface::Stdio => 1,
            Interface::Clocks => 2,
            Interface::Random => 4,
            Interface::Filesystem => 8,
            Interface::HttpOutbound => 16,
        }
    }

    /// The variant's name.
    pub open spec fn spec_name(self) -> Seq<char> {
        match self {
            Interface::Stdio => "Stdio"@,
            Interface::Clocks => "Clocks"@,
            Interface::Random => "Random"@,
            Interface::Filesystem => "Filesystem"@,
            Interface::HttpOutbound => "HttpOutbound"@,
        }
    }

    /// The variant's name.
    pub fn name(self) -> (r: &'static str)
        ensures
            r@ == self.spec_name(),
    {
        match self {
            Interface::Stdio => "Stdio",
            Interface::Clocks => "Clocks",
            Interface::Random => "Random",
            Interface::Filesystem => "Filesystem",
            Interface::HttpOutbound => "HttpOutbound",
        }
    }
}

/// Each interface keeps its bit and its name.
pub proof fn interfaces_keep_their_bits(i: Interface)
    ensures
        i.spec_bit() == 1 <==> i is Stdio,
        i.spec_bit() == 2 <==> i is Clocks,
        i.spec_bit() == 4 <==> i is Random,
        i.spec_bit() == 8 <==> i is Filesystem,
        i.spec_bit() == 16 <==> i is HttpOutbound,
        i is Stdio ==> i.spec_name() == "Stdio"@,
        i is Clocks ==> i.spec_name() == "Clocks"@,
        i is Random ==> i.spec_name() == "Random"@,
        i is Filesystem ==> i.spec_name() == "Filesystem"@,
        i is HttpOutbound ==> i.spec_name() == "HttpOutbound"@,
{
}

} // verus!
