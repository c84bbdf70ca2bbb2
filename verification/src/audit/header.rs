//! Audit log file header.
use super::naming::{array16, array32};
use super::record::bytes_len_message;
use super::tags::{header_key, HEADER_VERSION};
use crate::cbor;
use crate::text;
use vstd::prelude::*;
use vstd::utf8::*;

verus! {

/// Log file header.
#[derive(Clone, Debug, PartialEq, Eq)]
pub struct FileHeader {
    pub version: u8,
    pub file_ulid: [u8; 16],
    pub gateway_id: String,
    pub prev_hash: [u8; 32],
}

/// What a [`FileHeader`] says.
pub ghost struct HeaderModel {
    pub version: u8,
    pub file_ulid: Seq<u8>,
    pub gateway_id: Seq<char>,
    pub prev_hash: Seq<u8>,
}

impl View for FileHeader {
    type V = HeaderModel;

    open spec fn view(&self) -> HeaderModel {
        HeaderModel {
            version: self.version,
            file_ulid: self.file_ulid@,
            gateway_id: self.gateway_id@,
            prev_hash: self.prev_hash@,
        }
    }
}

/// Why a header could not be read.
#[derive(Clone, Debug, PartialEq, Eq)]
pub enum HeaderError {
    Decode(String),
    Encode(String),
    MissingField(&'static str),
    UnsupportedVersion(u8),
    IndefiniteMap,
    BadBytesLen { expected: usize, got: usize },
}

/// A [`HeaderError`] with its texts as character sequences.
pub ghost enum HeaderFault {
    Decode(Seq<char>),
    Encode(Seq<char>),
    MissingField(Seq<char>),
    UnsupportedVersion(u8),
    IndefiniteMap,
    BadBytesLen { expected: nat, got: nat },
}

impl View for HeaderError {
    type V = HeaderFault;

    open spec fn view(&self) -> HeaderFault {
        match *self {
            HeaderError::Decode(s) => HeaderFault::Decode(s@),
            HeaderError::Encode(s) => HeaderFault::Encode(s@),
            HeaderError::MissingField(s) => HeaderFault::MissingField(s@),
            HeaderError::UnsupportedVersion(v) => HeaderFault::UnsupportedVersion(v),
            HeaderError::IndefiniteMap => HeaderFault::IndefiniteMap,
            HeaderError::BadBytesLen { expected, got } => HeaderFault::BadBytesLen {
                expected: expected as nat,
                got: got as nat,
            },
        }
    }
}

impl HeaderFault {
    /// The message shown to people.
    pub open spec fn message(self) -> Seq<char> {
        match self {
            HeaderFault::Decode(s) => "cbor decode: "@ + s,
            HeaderFault::Encode(s) => "cbor encode: "@ + s,
            HeaderFault::MissingField(s) => "missing field "@ + s,
            HeaderFault::UnsupportedVersion(v) => "unsupported header version "@ + text::decimal(
                v as nat,
            ),
            HeaderFault::IndefiniteMap => "indefinite-length map rejected"@,
            HeaderFault::BadBytesLen { expected, got } => "bytes length "@ + text::decimal(got)
                + ", expected "@ + text::decimal(expected),
        }
    }
}

impl HeaderError {
    /// The message shown to people.
    pub fn message(&self) -> (r: String)
        ensures
            r@ == self@.message(),
    {
        match self {
            HeaderError::Decode(s) => text::join("cbor decode: ", s.as_str()),
            HeaderError::Encode(s) => text::join("cbor encode: ", s.as_str()),
            HeaderError::MissingField(s) => text::join("missing field ", s),
            HeaderError::UnsupportedVersion(v) => text::join(
                "unsupported header version ",
                text::decimal_string(*v as u64).as_str(),
            ),
            HeaderError::IndefiniteMap => "indefinite-length map rejected".to_owned(),
            HeaderError::BadBytesLen { expected, got } => bytes_len_message(*expected, *got),
        }
    }
}

impl HeaderModel {
    /// The header in CBOR.
    pub open spec fn encoded(self) -> Seq<u8> {
        cbor::head(5, 4) + (cbor::uint(header_key::VERSION as nat) + (cbor::uint(
            self.version as nat,
        ) + (cbor::uint(header_key::FILE_ULID as nat) + (cbor::blob(self.file_ulid) + (cbor::uint(
            header_key::GATEWAY_ID as nat,
        ) + (cbor::text(self.gateway_id) + (cbor::uint(header_key::PREV_HASH as nat) + cbor::blob(
            self.prev_hash,
        ))))))))
    }

    /// The lengths of the fixed-size fields are right.
    pub open spec fn sized(self) -> bool {
        self.file_ulid.len() == 16 && self.prev_hash.len() == 32
    }
}

/// The fields read so far.
pub ghost struct PartialHeader {
    pub version: Option<u8>,
    pub file_ulid: Option<Seq<u8>>,
    pub gateway_id: Option<Seq<char>>,
    pub prev_hash: Option<Seq<u8>>,
}

impl PartialHeader {
    /// Nothing read yet.
    pub open spec fn nothing() -> PartialHeader {
        PartialHeader { version: None, file_ulid: None, gateway_id: None, prev_hash: None }
    }

    /// The header once all entries are read.
    pub open spec fn finished(self) -> Result<HeaderModel, HeaderFault> {
        if self.version is None {
            Err(HeaderFault::MissingField("version"@))
        } else if self.version->0 > HEADER_VERSION {
            Err(HeaderFault::UnsupportedVersion(self.version->0))
        } else if self.file_ulid is None {
            Err(HeaderFault::MissingField("file_ulid"@))
        } else if self.gateway_id is None {
            Err(HeaderFault::MissingField("gateway_id"@))
        } else if self.prev_hash is None {
            Err(HeaderFault::MissingField("prev_hash"@))
        } else {
            Ok(
                HeaderModel {
                    version: self.version->0,
                    file_ulid: self.file_ulid->0,
                    gateway_id: self.gateway_id->0,
                    prev_hash: self.prev_hash->0,
                },
            )
        }
    }
}

/// A byte string of exactly `n` bytes.
pub open spec fn get_fixed(b: Seq<u8>, pos: nat, n: nat) -> Result<(Seq<u8>, nat), HeaderFault> {
    match cbor::get_bytes(b, pos) {
        Ok((v, at)) => if v.len() == n {
            Ok((v, at))
        } else {
            Err(HeaderFault::BadBytesLen { expected: n, got: v.len() })
        },
        Err(m) => Err(HeaderFault::Decode(m)),
    }
}

/// `p` after the value under key `k` at a position. Unknown keys are skipped.
pub open spec fn with_value(b: Seq<u8>, pos: nat, k: u8, p: PartialHeader) -> Result<
    (PartialHeader, nat),
    HeaderFault,
> {
    if k == header_key::VERSION {
        match cbor::get_u8(b, pos) {
            Ok((v, at)) => Ok((PartialHeader { version: Some(v), ..p }, at)),
            Err(m) => Err(HeaderFault::Decode(m)),
        }
    } else if k == header_key::FILE_ULID {
        match get_fixed(b, pos, 16) {
            Ok((v, at)) => Ok((PartialHeader { file_ulid: Some(v), ..p }, at)),
            Err(f) => Err(f),
        }
    } else if k == header_key::GATEWAY_ID {
        match cbor::get_str(b, pos) {
            Ok((v, at)) => Ok((PartialHeader { gateway_id: Some(v), ..p }, at)),
            Err(m) => Err(HeaderFault::Decode(m)),
        }
    } else if k == header_key::PREV_HASH {
        match get_fixed(b, pos, 32) {
            Ok((v, at)) => Ok((PartialHeader { prev_hash: Some(v), ..p }, at)),
            Err(f) => Err(f),
        }
    } else {
        match cbor::get_skip(b, pos) {
            Ok(at) => Ok((p, at)),
            Err(m) => Err(HeaderFault::Decode(m)),
        }
    }
}

/// `p` after one map entry at a position.
pub open spec fn with_entry(b: Seq<u8>, pos: nat, p: PartialHeader) -> Result<
    (PartialHeader, nat),
    HeaderFault,
> {
    match cbor::get_u8(b, pos) {
        Ok((k, at)) => with_value(b, at, k, p),
        Err(m) => Err(HeaderFault::Decode(m)),
    }
}

/// What is read after `n` map entries from a position.
pub open spec fn after_entries(b: Seq<u8>, start: nat, n: nat) -> Result<
    (PartialHeader, nat),
    HeaderFault,
>
    decreases n,
{
    if n == 0 {
        Ok((PartialHeader::nothing(), start))
    } else {
        match after_entries(b, start, (n - 1) as nat) {
            Ok((p, pos)) => with_entry(b, pos, p),
            Err(f) => Err(f),
        }
    }
}

/// The header at the start of bytes and the position behind it, or why there
/// is none.
pub open spec fn decoded(b: Seq<u8>) -> Result<(HeaderModel, nat), HeaderFault> {
    match cbor::get_map(b, 0) {
        Err(m) => Err(HeaderFault::Decode(m)),
        Ok((None, _)) => Err(HeaderFault::IndefiniteMap),
        Ok((Some(n), at)) => match after_entries(b, at, n as nat) {
            Ok((p, end)) => match p.finished() {
                Ok(h) => Ok((h, end)),
                Err(f) => Err(f),
            },
            Err(f) => Err(f),
        },
    }
}

/// Once reading has failed it stays failed.
proof fn lemma_after_error(b: Seq<u8>, start: nat, k: nat, n: nat)
    requires
        k <= n,
        after_entries(b, start, k) is Err,
    ensures
        after_entries(b, start, n) == after_entries(b, start, k),
    decreases n,
{
    if k < n {
        lemma_after_error(b, start, k, (n - 1) as nat);
    }
}

proof fn lemma_entries_local(b: Seq<u8>, c: Seq<u8>, start: nat, n: nat, end: nat)
    requires
        cbor::agree(b, c, end),
        after_entries(b, start, n) is Ok,
        after_entries(b, start, n)->Ok_0.1 <= end,
    ensures
        start <= after_entries(b, start, n)->Ok_0.1,
        after_entries(c, start, n) == after_entries(b, start, n),
    decreases n,
{
    if n > 0 {
        let (p, pos) = after_entries(b, start, (n - 1) as nat)->Ok_0;
        let at = cbor::get_u8(b, pos)->Ok_0.1;
        if pos <= end {
            lemma_entries_local(b, c, start, (n - 1) as nat, end);
            cbor::lemma_head_local(b, c, pos, end);
            if at <= end {
                cbor::lemma_head_local(b, c, at, end);
                cbor::lemma_string_local(b, c, at, end);
                cbor::lemma_skip_local(b, c, at, end);
            } else {
                lemma_forward(b, at);
            }
        } else {
            lemma_forward(b, pos);
            lemma_forward(b, at);
        }
    }
}

/// What is read lies behind where reading starts.
proof fn lemma_forward(b: Seq<u8>, pos: nat)
    ensures
        cbor::get_u8(b, pos) matches Ok((_, at)) ==> pos < at,
        cbor::get_bytes(b, pos) matches Ok((_, at)) ==> pos < at,
        cbor::get_str(b, pos) matches Ok((_, at)) ==> pos < at,
        cbor::get_skip(b, pos) matches Ok(at) ==> pos <= at,
{
    if let Ok(at) = cbor::get_skip(b, pos) {
        assert(cbor::item_ends(b, pos, at));
    }
}

/// A header depends on nothing behind it.
pub proof fn lemma_header_local(b: Seq<u8>, c: Seq<u8>)
    requires
        decoded(b) is Ok,
        cbor::agree(b, c, decoded(b)->Ok_0.1),
    ensures
        decoded(c) == decoded(b),
{
    let end = decoded(b)->Ok_0.1;
    let (n, at) = cbor::get_map(b, 0)->Ok_0;
    cbor::lemma_head_local(b, c, 0, end);
    lemma_entries_local(b, c, at, n->0 as nat, end);
}

struct Fields {
    version: Option<u8>,
    file_ulid: Option<[u8; 16]>,
    gateway_id: Option<String>,
    prev_hash: Option<[u8; 32]>,
}

impl View for Fields {
    type V = PartialHeader;

    closed spec fn view(&self) -> PartialHeader {
        PartialHeader {
            version: self.version,
            file_ulid: super::record::opt16(self.file_ulid),
            gateway_id: match self.gateway_id {
                Some(s) => Some(s@),
                None => None,
            },
            prev_hash: super::record::opt32(self.prev_hash),
        }
    }
}

fn read_fixed(b: &[u8], pos: usize, n: usize) -> (r: Result<(Vec<u8>, usize), HeaderError>)
    requires
        pos <= b@.len(),
    ensures
        match (r, get_fixed(b@, pos as nat, n as nat)) {
            (Ok((v, end)), Ok((w, at))) => v@ == w && end == at && end <= b@.len() && v@.len() == n,
            (Err(e), Err(f)) => e@ == f,
            _ => false,
        },
{
    match cbor::read_bytes(b, pos) {
        Ok((v, at)) => {
            if v.len() != n {
                return Err(HeaderError::BadBytesLen { expected: n, got: v.len() });
            }
            Ok((v, at))
        },
        Err(m) => Err(HeaderError::Decode(m)),
    }
}

fn read_entry(b: &[u8], pos: usize, fields: &mut Fields) -> (r: Result<usize, HeaderError>)
    requires
        pos <= b@.len(),
    ensures
        match (r, with_entry(b@, pos as nat, old(fields)@)) {
            (Ok(end), Ok((p, at))) => final(fields)@ == p && end == at && end <= b@.len(),
            (Err(e), Err(f)) => e@ == f,
            _ => false,
        },
{
    let (key, at): (u8, usize) = match cbor::read_u8(b, pos) {
        Ok(v) => v,
        Err(m) => {
            return Err(HeaderError::Decode(m));
        },
    };
    if key == header_key::VERSION {
        match cbor::read_u8(b, at) {
            Ok((v, end)) => {
                fields.version = Some(v);
                Ok(end)
            },
            Err(m) => Err(HeaderError::Decode(m)),
        }
    } else if key == header_key::FILE_ULID {
        match read_fixed(b, at, 16) {
            Ok((v, end)) => {
                fields.file_ulid = Some(array16(v.as_slice()));
                Ok(end)
            },
            Err(e) => Err(e),
        }
    } else if key == header_key::GATEWAY_ID {
        match cbor::read_str(b, at) {
            Ok((v, end)) => {
                fields.gateway_id = Some(v);
                Ok(end)
            },
            Err(m) => Err(HeaderError::Decode(m)),
        }
    } else if key == header_key::PREV_HASH {
        match read_fixed(b, at, 32) {
            Ok((v, end)) => {
                fields.prev_hash = Some(array32(v.as_slice()));
                Ok(end)
            },
            Err(e) => Err(e),
        }
    } else {
        match cbor::step_over(b, at) {
            Ok(end) => Ok(end),
            Err(m) => Err(HeaderError::Decode(m)),
        }
    }
}

impl FileHeader {
    /// A header of the current version.
    #[must_use]
    pub fn new(file_ulid: [u8; 16], gateway_id: String, prev_hash: [u8; 32]) -> (r: FileHeader)
        ensures
            r@ == (HeaderModel {
                version: HEADER_VERSION,
                file_ulid: file_ulid@,
                gateway_id: gateway_id@,
                prev_hash: prev_hash@,
            }),
    {
        FileHeader { version: HEADER_VERSION, file_ulid, gateway_id, prev_hash }
    }

    /// The header in CBOR.
    pub fn encode_cbor(&self) -> (r: Result<Vec<u8>, HeaderError>)
        ensures
            r matches Ok(b) && b@ == self@.encoded(),
    {
        let mut out: Vec<u8> = Vec::new();
        cbor::put_map(&mut out, 4);
        cbor::put_u8(&mut out, header_key::VERSION);
        cbor::put_u8(&mut out, self.version);
        cbor::put_u8(&mut out, header_key::FILE_ULID);
        cbor::put_bytes(&mut out, self.file_ulid.as_slice());
        cbor::put_u8(&mut out, header_key::GATEWAY_ID);
        cbor::put_str(&mut out, self.gateway_id.as_str());
        cbor::put_u8(&mut out, header_key::PREV_HASH);
        cbor::put_bytes(&mut out, self.prev_hash.as_slice());
        assert(out@ =~= self@.encoded());
        Ok(out)
    }

    /// The header at the start of bytes and its length.
    pub fn decode_cbor(bytes: &[u8]) -> (r: Result<(FileHeader, usize), HeaderError>)
        ensures
            match (r, decoded(bytes@)) {
                (Ok((x, end)), Ok((m, at))) => x@ == m && end == at && end <= bytes@.len(),
                (Err(e), Err(f)) => e@ == f,
                _ => false,
            },
    {
        let (len, start): (u64, usize) = match cbor::read_map(bytes, 0) {
            Ok((Some(n), at)) => (n, at),
            Ok((None, _)) => {
                return Err(HeaderError::IndefiniteMap);
            },
            Err(m) => {
                return Err(HeaderError::Decode(m));
            },
        };
        let mut fields = Fields {
            version: None,
            file_ulid: None,
            gateway_id: None,
            prev_hash: None,
        };
        let mut pos: usize = start;
        let mut i: u64 = 0;
        while i < len
            invariant
                0 <= i <= len,
                pos <= bytes@.len(),
                cbor::get_map(bytes@, 0) == Ok::<(Option<u64>, nat), Seq<char>>(
                    (Some(len), start as nat),
                ),
                after_entries(bytes@, start as nat, i as nat) == Ok::<
                    (PartialHeader, nat),
                    HeaderFault,
                >((fields@, pos as nat)),
            decreases len - i,
        {
            match read_entry(bytes, pos, &mut fields) {
                Ok(at) => {
                    pos = at;
                },
                Err(e) => {
                    proof {
                        lemma_after_error(bytes@, start as nat, i as nat + 1, len as nat);
                    }
                    return Err(e);
                },
            }
            i += 1;
        }
        let version: u8 = match fields.version {
            Some(v) => v,
            None => {
                return Err(HeaderError::MissingField("version"));
            },
        };
        if version > HEADER_VERSION {
            return Err(HeaderError::UnsupportedVersion(version));
        }
        let file_ulid = match fields.file_ulid {
            Some(v) => v,
            None => {
                return Err(HeaderError::MissingField("file_ulid"));
            },
        };
        let gateway_id = match fields.gateway_id {
            Some(v) => v,
            None => {
                return Err(HeaderError::MissingField("gateway_id"));
            },
        };
        let prev_hash = match fields.prev_hash {
            Some(v) => v,
            None => {
                return Err(HeaderError::MissingField("prev_hash"));
            },
        };
        Ok((FileHeader { version, file_ulid, gateway_id, prev_hash }, pos))
    }
}

/// A header reads back from its encoding, whatever follows it.
pub proof fn header_round_trip(m: HeaderModel, rest: Seq<u8>)
    requires
        m.sized(),
        m.version <= HEADER_VERSION,
        encode_utf8(m.gateway_id).len() <= u64::MAX,
    ensures
        decoded(m.encoded() + rest) == Ok::<(HeaderModel, nat), HeaderFault>(
            (m, m.encoded().len()),
        ),
        m.encoded().len() > 0,
{
    let b = m.encoded() + rest;
    let h = cbor::head(5, 4);
    let v = cbor::uint(m.version as nat);
    let u = cbor::blob(m.file_ulid);
    let g = cbor::text(m.gateway_id);
    let p = cbor::blob(m.prev_hash);
    let k0 = cbor::uint(0);
    let k1 = cbor::uint(1);
    let k2 = cbor::uint(2);
    let k3 = cbor::uint(3);
    let r3 = k3 + (p + rest);
    let r2 = k2 + (g + r3);
    let r1 = k1 + (u + r2);
    let r0 = k0 + (v + r1);
    assert(cbor::from(b, 0) =~= h + r0);
    cbor::lemma_get_map(b, 0, 4, r0);
    let p0 = h.len();
    cbor::lemma_get_uint(b, p0, 0, v + r1);
    cbor::lemma_get_uint(b, p0 + k0.len(), m.version as nat, r1);
    let p1 = p0 + k0.len() + v.len();
    cbor::lemma_get_uint(b, p1, 1, u + r2);
    cbor::lemma_get_bytes(b, p1 + k1.len(), m.file_ulid, r2);
    let p2 = p1 + k1.len() + u.len();
    cbor::lemma_get_uint(b, p2, 2, g + r3);
    cbor::lemma_get_str(b, p2 + k2.len(), m.gateway_id, r3);
    let p3 = p2 + k2.len() + g.len();
    cbor::lemma_get_uint(b, p3, 3, p + rest);
    cbor::lemma_get_bytes(b, p3 + k3.len(), m.prev_hash, rest);
    let a0 = PartialHeader::nothing();
    let a1 = PartialHeader { version: Some(m.version), ..a0 };
    let a2 = PartialHeader { file_ulid: Some(m.file_ulid), ..a1 };
    let a3 = PartialHeader { gateway_id: Some(m.gateway_id), ..a2 };
    assert(after_entries(b, p0, 0) == Ok::<(PartialHeader, nat), HeaderFault>((a0, p0)));
    assert(after_entries(b, p0, 1) == Ok::<(PartialHeader, nat), HeaderFault>((a1, p1)));
    assert(after_entries(b, p0, 2) == Ok::<(PartialHeader, nat), HeaderFault>((a2, p2)));
    assert(after_entries(b, p0, 3) == Ok::<(PartialHeader, nat), HeaderFault>((a3, p3)));
    assert(after_entries(b, p0, 4) is Ok);
}

/// A header of a newer version is refused.
pub proof fn newer_headers_are_refused(p: PartialHeader)
    requires
        p.version matches Some(v) && v > 1,
    ensures
        p.finished() == Err::<HeaderModel, HeaderFault>(
            HeaderFault::UnsupportedVersion(p.version->0),
        ),
{
}

/// A header is whole: one that lacks a field is refused, and what is read has
/// the fields that were there.
pub proof fn headers_are_whole(p: PartialHeader)
    ensures
        p.finished() is Ok <==> p.version is Some && p.version->0 <= 1 && p.file_ulid is Some
            && p.gateway_id is Some && p.prev_hash is Some,
        p.finished() matches Ok(h) ==> Some(h.version) == p.version && Some(h.file_ulid)
            == p.file_ulid && Some(h.gateway_id) == p.gateway_id && Some(h.prev_hash)
            == p.prev_hash,
{
}

/// A header that is read has a known version, a ULID of sixteen bytes and a
/// hash of thirty-two.
pub proof fn read_headers_are_sized(b: Seq<u8>)
    requires
        decoded(b) is Ok,
    ensures
        decoded(b)->Ok_0.0.version <= 1,
        decoded(b)->Ok_0.0.file_ulid.len() == 16,
        decoded(b)->Ok_0.0.prev_hash.len() == 32,
{
    let (n, at) = cbor::get_map(b, 0)->Ok_0;
    lemma_entries_sized(b, at, n->0 as nat);
}

proof fn lemma_entries_sized(b: Seq<u8>, start: nat, n: nat)
    requires
        after_entries(b, start, n) is Ok,
    ensures
        after_entries(b, start, n)->Ok_0.0.file_ulid matches Some(u) ==> u.len() == 16,
        after_entries(b, start, n)->Ok_0.0.prev_hash matches Some(h) ==> h.len() == 32,
    decreases n,
{
    if n > 0 {
        lemma_entries_sized(b, start, (n - 1) as nat);
    }
}

/// A header is a map of four fields under the keys 0 to 3.
pub proof fn header_fields_have_these_keys(m: HeaderModel)
    ensures
        m.encoded() == seq![0xa4u8] + (seq![0u8] + (cbor::uint(m.version as nat) + (seq![1u8] + (
        cbor::blob(m.file_ulid) + (seq![2u8] + (cbor::text(m.gateway_id) + (seq![3u8] + cbor::blob(
            m.prev_hash,
        )))))))),
{
    assert(cbor::head(5, 4) =~= seq![0xa4u8]);
    assert(cbor::uint(0) =~= seq![0u8]);
    assert(cbor::uint(1) =~= seq![1u8]);
    assert(cbor::uint(2) =~= seq![2u8]);
    assert(cbor::uint(3) =~= seq![3u8]);
}

/// A header says its fields.
pub proof fn headers_say_their_fields(h: FileHeader)
    ensures
        h@.version == h.version,
        h@.file_ulid == h.file_ulid@,
        h@.gateway_id == h.gateway_id@,
        h@.prev_hash == h.prev_hash@,
{
}

} // verus!
