//! Witness objects: chain heads kept off the host.
//!
//! Body: `{ version, gateway_id, file_ulid, sequence, head_hash, wall_time_ns }`
//! as deterministic CBOR (integer keys 0 to 5). Object key:
//! `<gateway_id>/<file_ulid>/<sequence:020>`.
use super::export::WitnessAttrs;
use super::naming::{array16, array32, encode_ulid_bytes, hex_encode};
use super::retention::{RetentionEntry, RetentionModel};
use super::tags::HEADER_VERSION;
use crate::cbor;
use crate::json;
use crate::json::{Json, JsonModel};
use crate::text;
use vstd::prelude::*;
use vstd::utf8::*;

pub mod witness_key;

verus! {

/// One witnessed chain head.
#[derive(Clone, Debug, PartialEq, Eq)]
pub struct Witness {
    pub version: u8,
    pub gateway_id: String,
    pub file_ulid: [u8; 16],
    pub sequence: u64,
    pub head_hash: [u8; 32],
    pub wall_time_ns: u64,
}

/// What a [`Witness`] says.
pub ghost struct WitnessModel {
    pub version: u8,
    pub gateway_id: Seq<char>,
    pub file_ulid: Seq<u8>,
    pub sequence: u64,
    pub head_hash: Seq<u8>,
    pub wall_time_ns: u64,
}

impl View for Witness {
    type V = WitnessModel;

    open spec fn view(&self) -> WitnessModel {
        WitnessModel {
            version: self.version,
            gateway_id: self.gateway_id@,
            file_ulid: self.file_ulid@,
            sequence: self.sequence,
            head_hash: self.head_hash@,
            wall_time_ns: self.wall_time_ns,
        }
    }
}

/// Why a witness could not be written or read.
#[derive(Clone, Debug, PartialEq, Eq)]
pub enum WitnessError {
    Encode(String),
    Decode(String),
}

/// A [`WitnessError`] with its texts as character sequences.
pub ghost enum WitnessFault {
    Encode(Seq<char>),
    Decode(Seq<char>),
}

impl View for WitnessError {
    type V = WitnessFault;

    open spec fn view(&self) -> WitnessFault {
        match *self {
            WitnessError::Encode(s) => WitnessFault::Encode(s@),
            WitnessError::Decode(s) => WitnessFault::Decode(s@),
        }
    }
}

impl WitnessFault {
    /// The message shown to people.
    pub open spec fn message(self) -> Seq<char> {
        match self {
            WitnessFault::Encode(s) => "cbor encode: "@ + s,
            WitnessFault::Decode(s) => "cbor decode: "@ + s,
        }
    }
}

impl WitnessError {
    /// The message shown to people.
    pub fn message(&self) -> (r: String)
        ensures
            r@ == self@.message(),
    {
        match self {
            WitnessError::Encode(s) => text::join("cbor encode: ", s.as_str()),
            WitnessError::Decode(s) => text::join("cbor decode: ", s.as_str()),
        }
    }
}

/// `<gateway_id>/<file_ulid>/<sequence:020>`.
pub open spec fn witness_name(gateway_id: Seq<char>, file_ulid: Seq<u8>, sequence: u64) -> Seq<
    char,
> {
    gateway_id + "/"@ + super::naming::ulid_text(file_ulid) + "/"@ + text::padded_decimal(
        sequence as nat,
        20,
    )
}

/// `<gateway_id>/<file_ulid>/retention`.
pub open spec fn retention_name(gateway_id: Seq<char>, file_ulid: Seq<u8>) -> Seq<char> {
    gateway_id + "/"@ + super::naming::ulid_text(file_ulid) + "/retention"@
}

impl WitnessModel {
    /// The value under map key `k`.
    pub open spec fn value(self, k: nat) -> Seq<u8> {
        if k == witness_key::VERSION {
            cbor::uint(self.version as nat)
        } else if k == witness_key::GATEWAY_ID {
            cbor::text(self.gateway_id)
        } else if k == witness_key::FILE_ULID {
            cbor::blob(self.file_ulid)
        } else if k == witness_key::SEQUENCE {
            cbor::uint(self.sequence as nat)
        } else if k == witness_key::HEAD_HASH {
            cbor::blob(self.head_hash)
        } else {
            cbor::uint(self.wall_time_ns as nat)
        }
    }

    /// The entries from key `k` on, keys ascending.
    pub open spec fn entries(self, k: nat) -> Seq<u8>
        decreases 6 - k,
    {
        if k >= 6 {
            Seq::empty()
        } else {
            cbor::uint(k) + (self.value(k) + self.entries(k + 1))
        }
    }

    /// The witness in CBOR: a map of all six keys, ascending.
    pub open spec fn encoded(self) -> Seq<u8> {
        cbor::head(5, 6) + self.entries(0)
    }

    /// The lengths of the fixed-size fields are right.
    pub open spec fn sized(self) -> bool {
        self.file_ulid.len() == 16 && self.head_hash.len() == 32
    }

    /// The witness as a JSON object.
    pub open spec fn json(self) -> JsonModel {
        JsonModel::Object(
            map![
                "version"@ => JsonModel::Number(self.version as int),
                "gateway_id"@ => JsonModel::Text(self.gateway_id),
                "file_ulid"@ => JsonModel::Text(super::naming::ulid_text(self.file_ulid)),
                "sequence"@ => JsonModel::Number(self.sequence as int),
                "head_hash"@ => JsonModel::Text(super::naming::hex(self.head_hash)),
                "wall_time_ns"@ => JsonModel::Number(self.wall_time_ns as int),
            ],
        )
    }
}

/// The fields read so far.
pub ghost struct PartialWitness {
    pub version: Option<u8>,
    pub gateway_id: Option<Seq<char>>,
    pub file_ulid: Option<Seq<u8>>,
    pub sequence: Option<u64>,
    pub head_hash: Option<Seq<u8>>,
    pub wall_time_ns: Option<u64>,
}

impl PartialWitness {
    /// Nothing read yet.
    pub open spec fn nothing() -> PartialWitness {
        PartialWitness {
            version: None,
            gateway_id: None,
            file_ulid: None,
            sequence: None,
            head_hash: None,
            wall_time_ns: None,
        }
    }

    /// The witness once all entries are read.
    pub open spec fn finished(self) -> Result<WitnessModel, WitnessFault> {
        if self.version is None {
            Err(WitnessFault::Decode("missing version"@))
        } else if self.gateway_id is None {
            Err(WitnessFault::Decode("missing gateway_id"@))
        } else if self.file_ulid is None {
            Err(WitnessFault::Decode("missing file_ulid"@))
        } else if self.sequence is None {
            Err(WitnessFault::Decode("missing sequence"@))
        } else if self.head_hash is None {
            Err(WitnessFault::Decode("missing head_hash"@))
        } else if self.wall_time_ns is None {
            Err(WitnessFault::Decode("missing wall_time_ns"@))
        } else {
            Ok(
                WitnessModel {
                    version: self.version->0,
                    gateway_id: self.gateway_id->0,
                    file_ulid: self.file_ulid->0,
                    sequence: self.sequence->0,
                    head_hash: self.head_hash->0,
                    wall_time_ns: self.wall_time_ns->0,
                },
            )
        }
    }
}

/// A byte string of exactly `n` bytes; `what` is said of any other length.
pub open spec fn get_fixed(b: Seq<u8>, pos: nat, n: nat, what: Seq<char>) -> Result<
    (Seq<u8>, nat),
    WitnessFault,
> {
    match cbor::get_bytes(b, pos) {
        Ok((v, at)) => if v.len() == n {
            Ok((v, at))
        } else {
            Err(WitnessFault::Decode(what))
        },
        Err(m) => Err(WitnessFault::Decode(m)),
    }
}

/// `p` after the value under key `k` at a position. Unknown keys are skipped.
#[verifier::opaque]
pub open spec fn with_value(b: Seq<u8>, pos: nat, k: u8, p: PartialWitness) -> Result<
    (PartialWitness, nat),
    WitnessFault,
> {
    if k == witness_key::VERSION {
        match cbor::get_u8(b, pos) {
            Ok((v, at)) => Ok((PartialWitness { version: Some(v), ..p }, at)),
            Err(m) => Err(WitnessFault::Decode(m)),
        }
    } else if k == witness_key::GATEWAY_ID {
        match cbor::get_str(b, pos) {
            Ok((v, at)) => Ok((PartialWitness { gateway_id: Some(v), ..p }, at)),
            Err(m) => Err(WitnessFault::Decode(m)),
        }
    } else if k == witness_key::FILE_ULID {
        match get_fixed(b, pos, 16, "file_ulid len"@) {
            Ok((v, at)) => Ok((PartialWitness { file_ulid: Some(v), ..p }, at)),
            Err(f) => Err(f),
        }
    } else if k == witness_key::SEQUENCE {
        match cbor::get_u64(b, pos) {
            Ok((v, at)) => Ok((PartialWitness { sequence: Some(v), ..p }, at)),
            Err(m) => Err(WitnessFault::Decode(m)),
        }
    } else if k == witness_key::HEAD_HASH {
        match get_fixed(b, pos, 32, "head_hash len"@) {
            Ok((v, at)) => Ok((PartialWitness { head_hash: Some(v), ..p }, at)),
            Err(f) => Err(f),
        }
    } else if k == witness_key::WALL_TIME_NS {
        match cbor::get_u64(b, pos) {
            Ok((v, at)) => Ok((PartialWitness { wall_time_ns: Some(v), ..p }, at)),
            Err(m) => Err(WitnessFault::Decode(m)),
        }
    } else {
        match cbor::get_skip(b, pos) {
            Ok(at) => Ok((p, at)),
            Err(m) => Err(WitnessFault::Decode(m)),
        }
    }
}

/// `p` after one map entry at a position.
pub open spec fn with_entry(b: Seq<u8>, pos: nat, p: PartialWitness) -> Result<
    (PartialWitness, nat),
    WitnessFault,
> {
    match cbor::get_u8(b, pos) {
        Ok((k, at)) => with_value(b, at, k, p),
        Err(m) => Err(WitnessFault::Decode(m)),
    }
}

/// What is read after `n` map entries from a position.
pub open spec fn after_entries(b: Seq<u8>, start: nat, n: nat) -> Result<
    (PartialWitness, nat),
    WitnessFault,
>
    decreases n,
{
    if n == 0 {
        Ok((PartialWitness::nothing(), start))
    } else {
        match after_entries(b, start, (n - 1) as nat) {
            Ok((p, pos)) => with_entry(b, pos, p),
            Err(f) => Err(f),
        }
    }
}

/// The witness at the start of bytes, or why there is none. What follows it is
/// not looked at.
pub open spec fn decoded(b: Seq<u8>) -> Result<WitnessModel, WitnessFault> {
    match cbor::get_map(b, 0) {
        Err(m) => Err(WitnessFault::Decode(m)),
        Ok((None, _)) => Err(WitnessFault::Decode("indefinite map"@)),
        Ok((Some(n), at)) => match after_entries(b, at, n as nat) {
            Ok((p, end)) => p.finished(),
            Err(f) => Err(f),
        },
    }
}

/// Once reading has failed it stays failed.
proof fn lemma_after_error(b: Seq<u8>, start: nat, k: nat, n: nat)
    requires
        k <= n,
        after_entries(b, start, k) is Err,
    ensures
        after_entries(b, start, n) == after_entries(b, start, k),
    decreases n,
{
    if k < n {
        lemma_after_error(b, start, k, (n - 1) as nat);
    }
}

struct Fields {
    version: Option<u8>,
    gateway_id: Option<String>,
    file_ulid: Option<[u8; 16]>,
    sequence: Option<u64>,
    head_hash: Option<[u8; 32]>,
    wall_time_ns: Option<u64>,
}

impl View for Fields {
    type V = PartialWitness;

    closed spec fn view(&self) -> PartialWitness {
        PartialWitness {
            version: self.version,
            gateway_id: match self.gateway_id {
                Some(s) => Some(s@),
                None => None,
            },
            file_ulid: super::record::opt16(self.file_ulid),
            sequence: self.sequence,
            head_hash: super::record::opt32(self.head_hash),
            wall_time_ns: self.wall_time_ns,
        }
    }
}

fn read_fixed(b: &[u8], pos: usize, n: usize, what: &str) -> (r: Result<
    (Vec<u8>, usize),
    WitnessError,
>)
    requires
        pos <= b@.len(),
    ensures
        match (r, get_fixed(b@, pos as nat, n as nat, what@)) {
            (Ok((v, end)), Ok((w, at))) => v@ == w && end == at && end <= b@.len() && v@.len() == n,
            (Err(e), Err(f)) => e@ == f,
            _ => false,
        },
{
    match cbor::read_bytes(b, pos) {
        Ok((v, at)) => {
            if v.len() != n {
                return Err(WitnessError::Decode(what.to_owned()));
            }
            Ok((v, at))
        },
        Err(m) => Err(WitnessError::Decode(m)),
    }
}

fn read_entry(b: &[u8], pos: usize, fields: &mut Fields) -> (r: Result<usize, WitnessError>)
    requires
        pos <= b@.len(),
    ensures
        match (r, with_entry(b@, pos as nat, old(fields)@)) {
            (Ok(end), Ok((p, at))) => final(fields)@ == p && end == at && end <= b@.len(),
            (Err(e), Err(f)) => e@ == f,
            _ => false,
        },
{
    let (key, at): (u8, usize) = match cbor::read_u8(b, pos) {
        Ok(v) => v,
        Err(m) => {
            return Err(WitnessError::Decode(m));
        },
    };
    proof {
        reveal(with_value);
    }
    if key == witness_key::VERSION {
        match cbor::read_u8(b, at) {
            Ok((v, end)) => {
                fields.version = Some(v);
                Ok(end)
            },
            Err(m) => Err(WitnessError::Decode(m)),
        }
    } else if key == witness_key::GATEWAY_ID {
        match cbor::read_str(b, at) {
            Ok((v, end)) => {
                fields.gateway_id = Some(v);
                Ok(end)
            },
            Err(m) => Err(WitnessError::Decode(m)),
        }
    } else if key == witness_key::FILE_ULID {
        match read_fixed(b, at, 16, "file_ulid len") {
            Ok((v, end)) => {
                fields.file_ulid = Some(array16(v.as_slice()));
                Ok(end)
            },
            Err(e) => Err(e),
        }
    } else if key == witness_key::SEQUENCE {
        match cbor::read_u64(b, at) {
            Ok((v, end)) => {
                fields.sequence = Some(v);
                Ok(end)
            },
            Err(m) => Err(WitnessError::Decode(m)),
        }
    } else if key == witness_key::HEAD_HASH {
        match read_fixed(b, at, 32, "head_hash len") {
            Ok((v, end)) => {
                fields.head_hash = Some(array32(v.as_slice()));
                Ok(end)
            },
            Err(e) => Err(e),
        }
    } else if key == witness_key::WALL_TIME_NS {
        match cbor::read_u64(b, at) {
            Ok((v, end)) => {
                fields.wall_time_ns = Some(v);
                Ok(end)
            },
            Err(m) => Err(WitnessError::Decode(m)),
        }
    } else {
        match cbor::step_over(b, at) {
            Ok(end) => Ok(end),
            Err(m) => Err(WitnessError::Decode(m)),
        }
    }
}

fn missing<T>(what: &str) -> (r: Result<T, WitnessError>)
    ensures
        r matches Err(e) && e@ == WitnessFault::Decode(what@),
{
    Err(WitnessError::Decode(what.to_owned()))
}

impl Witness {
    /// A witness of the current version.
    #[must_use]
    pub fn new(
        gateway_id: String,
        file_ulid: [u8; 16],
        sequence: u64,
        head_hash: [u8; 32],
        wall_time_ns: u64,
    ) -> (r: Witness)
        ensures
            r@ == (WitnessModel {
                version: HEADER_VERSION,
                gateway_id: gateway_id@,
                file_ulid: file_ulid@,
                sequence,
                head_hash: head_hash@,
                wall_time_ns,
            }),
    {
        Witness {
            version: HEADER_VERSION,
            gateway_id,
            file_ulid,
            sequence,
            head_hash,
            wall_time_ns,
        }
    }

    /// Object-store key relative to the sink base (no leading slash).
    #[must_use]
    pub fn object_key(&self) -> (r: String)
        ensures
            r@ == witness_name(self@.gateway_id, self@.file_ulid, self@.sequence),
    {
        witness_object_key(self.gateway_id.as_str(), &self.file_ulid, self.sequence)
    }

    /// The attributes of this witness's span.
    #[must_use]
    pub fn to_attrs(&self) -> (r: WitnessAttrs)
        ensures
            r.gateway_id@ == self@.gateway_id,
            r.file_ulid@ == self@.file_ulid,
            r.sequence == self@.sequence,
            r.head_hash@ == self@.head_hash,
            r.wall_time_ns == self@.wall_time_ns,
    {
        WitnessAttrs {
            gateway_id: self.gateway_id.clone(),
            file_ulid: self.file_ulid,
            sequence: self.sequence,
            head_hash: self.head_hash,
            wall_time_ns: self.wall_time_ns,
        }
    }

    /// The witness in CBOR.
    pub fn encode_cbor(&self) -> (r: Result<Vec<u8>, WitnessError>)
        ensures
            r matches Ok(b) && b@ == self@.encoded(),
    {
        let ghost m = self@;
        let ghost whole = m.encoded();
        let mut out: Vec<u8> = Vec::new();
        cbor::put_map(&mut out, 6);
        assert(out@ + m.entries(0) =~= whole);
        let ghost before = out@;
        cbor::put_u8(&mut out, witness_key::VERSION);
        cbor::put_u8(&mut out, self.version);
        proof {
            lemma_next_entry(m, 0, before, out@, whole);
        }
        let ghost before = out@;
        cbor::put_u8(&mut out, witness_key::GATEWAY_ID);
        cbor::put_str(&mut out, self.gateway_id.as_str());
        proof {
            lemma_next_entry(m, 1, before, out@, whole);
        }
        let ghost before = out@;
        cbor::put_u8(&mut out, witness_key::FILE_ULID);
        cbor::put_bytes(&mut out, self.file_ulid.as_slice());
        proof {
            lemma_next_entry(m, 2, before, out@, whole);
        }
        let ghost before = out@;
        cbor::put_u8(&mut out, witness_key::SEQUENCE);
        cbor::put_u64(&mut out, self.sequence);
        proof {
            lemma_next_entry(m, 3, before, out@, whole);
        }
        let ghost before = out@;
        cbor::put_u8(&mut out, witness_key::HEAD_HASH);
        cbor::put_bytes(&mut out, self.head_hash.as_slice());
        proof {
            lemma_next_entry(m, 4, before, out@, whole);
        }
        let ghost before = out@;
        cbor::put_u8(&mut out, witness_key::WALL_TIME_NS);
        cbor::put_u64(&mut out, self.wall_time_ns);
        proof {
            lemma_next_entry(m, 5, before, out@, whole);
        }
        assert(out@ + m.entries(6) =~= out@);
        Ok(out)
    }

    /// The witness at the start of bytes.
    pub fn decode_cbor(bytes: &[u8]) -> (r: Result<Witness, WitnessError>)
        ensures
            match (r, decoded(bytes@)) {
                (Ok(x), Ok(m)) => x@ == m,
                (Err(e), Err(f)) => e@ == f,
                _ => false,
            },
    {
        let (len, start): (u64, usize) = match cbor::read_map(bytes, 0) {
            Ok((Some(n), at)) => (n, at),
            Ok((None, _)) => {
                return missing("indefinite map");
            },
            Err(m) => {
                return Err(WitnessError::Decode(m));
            },
        };
        let mut fields = Fields {
            version: None,
            gateway_id: None,
            file_ulid: None,
            sequence: None,
            head_hash: None,
            wall_time_ns: None,
        };
        let mut pos: usize = start;
        let mut i: u64 = 0;
        while i < len
            invariant
                0 <= i <= len,
                pos <= bytes@.len(),
                cbor::get_map(bytes@, 0) == Ok::<(Option<u64>, nat), Seq<char>>(
                    (Some(len), start as nat),
                ),
                after_entries(bytes@, start as nat, i as nat) == Ok::<
                    (PartialWitness, nat),
                    WitnessFault,
                >((fields@, pos as nat)),
            decreases len - i,
        {
            match read_entry(bytes, pos, &mut fields) {
                Ok(at) => {
                    pos = at;
                },
                Err(e) => {
                    proof {
                        lemma_after_error(bytes@, start as nat, i as nat + 1, len as nat);
                    }
                    return Err(e);
                },
            }
            i += 1;
        }
        let version: u8 = match fields.version {
            Some(v) => v,
            None => {
                return missing("missing version");
            },
        };
        let gateway_id = match fields.gateway_id {
            Some(v) => v,
            None => {
                return missing("missing gateway_id");
            },
        };
        let file_ulid = match fields.file_ulid {
            Some(v) => v,
            None => {
                return missing("missing file_ulid");
            },
        };
        let sequence: u64 = match fields.sequence {
            Some(v) => v,
            None => {
                return missing("missing sequence");
            },
        };
        let head_hash = match fields.head_hash {
            Some(v) => v,
            None => {
                return missing("missing head_hash");
            },
        };
        let wall_time_ns: u64 = match fields.wall_time_ns {
            Some(v) => v,
            None => {
                return missing("missing wall_time_ns");
            },
        };
        Ok(Witness { version, gateway_id, file_ulid, sequence, head_hash, wall_time_ns })
    }

    /// Operator-facing JSON form.
    #[must_use]
    pub fn to_json(&self) -> (r: Json)
        ensures
            r@ == self@.json(),
    {
        let mut o: Vec<(String, Json)> = Vec::new();
        json::put(&mut o, "version", Json::Unsigned(self.version as u64));
        json::put(&mut o, "gateway_id", Json::Text(self.gateway_id.clone()));
        json::put(&mut o, "file_ulid", Json::Text(encode_ulid_bytes(&self.file_ulid)));
        json::put(&mut o, "sequence", Json::Unsigned(self.sequence));
        json::put(&mut o, "head_hash", Json::Text(hex_encode(self.head_hash.as_slice())));
        json::put(&mut o, "wall_time_ns", Json::Unsigned(self.wall_time_ns));
        Json::Object(o)
    }
}

/// Object key for a witness PUT/GET.
#[must_use]
pub fn witness_object_key(gateway_id: &str, file_ulid: &[u8; 16], sequence: u64) -> (r: String)
    ensures
        r@ == witness_name(gateway_id@, file_ulid@, sequence),
{
    let mut s = text::join3(gateway_id, "/", encode_ulid_bytes(file_ulid).as_str());
    s.append("/");
    s.append(text::padded_decimal_string(sequence, 20).as_str());
    s
}

/// Object key for a retention entry: `<gateway_id>/<file_ulid>/retention`.
#[must_use]
pub fn retention_object_key(entry: &RetentionEntry) -> (r: String)
    ensures
        r@ == retention_name(entry@.gateway_id, entry@.file_ulid),
{
    let mut s = text::join3(
        entry.gateway_id.as_str(),
        "/",
        encode_ulid_bytes(&entry.file_ulid).as_str(),
    );
    s.append("/retention");
    s
}

/// Payload queued for the witness sink (witness head or retention log entry).
#[derive(Clone, Debug, PartialEq, Eq)]
pub enum SinkPayload {
    Witness(Witness),
    Retention(RetentionEntry),
}

/// What a [`SinkPayload`] says.
pub ghost enum PayloadModel {
    Witness(WitnessModel),
    Retention(RetentionModel),
}

impl View for SinkPayload {
    type V = PayloadModel;

    open spec fn view(&self) -> PayloadModel {
        match *self {
            SinkPayload::Witness(w) => PayloadModel::Witness(w@),
            SinkPayload::Retention(e) => PayloadModel::Retention(e@),
        }
    }
}

impl PayloadModel {
    /// The key under which the payload is stored.
    pub open spec fn name(self) -> Seq<char> {
        match self {
            PayloadModel::Witness(w) => witness_name(w.gateway_id, w.file_ulid, w.sequence),
            PayloadModel::Retention(e) => retention_name(e.gateway_id, e.file_ulid),
        }
    }

    /// The payload in CBOR.
    pub open spec fn encoded(self) -> Seq<u8> {
        match self {
            PayloadModel::Witness(w) => w.encoded(),
            PayloadModel::Retention(e) => e.encoded(),
        }
    }
}

impl SinkPayload {
    /// The key under which the payload is stored.
    #[must_use]
    pub fn object_key(&self) -> (r: String)
        ensures
            r@ == self@.name(),
    {
        match self {
            SinkPayload::Witness(w) => w.object_key(),
            SinkPayload::Retention(e) => retention_object_key(e),
        }
    }

    /// The payload in CBOR.
    pub fn encode_cbor(&self) -> (r: Result<Vec<u8>, WitnessError>)
        ensures
            r matches Ok(b) && b@ == self@.encoded(),
    {
        match self {
            SinkPayload::Witness(w) => w.encode_cbor(),
            SinkPayload::Retention(e) => match e.encode_cbor() {
                Ok(b) => Ok(b),
                Err(e) => Err(WitnessError::Encode(e.message())),
            },
        }
    }

    /// The witness, if this is one.
    #[must_use]
    pub fn as_witness(&self) -> (r: Option<&Witness>)
        ensures
            match *self {
                SinkPayload::Witness(w) => r == Some(&w),
                SinkPayload::Retention(_) => r is None,
            },
    {
        match self {
            SinkPayload::Witness(w) => Some(w),
            SinkPayload::Retention(_) => None,
        }
    }
}

/// The next entry has been appended.
proof fn lemma_next_entry(m: WitnessModel, k: nat, before: Seq<u8>, after: Seq<u8>, whole: Seq<u8>)
    requires
        k < 6,
        before + m.entries(k) == whole,
        after == before + cbor::uint(k) + m.value(k),
    ensures
        after + m.entries(k + 1) == whole,
{
    assert(after + m.entries(k + 1) =~= before + (cbor::uint(k) + (m.value(k) + m.entries(k + 1))));
}

/// What is read after the first `k` entries.
spec fn filled(m: WitnessModel, k: nat) -> PartialWitness {
    PartialWitness {
        version: if k > 0 {
            Some(m.version)
        } else {
            None
        },
        gateway_id: if k > 1 {
            Some(m.gateway_id)
        } else {
            None
        },
        file_ulid: if k > 2 {
            Some(m.file_ulid)
        } else {
            None
        },
        sequence: if k > 3 {
            Some(m.sequence)
        } else {
            None
        },
        head_hash: if k > 4 {
            Some(m.head_hash)
        } else {
            None
        },
        wall_time_ns: if k > 5 {
            Some(m.wall_time_ns)
        } else {
            None
        },
    }
}

/// A value of an encoded witness is read back.
proof fn lemma_with_value(m: WitnessModel, b: Seq<u8>, pos: nat, k: nat, rest: Seq<u8>)
    requires
        k < 6,
        m.sized(),
        encode_utf8(m.gateway_id).len() <= u64::MAX,
        pos <= b.len(),
        cbor::from(b, pos) == m.value(k) + rest,
    ensures
        with_value(b, pos, k as u8, filled(m, k)) == Ok::<(PartialWitness, nat), WitnessFault>(
            (filled(m, k + 1), pos + m.value(k).len()),
        ),
        pos + m.value(k).len() <= b.len(),
        cbor::from(b, pos + m.value(k).len()) == rest,
{
    reveal(with_value);
    if k == 0 {
        cbor::lemma_get_uint(b, pos, m.version as nat, rest);
    } else if k == 1 {
        cbor::lemma_get_str(b, pos, m.gateway_id, rest);
    } else if k == 2 {
        cbor::lemma_get_bytes(b, pos, m.file_ulid, rest);
    } else if k == 3 {
        cbor::lemma_get_uint(b, pos, m.sequence as nat, rest);
    } else if k == 4 {
        cbor::lemma_get_bytes(b, pos, m.head_hash, rest);
    } else {
        cbor::lemma_get_uint(b, pos, m.wall_time_ns as nat, rest);
    }
}

proof fn lemma_after_encoded(m: WitnessModel, b: Seq<u8>, start: nat, k: nat, rest: Seq<u8>) -> (
    pos: nat)
    requires
        k <= 6,
        start <= b.len(),
        m.sized(),
        encode_utf8(m.gateway_id).len() <= u64::MAX,
        cbor::from(b, start) == m.entries(0) + rest,
    ensures
        after_entries(b, start, k) == Ok::<(PartialWitness, nat), WitnessFault>((filled(m, k), pos)),
        pos <= b.len(),
        cbor::from(b, pos) == m.entries(k) + rest,
    decreases k,
{
    if k == 0 {
        start
    } else {
        let j = (k - 1) as nat;
        let at = lemma_after_encoded(m, b, start, j, rest);
        assert(m.entries(j) + rest =~= cbor::uint(j) + (m.value(j) + (m.entries(k) + rest)));
        cbor::lemma_get_uint(b, at, j, m.value(j) + (m.entries(k) + rest));
        let mid = at + cbor::uint(j).len();
        lemma_with_value(m, b, mid, j, m.entries(k) + rest);
        mid + m.value(j).len()
    }
}

/// A witness reads back from its encoding, whatever follows it.
pub proof fn witness_round_trip(m: WitnessModel, rest: Seq<u8>)
    requires
        m.sized(),
        encode_utf8(m.gateway_id).len() <= u64::MAX,
    ensures
        decoded(m.encoded() + rest) == Ok::<WitnessModel, WitnessFault>(m),
{
    let b = m.encoded() + rest;
    assert(cbor::from(b, 0) =~= cbor::head(5, 6) + (m.entries(0) + rest));
    cbor::lemma_get_map(b, 0, 6, m.entries(0) + rest);
    let pos = lemma_after_encoded(m, b, cbor::head(5, 6).len(), 6, rest);
}

/// A sequence takes exactly twenty digits in an object key.
pub proof fn lemma_sequence_digits(sequence: u64)
    ensures
        text::padded_decimal(sequence as nat, 20).len() == 20,
        forall|i: int|
            0 <= i < 20 ==> text::is_digit(
                #[trigger] text::padded_decimal(sequence as nat, 20)[i],
            ),
{
    reveal_with_fuel(text::pow10, 21);
    text::lemma_decimal_len(sequence as nat, 20);
    text::lemma_padded_decimal(sequence as nat, 20);
}

/// An object key belongs to one witness: equal keys name the same gateway,
/// file and sequence.
pub proof fn witness_name_identifies(g: Seq<char>, u: Seq<u8>, s: u64, h: Seq<char>, v: Seq<u8>, t: u64)
    requires
        u.len() == 16,
        v.len() == 16,
        witness_name(g, u, s) == witness_name(h, v, t),
    ensures
        g == h,
        u == v,
        s == t,
{
    lemma_sequence_digits(s);
    lemma_sequence_digits(t);
    super::naming::ulid_bytes_round_trip(u);
    super::naming::ulid_bytes_round_trip(v);
    reveal_strlit("/");
    let a = witness_name(g, u, s);
    let b = witness_name(h, v, t);
    let n = g.len() as int;
    assert(a.len() == g.len() + 48);
    assert(b.len() == h.len() + 48);
    assert(a.take(n) =~= g);
    assert(b.take(n) =~= h);
    assert(a.subrange(n + 1, n + 27) =~= super::naming::ulid_text(u));
    assert(b.subrange(n + 1, n + 27) =~= super::naming::ulid_text(v));
    assert(a.subrange(n + 28, n + 48) =~= text::padded_decimal(s as nat, 20));
    assert(b.subrange(n + 28, n + 48) =~= text::padded_decimal(t as nat, 20));
    text::lemma_padded_decimal(s as nat, 20);
    text::lemma_padded_decimal(t as nat, 20);
}

/// A witness is a map of six fields under the keys 0 to 5.
pub proof fn witness_fields_have_these_keys(m: WitnessModel)
    ensures
        m.value(0) == cbor::uint(m.version as nat),
        m.value(1) == cbor::text(m.gateway_id),
        m.value(2) == cbor::blob(m.file_ulid),
        m.value(3) == cbor::uint(m.sequence as nat),
        m.value(4) == cbor::blob(m.head_hash),
        m.value(5) == cbor::uint(m.wall_time_ns as nat),
        forall|k: nat|
            k < 6 ==> #[trigger] m.entries(k) == seq![k as u8] + (m.value(k) + m.entries(k + 1)),
        m.entries(6).len() == 0,
        m.encoded() == seq![0xa6u8] + m.entries(0),
{
    assert(cbor::head(5, 6) =~= seq![0xa6u8]);
    assert forall|k: nat| k < 6 implies #[trigger] m.entries(k) == seq![k as u8] + (m.value(k)
        + m.entries(k + 1)) by {
        assert(cbor::uint(k) =~= seq![k as u8]);
    }
}

/// A witness is whole: one that lacks a field is refused, and what is read has
/// the fields that were there.
pub proof fn witnesses_are_whole(p: PartialWitness)
    ensures
        p.finished() is Ok <==> p.version is Some && p.gateway_id is Some && p.file_ulid is Some
            && p.sequence is Some && p.head_hash is Some && p.wall_time_ns is Some,
        p.finished() matches Ok(w) ==> Some(w.version) == p.version && Some(w.gateway_id)
            == p.gateway_id && Some(w.file_ulid) == p.file_ulid && Some(w.sequence) == p.sequence
            && Some(w.head_hash) == p.head_hash && Some(w.wall_time_ns) == p.wall_time_ns,
{
}

/// The key of a witness is the gateway, the ULID of the file and the sequence
/// in twenty digits, between slashes: what stands in these places reads back
/// as the ULID and the sequence.
pub proof fn witness_keys_have_three_parts(g: Seq<char>, u: Seq<u8>, s: u64)
    requires
        u.len() == 16,
    ensures
        ({
            let k = witness_name(g, u, s);
            let n = g.len() as int;
            &&& k.len() == n + 48
            &&& k.take(n) == g
            &&& k[n] == '/'
            &&& super::naming::ulid_bytes(encode_utf8(k.subrange(n + 1, n + 27))) == Ok::<
                Seq<u8>,
                super::naming::NamingError,
            >(u)
            &&& k[n + 27] == '/'
            &&& text::digits_value(k.skip(n + 28)) == s
            &&& forall|i: int| n + 28 <= i < n + 48 ==> text::is_digit(#[trigger] k[i])
        }),
{
    let k = witness_name(g, u, s);
    let n = g.len() as int;
    reveal_strlit("/");
    lemma_sequence_digits(s);
    text::lemma_padded_decimal(s as nat, 20);
    super::naming::ulid_bytes_round_trip(u);
    let d = text::padded_decimal(s as nat, 20);
    assert(k.take(n) =~= g);
    assert(k.subrange(n + 1, n + 27) =~= super::naming::ulid_text(u));
    assert(k.skip(n + 28) =~= d);
    assert forall|i: int| n + 28 <= i < n + 48 implies text::is_digit(#[trigger] k[i]) by {
        assert(k[i] == d[i - n - 28]);
    }
}

/// A retention entry is kept beside the witnesses of its file.
pub proof fn retention_keys_stand_beside_witnesses(g: Seq<char>, u: Seq<u8>, s: u64)
    requires
        u.len() == 16,
    ensures
        retention_name(g, u).len() == g.len() + 37,
        retention_name(g, u).take(g.len() as int + 28) == witness_name(g, u, s).take(
            g.len() as int + 28,
        ),
        retention_name(g, u).skip(g.len() as int + 28) == "retention"@,
{
    reveal_strlit("/");
    reveal_strlit("/retention");
    reveal_strlit("retention");
    super::naming::ulid_bytes_round_trip(u);
    let n = g.len() as int;
    assert(retention_name(g, u).take(n + 28) =~= witness_name(g, u, s).take(n + 28));
    assert(retention_name(g, u).skip(n + 28) =~= "retention"@);
}

/// A payload goes under the key and with the bytes of what it holds.
pub proof fn payloads_are_stored_as_they_are(w: WitnessModel, e: RetentionModel)
    ensures
        PayloadModel::Witness(w).name() == witness_name(w.gateway_id, w.file_ulid, w.sequence),
        PayloadModel::Witness(w).encoded() == w.encoded(),
        PayloadModel::Retention(e).name() == retention_name(e.gateway_id, e.file_ulid),
        PayloadModel::Retention(e).encoded() == e.encoded(),
{
}

/// A witness as JSON has its six fields, each under its name.
pub proof fn witness_json_shows_every_field(m: WitnessModel)
    ensures
        ({
            let o = m.json()->Object_0;
            &&& m.json() is Object
            &&& o.dom() == set![
                "version"@,
                "gateway_id"@,
                "file_ulid"@,
                "sequence"@,
                "head_hash"@,
                "wall_time_ns"@,
            ]
            &&& o["version"@] == JsonModel::Number(m.version as int)
            &&& o["gateway_id"@] == JsonModel::Text(m.gateway_id)
            &&& o["file_ulid"@] == JsonModel::Text(super::naming::ulid_text(m.file_ulid))
            &&& o["sequence"@] == JsonModel::Number(m.sequence as int)
            &&& o["head_hash"@] == JsonModel::Text(super::naming::hex(m.head_hash))
            &&& o["wall_time_ns"@] == JsonModel::Number(m.wall_time_ns as int)
        }),
{
    reveal_strlit("version");
    reveal_strlit("gateway_id");
    reveal_strlit("file_ulid");
    reveal_strlit("sequence");
    reveal_strlit("head_hash");
    reveal_strlit("wall_time_ns");
    assert("version"@.len() == 7);
    assert("gateway_id"@.len() == 10);
    assert("file_ulid"@.len() == 9 && "file_ulid"@[0] == 'f');
    assert("sequence"@.len() == 8);
    assert("head_hash"@.len() == 9 && "head_hash"@[0] == 'h');
    assert("wall_time_ns"@.len() == 12);
    assert(m.json()->Object_0.dom() =~= set![
        "version"@,
        "gateway_id"@,
        "file_ulid"@,
        "sequence"@,
        "head_hash"@,
        "wall_time_ns"@,
    ]);
}

/// A witness says its fields.
pub proof fn witnesses_say_their_fields(w: Witness)
    ensures
        w@.version == w.version,
        w@.gateway_id == w.gateway_id@,
        w@.file_ulid == w.file_ulid@,
        w@.sequence == w.sequence,
        w@.head_hash == w.head_hash@,
        w@.wall_time_ns == w.wall_time_ns,
{
}

} // verus!
