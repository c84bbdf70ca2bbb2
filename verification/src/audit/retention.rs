//! Retention log entry for deleted audit files.
use super::naming::{encode_ulid_bytes, hex_encode};
use super::tags::HEADER_VERSION;
use crate::cbor;
use crate::json;
use crate::json::{Json, JsonModel};
use crate::text;
use vstd::prelude::*;
use vstd::utf8::*;

verus! {

/// One retention-log entry recording a deleted file's final (head) hash.
#[derive(Clone, Debug, PartialEq, Eq)]
pub struct RetentionEntry {
    pub version: u8,
    pub gateway_id: String,
    pub file_ulid: [u8; 16],
    /// Final head hash of the deleted file (last frame hash, or header
    /// `prev_hash` if the file had no frames).
    pub final_hash: [u8; 32],
    pub wall_time_ns: u64,
    /// Basename that was deleted (e.g. `helix-<ulid>.log`).
    pub file_name: String,
}

/// What a [`RetentionEntry`] says.
pub ghost struct RetentionModel {
    pub version: u8,
    pub gateway_id: Seq<char>,
    pub file_ulid: Seq<u8>,
    pub final_hash: Seq<u8>,
    pub wall_time_ns: u64,
    pub file_name: Seq<char>,
}

impl View for RetentionEntry {
    type V = RetentionModel;

    open spec fn view(&self) -> RetentionModel {
        RetentionModel {
            version: self.version,
            gateway_id: self.gateway_id@,
            file_ulid: self.file_ulid@,
            final_hash: self.final_hash@,
            wall_time_ns: self.wall_time_ns,
            file_name: self.file_name@,
        }
    }
}

/// Why an entry could not be written.
#[derive(Clone, Debug, PartialEq, Eq)]
pub enum RetentionError {
    Encode(String),
}

impl RetentionError {
    /// The message shown to people.
    pub fn message(&self) -> (r: String)
        ensures
            self matches RetentionError::Encode(s) && r@ == "cbor encode: "@ + s@,
    {
        match self {
            RetentionError::Encode(s) => text::join("cbor encode: ", s.as_str()),
        }
    }
}

impl RetentionModel {
    /// The entry in CBOR.
    pub open spec fn encoded(self) -> Seq<u8> {
        cbor::head(5, 6) + cbor::uint(0) + cbor::uint(self.version as nat) + cbor::uint(1)
            + cbor::text(self.gateway_id) + cbor::uint(2) + cbor::blob(self.file_ulid) + cbor::uint(
            3,
        ) + cbor::blob(self.final_hash) + cbor::uint(4) + cbor::uint(self.wall_time_ns as nat)
            + cbor::uint(5) + cbor::text(self.file_name)
    }

    /// The entry as a JSON object.
    pub open spec fn json(self) -> JsonModel {
        JsonModel::Object(
            map![
                "version"@ => JsonModel::Number(self.version as int),
                "gateway_id"@ => JsonModel::Text(self.gateway_id),
                "file_ulid"@ => JsonModel::Text(super::naming::ulid_text(self.file_ulid)),
                "final_hash"@ => JsonModel::Text(super::naming::hex(self.final_hash)),
                "wall_time_ns"@ => JsonModel::Number(self.wall_time_ns as int),
                "file_name"@ => JsonModel::Text(self.file_name),
            ],
        )
    }
}

impl RetentionEntry {
    /// An entry of the current version.
    #[must_use]
    pub fn new(
        gateway_id: String,
        file_ulid: [u8; 16],
        final_hash: [u8; 32],
        wall_time_ns: u64,
        file_name: String,
    ) -> (r: RetentionEntry)
        ensures
            r@ == (RetentionModel {
                version: HEADER_VERSION,
                gateway_id: gateway_id@,
                file_ulid: file_ulid@,
                final_hash: final_hash@,
                wall_time_ns,
                file_name: file_name@,
            }),
    {
        RetentionEntry {
            version: HEADER_VERSION,
            gateway_id,
            file_ulid,
            final_hash,
            wall_time_ns,
            file_name,
        }
    }

    /// Deterministic CBOR map (integer keys 0 to 5).
    pub fn encode_cbor(&self) -> (r: Result<Vec<u8>, RetentionError>)
        ensures
            r matches Ok(b) && b@ == self@.encoded(),
    {
        let mut out: Vec<u8> = Vec::new();
        cbor::put_map(&mut out, 6);
        cbor::put_u8(&mut out, 0);
        cbor::put_u8(&mut out, self.version);
        cbor::put_u8(&mut out, 1);
        cbor::put_str(&mut out, self.gateway_id.as_str());
        cbor::put_u8(&mut out, 2);
        cbor::put_bytes(&mut out, self.file_ulid.as_slice());
        cbor::put_u8(&mut out, 3);
        cbor::put_bytes(&mut out, self.final_hash.as_slice());
        cbor::put_u8(&mut out, 4);
        cbor::put_u64(&mut out, self.wall_time_ns);
        cbor::put_u8(&mut out, 5);
        cbor::put_str(&mut out, self.file_name.as_str());
        assert(out@ =~= self@.encoded());
        Ok(out)
    }

    /// Operator-facing JSON form.
    #[must_use]
    pub fn to_json(&self) -> (r: Json)
        ensures
            r@ == self@.json(),
    {
        let mut o: Vec<(String, Json)> = Vec::new();
        json::put(&mut o, "version", Json::Unsigned(self.version as u64));
        json::put(&mut o, "gateway_id", Json::Text(self.gateway_id.clone()));
        json::put(&mut o, "file_ulid", Json::Text(encode_ulid_bytes(&self.file_ulid)));
        json::put(&mut o, "final_hash", Json::Text(hex_encode(self.final_hash.as_slice())));
        json::put(&mut o, "wall_time_ns", Json::Unsigned(self.wall_time_ns));
        json::put(&mut o, "file_name", Json::Text(self.file_name.clone()));
        Json::Object(o)
    }
}

/// A retention entry as JSON has its six fields, each under its name.
pub proof fn retention_json_shows_every_field(m: RetentionModel)
    ensures
        ({
            let o = m.json()->Object_0;
            &&& m.json() is Object
            &&& o.dom() == set![
                "version"@,
                "gateway_id"@,
                "file_ulid"@,
                "final_hash"@,
                "wall_time_ns"@,
                "file_name"@,
            ]
            &&& o["version"@] == JsonModel::Number(m.version as int)
            &&& o["gateway_id"@] == JsonModel::Text(m.gateway_id)
            &&& o["file_ulid"@] == JsonModel::Text(super::naming::ulid_text(m.file_ulid))
            &&& o["final_hash"@] == JsonModel::Text(super::naming::hex(m.final_hash))
            &&& o["wall_time_ns"@] == JsonModel::Number(m.wall_time_ns as int)
            &&& o["file_name"@] == JsonModel::Text(m.file_name)
        }),
{
    reveal_strlit("version");
    reveal_strlit("gateway_id");
    reveal_strlit("file_ulid");
    reveal_strlit("final_hash");
    reveal_strlit("wall_time_ns");
    reveal_strlit("file_name");
    assert("version"@.len() == 7);
    assert("gateway_id"@.len() == 10 && "gateway_id"@[0] == 'g');
    assert("file_ulid"@.len() == 9 && "file_ulid"@[5] == 'u');
    assert("final_hash"@.len() == 10 && "final_hash"@[0] == 'f');
    assert("wall_time_ns"@.len() == 12);
    assert("file_name"@.len() == 9 && "file_name"@[5] == 'n');
    assert(m.json()->Object_0.dom() =~= set![
        "version"@,
        "gateway_id"@,
        "file_ulid"@,
        "final_hash"@,
        "wall_time_ns"@,
        "file_name"@,
    ]);
}

/// Entries that say different things have different bytes.
pub proof fn retention_bytes_tell_entries_apart(a: RetentionModel, b: RetentionModel)
    requires
        a.encoded() == b.encoded(),
        a.file_ulid.len() == 16,
        b.file_ulid.len() == 16,
        a.final_hash.len() == 32,
        b.final_hash.len() == 32,
        encode_utf8(a.gateway_id).len() <= u64::MAX,
        encode_utf8(b.gateway_id).len() <= u64::MAX,
        encode_utf8(a.file_name).len() <= u64::MAX,
        encode_utf8(b.file_name).len() <= u64::MAX,
    ensures
        a == b,
{
    lemma_fields(a);
    lemma_fields(b);
}

/// The fields of an entry, where they stand in its bytes.
proof fn lemma_fields(m: RetentionModel)
    requires
        m.file_ulid.len() == 16,
        m.final_hash.len() == 32,
        encode_utf8(m.gateway_id).len() <= u64::MAX,
        encode_utf8(m.file_name).len() <= u64::MAX,
    ensures
        ({
            let b = m.encoded();
            &&& b[0] == 0xa6
            &&& cbor::get_u8(b, 2) matches Ok((v, p1))
            &&& v == m.version
            &&& cbor::get_str(b, p1 + 1) matches Ok((g, p2))
            &&& g == m.gateway_id
            &&& cbor::get_bytes(b, p2 + 1) matches Ok((u, p3))
            &&& u == m.file_ulid
            &&& cbor::get_bytes(b, p3 + 1) matches Ok((h, p4))
            &&& h == m.final_hash
            &&& cbor::get_u64(b, p4 + 1) matches Ok((t, p5))
            &&& t == m.wall_time_ns
            &&& cbor::get_str(b, p5 + 1) matches Ok((f, p6))
            &&& f == m.file_name
            &&& p6 == b.len()
        }),
{
    let b = m.encoded();
    let v = cbor::uint(m.version as nat);
    let g = cbor::text(m.gateway_id);
    let u = cbor::blob(m.file_ulid);
    let h = cbor::blob(m.final_hash);
    let t = cbor::uint(m.wall_time_ns as nat);
    let f = cbor::text(m.file_name);
    let none = Seq::<u8>::empty();
    assert(cbor::head(5, 6) =~= seq![0xa6u8]);
    assert(cbor::uint(0) =~= seq![0u8]);
    assert(cbor::uint(1) =~= seq![1u8]);
    assert(cbor::uint(2) =~= seq![2u8]);
    assert(cbor::uint(3) =~= seq![3u8]);
    assert(cbor::uint(4) =~= seq![4u8]);
    assert(cbor::uint(5) =~= seq![5u8]);
    let x0 = seq![0xa6u8];
    let x1 = x0 + seq![0u8] + v;
    let x2 = x1 + seq![1u8] + g;
    let x3 = x2 + seq![2u8] + u;
    let x4 = x3 + seq![3u8] + h;
    let x5 = x4 + seq![4u8] + t;
    assert(b == x5 + seq![5u8] + f);
    let r5 = seq![5u8] + (f + none);
    let r4 = seq![4u8] + (t + r5);
    let r3 = seq![3u8] + (h + r4);
    let r2 = seq![2u8] + (u + r3);
    let r1 = seq![1u8] + (g + r2);
    assert(f + none =~= f);
    lemma_regroup(x5, 5, f, none);
    assert(b =~= x5 + r5);
    lemma_regroup(x4, 4, t, r5);
    lemma_regroup(x3, 3, h, r4);
    lemma_regroup(x2, 2, u, r3);
    lemma_regroup(x1, 1, g, r2);
    lemma_regroup(x0, 0, v, r1);
    lemma_behind(b, x0, 0, v + r1);
    cbor::lemma_get_uint(b, 2, m.version as nat, r1);
    lemma_behind(b, x1, 1, g + r2);
    cbor::lemma_get_str(b, x1.len() + 1, m.gateway_id, r2);
    lemma_behind(b, x2, 2, u + r3);
    cbor::lemma_get_bytes(b, x2.len() + 1, m.file_ulid, r3);
    lemma_behind(b, x3, 3, h + r4);
    cbor::lemma_get_bytes(b, x3.len() + 1, m.final_hash, r4);
    lemma_behind(b, x4, 4, t + r5);
    cbor::lemma_get_uint(b, x4.len() + 1, m.wall_time_ns as nat, r5);
    lemma_behind(b, x5, 5, f + none);
    cbor::lemma_get_str(b, x5.len() + 1, m.file_name, none);
    assert(b[0] == x0[0]);
}

proof fn lemma_regroup(x: Seq<u8>, k: u8, item: Seq<u8>, rest: Seq<u8>)
    ensures
        x + seq![k] + item + rest == x + (seq![k] + (item + rest)),
{
    assert(x + seq![k] + item + rest =~= x + (seq![k] + (item + rest)));
}

proof fn lemma_behind(b: Seq<u8>, x: Seq<u8>, k: u8, rest: Seq<u8>)
    requires
        b == x + (seq![k] + rest),
    ensures
        x.len() + 1 <= b.len(),
        cbor::from(b, x.len() + 1) == rest,
{
    assert(cbor::from(b, x.len() + 1) =~= rest);
}

} // verus!
