//! JSON views of records and of CBOR side files.
use super::caps::{capability_set_to_json, CapsStore};
use super::naming::{encode_ulid_bytes, hex_encode};
use super::record::{AuditRecord, RecordModel, ResourceUsage, Transition};
use crate::caps::capability::GrantSet;
use crate::cbor;
use crate::json;
use crate::json::{Json, JsonModel};
use crate::text;
use vstd::prelude::*;

verus! {

/// Why CBOR could not be shown as JSON.
#[derive(Clone, Debug, PartialEq, Eq)]
pub enum JsonOutError {
    Decode(String),
    Indefinite,
    Unsupported(String),
    NonFiniteFloat,
    Trailing(usize),
}

/// A [`JsonOutError`] with its texts as character sequences.
pub ghost enum JsonOutFault {
    Decode(Seq<char>),
    Indefinite,
    Unsupported(Seq<char>),
    NonFiniteFloat,
    Trailing(nat),
}

impl View for JsonOutError {
    type V = JsonOutFault;

    open spec fn view(&self) -> JsonOutFault {
        match *self {
            JsonOutError::Decode(s) => JsonOutFault::Decode(s@),
            JsonOutError::Indefinite => JsonOutFault::Indefinite,
            JsonOutError::Unsupported(s) => JsonOutFault::Unsupported(s@),
            JsonOutError::NonFiniteFloat => JsonOutFault::NonFiniteFloat,
            JsonOutError::Trailing(n) => JsonOutFault::Trailing(n as nat),
        }
    }
}

impl JsonOutFault {
    /// The message shown to people.
    pub open spec fn message(self) -> Seq<char> {
        match self {
            JsonOutFault::Decode(s) => "cbor decode: "@ + s,
            JsonOutFault::Indefinite => "indefinite-length CBOR rejected"@,
            JsonOutFault::Unsupported(s) => "unsupported CBOR type: "@ + s,
            JsonOutFault::NonFiniteFloat => "non-finite float"@,
            JsonOutFault::Trailing(n) => "trailing "@ + text::decimal(n)
                + " bytes after CBOR value"@,
        }
    }
}

impl JsonOutError {
    /// The message shown to people.
    pub fn message(&self) -> (r: String)
        ensures
            r@ == self@.message(),
    {
        match self {
            JsonOutError::Decode(s) => text::join("cbor decode: ", s.as_str()),
            JsonOutError::Indefinite => "indefinite-length CBOR rejected".to_owned(),
            JsonOutError::Unsupported(s) => text::join("unsupported CBOR type: ", s.as_str()),
            JsonOutError::NonFiniteFloat => "non-finite float".to_owned(),
            JsonOutError::Trailing(n) => text::join3(
                "trailing ",
                text::decimal_string(*n as u64).as_str(),
                " bytes after CBOR value",
            ),
        }
    }
}

/// The name of a transition.
pub open spec fn name_of(t: Transition) -> Seq<char> {
    match t {
        Transition::Received => "Received"@,
        Transition::Authenticated => "Authenticated"@,
        Transition::AuthFailed => "AuthFailed"@,
        Transition::Authorized => "Authorized"@,
        Transition::Rejected => "Rejected"@,
        Transition::Denied => "Denied"@,
        Transition::DelegationRefused => "DelegationRefused"@,
        Transition::Granted => "Granted"@,
        Transition::Provisioned => "Provisioned"@,
        Transition::Running => "Running"@,
        Transition::Completed => "Completed"@,
        Transition::ToolError => "ToolError"@,
        Transition::Failed => "Failed"@,
        Transition::Killed => "Killed"@,
        Transition::Described => "Described"@,
    }
}

/// The name of a transition.
#[must_use]
pub fn transition_name(t: Transition) -> (r: &'static str)
    ensures
        r@ == name_of(t),
{
    match t {
        Transition::Received => "Received",
        Transition::Authenticated => "Authenticated",
        Transition::AuthFailed => "AuthFailed",
        Transition::Authorized => "Authorized",
        Transition::Rejected => "Rejected",
        Transition::Denied => "Denied",
        Transition::DelegationRefused => "DelegationRefused",
        Transition::Granted => "Granted",
        Transition::Provisioned => "Provisioned",
        Transition::Running => "Running",
        Transition::Completed => "Completed",
        Transition::ToolError => "ToolError",
        Transition::Failed => "Failed",
        Transition::Killed => "Killed",
        Transition::Described => "Described",
    }
}

/// Usage as a JSON object.
pub open spec fn usage_json(u: ResourceUsage) -> JsonModel {
    JsonModel::Object(
        map![
            "preempt_ticks"@ => JsonModel::Number(u.preempt_ticks as int),
            "wall_clock_ms"@ => JsonModel::Number(u.wall_clock_ms as int),
            "memory_bytes"@ => JsonModel::Number(u.memory_bytes as int),
            "output_bytes"@ => JsonModel::Number(u.output_bytes as int),
        ],
    )
}

fn usage_to_json(u: ResourceUsage) -> (r: Json)
    ensures
        r@ == usage_json(u),
{
    let mut o: Vec<(String, Json)> = Vec::new();
    json::put(&mut o, "preempt_ticks", Json::Unsigned(u.preempt_ticks));
    json::put(&mut o, "wall_clock_ms", Json::Unsigned(u.wall_clock_ms));
    json::put(&mut o, "memory_bytes", Json::Unsigned(u.memory_bytes));
    json::put(&mut o, "output_bytes", Json::Unsigned(u.output_bytes));
    Json::Object(o)
}

/// Optional usage as JSON.
pub open spec fn opt_usage_json(u: Option<ResourceUsage>) -> JsonModel {
    match u {
        Some(x) => usage_json(x),
        None => JsonModel::Null,
    }
}

fn opt_usage_to_json(u: Option<ResourceUsage>) -> (r: Json)
    ensures
        r@ == opt_usage_json(u),
{
    match u {
        Some(x) => usage_to_json(x),
        None => Json::Null,
    }
}

/// A record as a JSON object.
pub open spec fn record_json(m: RecordModel) -> JsonModel {
    JsonModel::Object(
        map![
            "version"@ => JsonModel::Number(m.version as int),
            "request_id"@ => JsonModel::Text(super::naming::ulid_text(m.request_id)),
            "parent"@ => match m.parent {
                Some(p) => JsonModel::Text(super::naming::ulid_text(p)),
                None => JsonModel::Null,
            },
            "identity"@ => JsonModel::Text(super::naming::hex(m.identity)),
            "digest"@ => JsonModel::Text(super::naming::hex(m.digest)),
            "transition"@ => JsonModel::Text(name_of(m.transition)),
            "reason"@ => JsonModel::Text(m.reason),
            "caps_hash"@ => match m.caps_hash {
                Some(h) => JsonModel::Text(super::naming::hex(h)),
                None => JsonModel::Null,
            },
            "budget"@ => opt_usage_json(m.budget),
            "usage"@ => opt_usage_json(m.usage),
            "wall_time_ns"@ => JsonModel::Number(m.wall_time_ns as int),
            "sequence"@ => JsonModel::Number(m.sequence as int),
        ],
    )
}

/// One audit record as a JSON object (operator dump).
#[must_use]
pub fn record_to_json(rec: &AuditRecord) -> (r: Json)
    ensures
        r@ == record_json(rec@),
{
    let mut o: Vec<(String, Json)> = Vec::new();
    json::put(&mut o, "version", Json::Unsigned(rec.version as u64));
    json::put(&mut o, "request_id", Json::Text(encode_ulid_bytes(&rec.request_id)));
    let parent = match &rec.parent {
        Some(p) => Json::Text(encode_ulid_bytes(p)),
        None => Json::Null,
    };
    json::put(&mut o, "parent", parent);
    json::put(&mut o, "identity", Json::Text(hex_encode(rec.identity.as_slice())));
    json::put(&mut o, "digest", Json::Text(hex_encode(rec.digest.as_slice())));
    json::put(&mut o, "transition", Json::Text(transition_name(rec.transition).to_owned()));
    json::put(&mut o, "reason", Json::Text(rec.reason.clone()));
    let caps_hash = match &rec.caps_hash {
        Some(h) => Json::Text(hex_encode(h.as_slice())),
        None => Json::Null,
    };
    json::put(&mut o, "caps_hash", caps_hash);
    json::put(&mut o, "budget", opt_usage_to_json(rec.budget));
    json::put(&mut o, "usage", opt_usage_to_json(rec.usage));
    json::put(&mut o, "wall_time_ns", Json::Unsigned(rec.wall_time_ns));
    json::put(&mut o, "sequence", Json::Unsigned(rec.sequence));
    Json::Object(o)
}

/// The name of an unsigned integer type.
pub open spec fn is_unsigned(kind: Seq<char>) -> bool {
    kind == "U8"@ || kind == "U16"@ || kind == "U32"@ || kind == "U64"@
}

/// The name of a signed integer type.
pub open spec fn is_signed(kind: Seq<char>) -> bool {
    kind == "I8"@ || kind == "I16"@ || kind == "I32"@ || kind == "I64"@
}

fn named_unsigned(kind: &str) -> (r: bool)
    ensures
        r == is_unsigned(kind@),
{
    text::str_eq(kind, "U8") || text::str_eq(kind, "U16") || text::str_eq(kind, "U32")
        || text::str_eq(kind, "U64")
}

fn named_signed(kind: &str) -> (r: bool)
    ensures
        r == is_signed(kind@),
{
    text::str_eq(kind, "I8") || text::str_eq(kind, "I16") || text::str_eq(kind, "I32")
        || text::str_eq(kind, "I64")
}

/// A signed number in decimal.
pub open spec fn signed_decimal(n: int) -> Seq<char> {
    if n < 0 {
        "-"@ + text::decimal((-n) as nat)
    } else {
        text::decimal(n as nat)
    }
}

fn signed_string(n: i64) -> (r: String)
    ensures
        r@ == signed_decimal(n as int),
{
    if n < 0 {
        let m: u64 = (-(n + 1)) as u64 + 1;
        text::join("-", text::decimal_string(m).as_str())
    } else {
        text::decimal_string(n as u64)
    }
}

/// The map key at a position, as text.
pub open spec fn key_at(b: Seq<u8>, pos: nat) -> Result<(Seq<char>, nat), JsonOutFault> {
    match cbor::get_kind(b, pos) {
        Err(m) => Err(JsonOutFault::Decode(m)),
        Ok(kind) => if kind == "String"@ {
            match cbor::get_str(b, pos) {
                Ok(v) => Ok(v),
                Err(m) => Err(JsonOutFault::Decode(m)),
            }
        } else if is_unsigned(kind) {
            match cbor::get_u64(b, pos) {
                Ok((n, at)) => Ok((text::decimal(n as nat), at)),
                Err(m) => Err(JsonOutFault::Decode(m)),
            }
        } else if is_signed(kind) {
            match cbor::get_i64(b, pos) {
                Ok((n, at)) => Ok((signed_decimal(n as int), at)),
                Err(m) => Err(JsonOutFault::Decode(m)),
            }
        } else if kind == "Bytes"@ {
            match cbor::get_bytes(b, pos) {
                Ok((v, at)) => Ok((super::naming::hex(v), at)),
                Err(m) => Err(JsonOutFault::Decode(m)),
            }
        } else {
            Err(JsonOutFault::Unsupported("map key type "@ + kind))
        },
    }
}

fn map_key(b: &[u8], pos: usize) -> (r: Result<(String, usize), JsonOutError>)
    requires
        pos <= b@.len(),
    ensures
        match (r, key_at(b@, pos as nat)) {
            (Ok((v, end)), Ok((w, at))) => v@ == w && end == at && pos < end <= b@.len(),
            (Err(e), Err(f)) => e@ == f,
            _ => false,
        },
{
    let kind = match cbor::read_datatype(b, pos) {
        Ok(k) => k,
        Err(m) => {
            return Err(JsonOutError::Decode(m));
        },
    };
    if text::str_eq(kind.as_str(), "String") {
        match cbor::read_str(b, pos) {
            Ok(v) => Ok(v),
            Err(m) => Err(JsonOutError::Decode(m)),
        }
    } else if named_unsigned(kind.as_str()) {
        match cbor::read_u64(b, pos) {
            Ok((n, at)) => Ok((text::decimal_string(n), at)),
            Err(m) => Err(JsonOutError::Decode(m)),
        }
    } else if named_signed(kind.as_str()) {
        match cbor::read_i64(b, pos) {
            Ok((n, at)) => Ok((signed_string(n), at)),
            Err(m) => Err(JsonOutError::Decode(m)),
        }
    } else if text::str_eq(kind.as_str(), "Bytes") {
        match cbor::read_bytes(b, pos) {
            Ok((v, at)) => Ok((hex_encode(v.as_slice()), at)),
            Err(m) => Err(JsonOutError::Decode(m)),
        }
    } else {
        Err(JsonOutError::Unsupported(text::join("map key type ", kind.as_str())))
    }
}

/// A single or double precision number whose exponent bits are not all set.
pub open spec fn is_finite(raw: Seq<u8>) -> bool {
    !(raw.len() == 5 && raw[1] % 128 == 127 && raw[2] >= 128) && !(raw.len() == 9 && raw[1] % 128
        == 127 && raw[2] >= 240)
}

/// The floating-point number at a position, as its item. Half precision is not
/// read.
pub open spec fn float_at(b: Seq<u8>, pos: nat, kind: Seq<char>) -> Result<
    (JsonModel, nat),
    JsonOutFault,
> {
    if kind == "F16"@ {
        Err(
            JsonOutFault::Decode(
                "unexpected type f16 at position "@ + text::decimal(pos) + ": expected f64"@,
            ),
        )
    } else {
        let at = if kind == "F32"@ {
            pos + 5
        } else {
            pos + 9
        };
        let raw = b.subrange(pos as int, at as int);
        if at > b.len() {
            Err(JsonOutFault::Decode(cbor::skipped(b, pos)->Err_0))
        } else if is_finite(raw) {
            Ok((JsonModel::Float(raw), at))
        } else {
            Err(JsonOutFault::NonFiniteFloat)
        }
    }
}

/// The value at a position, whatever its type.
pub open spec fn value_at(b: Seq<u8>, pos: nat) -> Result<(JsonModel, nat), JsonOutFault>
    decreases b.len() - pos, 0nat,
{
    match cbor::get_kind(b, pos) {
        Err(m) => Err(JsonOutFault::Decode(m)),
        Ok(kind) => if kind == "Bool"@ {
            match cbor::get_bool(b, pos) {
                Ok((v, at)) => Ok((JsonModel::Bool(v), at)),
                Err(m) => Err(JsonOutFault::Decode(m)),
            }
        } else if kind == "Null"@ || kind == "Undefined"@ {
            Ok((JsonModel::Null, pos + 1))
        } else if is_unsigned(kind) {
            match cbor::get_u64(b, pos) {
                Ok((n, at)) => Ok((JsonModel::Number(n as int), at)),
                Err(m) => Err(JsonOutFault::Decode(m)),
            }
        } else if is_signed(kind) {
            match cbor::get_i64(b, pos) {
                Ok((n, at)) => Ok((JsonModel::Number(n as int), at)),
                Err(m) => Err(JsonOutFault::Decode(m)),
            }
        } else if kind == "F16"@ || kind == "F32"@ || kind == "F64"@ {
            float_at(b, pos, kind)
        } else if kind == "Bytes"@ {
            match cbor::get_bytes(b, pos) {
                Ok((v, at)) => Ok((JsonModel::Text(super::naming::hex(v)), at)),
                Err(m) => Err(JsonOutFault::Decode(m)),
            }
        } else if kind == "String"@ {
            match cbor::get_str(b, pos) {
                Ok((v, at)) => Ok((JsonModel::Text(v), at)),
                Err(m) => Err(JsonOutFault::Decode(m)),
            }
        } else if kind == "Array"@ {
            match cbor::get_array(b, pos) {
                Ok((Some(n), at)) => match items_at(b, at, n as nat, Seq::empty()) {
                    Ok((v, end)) => Ok((JsonModel::List(v), end)),
                    Err(f) => Err(f),
                },
                Ok((None, _)) => Err(JsonOutFault::Indefinite),
                Err(m) => Err(JsonOutFault::Decode(m)),
            }
        } else if kind == "Map"@ {
            match cbor::get_map(b, pos) {
                Ok((Some(n), at)) => match entries_at(b, at, n as nat, Map::empty()) {
                    Ok((v, end)) => Ok((JsonModel::Object(v), end)),
                    Err(f) => Err(f),
                },
                Ok((None, _)) => Err(JsonOutFault::Indefinite),
                Err(m) => Err(JsonOutFault::Decode(m)),
            }
        } else if kind == "Tag"@ {
            match cbor::get_tag(b, pos) {
                Ok((_, at)) => value_at(b, at),
                Err(m) => Err(JsonOutFault::Decode(m)),
            }
        } else {
            Err(JsonOutFault::Unsupported(kind))
        },
    }
}

/// `n` values from a position on, behind those read before. (A value ends
/// behind its start.)
pub open spec fn items_at(b: Seq<u8>, pos: nat, n: nat, before: Seq<JsonModel>) -> Result<
    (Seq<JsonModel>, nat),
    JsonOutFault,
>
    decreases b.len() - pos, n,
{
    if n == 0 {
        Ok((before, pos))
    } else {
        match value_at(b, pos) {
            Ok((v, at)) => if pos < at <= b.len() {
                items_at(b, at, (n - 1) as nat, before.push(v))
            } else {
                Ok((before.push(v), at))
            },
            Err(f) => Err(f),
        }
    }
}

/// `n` map entries from a position on, added to those read before. (A key and
/// a value end behind their start.)
pub open spec fn entries_at(
    b: Seq<u8>,
    pos: nat,
    n: nat,
    before: Map<Seq<char>, JsonModel>,
) -> Result<(Map<Seq<char>, JsonModel>, nat), JsonOutFault>
    decreases b.len() - pos, n,
{
    if n == 0 {
        Ok((before, pos))
    } else {
        match key_at(b, pos) {
            Ok((k, p)) => match value_at(b, p) {
                Ok((v, at)) => if p < at <= b.len() {
                    entries_at(b, at, (n - 1) as nat, before.insert(k, v))
                } else {
                    Ok((before.insert(k, v), at))
                },
                Err(f) => Err(f),
            },
            Err(f) => Err(f),
        }
    }
}

/// The names of types are all different.
proof fn reveal_kinds()
    ensures
        forall|s: Seq<u8>| #[trigger]
            cbor::kind_name(s) == Some("F32"@) ==> s.len() > 0 && s[0] == 0xfa,
        forall|s: Seq<u8>| #[trigger]
            cbor::kind_name(s) == Some("F64"@) ==> s.len() > 0 && s[0] == 0xfb,
        forall|s: Seq<u8>| #[trigger]
            cbor::kind_name(s) == Some("Null"@) ==> s.len() > 0 && s[0] == 0xf6,
        forall|s: Seq<u8>| #[trigger]
            cbor::kind_name(s) == Some("Undefined"@) ==> s.len() > 0 && s[0] == 0xf7,
{
    reveal_strlit("U8");
    reveal_strlit("U16");
    reveal_strlit("U32");
    reveal_strlit("U64");
    reveal_strlit("I8");
    reveal_strlit("I16");
    reveal_strlit("I32");
    reveal_strlit("I64");
    reveal_strlit("Int");
    reveal_strlit("Bytes");
    reveal_strlit("BytesIndef");
    reveal_strlit("String");
    reveal_strlit("StringIndef");
    reveal_strlit("Array");
    reveal_strlit("ArrayIndef");
    reveal_strlit("Map");
    reveal_strlit("MapIndef");
    reveal_strlit("Tag");
    reveal_strlit("Simple");
    reveal_strlit("Bool");
    reveal_strlit("Null");
    reveal_strlit("Undefined");
    reveal_strlit("F16");
    reveal_strlit("F32");
    reveal_strlit("F64");
    reveal_strlit("Break");
    reveal_strlit("Unknown(");
    assert forall|s: Seq<u8>| #[trigger] cbor::kind_name(s) is Some implies s.len() > 0 && (
    cbor::kind_name(s)->0 == "F32"@ ==> s[0] == 0xfa) && (cbor::kind_name(s)->0 == "F64"@ ==> s[0]
        == 0xfb) && (cbor::kind_name(s)->0 == "Null"@ ==> s[0] == 0xf6) && (cbor::kind_name(s)->0
        == "Undefined"@ ==> s[0] == 0xf7) by {
        let k = cbor::kind_name(s)->0;
        assert(k.len() > 0);
        // The names differ in their first or last letter or in their length.
        let (first, last, length) = (k[0], k[k.len() - 1], k.len());
    }
}

fn decode_float(b: &[u8], pos: usize, kind: &str) -> (r: Result<(Json, usize), JsonOutError>)
    requires
        pos <= b@.len(),
        cbor::get_kind(b@, pos as nat) == Ok::<Seq<char>, Seq<char>>(kind@),
        kind@ == "F16"@ || kind@ == "F32"@ || kind@ == "F64"@,
    ensures
        match (r, float_at(b@, pos as nat, kind@)) {
            (Ok((v, end)), Ok((w, at))) => v@ == w && end == at && pos < end <= b@.len(),
            (Err(e), Err(f)) => e@ == f,
            _ => false,
        },
{
    if text::str_eq(kind, "F16") {
        return Err(
            JsonOutError::Decode(
                text::join3(
                    "unexpected type f16 at position ",
                    text::decimal_string(pos as u64).as_str(),
                    ": expected f64",
                ),
            ),
        );
    }
    proof {
        reveal_kinds();
    }
    match cbor::skip_item(b, pos) {
        Ok(at) => {
            let raw = vstd::slice::slice_to_vec(vstd::slice::slice_subrange(b, pos, at));
            let n: usize = raw.len();
            if (n == 5 && raw[1] % 128 == 127 && raw[2] >= 128) || (n == 9 && raw[1] % 128 == 127
                && raw[2] >= 240) {
                return Err(JsonOutError::NonFiniteFloat);
            }
            Ok((Json::Float(raw), at))
        },
        Err(m) => Err(JsonOutError::Decode(m)),
    }
}

fn decode_value(b: &[u8], pos: usize) -> (r: Result<(Json, usize), JsonOutError>)
    requires
        pos <= b@.len(),
    ensures
        match (r, value_at(b@, pos as nat)) {
            (Ok((v, end)), Ok((w, at))) => v@ == w && end == at && pos < end <= b@.len(),
            (Err(e), Err(f)) => e@ == f,
            _ => false,
        },
    decreases b@.len() - pos, 0nat,
{
    let kind = match cbor::read_datatype(b, pos) {
        Ok(k) => k,
        Err(m) => {
            return Err(JsonOutError::Decode(m));
        },
    };
    let k = kind.as_str();
    if text::str_eq(k, "Bool") {
        match cbor::read_bool(b, pos) {
            Ok((v, at)) => Ok((Json::Bool(v), at)),
            Err(m) => Err(JsonOutError::Decode(m)),
        }
    } else if text::str_eq(k, "Null") || text::str_eq(k, "Undefined") {
        proof {
            reveal_kinds();
        }
        match cbor::skip_item(b, pos) {
            Ok(at) => Ok((Json::Null, at)),
            Err(m) => Err(JsonOutError::Decode(m)),
        }
    } else if named_unsigned(k) {
        match cbor::read_u64(b, pos) {
            Ok((n, at)) => Ok((Json::Unsigned(n), at)),
            Err(m) => Err(JsonOutError::Decode(m)),
        }
    } else if named_signed(k) {
        match cbor::read_i64(b, pos) {
            Ok((n, at)) => Ok((Json::Signed(n), at)),
            Err(m) => Err(JsonOutError::Decode(m)),
        }
    } else if text::str_eq(k, "F16") || text::str_eq(k, "F32") || text::str_eq(k, "F64") {
        decode_float(b, pos, k)
    } else if text::str_eq(k, "Bytes") {
        match cbor::read_bytes(b, pos) {
            Ok((v, at)) => Ok((Json::Text(hex_encode(v.as_slice())), at)),
            Err(m) => Err(JsonOutError::Decode(m)),
        }
    } else if text::str_eq(k, "String") {
        match cbor::read_str(b, pos) {
            Ok((v, at)) => Ok((Json::Text(v), at)),
            Err(m) => Err(JsonOutError::Decode(m)),
        }
    } else if text::str_eq(k, "Array") {
        match cbor::read_array(b, pos) {
            Ok((Some(n), at)) => {
                match decode_items(b, at, n) {
                    Ok((v, end)) => Ok((Json::List(v), end)),
                    Err(e) => Err(e),
                }
            },
            Ok((None, _)) => Err(JsonOutError::Indefinite),
            Err(m) => Err(JsonOutError::Decode(m)),
        }
    } else if text::str_eq(k, "Map") {
        match cbor::read_map(b, pos) {
            Ok((Some(n), at)) => {
                match decode_entries(b, at, n) {
                    Ok((v, end)) => Ok((Json::Object(v), end)),
                    Err(e) => Err(e),
                }
            },
            Ok((None, _)) => Err(JsonOutError::Indefinite),
            Err(m) => Err(JsonOutError::Decode(m)),
        }
    } else if text::str_eq(k, "Tag") {
        match cbor::read_tag(b, pos) {
            Ok((_, at)) => decode_value(b, at),
            Err(m) => Err(JsonOutError::Decode(m)),
        }
    } else {
        Err(JsonOutError::Unsupported(kind))
    }
}

fn decode_items(b: &[u8], start: usize, n: u64) -> (r: Result<(Vec<Json>, usize), JsonOutError>)
    requires
        start <= b@.len(),
    ensures
        match (r, items_at(b@, start as nat, n as nat, Seq::empty())) {
            (Ok((v, end)), Ok((w, at))) => json::models(v@) == w && end == at && start <= end
                <= b@.len(),
            (Err(e), Err(f)) => e@ == f,
            _ => false,
        },
    decreases b@.len() - start, 1nat,
{
    let mut out: Vec<Json> = Vec::new();
    let mut pos: usize = start;
    let mut i: u64 = 0;
    while i < n
        invariant
            i <= n,
            start <= pos <= b@.len(),
            items_at(b@, start as nat, n as nat, Seq::empty()) == items_at(
                b@,
                pos as nat,
                (n - i) as nat,
                json::models(out@),
            ),
        decreases n - i,
    {
        match decode_value(b, pos) {
            Ok((v, at)) => {
                json::push(&mut out, v);
                pos = at;
            },
            Err(e) => {
                return Err(e);
            },
        }
        i += 1;
    }
    Ok((out, pos))
}

fn decode_entries(b: &[u8], start: usize, n: u64) -> (r: Result<
    (Vec<(String, Json)>, usize),
    JsonOutError,
>)
    requires
        start <= b@.len(),
    ensures
        match (r, entries_at(b@, start as nat, n as nat, Map::empty())) {
            (Ok((v, end)), Ok((w, at))) => json::entries(v@) == w && end == at && start <= end
                <= b@.len(),
            (Err(e), Err(f)) => e@ == f,
            _ => false,
        },
    decreases b@.len() - start, 1nat,
{
    let mut out: Vec<(String, Json)> = Vec::new();
    let mut pos: usize = start;
    let mut i: u64 = 0;
    while i < n
        invariant
            i <= n,
            start <= pos <= b@.len(),
            entries_at(b@, start as nat, n as nat, Map::empty()) == entries_at(
                b@,
                pos as nat,
                (n - i) as nat,
                json::entries(out@),
            ),
        decreases n - i,
    {
        let (key, p): (String, usize) = match map_key(b, pos) {
            Ok(v) => v,
            Err(e) => {
                return Err(e);
            },
        };
        match decode_value(b, p) {
            Ok((v, at)) => {
                json::put_owned(&mut out, key, v);
                pos = at;
            },
            Err(e) => {
                return Err(e);
            },
        }
        i += 1;
    }
    Ok((out, pos))
}

/// What CBOR bytes show as JSON, whatever they hold.
pub open spec fn generic_json(b: Seq<u8>) -> Result<JsonModel, JsonOutFault> {
    match value_at(b, 0) {
        Ok((v, at)) => if at != b.len() {
            Err(JsonOutFault::Trailing((b.len() - at) as nat))
        } else {
            Ok(v)
        },
        Err(f) => Err(f),
    }
}

/// Generic CBOR to JSON walk (fallback for CBOR that is no capability set).
pub fn cbor_to_json_generic(bytes: &[u8]) -> (r: Result<Json, JsonOutError>)
    ensures
        match (r, generic_json(bytes@)) {
            (Ok(v), Ok(w)) => v@ == w,
            (Err(e), Err(f)) => e@ == f,
            _ => false,
        },
{
    match decode_value(bytes, 0) {
        Ok((v, at)) => {
            if at != bytes.len() {
                return Err(JsonOutError::Trailing(bytes.len() - at));
            }
            Ok(v)
        },
        Err(e) => Err(e),
    }
}

/// The bytes are no capability set.
pub open spec fn no_set(b: Seq<u8>) -> bool {
    match super::caps::decoding::decoded_wire(b) {
        Ok(w) => w.build_fault() is Some,
        Err(_) => true,
    }
}

/// Decode caps side-file CBOR into JSON: as a capability set, or as plain CBOR
/// if it is none.
pub fn cbor_to_json(bytes: &[u8]) -> (r: Result<Json, JsonOutError>)
    requires
        super::caps::decoding::numbered(bytes@),
    ensures
        no_set(bytes@) ==> match (r, generic_json(bytes@)) {
            (Ok(v), Ok(w)) => v@ == w,
            (Err(e), Err(f)) => e@ == f,
            _ => false,
        },
        !no_set(bytes@) ==> r is Ok && exists|g: GrantSet| #[trigger]
            super::caps::decoding::decoded_as(bytes@, Ok(g)) && r->Ok_0@
                == super::caps::view::set_json(g),
{
    match CapsStore::decode(bytes) {
        Ok(set) => {
            assert(super::caps::decoding::decoded_as(bytes@, Ok(set@)));
            Ok(capability_set_to_json(&set))
        },
        Err(_) => cbor_to_json_generic(bytes),
    }
}

/// Each transition is shown by its own name.
pub proof fn transitions_are_named(t: Transition)
    ensures
        name_of(t) == "Received"@ <==> t is Received,
        name_of(t) == "Authenticated"@ <==> t is Authenticated,
        name_of(t) == "AuthFailed"@ <==> t is AuthFailed,
        name_of(t) == "Authorized"@ <==> t is Authorized,
        name_of(t) == "Rejected"@ <==> t is Rejected,
        name_of(t) == "Denied"@ <==> t is Denied,
        name_of(t) == "DelegationRefused"@ <==> t is DelegationRefused,
        name_of(t) == "Granted"@ <==> t is Granted,
        name_of(t) == "Provisioned"@ <==> t is Provisioned,
        name_of(t) == "Running"@ <==> t is Running,
        name_of(t) == "Completed"@ <==> t is Completed,
        name_of(t) == "ToolError"@ <==> t is ToolError,
        name_of(t) == "Failed"@ <==> t is Failed,
        name_of(t) == "Killed"@ <==> t is Killed,
        name_of(t) == "Described"@ <==> t is Described,
{
    reveal_strlit("Received");
    reveal_strlit("Authenticated");
    reveal_strlit("AuthFailed");
    reveal_strlit("Authorized");
    reveal_strlit("Rejected");
    reveal_strlit("Denied");
    reveal_strlit("DelegationRefused");
    reveal_strlit("Granted");
    reveal_strlit("Provisioned");
    reveal_strlit("Running");
    reveal_strlit("Completed");
    reveal_strlit("ToolError");
    reveal_strlit("Failed");
    reveal_strlit("Killed");
    reveal_strlit("Described");
    assert("Received"@.len() == 8 && "Received"@[2] == 'c');
    assert("Rejected"@.len() == 8 && "Rejected"@[2] == 'j');
    assert("Authenticated"@.len() == 13);
    assert("AuthFailed"@.len() == 10 && "AuthFailed"@[4] == 'F');
    assert("Authorized"@.len() == 10 && "Authorized"@[4] == 'o');
    assert("Denied"@.len() == 6 && "Denied"@[0] == 'D');
    assert("Failed"@.len() == 6 && "Failed"@[0] == 'F');
    assert("Killed"@.len() == 6 && "Killed"@[0] == 'K');
    assert("DelegationRefused"@.len() == 17);
    assert("Granted"@.len() == 7 && "Granted"@[0] == 'G');
    assert("Running"@.len() == 7 && "Running"@[0] == 'R');
    assert("Provisioned"@.len() == 11);
    assert("Completed"@.len() == 9 && "Completed"@[0] == 'C');
    assert("ToolError"@.len() == 9 && "ToolError"@[0] == 'T');
    assert("Described"@.len() == 9 && "Described"@[0] == 'D');
}

/// Usage as JSON has its four numbers, each under its name.
pub proof fn usage_json_shows_every_number(u: ResourceUsage)
    ensures
        ({
            let o = usage_json(u)->Object_0;
            &&& usage_json(u) is Object
            &&& o.dom() == set![
                "preempt_ticks"@,
                "wall_clock_ms"@,
                "memory_bytes"@,
                "output_bytes"@,
            ]
            &&& o["preempt_ticks"@] == JsonModel::Number(u.preempt_ticks as int)
            &&& o["wall_clock_ms"@] == JsonModel::Number(u.wall_clock_ms as int)
            &&& o["memory_bytes"@] == JsonModel::Number(u.memory_bytes as int)
            &&& o["output_bytes"@] == JsonModel::Number(u.output_bytes as int)
        }),
        opt_usage_json(Some(u)) == usage_json(u),
        opt_usage_json(None) == JsonModel::Null,
{
    reveal_strlit("preempt_ticks");
    reveal_strlit("wall_clock_ms");
    reveal_strlit("memory_bytes");
    reveal_strlit("output_bytes");
    assert("preempt_ticks"@[0] == 'p');
    assert("wall_clock_ms"@[0] == 'w');
    assert("memory_bytes"@[0] == 'm');
    assert("output_bytes"@[0] == 'o');
    assert(usage_json(u)->Object_0.dom() =~= set![
        "preempt_ticks"@,
        "wall_clock_ms"@,
        "memory_bytes"@,
        "output_bytes"@,
    ]);
}

/// A record as JSON has its twelve fields, each under its name: identifiers as
/// ULIDs, hashes in hex, what is not there as null.
pub proof fn record_json_shows_every_field(m: RecordModel)
    ensures
        ({
            let o = record_json(m)->Object_0;
            &&& record_json(m) is Object
            &&& o.dom() == set![
                "version"@,
                "request_id"@,
                "parent"@,
                "identity"@,
                "digest"@,
                "transition"@,
                "reason"@,
                "caps_hash"@,
                "budget"@,
                "usage"@,
                "wall_time_ns"@,
                "sequence"@,
            ]
            &&& o["version"@] == JsonModel::Number(m.version as int)
            &&& o["request_id"@] == JsonModel::Text(super::naming::ulid_text(m.request_id))
            &&& m.parent matches Some(p) ==> o["parent"@] == JsonModel::Text(
                super::naming::ulid_text(p),
            )
            &&& m.parent is None ==> o["parent"@] == JsonModel::Null
            &&& o["identity"@] == JsonModel::Text(super::naming::hex(m.identity))
            &&& o["digest"@] == JsonModel::Text(super::naming::hex(m.digest))
            &&& o["transition"@] == JsonModel::Text(name_of(m.transition))
            &&& o["reason"@] == JsonModel::Text(m.reason)
            &&& m.caps_hash matches Some(h) ==> o["caps_hash"@] == JsonModel::Text(
                super::naming::hex(h),
            )
            &&& m.caps_hash is None ==> o["caps_hash"@] == JsonModel::Null
            &&& o["budget"@] == opt_usage_json(m.budget)
            &&& o["usage"@] == opt_usage_json(m.usage)
            &&& o["wall_time_ns"@] == JsonModel::Number(m.wall_time_ns as int)
            &&& o["sequence"@] == JsonModel::Number(m.sequence as int)
        }),
{
    reveal_strlit("version");
    reveal_strlit("request_id");
    reveal_strlit("parent");
    reveal_strlit("identity");
    reveal_strlit("digest");
    reveal_strlit("transition");
    reveal_strlit("reason");
    reveal_strlit("caps_hash");
    reveal_strlit("budget");
    reveal_strlit("usage");
    reveal_strlit("wall_time_ns");
    reveal_strlit("sequence");
    assert("version"@.len() == 7);
    assert("request_id"@.len() == 10 && "request_id"@[0] == 'r');
    assert("parent"@.len() == 6 && "parent"@[0] == 'p');
    assert("identity"@.len() == 8 && "identity"@[0] == 'i');
    assert("digest"@.len() == 6 && "digest"@[0] == 'd');
    assert("transition"@.len() == 10 && "transition"@[0] == 't');
    assert("reason"@.len() == 6 && "reason"@[0] == 'r');
    assert("caps_hash"@.len() == 9);
    assert("budget"@.len() == 6 && "budget"@[0] == 'b');
    assert("usage"@.len() == 5);
    assert("wall_time_ns"@.len() == 12);
    assert("sequence"@.len() == 8 && "sequence"@[0] == 's');
    assert(record_json(m)->Object_0.dom() =~= set![
        "version"@,
        "request_id"@,
        "parent"@,
        "identity"@,
        "digest"@,
        "transition"@,
        "reason"@,
        "caps_hash"@,
        "budget"@,
        "usage"@,
        "wall_time_ns"@,
        "sequence"@,
    ]);
}

/// A signed number is shown with its sign, and its digits stand for its size.
pub proof fn signed_numbers_are_decimal(n: int)
    ensures
        n >= 0 ==> text::digits_value(signed_decimal(n)) == n,
        n < 0 ==> signed_decimal(n)[0] == '-' && text::digits_value(signed_decimal(n).skip(1))
            == -n,
{
    if n >= 0 {
        text::lemma_decimal(n as nat);
    } else {
        reveal_strlit("-");
        text::lemma_decimal((-n) as nat);
        assert(signed_decimal(n).skip(1) =~= text::decimal((-n) as nat));
    }
}

/// What was written as CBOR is shown as what it is: bytes in hex, null as
/// null.
pub proof fn written_items_are_shown(v: Seq<u8>, rest: Seq<u8>)
    requires
        v.len() <= u64::MAX,
    ensures
        value_at(cbor::blob(v) + rest, 0) == Ok::<(JsonModel, nat), JsonOutFault>(
            (JsonModel::Text(super::naming::hex(v)), cbor::blob(v).len()),
        ),
        value_at(cbor::null() + rest, 0) == Ok::<(JsonModel, nat), JsonOutFault>(
            (JsonModel::Null, 1),
        ),
{
    let a = cbor::blob(v) + rest;
    let b = cbor::null() + rest;
    assert(cbor::from(a, 0) =~= a);
    assert(cbor::from(b, 0) =~= b);
    cbor::lemma_get_bytes(a, 0, v, rest);
    cbor::lemma_get_null(b, 0, rest);
    reveal_strlit("Bytes");
    reveal_strlit("Bool");
    reveal_strlit("Null");
    reveal_strlit("Undefined");
    reveal_strlit("U8");
    reveal_strlit("U16");
    reveal_strlit("U32");
    reveal_strlit("U64");
    reveal_strlit("I8");
    reveal_strlit("I16");
    reveal_strlit("I32");
    reveal_strlit("I64");
    reveal_strlit("F16");
    reveal_strlit("F32");
    reveal_strlit("F64");
    assert("Bytes"@.len() == 5);
    assert("Null"@.len() == 4 && "Null"@[0] == 'N');
    assert("Bool"@.len() == 4 && "Bool"@[0] == 'B');
    assert("Undefined"@.len() == 9);
    assert("U8"@.len() == 2 && "U16"@.len() == 3 && "U32"@.len() == 3 && "U64"@.len() == 3);
    assert("I8"@.len() == 2 && "I16"@.len() == 3 && "I32"@.len() == 3 && "I64"@.len() == 3);
    assert("F16"@.len() == 3 && "F32"@.len() == 3 && "F64"@.len() == 3);
}

/// A value stands alone: bytes behind it are reported, by their number.
pub proof fn nothing_may_follow_a_value(b: Seq<u8>)
    requires
        value_at(b, 0) is Ok,
    ensures
        generic_json(b) is Ok <==> value_at(b, 0)->Ok_0.1 == b.len(),
        generic_json(b) matches Ok(v) ==> v == value_at(b, 0)->Ok_0.0,
        generic_json(b) matches Err(f) ==> f == JsonOutFault::Trailing(
            (b.len() - value_at(b, 0)->Ok_0.1) as nat,
        ),
{
}

/// A floating-point number is shown unless its exponent is all ones, which
/// stands for an infinity or for no number.
pub proof fn infinities_are_refused(raw: Seq<u8>)
    ensures
        raw.len() == 5 ==> (is_finite(raw) <==> (raw[1] % 128) * 2 + raw[2] / 128 != 255),
        raw.len() == 9 ==> (is_finite(raw) <==> (raw[1] % 128) * 16 + raw[2] / 16 != 2047),
{
}

/// Keys of a map are shown as text: text as it is, bytes in hex.
pub proof fn byte_keys_are_shown_in_hex(v: Seq<u8>, rest: Seq<u8>)
    requires
        v.len() <= u64::MAX,
    ensures
        key_at(cbor::blob(v) + rest, 0) == Ok::<(Seq<char>, nat), JsonOutFault>(
            (super::naming::hex(v), cbor::blob(v).len()),
        ),
{
    let a = cbor::blob(v) + rest;
    assert(cbor::from(a, 0) =~= a);
    cbor::lemma_get_bytes(a, 0, v, rest);
    reveal_strlit("Bytes");
    reveal_strlit("String");
    reveal_strlit("U8");
    reveal_strlit("U16");
    reveal_strlit("U32");
    reveal_strlit("U64");
    reveal_strlit("I8");
    reveal_strlit("I16");
    reveal_strlit("I32");
    reveal_strlit("I64");
    assert("Bytes"@.len() == 5);
    assert("String"@.len() == 6);
    assert("U8"@.len() == 2 && "U16"@.len() == 3 && "U32"@.len() == 3 && "U64"@.len() == 3);
    assert("I8"@.len() == 2 && "I16"@.len() == 3 && "I32"@.len() == 3 && "I64"@.len() == 3);
}

} // verus!
