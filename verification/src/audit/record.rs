//! Audit records and their deterministic CBOR.
use super::naming::{array16, array32};
use super::tags::{record_key, transition, RECORD_VERSION, REASON_MAX_BYTES};
use crate::cbor;
use crate::text;
use vstd::prelude::*;
use vstd::utf8::*;

verus! {

/// Four-uint budget and usage form.
#[derive(Clone, Copy, Debug, PartialEq, Eq, Structural)]
pub struct ResourceUsage {
    pub preempt_ticks: u64,
    pub wall_clock_ms: u64,
    pub memory_bytes: u64,
    pub output_bytes: u64,
}

impl ResourceUsage {
    /// The usage with these four numbers.
    #[must_use]
    pub fn new(
        preempt_ticks: u64,
        wall_clock_ms: u64,
        memory_bytes: u64,
        output_bytes: u64,
    ) -> (r: ResourceUsage)
        ensures
            r == (ResourceUsage { preempt_ticks, wall_clock_ms, memory_bytes, output_bytes }),
    {
        ResourceUsage { preempt_ticks, wall_clock_ms, memory_bytes, output_bytes }
    }

    /// The four numbers in wire order.
    #[must_use]
    pub fn to_array(self) -> (r: [u64; 4])
        ensures
            r@ == seq![
                self.preempt_ticks,
                self.wall_clock_ms,
                self.memory_bytes,
                self.output_bytes,
            ],
    {
        let r = [self.preempt_ticks, self.wall_clock_ms, self.memory_bytes, self.output_bytes];
        assert(r@ =~= seq![
            self.preempt_ticks,
            self.wall_clock_ms,
            self.memory_bytes,
            self.output_bytes,
        ]);
        r
    }

    /// The usage with the four numbers in wire order.
    #[must_use]
    pub fn from_array(a: [u64; 4]) -> (r: ResourceUsage)
        ensures
            r == (ResourceUsage {
                preempt_ticks: a@[0],
                wall_clock_ms: a@[1],
                memory_bytes: a@[2],
                output_bytes: a@[3],
            }),
    {
        ResourceUsage {
            preempt_ticks: a[0],
            wall_clock_ms: a[1],
            memory_bytes: a[2],
            output_bytes: a[3],
        }
    }
}

/// Audit transition. What the state table attaches to a transition lives in
/// the record's `reason`.
#[derive(Clone, Copy, Debug, PartialEq, Eq, Structural)]
pub enum Transition {
    Received,
    Authenticated,
    AuthFailed,
    Authorized,
    Rejected,
    Denied,
    DelegationRefused,
    Granted,
    Provisioned,
    Running,
    Completed,
    ToolError,
    Failed,
    Killed,
    Described,
}

impl Transition {
    /// The tag of this transition.
    pub open spec fn spec_tag(self) -> u8 {
        match self {
            Transition::Received => transition::RECEIVED,
            Transition::Authenticated => transition::AUTHENTICATED,
            Transition::AuthFailed => transition::AUTH_FAILED,
            Transition::Authorized => transition::AUTHORIZED,
            Transition::Rejected => transition::REJECTED,
            Transition::Denied => transition::DENIED,
            Transition::DelegationRefused => transition::DELEGATION_REFUSED,
            Transition::Granted => transition::GRANTED,
            Transition::Provisioned => transition::PROVISIONED,
            Transition::Running => transition::RUNNING,
            Transition::Completed => transition::COMPLETED,
            Transition::ToolError => transition::TOOL_ERROR,
            Transition::Failed => transition::FAILED,
            Transition::Killed => transition::KILLED,
            Transition::Described => transition::DESCRIBED,
        }
    }

    /// The transition with this tag.
    pub open spec fn of_tag(tag: u8) -> Option<Transition> {
        if tag == transition::RECEIVED {
            Some(Transition::Received)
        } else if tag == transition::AUTHENTICATED {
            Some(Transition::Authenticated)
        } else if tag == transition::AUTH_FAILED {
            Some(Transition::AuthFailed)
        } else if tag == transition::AUTHORIZED {
            Some(Transition::Authorized)
        } else if tag == transition::REJECTED {
            Some(Transition::Rejected)
        } else if tag == transition::DENIED {
            Some(Transition::Denied)
        } else if tag == transition::DELEGATION_REFUSED {
            Some(Transition::DelegationRefused)
        } else if tag == transition::GRANTED {
            Some(Transition::Granted)
        } else if tag == transition::PROVISIONED {
            Some(Transition::Provisioned)
        } else if tag == transition::RUNNING {
            Some(Transition::Running)
        } else if tag == transition::COMPLETED {
            Some(Transition::Completed)
        } else if tag == transition::TOOL_ERROR {
            Some(Transition::ToolError)
        } else if tag == transition::FAILED {
            Some(Transition::Failed)
        } else if tag == transition::KILLED {
            Some(Transition::Killed)
        } else if tag == transition::DESCRIBED {
            Some(Transition::Described)
        } else {
            None
        }
    }

    /// The tag of this transition.
    #[must_use]
    pub fn tag(self) -> (r: u8)
        ensures
            r == self.spec_tag(),
    {
        match self {
            Transition::Received => transition::RECEIVED,
            Transition::Authenticated => transition::AUTHENTICATED,
            Transition::AuthFailed => transition::AUTH_FAILED,
            Transition::Authorized => transition::AUTHORIZED,
            Transition::Rejected => transition::REJECTED,
            Transition::Denied => transition::DENIED,
            Transition::DelegationRefused => transition::DELEGATION_REFUSED,
            Transition::Granted => transition::GRANTED,
            Transition::Provisioned => transition::PROVISIONED,
            Transition::Running => transition::RUNNING,
            Transition::Completed => transition::COMPLETED,
            Transition::ToolError => transition::TOOL_ERROR,
            Transition::Failed => transition::FAILED,
            Transition::Killed => transition::KILLED,
            Transition::Described => transition::DESCRIBED,
        }
    }

    /// Whether this transition requires a synced (waiter) write before response.
    #[must_use]
    pub fn is_synced(self) -> (r: bool)
        ensures
            r == (self is Granted || self is Failed || self is Completed || self is ToolError
                || self is Killed),
    {
        match self {
            Transition::Granted
            | Transition::Failed
            | Transition::Completed
            | Transition::ToolError
            | Transition::Killed => true,
            _ => false,
        }
    }

    /// All variants, each at the index that is its tag.
    #[must_use]
    pub fn all() -> (r: [Transition; 15])
        ensures
            forall|i: int| 0 <= i < 15 ==> (#[trigger] r@[i]).spec_tag() == i,
    {
        [
            Transition::Received,
            Transition::Authenticated,
            Transition::AuthFailed,
            Transition::Authorized,
            Transition::Rejected,
            Transition::Denied,
            Transition::DelegationRefused,
            Transition::Granted,
            Transition::Provisioned,
            Transition::Running,
            Transition::Completed,
            Transition::ToolError,
            Transition::Failed,
            Transition::Killed,
            Transition::Described,
        ]
    }

    /// The transition with this tag.
    pub fn from_tag(tag: u8) -> (r: Result<Transition, RecordError>)
        ensures
            match r {
                Ok(t) => Self::of_tag(tag) == Some(t),
                Err(e) => Self::of_tag(tag) is None && e@ == RecordFault::UnknownTransition(tag),
            },
    {
        if tag == transition::RECEIVED {
            Ok(Transition::Received)
        } else if tag == transition::AUTHENTICATED {
            Ok(Transition::Authenticated)
        } else if tag == transition::AUTH_FAILED {
            Ok(Transition::AuthFailed)
        } else if tag == transition::AUTHORIZED {
            Ok(Transition::Authorized)
        } else if tag == transition::REJECTED {
            Ok(Transition::Rejected)
        } else if tag == transition::DENIED {
            Ok(Transition::Denied)
        } else if tag == transition::DELEGATION_REFUSED {
            Ok(Transition::DelegationRefused)
        } else if tag == transition::GRANTED {
            Ok(Transition::Granted)
        } else if tag == transition::PROVISIONED {
            Ok(Transition::Provisioned)
        } else if tag == transition::RUNNING {
            Ok(Transition::Running)
        } else if tag == transition::COMPLETED {
            Ok(Transition::Completed)
        } else if tag == transition::TOOL_ERROR {
            Ok(Transition::ToolError)
        } else if tag == transition::FAILED {
            Ok(Transition::Failed)
        } else if tag == transition::KILLED {
            Ok(Transition::Killed)
        } else if tag == transition::DESCRIBED {
            Ok(Transition::Described)
        } else {
            Err(RecordError::UnknownTransition(tag))
        }
    }
}

/// A transition reads back from its tag, and a tag from its transition.
pub proof fn transition_round_trip(t: Transition, tag: u8)
    ensures
        Transition::of_tag(t.spec_tag()) == Some(t),
        Transition::of_tag(tag) matches Some(u) ==> u.spec_tag() == tag,
{
}

/// Why a record could not be read.
#[derive(Clone, Debug, PartialEq, Eq)]
pub enum RecordError {
    Decode(String),
    Encode(String),
    MissingField(&'static str),
    UnsupportedVersion(u8),
    UnknownTransition(u8),
    IndefiniteMap,
    IndefiniteArray,
    BadUsageLen(u64),
    BadBytesLen { expected: usize, got: usize },
}

/// A [`RecordError`] with its texts as character sequences.
pub ghost enum RecordFault {
    Decode(Seq<char>),
    Encode(Seq<char>),
    MissingField(Seq<char>),
    UnsupportedVersion(u8),
    UnknownTransition(u8),
    IndefiniteMap,
    IndefiniteArray,
    BadUsageLen(u64),
    BadBytesLen { expected: nat, got: nat },
}

impl View for RecordError {
    type V = RecordFault;

    open spec fn view(&self) -> RecordFault {
        match *self {
            RecordError::Decode(s) => RecordFault::Decode(s@),
            RecordError::Encode(s) => RecordFault::Encode(s@),
            RecordError::MissingField(s) => RecordFault::MissingField(s@),
            RecordError::UnsupportedVersion(v) => RecordFault::UnsupportedVersion(v),
            RecordError::UnknownTransition(v) => RecordFault::UnknownTransition(v),
            RecordError::IndefiniteMap => RecordFault::IndefiniteMap,
            RecordError::IndefiniteArray => RecordFault::IndefiniteArray,
            RecordError::BadUsageLen(n) => RecordFault::BadUsageLen(n),
            RecordError::BadBytesLen { expected, got } => RecordFault::BadBytesLen {
                expected: expected as nat,
                got: got as nat,
            },
        }
    }
}

impl RecordFault {
    /// The message shown to people.
    pub open spec fn message(self) -> Seq<char> {
        match self {
            RecordFault::Decode(s) => "cbor decode: "@ + s,
            RecordFault::Encode(s) => "cbor encode: "@ + s,
            RecordFault::MissingField(s) => "missing field "@ + s,
            RecordFault::UnsupportedVersion(v) => "unsupported record version "@ + text::decimal(
                v as nat,
            ),
            RecordFault::UnknownTransition(v) => "unknown transition tag "@ + text::decimal(
                v as nat,
            ),
            RecordFault::IndefiniteMap =>
                "indefinite-length map rejected (deterministic encoding required)"@,
            RecordFault::IndefiniteArray => "indefinite-length array rejected"@,
            RecordFault::BadUsageLen(n) => "budget/usage array length "@ + text::decimal(n as nat)
                + ", expected 4"@,
            RecordFault::BadBytesLen { expected, got } => "bytes length "@ + text::decimal(got)
                + ", expected "@ + text::decimal(expected),
        }
    }
}

impl RecordError {
    /// The message shown to people.
    pub fn message(&self) -> (r: String)
        ensures
            r@ == self@.message(),
    {
        match self {
            RecordError::Decode(s) => text::join("cbor decode: ", s.as_str()),
            RecordError::Encode(s) => text::join("cbor encode: ", s.as_str()),
            RecordError::MissingField(s) => text::join("missing field ", s),
            RecordError::UnsupportedVersion(v) => text::join(
                "unsupported record version ",
                text::decimal_string(*v as u64).as_str(),
            ),
            RecordError::UnknownTransition(v) => text::join(
                "unknown transition tag ",
                text::decimal_string(*v as u64).as_str(),
            ),
            RecordError::IndefiniteMap =>
                "indefinite-length map rejected (deterministic encoding required)".to_owned(),
            RecordError::IndefiniteArray => "indefinite-length array rejected".to_owned(),
            RecordError::BadUsageLen(n) => text::join3(
                "budget/usage array length ",
                text::decimal_string(*n).as_str(),
                ", expected 4",
            ),
            RecordError::BadBytesLen { expected, got } => bytes_len_message(*expected, *got),
        }
    }
}

/// `bytes length <got>, expected <expected>`.
pub fn bytes_len_message(expected: usize, got: usize) -> (r: String)
    ensures
        r@ == "bytes length "@ + text::decimal(got as nat) + ", expected "@ + text::decimal(
            expected as nat,
        ),
{
    let mut s = text::join3(
        "bytes length ",
        text::decimal_string(got as u64).as_str(),
        ", expected ",
    );
    text::push_decimal(&mut s, expected as u64);
    s
}

/// One audit log record (schema v1).
#[derive(Clone, Debug, PartialEq, Eq)]
pub struct AuditRecord {
    pub version: u8,
    pub request_id: [u8; 16],
    pub parent: Option<[u8; 16]>,
    pub identity: [u8; 32],
    pub digest: [u8; 32],
    pub transition: Transition,
    pub reason: String,
    pub caps_hash: Option<[u8; 32]>,
    pub budget: Option<ResourceUsage>,
    pub usage: Option<ResourceUsage>,
    pub wall_time_ns: u64,
    pub sequence: u64,
}

/// What an [`AuditRecord`] says.
pub ghost struct RecordModel {
    pub version: u8,
    pub request_id: Seq<u8>,
    pub parent: Option<Seq<u8>>,
    pub identity: Seq<u8>,
    pub digest: Seq<u8>,
    pub transition: Transition,
    pub reason: Seq<char>,
    pub caps_hash: Option<Seq<u8>>,
    pub budget: Option<ResourceUsage>,
    pub usage: Option<ResourceUsage>,
    pub wall_time_ns: u64,
    pub sequence: u64,
}

/// The bytes of an optional array.
pub open spec fn opt16(a: Option<[u8; 16]>) -> Option<Seq<u8>> {
    match a {
        Some(x) => Some(x@),
        None => None,
    }
}

/// The bytes of an optional array.
pub open spec fn opt32(a: Option<[u8; 32]>) -> Option<Seq<u8>> {
    match a {
        Some(x) => Some(x@),
        None => None,
    }
}

impl View for AuditRecord {
    type V = RecordModel;

    open spec fn view(&self) -> RecordModel {
        RecordModel {
            version: self.version,
            request_id: self.request_id@,
            parent: opt16(self.parent),
            identity: self.identity@,
            digest: self.digest@,
            transition: self.transition,
            reason: self.reason@,
            caps_hash: opt32(self.caps_hash),
            budget: self.budget,
            usage: self.usage,
            wall_time_ns: self.wall_time_ns,
            sequence: self.sequence,
        }
    }
}

/// The longest prefix of whole characters that takes at most `max` bytes.
pub open spec fn fitted(s: Seq<char>, max: nat) -> Seq<char>
    decreases s.len(),
{
    if s.len() == 0 || encode_utf8(s).len() <= max {
        s
    } else {
        fitted(s.drop_last(), max)
    }
}

/// A byte string, or null.
pub open spec fn blob_or_null(b: Option<Seq<u8>>) -> Seq<u8> {
    match b {
        Some(x) => cbor::blob(x),
        None => cbor::null(),
    }
}

/// The array of four numbers, or null.
pub open spec fn usage_or_null(u: Option<ResourceUsage>) -> Seq<u8> {
    match u {
        Some(x) => cbor::head(4, 4) + (cbor::uint(x.preempt_ticks as nat) + (cbor::uint(
            x.wall_clock_ms as nat,
        ) + (cbor::uint(x.memory_bytes as nat) + cbor::uint(x.output_bytes as nat)))),
        None => cbor::null(),
    }
}

impl RecordModel {
    /// The value under map key `k`.
    pub open spec fn value(self, k: nat) -> Seq<u8> {
        if k == record_key::VERSION {
            cbor::uint(self.version as nat)
        } else if k == record_key::REQUEST_ID {
            cbor::blob(self.request_id)
        } else if k == record_key::PARENT {
            blob_or_null(self.parent)
        } else if k == record_key::IDENTITY {
            cbor::blob(self.identity)
        } else if k == record_key::DIGEST {
            cbor::blob(self.digest)
        } else if k == record_key::TRANSITION {
            cbor::uint(self.transition.spec_tag() as nat)
        } else if k == record_key::REASON {
            cbor::text(self.reason)
        } else if k == record_key::CAPS_HASH {
            blob_or_null(self.caps_hash)
        } else if k == record_key::BUDGET {
            usage_or_null(self.budget)
        } else if k == record_key::USAGE {
            usage_or_null(self.usage)
        } else if k == record_key::WALL_TIME_NS {
            cbor::uint(self.wall_time_ns as nat)
        } else {
            cbor::uint(self.sequence as nat)
        }
    }

    /// The entries from key `k` on, keys ascending.
    pub open spec fn entries(self, k: nat) -> Seq<u8>
        decreases 12 - k,
    {
        if k >= 12 {
            Seq::empty()
        } else {
            cbor::uint(k) + (self.value(k) + self.entries(k + 1))
        }
    }

    /// The record in CBOR: a map of all twelve keys, ascending.
    pub open spec fn encoded(self) -> Seq<u8> {
        cbor::head(5, 12) + self.entries(0)
    }

    /// The lengths of the fixed-size fields are right.
    pub open spec fn sized(self) -> bool {
        &&& self.request_id.len() == 16
        &&& self.parent matches Some(p) ==> p.len() == 16
        &&& self.identity.len() == 32
        &&& self.digest.len() == 32
        &&& self.caps_hash matches Some(h) ==> h.len() == 32
    }
}

/// The fields read so far.
pub ghost struct PartialRecord {
    pub version: Option<u8>,
    pub request_id: Option<Seq<u8>>,
    pub parent: Option<Option<Seq<u8>>>,
    pub identity: Option<Seq<u8>>,
    pub digest: Option<Seq<u8>>,
    pub transition: Option<Transition>,
    pub reason: Option<Seq<char>>,
    pub caps_hash: Option<Option<Seq<u8>>>,
    pub budget: Option<Option<ResourceUsage>>,
    pub usage: Option<Option<ResourceUsage>>,
    pub wall_time_ns: Option<u64>,
    pub sequence: Option<u64>,
}

impl PartialRecord {
    /// Nothing read yet.
    pub open spec fn nothing() -> PartialRecord {
        PartialRecord {
            version: None,
            request_id: None,
            parent: None,
            identity: None,
            digest: None,
            transition: None,
            reason: None,
            caps_hash: None,
            budget: None,
            usage: None,
            wall_time_ns: None,
            sequence: None,
        }
    }

    /// The record once all entries are read. The reason may be missing; every
    /// other field must be there, and the version must be known.
    pub open spec fn finished(self) -> Result<RecordModel, RecordFault> {
        if self.version is None {
            Err(RecordFault::MissingField("version"@))
        } else if self.version->0 > RECORD_VERSION {
            Err(RecordFault::UnsupportedVersion(self.version->0))
        } else if self.request_id is None {
            Err(RecordFault::MissingField("request_id"@))
        } else if self.parent is None {
            Err(RecordFault::MissingField("parent"@))
        } else if self.identity is None {
            Err(RecordFault::MissingField("identity"@))
        } else if self.digest is None {
            Err(RecordFault::MissingField("digest"@))
        } else if self.transition is None {
            Err(RecordFault::MissingField("transition"@))
        } else if self.caps_hash is None {
            Err(RecordFault::MissingField("caps_hash"@))
        } else if self.budget is None {
            Err(RecordFault::MissingField("budget"@))
        } else if self.usage is None {
            Err(RecordFault::MissingField("usage"@))
        } else if self.wall_time_ns is None {
            Err(RecordFault::MissingField("wall_time_ns"@))
        } else if self.sequence is None {
            Err(RecordFault::MissingField("sequence"@))
        } else {
            Ok(
                RecordModel {
                    version: self.version->0,
                    request_id: self.request_id->0,
                    parent: self.parent->0,
                    identity: self.identity->0,
                    digest: self.digest->0,
                    transition: self.transition->0,
                    reason: match self.reason {
                        Some(s) => fitted(s, REASON_MAX_BYTES as nat),
                        None => Seq::empty(),
                    },
                    caps_hash: self.caps_hash->0,
                    budget: self.budget->0,
                    usage: self.usage->0,
                    wall_time_ns: self.wall_time_ns->0,
                    sequence: self.sequence->0,
                },
            )
        }
    }
}

/// A byte string of exactly `n` bytes.
pub open spec fn get_fixed(b: Seq<u8>, pos: nat, n: nat) -> Result<(Seq<u8>, nat), RecordFault> {
    match cbor::get_bytes(b, pos) {
        Ok((v, at)) => if v.len() == n {
            Ok((v, at))
        } else {
            Err(RecordFault::BadBytesLen { expected: n, got: v.len() })
        },
        Err(m) => Err(RecordFault::Decode(m)),
    }
}

/// A byte string of exactly `n` bytes, or null.
pub open spec fn get_opt_fixed(b: Seq<u8>, pos: nat, n: nat) -> Result<
    (Option<Seq<u8>>, nat),
    RecordFault,
> {
    match cbor::get_kind(b, pos) {
        Err(m) => Err(RecordFault::Decode(m)),
        Ok(kind) => if kind == "Null"@ {
            match cbor::get_null(b, pos) {
                Ok(at) => Ok((None, at)),
                Err(m) => Err(RecordFault::Decode(m)),
            }
        } else {
            match get_fixed(b, pos, n) {
                Ok((v, at)) => Ok((Some(v), at)),
                Err(f) => Err(f),
            }
        },
    }
}

/// Four unsigned integers in a row.
pub open spec fn get_four(b: Seq<u8>, pos: nat) -> Result<(ResourceUsage, nat), RecordFault> {
    match cbor::get_u64(b, pos) {
        Err(m) => Err(RecordFault::Decode(m)),
        Ok((w, p1)) => match cbor::get_u64(b, p1) {
            Err(m) => Err(RecordFault::Decode(m)),
            Ok((x, p2)) => match cbor::get_u64(b, p2) {
                Err(m) => Err(RecordFault::Decode(m)),
                Ok((y, p3)) => match cbor::get_u64(b, p3) {
                    Err(m) => Err(RecordFault::Decode(m)),
                    Ok((z, p4)) => Ok(
                        (
                            ResourceUsage {
                                preempt_ticks: w,
                                wall_clock_ms: x,
                                memory_bytes: y,
                                output_bytes: z,
                            },
                            p4,
                        ),
                    ),
                },
            },
        },
    }
}

/// An array of four unsigned integers, or null.
pub open spec fn get_usage(b: Seq<u8>, pos: nat) -> Result<
    (Option<ResourceUsage>, nat),
    RecordFault,
> {
    match cbor::get_kind(b, pos) {
        Err(m) => Err(RecordFault::Decode(m)),
        Ok(kind) => if kind == "Null"@ {
            match cbor::get_null(b, pos) {
                Ok(at) => Ok((None, at)),
                Err(m) => Err(RecordFault::Decode(m)),
            }
        } else {
            match cbor::get_array(b, pos) {
                Err(m) => Err(RecordFault::Decode(m)),
                Ok((None, _)) => Err(RecordFault::IndefiniteArray),
                Ok((Some(n), at)) => if n != 4 {
                    Err(RecordFault::BadUsageLen(n))
                } else {
                    match get_four(b, at) {
                        Ok((u, end)) => Ok((Some(u), end)),
                        Err(f) => Err(f),
                    }
                },
            }
        },
    }
}

/// `p` after the value under key `k` at a position, and the position behind
/// it. Unknown keys are skipped.
#[verifier::opaque]
pub open spec fn with_value(b: Seq<u8>, pos: nat, k: u8, p: PartialRecord) -> Result<
    (PartialRecord, nat),
    RecordFault,
> {
    if k == record_key::VERSION {
        match cbor::get_u8(b, pos) {
            Ok((v, at)) => Ok((PartialRecord { version: Some(v), ..p }, at)),
            Err(m) => Err(RecordFault::Decode(m)),
        }
    } else if k == record_key::REQUEST_ID {
        match get_fixed(b, pos, 16) {
            Ok((v, at)) => Ok((PartialRecord { request_id: Some(v), ..p }, at)),
            Err(f) => Err(f),
        }
    } else if k == record_key::PARENT {
        match get_opt_fixed(b, pos, 16) {
            Ok((v, at)) => Ok((PartialRecord { parent: Some(v), ..p }, at)),
            Err(f) => Err(f),
        }
    } else if k == record_key::IDENTITY {
        match get_fixed(b, pos, 32) {
            Ok((v, at)) => Ok((PartialRecord { identity: Some(v), ..p }, at)),
            Err(f) => Err(f),
        }
    } else if k == record_key::DIGEST {
        match get_fixed(b, pos, 32) {
            Ok((v, at)) => Ok((PartialRecord { digest: Some(v), ..p }, at)),
            Err(f) => Err(f),
        }
    } else if k == record_key::TRANSITION {
        match cbor::get_u8(b, pos) {
            Ok((v, at)) => match Transition::of_tag(v) {
                Some(t) => Ok((PartialRecord { transition: Some(t), ..p }, at)),
                None => Err(RecordFault::UnknownTransition(v)),
            },
            Err(m) => Err(RecordFault::Decode(m)),
        }
    } else if k == record_key::REASON {
        match cbor::get_str(b, pos) {
            Ok((v, at)) => Ok((PartialRecord { reason: Some(v), ..p }, at)),
            Err(m) => Err(RecordFault::Decode(m)),
        }
    } else if k == record_key::CAPS_HASH {
        match get_opt_fixed(b, pos, 32) {
            Ok((v, at)) => Ok((PartialRecord { caps_hash: Some(v), ..p }, at)),
            Err(f) => Err(f),
        }
    } else if k == record_key::BUDGET {
        match get_usage(b, pos) {
            Ok((v, at)) => Ok((PartialRecord { budget: Some(v), ..p }, at)),
            Err(f) => Err(f),
        }
    } else if k == record_key::USAGE {
        match get_usage(b, pos) {
            Ok((v, at)) => Ok((PartialRecord { usage: Some(v), ..p }, at)),
            Err(f) => Err(f),
        }
    } else if k == record_key::WALL_TIME_NS {
        match cbor::get_u64(b, pos) {
            Ok((v, at)) => Ok((PartialRecord { wall_time_ns: Some(v), ..p }, at)),
            Err(m) => Err(RecordFault::Decode(m)),
        }
    } else if k == record_key::SEQUENCE {
        match cbor::get_u64(b, pos) {
            Ok((v, at)) => Ok((PartialRecord { sequence: Some(v), ..p }, at)),
            Err(m) => Err(RecordFault::Decode(m)),
        }
    } else {
        match cbor::get_skip(b, pos) {
            Ok(at) => Ok((p, at)),
            Err(m) => Err(RecordFault::Decode(m)),
        }
    }
}

/// `p` after one map entry at a position.
pub open spec fn with_entry(b: Seq<u8>, pos: nat, p: PartialRecord) -> Result<
    (PartialRecord, nat),
    RecordFault,
> {
    match cbor::get_u8(b, pos) {
        Ok((k, at)) => with_value(b, at, k, p),
        Err(m) => Err(RecordFault::Decode(m)),
    }
}

/// What is read after `n` map entries from a position. A key that comes again
/// replaces what it gave before.
pub open spec fn after_entries(b: Seq<u8>, start: nat, n: nat) -> Result<
    (PartialRecord, nat),
    RecordFault,
>
    decreases n,
{
    if n == 0 {
        Ok((PartialRecord::nothing(), start))
    } else {
        match after_entries(b, start, (n - 1) as nat) {
            Ok((p, pos)) => with_entry(b, pos, p),
            Err(f) => Err(f),
        }
    }
}

/// The record that bytes hold, or why they hold none. What follows the map is
/// not looked at.
pub open spec fn decoded(b: Seq<u8>) -> Result<RecordModel, RecordFault> {
    match cbor::get_map(b, 0) {
        Err(m) => Err(RecordFault::Decode(m)),
        Ok((None, _)) => Err(RecordFault::IndefiniteMap),
        Ok((Some(n), at)) => match after_entries(b, at, n as nat) {
            Ok((p, _)) => p.finished(),
            Err(f) => Err(f),
        },
    }
}

/// The UTF-8 width of a character.
fn char_width(c: char) -> (r: usize)
    ensures
        r == encode_scalar(c as u32).len(),
        1 <= r <= 4,
{
    let n: u32 = c as u32;
    if n < 0x80 {
        1
    } else if n < 0x800 {
        2
    } else if n < 0x1_0000 {
        3
    } else {
        4
    }
}

proof fn lemma_encode_push(s: Seq<char>, c: char)
    ensures
        encode_utf8(s.push(c)).len() == encode_utf8(s).len() + encode_scalar(c as u32).len(),
{
    let one: Seq<char> = seq![c];
    assert(s.push(c) =~= s + one);
    text::lemma_encode_concat(s, one);
    assert(one.drop_first() =~= Seq::<char>::empty());
    reveal_with_fuel(encode_utf8, 2);
    assert(encode_utf8(one) =~= encode_scalar(c as u32));
}

/// More characters never take fewer bytes.
proof fn lemma_encode_take(s: Seq<char>, n: int)
    requires
        0 <= n <= s.len(),
    ensures
        encode_utf8(s.take(n)).len() <= encode_utf8(s).len(),
{
    assert(s =~= s.take(n) + s.skip(n));
    text::lemma_encode_concat(s.take(n), s.skip(n));
}

/// The longest prefix that fits is the one that one more character breaks.
proof fn lemma_fitted(s: Seq<char>, max: nat, n: int)
    requires
        0 <= n <= s.len(),
        encode_utf8(s.take(n)).len() <= max,
        n == s.len() || encode_utf8(s.take(n + 1)).len() > max,
    ensures
        fitted(s, max) == s.take(n),
    decreases s.len(),
{
    if n == s.len() {
        assert(s.take(n) =~= s);
    } else {
        lemma_encode_take(s, n + 1);
        assert(s.drop_last().take(n) =~= s.take(n));
        if n < s.len() - 1 {
            assert(s.drop_last().take(n + 1) =~= s.take(n + 1));
        }
        lemma_fitted(s.drop_last(), max, n);
    }
}

/// What fits is left alone.
pub proof fn lemma_fitted_short(s: Seq<char>, max: nat)
    ensures
        encode_utf8(s).len() <= max ==> fitted(s, max) == s,
        encode_utf8(fitted(s, max)).len() <= max,
        fitted(s, max).len() <= s.len(),
        fitted(s, max) == s.take(fitted(s, max).len() as int),
    decreases s.len(),
{
    if s.len() == 0 {
        assert(s =~= Seq::<char>::empty());
        assert(encode_utf8(s).len() == 0);
        assert(s.take(0) =~= s);
    } else if encode_utf8(s).len() <= max {
        assert(s.take(s.len() as int) =~= s);
    } else {
        lemma_fitted_short(s.drop_last(), max);
        let f = fitted(s, max);
        assert(s.drop_last().take(f.len() as int) =~= s.take(f.len() as int));
    }
}

/// A reason cut at a character boundary to the maximum number of bytes.
pub fn truncate_reason(reason: String) -> (r: String)
    ensures
        r@ == fitted(reason@, REASON_MAX_BYTES as nat),
{
    let cs = text::chars_of(reason.as_str());
    let mut out = String::new();
    let mut used: usize = 0;
    let mut i: usize = 0;
    assert(cs@.take(0) =~= Seq::<char>::empty());
    while i < cs.len()
        invariant
            cs@ == reason@,
            0 <= i <= cs.len(),
            out@ == cs@.take(i as int),
            used == encode_utf8(cs@.take(i as int)).len(),
            used <= REASON_MAX_BYTES,
        decreases cs.len() - i,
    {
        let w: usize = char_width(cs[i]);
        proof {
            assert(cs@.take(i as int + 1) =~= cs@.take(i as int).push(cs@[i as int]));
            lemma_encode_push(cs@.take(i as int), cs@[i as int]);
        }
        if used + w > REASON_MAX_BYTES {
            proof {
                lemma_fitted(cs@, REASON_MAX_BYTES as nat, i as int);
            }
            return out;
        }
        text::push_char(&mut out, cs[i]);
        used += w;
        i += 1;
    }
    proof {
        lemma_fitted(cs@, REASON_MAX_BYTES as nat, i as int);
    }
    out
}

impl AuditRecord {
    /// Build a v1 record; truncates `reason` to [`REASON_MAX_BYTES`].
    #[must_use]
    #[allow(clippy::too_many_arguments)]
    pub fn new(
        request_id: [u8; 16],
        parent: Option<[u8; 16]>,
        identity: [u8; 32],
        digest: [u8; 32],
        transition: Transition,
        reason: String,
        caps_hash: Option<[u8; 32]>,
        budget: Option<ResourceUsage>,
        usage: Option<ResourceUsage>,
        wall_time_ns: u64,
        sequence: u64,
    ) -> (r: AuditRecord)
        ensures
            r@ == (RecordModel {
                version: RECORD_VERSION,
                request_id: request_id@,
                parent: opt16(parent),
                identity: identity@,
                digest: digest@,
                transition,
                reason: fitted(reason@, REASON_MAX_BYTES as nat),
                caps_hash: opt32(caps_hash),
                budget,
                usage,
                wall_time_ns,
                sequence,
            }),
    {
        AuditRecord {
            version: RECORD_VERSION,
            request_id,
            parent,
            identity,
            digest,
            transition,
            reason: truncate_reason(reason),
            caps_hash,
            budget,
            usage,
            wall_time_ns,
            sequence,
        }
    }

    /// Deterministic CBOR: integer keys ascending, definite lengths, shortest
    /// integers. All twelve keys are always there, so re-encoding after
    /// decoding is byte-identical.
    pub fn encode_cbor(&self) -> (r: Result<Vec<u8>, RecordError>)
        ensures
            r matches Ok(b) && b@ == self@.encoded(),
    {
        let ghost m = self@;
        let ghost whole = m.encoded();
        let mut out: Vec<u8> = Vec::new();
        cbor::put_map(&mut out, 12);
        assert(out@ + m.entries(0) =~= whole);
        cbor::put_u8(&mut out, record_key::VERSION);
        cbor::put_u8(&mut out, self.version);
        proof {
            lemma_next_entry(m, 0, cbor::head(5, 12), out@, whole);
        }
        let ghost before = out@;
        cbor::put_u8(&mut out, record_key::REQUEST_ID);
        cbor::put_bytes(&mut out, self.request_id.as_slice());
        proof {
            lemma_next_entry(m, 1, before, out@, whole);
        }
        let ghost before = out@;
        cbor::put_u8(&mut out, record_key::PARENT);
        match &self.parent {
            Some(p) => cbor::put_bytes(&mut out, p.as_slice()),
            None => cbor::put_null(&mut out),
        }
        proof {
            lemma_next_entry(m, 2, before, out@, whole);
        }
        let ghost before = out@;
        cbor::put_u8(&mut out, record_key::IDENTITY);
        cbor::put_bytes(&mut out, self.identity.as_slice());
        proof {
            lemma_next_entry(m, 3, before, out@, whole);
        }
        let ghost before = out@;
        cbor::put_u8(&mut out, record_key::DIGEST);
        cbor::put_bytes(&mut out, self.digest.as_slice());
        proof {
            lemma_next_entry(m, 4, before, out@, whole);
        }
        let ghost before = out@;
        cbor::put_u8(&mut out, record_key::TRANSITION);
        cbor::put_u8(&mut out, self.transition.tag());
        proof {
            lemma_next_entry(m, 5, before, out@, whole);
        }
        let ghost before = out@;
        cbor::put_u8(&mut out, record_key::REASON);
        cbor::put_str(&mut out, self.reason.as_str());
        proof {
            lemma_next_entry(m, 6, before, out@, whole);
        }
        let ghost before = out@;
        cbor::put_u8(&mut out, record_key::CAPS_HASH);
        match &self.caps_hash {
            Some(h) => cbor::put_bytes(&mut out, h.as_slice()),
            None => cbor::put_null(&mut out),
        }
        proof {
            lemma_next_entry(m, 7, before, out@, whole);
        }
        let ghost before = out@;
        cbor::put_u8(&mut out, record_key::BUDGET);
        encode_usage_opt(&mut out, self.budget);
        proof {
            lemma_next_entry(m, 8, before, out@, whole);
        }
        let ghost before = out@;
        cbor::put_u8(&mut out, record_key::USAGE);
        encode_usage_opt(&mut out, self.usage);
        proof {
            lemma_next_entry(m, 9, before, out@, whole);
        }
        let ghost before = out@;
        cbor::put_u8(&mut out, record_key::WALL_TIME_NS);
        cbor::put_u64(&mut out, self.wall_time_ns);
        proof {
            lemma_next_entry(m, 10, before, out@, whole);
        }
        let ghost before = out@;
        cbor::put_u8(&mut out, record_key::SEQUENCE);
        cbor::put_u64(&mut out, self.sequence);
        proof {
            lemma_next_entry(m, 11, before, out@, whole);
            assert(m.entries(12) =~= Seq::<u8>::empty());
            assert(out@ =~= whole);
        }
        Ok(out)
    }

    /// Decode a CBOR record map. Ignores unknown keys; rejects versions above
    /// [`RECORD_VERSION`].
    pub fn decode_cbor(bytes: &[u8]) -> (r: Result<AuditRecord, RecordError>)
        ensures
            match (r, decoded(bytes@)) {
                (Ok(x), Ok(m)) => x@ == m,
                (Err(e), Err(f)) => e@ == f,
                _ => false,
            },
    {
        let (len, start): (u64, usize) = match cbor::read_map(bytes, 0) {
            Ok((Some(n), at)) => (n, at),
            Ok((None, _)) => {
                return Err(RecordError::IndefiniteMap);
            },
            Err(m) => {
                return Err(RecordError::Decode(m));
            },
        };
        let mut fields = Fields::nothing();
        let mut pos: usize = start;
        let mut i: u64 = 0;
        while i < len
            invariant
                0 <= i <= len,
                pos <= bytes@.len(),
                cbor::get_map(bytes@, 0) == Ok::<(Option<u64>, nat), Seq<char>>(
                    (Some(len), start as nat),
                ),
                after_entries(bytes@, start as nat, i as nat) == Ok::<
                    (PartialRecord, nat),
                    RecordFault,
                >((fields@, pos as nat)),
            decreases len - i,
        {
            match read_entry(bytes, pos, &mut fields) {
                Ok(at) => {
                    pos = at;
                },
                Err(e) => {
                    proof {
                        lemma_after_error(
                            bytes@,
                            start as nat,
                            i as nat + 1,
                            len as nat,
                        );
                    }
                    return Err(e);
                },
            }
            i += 1;
        }
        fields.finish()
    }
}

/// The next entry has been appended.
proof fn lemma_next_entry(m: RecordModel, k: nat, before: Seq<u8>, after: Seq<u8>, whole: Seq<u8>)
    requires
        k < 12,
        before + m.entries(k) == whole,
        after == before + cbor::uint(k) + m.value(k),
    ensures
        after + m.entries(k + 1) == whole,
{
    assert(after + m.entries(k + 1) =~= before + (cbor::uint(k) + (m.value(k) + m.entries(k + 1))));
}

/// Once reading has failed it stays failed.
proof fn lemma_after_error(b: Seq<u8>, start: nat, k: nat, n: nat)
    requires
        k <= n,
        after_entries(b, start, k) is Err,
    ensures
        after_entries(b, start, n) == after_entries(b, start, k),
    decreases n,
{
    if k < n {
        lemma_after_error(b, start, k, (n - 1) as nat);
    }
}

fn encode_usage_opt(out: &mut Vec<u8>, usage: Option<ResourceUsage>)
    ensures
        final(out)@ == old(out)@ + usage_or_null(usage),
{
    match usage {
        None => cbor::put_null(out),
        Some(u) => {
            cbor::put_array(out, 4);
            cbor::put_u64(out, u.preempt_ticks);
            cbor::put_u64(out, u.wall_clock_ms);
            cbor::put_u64(out, u.memory_bytes);
            cbor::put_u64(out, u.output_bytes);
            assert(out@ =~= old(out)@ + usage_or_null(usage));
        },
    }
}

/// The fields read so far.
struct Fields {
    version: Option<u8>,
    request_id: Option<[u8; 16]>,
    parent: Option<Option<[u8; 16]>>,
    identity: Option<[u8; 32]>,
    digest: Option<[u8; 32]>,
    transition: Option<Transition>,
    reason: Option<String>,
    caps_hash: Option<Option<[u8; 32]>>,
    budget: Option<Option<ResourceUsage>>,
    usage: Option<Option<ResourceUsage>>,
    wall_time_ns: Option<u64>,
    sequence: Option<u64>,
}

impl View for Fields {
    type V = PartialRecord;

    closed spec fn view(&self) -> PartialRecord {
        PartialRecord {
            version: self.version,
            request_id: opt16(self.request_id),
            parent: match self.parent {
                Some(p) => Some(opt16(p)),
                None => None,
            },
            identity: opt32(self.identity),
            digest: opt32(self.digest),
            transition: self.transition,
            reason: match self.reason {
                Some(s) => Some(s@),
                None => None,
            },
            caps_hash: match self.caps_hash {
                Some(h) => Some(opt32(h)),
                None => None,
            },
            budget: self.budget,
            usage: self.usage,
            wall_time_ns: self.wall_time_ns,
            sequence: self.sequence,
        }
    }
}

impl Fields {
    fn nothing() -> (r: Fields)
        ensures
            r@ == PartialRecord::nothing(),
    {
        Fields {
            version: None,
            request_id: None,
            parent: None,
            identity: None,
            digest: None,
            transition: None,
            reason: None,
            caps_hash: None,
            budget: None,
            usage: None,
            wall_time_ns: None,
            sequence: None,
        }
    }

    fn finish(self) -> (r: Result<AuditRecord, RecordError>)
        ensures
            match (r, self@.finished()) {
                (Ok(x), Ok(m)) => x@ == m,
                (Err(e), Err(f)) => e@ == f,
                _ => false,
            },
    {
        let version: u8 = match self.version {
            Some(v) => v,
            None => {
                return Err(RecordError::MissingField("version"));
            },
        };
        if version > RECORD_VERSION {
            return Err(RecordError::UnsupportedVersion(version));
        }
        let reason = match self.reason {
            Some(s) => truncate_reason(s),
            None => String::new(),
        };
        let request_id = match self.request_id {
            Some(v) => v,
            None => {
                return Err(RecordError::MissingField("request_id"));
            },
        };
        let parent = match self.parent {
            Some(v) => v,
            None => {
                return Err(RecordError::MissingField("parent"));
            },
        };
        let identity = match self.identity {
            Some(v) => v,
            None => {
                return Err(RecordError::MissingField("identity"));
            },
        };
        let digest = match self.digest {
            Some(v) => v,
            None => {
                return Err(RecordError::MissingField("digest"));
            },
        };
        let transition = match self.transition {
            Some(v) => v,
            None => {
                return Err(RecordError::MissingField("transition"));
            },
        };
        let caps_hash = match self.caps_hash {
            Some(v) => v,
            None => {
                return Err(RecordError::MissingField("caps_hash"));
            },
        };
        let budget = match self.budget {
            Some(v) => v,
            None => {
                return Err(RecordError::MissingField("budget"));
            },
        };
        let usage = match self.usage {
            Some(v) => v,
            None => {
                return Err(RecordError::MissingField("usage"));
            },
        };
        let wall_time_ns: u64 = match self.wall_time_ns {
            Some(v) => v,
            None => {
                return Err(RecordError::MissingField("wall_time_ns"));
            },
        };
        let sequence: u64 = match self.sequence {
            Some(v) => v,
            None => {
                return Err(RecordError::MissingField("sequence"));
            },
        };
        Ok(
            AuditRecord {
                version,
                request_id,
                parent,
                identity,
                digest,
                transition,
                reason,
                caps_hash,
                budget,
                usage,
                wall_time_ns,
                sequence,
            },
        )
    }
}

fn read_fixed(b: &[u8], pos: usize, n: usize) -> (r: Result<(Vec<u8>, usize), RecordError>)
    requires
        pos <= b@.len(),
    ensures
        match (r, get_fixed(b@, pos as nat, n as nat)) {
            (Ok((v, end)), Ok((w, at))) => v@ == w && end == at && end <= b@.len() && v@.len() == n,
            (Err(e), Err(f)) => e@ == f,
            _ => false,
        },
{
    match cbor::read_bytes(b, pos) {
        Ok((v, at)) => {
            if v.len() != n {
                return Err(RecordError::BadBytesLen { expected: n, got: v.len() });
            }
            Ok((v, at))
        },
        Err(m) => Err(RecordError::Decode(m)),
    }
}

fn read_opt_fixed(b: &[u8], pos: usize, n: usize) -> (r: Result<
    (Option<Vec<u8>>, usize),
    RecordError,
>)
    requires
        pos <= b@.len(),
    ensures
        match (r, get_opt_fixed(b@, pos as nat, n as nat)) {
            (Ok((Some(v), end)), Ok((Some(w), at))) => v@ == w && end == at && end <= b@.len()
                && v@.len() == n,
            (Ok((None, end)), Ok((None, at))) => end == at && end <= b@.len(),
            (Err(e), Err(f)) => e@ == f,
            _ => false,
        },
{
    let kind = match cbor::read_datatype(b, pos) {
        Ok(k) => k,
        Err(m) => {
            return Err(RecordError::Decode(m));
        },
    };
    if text::str_eq(kind.as_str(), "Null") {
        return match cbor::read_null(b, pos) {
            Ok(at) => Ok((None, at)),
            Err(m) => Err(RecordError::Decode(m)),
        };
    }
    match read_fixed(b, pos, n) {
        Ok((v, at)) => Ok((Some(v), at)),
        Err(e) => Err(e),
    }
}

fn decode_usage_opt(b: &[u8], pos: usize) -> (r: Result<
    (Option<ResourceUsage>, usize),
    RecordError,
>)
    requires
        pos <= b@.len(),
    ensures
        match (r, get_usage(b@, pos as nat)) {
            (Ok((v, end)), Ok((w, at))) => v == w && end == at && end <= b@.len(),
            (Err(e), Err(f)) => e@ == f,
            _ => false,
        },
{
    let kind = match cbor::read_datatype(b, pos) {
        Ok(k) => k,
        Err(m) => {
            return Err(RecordError::Decode(m));
        },
    };
    if text::str_eq(kind.as_str(), "Null") {
        return match cbor::read_null(b, pos) {
            Ok(at) => Ok((None, at)),
            Err(m) => Err(RecordError::Decode(m)),
        };
    }
    let (n, at): (u64, usize) = match cbor::read_array(b, pos) {
        Ok((Some(n), at)) => (n, at),
        Ok((None, _)) => {
            return Err(RecordError::IndefiniteArray);
        },
        Err(m) => {
            return Err(RecordError::Decode(m));
        },
    };
    if n != 4 {
        return Err(RecordError::BadUsageLen(n));
    }
    let (w, p1): (u64, usize) = match cbor::read_u64(b, at) {
        Ok(v) => v,
        Err(m) => {
            return Err(RecordError::Decode(m));
        },
    };
    let (x, p2): (u64, usize) = match cbor::read_u64(b, p1) {
        Ok(v) => v,
        Err(m) => {
            return Err(RecordError::Decode(m));
        },
    };
    let (y, p3): (u64, usize) = match cbor::read_u64(b, p2) {
        Ok(v) => v,
        Err(m) => {
            return Err(RecordError::Decode(m));
        },
    };
    let (z, p4): (u64, usize) = match cbor::read_u64(b, p3) {
        Ok(v) => v,
        Err(m) => {
            return Err(RecordError::Decode(m));
        },
    };
    Ok((Some(ResourceUsage::new(w, x, y, z)), p4))
}

/// Reads one map entry into the fields.
fn read_entry(b: &[u8], pos: usize, fields: &mut Fields) -> (r: Result<usize, RecordError>)
    requires
        pos <= b@.len(),
    ensures
        match (r, with_entry(b@, pos as nat, old(fields)@)) {
            (Ok(end), Ok((p, at))) => final(fields)@ == p && end == at && end <= b@.len(),
            (Err(e), Err(f)) => e@ == f,
            _ => false,
        },
{
    let (key, at): (u8, usize) = match cbor::read_u8(b, pos) {
        Ok(v) => v,
        Err(m) => {
            return Err(RecordError::Decode(m));
        },
    };
    proof {
        reveal(with_value);
    }
    if key == record_key::VERSION {
        match cbor::read_u8(b, at) {
            Ok((v, end)) => {
                fields.version = Some(v);
                Ok(end)
            },
            Err(m) => Err(RecordError::Decode(m)),
        }
    } else if key == record_key::REQUEST_ID {
        match read_fixed(b, at, 16) {
            Ok((v, end)) => {
                fields.request_id = Some(array16(v.as_slice()));
                Ok(end)
            },
            Err(e) => Err(e),
        }
    } else if key == record_key::PARENT {
        match read_opt_fixed(b, at, 16) {
            Ok((Some(v), end)) => {
                fields.parent = Some(Some(array16(v.as_slice())));
                Ok(end)
            },
            Ok((None, end)) => {
                fields.parent = Some(None);
                Ok(end)
            },
            Err(e) => Err(e),
        }
    } else if key == record_key::IDENTITY {
        match read_fixed(b, at, 32) {
            Ok((v, end)) => {
                fields.identity = Some(array32(v.as_slice()));
                Ok(end)
            },
            Err(e) => Err(e),
        }
    } else if key == record_key::DIGEST {
        match read_fixed(b, at, 32) {
            Ok((v, end)) => {
                fields.digest = Some(array32(v.as_slice()));
                Ok(end)
            },
            Err(e) => Err(e),
        }
    } else if key == record_key::TRANSITION {
        match cbor::read_u8(b, at) {
            Ok((v, end)) => match Transition::from_tag(v) {
                Ok(t) => {
                    fields.transition = Some(t);
                    Ok(end)
                },
                Err(e) => Err(e),
            },
            Err(m) => Err(RecordError::Decode(m)),
        }
    } else if key == record_key::REASON {
        match cbor::read_str(b, at) {
            Ok((v, end)) => {
                fields.reason = Some(v);
                Ok(end)
            },
            Err(m) => Err(RecordError::Decode(m)),
        }
    } else if key == record_key::CAPS_HASH {
        match read_opt_fixed(b, at, 32) {
            Ok((Some(v), end)) => {
                fields.caps_hash = Some(Some(array32(v.as_slice())));
                Ok(end)
            },
            Ok((None, end)) => {
                fields.caps_hash = Some(None);
                Ok(end)
            },
            Err(e) => Err(e),
        }
    } else if key == record_key::BUDGET {
        match decode_usage_opt(b, at) {
            Ok((v, end)) => {
                fields.budget = Some(v);
                Ok(end)
            },
            Err(e) => Err(e),
        }
    } else if key == record_key::USAGE {
        match decode_usage_opt(b, at) {
            Ok((v, end)) => {
                fields.usage = Some(v);
                Ok(end)
            },
            Err(e) => Err(e),
        }
    } else if key == record_key::WALL_TIME_NS {
        match cbor::read_u64(b, at) {
            Ok((v, end)) => {
                fields.wall_time_ns = Some(v);
                Ok(end)
            },
            Err(m) => Err(RecordError::Decode(m)),
        }
    } else if key == record_key::SEQUENCE {
        match cbor::read_u64(b, at) {
            Ok((v, end)) => {
                fields.sequence = Some(v);
                Ok(end)
            },
            Err(m) => Err(RecordError::Decode(m)),
        }
    } else {
        match cbor::step_over(b, at) {
            Ok(end) => Ok(end),
            Err(m) => Err(RecordError::Decode(m)),
        }
    }
}

impl RecordModel {
    /// The fields under keys below `k`.
    spec fn filled(self, k: nat) -> PartialRecord {
        PartialRecord {
            version: if k > 0 {
                Some(self.version)
            } else {
                None
            },
            request_id: if k > 1 {
                Some(self.request_id)
            } else {
                None
            },
            parent: if k > 2 {
                Some(self.parent)
            } else {
                None
            },
            identity: if k > 3 {
                Some(self.identity)
            } else {
                None
            },
            digest: if k > 4 {
                Some(self.digest)
            } else {
                None
            },
            transition: if k > 5 {
                Some(self.transition)
            } else {
                None
            },
            reason: if k > 6 {
                Some(self.reason)
            } else {
                None
            },
            caps_hash: if k > 7 {
                Some(self.caps_hash)
            } else {
                None
            },
            budget: if k > 8 {
                Some(self.budget)
            } else {
                None
            },
            usage: if k > 9 {
                Some(self.usage)
            } else {
                None
            },
            wall_time_ns: if k > 10 {
                Some(self.wall_time_ns)
            } else {
                None
            },
            sequence: if k > 11 {
                Some(self.sequence)
            } else {
                None
            },
        }
    }
}

proof fn lemma_get_opt_fixed(b: Seq<u8>, pos: nat, v: Option<Seq<u8>>, n: nat, rest: Seq<u8>)
    requires
        pos <= b.len(),
        v matches Some(x) ==> x.len() == n,
        n <= 32,
        cbor::from(b, pos) == blob_or_null(v) + rest,
    ensures
        get_opt_fixed(b, pos, n) == Ok::<(Option<Seq<u8>>, nat), RecordFault>(
            (v, pos + blob_or_null(v).len()),
        ),
        pos + blob_or_null(v).len() <= b.len(),
        cbor::from(b, pos + blob_or_null(v).len()) == rest,
{
    match v {
        Some(x) => {
            cbor::lemma_get_bytes(b, pos, x, rest);
            reveal_strlit("Bytes");
            reveal_strlit("Null");
            assert("Bytes"@.len() != "Null"@.len());
        },
        None => {
            cbor::lemma_get_null(b, pos, rest);
        },
    }
}

#[verifier::spinoff_prover]
proof fn lemma_get_usage(b: Seq<u8>, pos: nat, v: Option<ResourceUsage>, rest: Seq<u8>)
    requires
        pos <= b.len(),
        cbor::from(b, pos) == usage_or_null(v) + rest,
    ensures
        get_usage(b, pos) == Ok::<(Option<ResourceUsage>, nat), RecordFault>(
            (v, pos + usage_or_null(v).len()),
        ),
        pos + usage_or_null(v).len() <= b.len(),
        cbor::from(b, pos + usage_or_null(v).len()) == rest,
{
    match v {
        Some(x) => {
            let w = cbor::uint(x.preempt_ticks as nat);
            let y = cbor::uint(x.wall_clock_ms as nat);
            let m = cbor::uint(x.memory_bytes as nat);
            let o = cbor::uint(x.output_bytes as nat);
            let h = cbor::head(4, 4);
            cbor::lemma_assoc(h, w + (y + (m + o)), rest);
            cbor::lemma_assoc(w, y + (m + o), rest);
            cbor::lemma_assoc(y, m + o, rest);
            cbor::lemma_assoc(m, o, rest);
            cbor::lemma_get_array(b, pos, 4, w + (y + (m + (o + rest))));
            reveal_strlit("Array");
            reveal_strlit("Null");
            assert("Array"@.len() != "Null"@.len());
            let p1 = pos + h.len();
            cbor::lemma_get_uint(b, p1, x.preempt_ticks as nat, y + (m + (o + rest)));
            let p2 = p1 + w.len();
            cbor::lemma_get_uint(b, p2, x.wall_clock_ms as nat, m + (o + rest));
            let p3 = p2 + y.len();
            cbor::lemma_get_uint(b, p3, x.memory_bytes as nat, o + rest);
            let p4 = p3 + m.len();
            cbor::lemma_get_uint(b, p4, x.output_bytes as nat, rest);
        },
        None => {
            cbor::lemma_get_null(b, pos, rest);
        },
    }
}

proof fn lemma_with_value(m: RecordModel, b: Seq<u8>, pos: nat, k: nat, rest: Seq<u8>)
    requires
        k < 12,
        pos <= b.len(),
        m.sized(),
        encode_utf8(m.reason).len() <= u64::MAX,
        cbor::from(b, pos) == m.value(k) + rest,
    ensures
        with_value(b, pos, k as u8, m.filled(k)) == Ok::<(PartialRecord, nat), RecordFault>(
            (m.filled(k + 1), pos + m.value(k).len()),
        ),
        pos + m.value(k).len() <= b.len(),
        cbor::from(b, pos + m.value(k).len()) == rest,
{
    reveal(with_value);
    if k == 0 {
        cbor::lemma_get_uint(b, pos, m.version as nat, rest);
    } else if k == 1 {
        cbor::lemma_get_bytes(b, pos, m.request_id, rest);
    } else if k == 2 {
        lemma_get_opt_fixed(b, pos, m.parent, 16, rest);
    } else if k == 3 {
        cbor::lemma_get_bytes(b, pos, m.identity, rest);
    } else if k == 4 {
        cbor::lemma_get_bytes(b, pos, m.digest, rest);
    } else if k == 5 {
        cbor::lemma_get_uint(b, pos, m.transition.spec_tag() as nat, rest);
    } else if k == 6 {
        cbor::lemma_get_str(b, pos, m.reason, rest);
    } else if k == 7 {
        lemma_get_opt_fixed(b, pos, m.caps_hash, 32, rest);
    } else if k == 8 {
        lemma_get_usage(b, pos, m.budget, rest);
    } else if k == 9 {
        lemma_get_usage(b, pos, m.usage, rest);
    } else if k == 10 {
        cbor::lemma_get_uint(b, pos, m.wall_time_ns as nat, rest);
    } else {
        cbor::lemma_get_uint(b, pos, m.sequence as nat, rest);
    }
}

proof fn lemma_after_encoded(m: RecordModel, b: Seq<u8>, start: nat, k: nat, rest: Seq<u8>) -> (pos:
    nat)
    requires
        k <= 12,
        start <= b.len(),
        m.sized(),
        encode_utf8(m.reason).len() <= u64::MAX,
        cbor::from(b, start) == m.entries(0) + rest,
    ensures
        after_entries(b, start, k) == Ok::<(PartialRecord, nat), RecordFault>((m.filled(k), pos)),
        pos <= b.len(),
        cbor::from(b, pos) == m.entries(k) + rest,
    decreases k,
{
    if k == 0 {
        start
    } else {
        let j = (k - 1) as nat;
        let at = lemma_after_encoded(m, b, start, j, rest);
        assert(m.entries(j) + rest =~= cbor::uint(j) + (m.value(j) + (m.entries(k) + rest)));
        cbor::lemma_get_uint(b, at, j, m.value(j) + (m.entries(k) + rest));
        let mid = at + cbor::uint(j).len();
        lemma_with_value(m, b, mid, j, m.entries(k) + rest);
        mid + m.value(j).len()
    }
}

/// All the fields of a record make the record.
proof fn lemma_all_filled(m: RecordModel)
    requires
        m.version <= RECORD_VERSION,
        encode_utf8(m.reason).len() <= REASON_MAX_BYTES,
    ensures
        m.filled(12).finished() == Ok::<RecordModel, RecordFault>(m),
{
    lemma_fitted_short(m.reason, REASON_MAX_BYTES as nat);
}

/// A record reads back from its encoding, whatever follows it: encoding what
/// was read gives the same bytes again.
#[verifier::spinoff_prover]
#[verifier::rlimit(40)]
pub proof fn record_round_trip(m: RecordModel, rest: Seq<u8>)
    requires
        m.sized(),
        m.version <= RECORD_VERSION,
        encode_utf8(m.reason).len() <= REASON_MAX_BYTES,
    ensures
        decoded(m.encoded() + rest) == Ok::<RecordModel, RecordFault>(m),
{
    let b = m.encoded() + rest;
    let start = lemma_map_head(m.encoded(), m.entries(0), rest);
    let pos = lemma_after_encoded(m, b, start, 12, rest);
    lemma_all_filled(m);
}

/// The map head of an encoded record is read back.
proof fn lemma_map_head(whole: Seq<u8>, entries: Seq<u8>, rest: Seq<u8>) -> (start: nat)
    requires
        whole == cbor::head(5, 12) + entries,
    ensures
        cbor::get_map(whole + rest, 0) == Ok::<(Option<u64>, nat), Seq<char>>(
            (Some(12u64), start),
        ),
        start <= (whole + rest).len(),
        cbor::from(whole + rest, start) == entries + rest,
{
    let b = whole + rest;
    assert(cbor::from(b, 0) =~= cbor::head(5, 12) + (entries + rest));
    cbor::lemma_get_map(b, 0, 12, entries + rest);
    cbor::head(5, 12).len()
}

/// A reason never takes more than the maximum number of bytes, and what is
/// kept is a prefix.
pub proof fn reason_is_bounded(s: Seq<char>)
    ensures
        encode_utf8(fitted(s, REASON_MAX_BYTES as nat)).len() <= REASON_MAX_BYTES,
        fitted(s, REASON_MAX_BYTES as nat) == s.take(
            fitted(s, REASON_MAX_BYTES as nat).len() as int,
        ),
{
    lemma_fitted_short(s, REASON_MAX_BYTES as nat);
}

/// A record of a newer version is refused, with its version.
pub proof fn newer_records_are_refused(m: RecordModel, rest: Seq<u8>)
    requires
        m.sized(),
        m.version > 1,
        encode_utf8(m.reason).len() <= u64::MAX,
    ensures
        decoded(m.encoded() + rest) == Err::<RecordModel, RecordFault>(
            RecordFault::UnsupportedVersion(m.version),
        ),
{
    let b = m.encoded() + rest;
    let start = lemma_map_head(m.encoded(), m.entries(0), rest);
    let pos = lemma_after_encoded(m, b, start, 12, rest);
}

/// A record with a reason that is too long is read with the start of it.
pub proof fn long_reasons_are_cut(m: RecordModel, rest: Seq<u8>)
    requires
        m.sized(),
        m.version <= 1,
        encode_utf8(m.reason).len() <= u64::MAX,
    ensures
        decoded(m.encoded() + rest) matches Ok(r) && r == (RecordModel { reason: r.reason, ..m })
            && encode_utf8(r.reason).len() <= 256 && r.reason == m.reason.take(
            r.reason.len() as int,
        ) && (encode_utf8(m.reason).len() <= 256 ==> r.reason == m.reason),
{
    let b = m.encoded() + rest;
    let start = lemma_map_head(m.encoded(), m.entries(0), rest);
    let pos = lemma_after_encoded(m, b, start, 12, rest);
    lemma_fitted_short(m.reason, REASON_MAX_BYTES as nat);
}

/// What is read is in bounds: the version is known and the reason is short.
pub proof fn read_records_are_in_bounds(b: Seq<u8>)
    requires
        decoded(b) is Ok,
    ensures
        decoded(b)->Ok_0.version <= 1,
        encode_utf8(decoded(b)->Ok_0.reason).len() <= 256,
{
    let (n, at) = cbor::get_map(b, 0)->Ok_0;
    let (p, end) = after_entries(b, at, n->0 as nat)->Ok_0;
    if p.reason is Some {
        lemma_fitted_short(p.reason->0, REASON_MAX_BYTES as nat);
    } else {
        assert(encode_utf8(Seq::<char>::empty()).len() == 0);
    }
}

/// As much of a reason is kept as fits: no longer start of it does.
pub proof fn as_much_as_fits_is_kept(s: Seq<char>, n: int)
    requires
        0 <= n <= s.len(),
        encode_utf8(s.take(n)).len() <= 256,
    ensures
        n <= fitted(s, REASON_MAX_BYTES as nat).len(),
        encode_utf8(s).len() <= 256 ==> fitted(s, REASON_MAX_BYTES as nat) == s,
    decreases s.len(),
{
    lemma_fitted_short(s, REASON_MAX_BYTES as nat);
    if s.len() > 0 && encode_utf8(s).len() > 256 {
        assert(s.take(s.len() as int) =~= s);
        assert(n < s.len());
        assert(s.drop_last().take(n) =~= s.take(n));
        as_much_as_fits_is_kept(s.drop_last(), n);
    }
}

/// The numbers under which a record's fields are written.
pub proof fn record_fields_have_these_keys(m: RecordModel)
    ensures
        m.encoded()[0] == 0xac,
        m.value(0) == cbor::uint(m.version as nat),
        m.value(1) == cbor::blob(m.request_id),
        m.value(2) == match m.parent {
            Some(p) => cbor::blob(p),
            None => seq![0xf6u8],
        },
        m.value(3) == cbor::blob(m.identity),
        m.value(4) == cbor::blob(m.digest),
        m.value(5) == seq![m.transition.spec_tag()],
        m.value(6) == cbor::text(m.reason),
        m.value(7) == match m.caps_hash {
            Some(h) => cbor::blob(h),
            None => seq![0xf6u8],
        },
        m.budget is None ==> m.value(8) == seq![0xf6u8],
        m.usage is None ==> m.value(9) == seq![0xf6u8],
        m.value(10) == cbor::uint(m.wall_time_ns as nat),
        m.value(11) == cbor::uint(m.sequence as nat),
        forall|k: nat|
            k < 12 ==> #[trigger] m.entries(k) == seq![k as u8] + (m.value(k) + m.entries(k + 1)),
        m.entries(12).len() == 0,
        m.encoded() == seq![0xacu8] + m.entries(0),
{
    assert(cbor::head(5, 12) =~= seq![0xacu8]);
    assert(cbor::null() =~= seq![0xf6u8]);
    assert(cbor::uint(m.transition.spec_tag() as nat) =~= seq![m.transition.spec_tag()]);
    assert forall|k: nat| k < 12 implies #[trigger] m.entries(k) == seq![k as u8] + (m.value(k)
        + m.entries(k + 1)) by {
        assert(cbor::uint(k) =~= seq![k as u8]);
    }
}

/// The numbers of the transitions, in the order in which a request goes
/// through them.
pub proof fn transitions_have_these_tags()
    ensures
        Transition::Received.spec_tag() == 0,
        Transition::Authenticated.spec_tag() == 1,
        Transition::AuthFailed.spec_tag() == 2,
        Transition::Authorized.spec_tag() == 3,
        Transition::Rejected.spec_tag() == 4,
        Transition::Denied.spec_tag() == 5,
        Transition::DelegationRefused.spec_tag() == 6,
        Transition::Granted.spec_tag() == 7,
        Transition::Provisioned.spec_tag() == 8,
        Transition::Running.spec_tag() == 9,
        Transition::Completed.spec_tag() == 10,
        Transition::ToolError.spec_tag() == 11,
        Transition::Failed.spec_tag() == 12,
        Transition::Killed.spec_tag() == 13,
        Transition::Described.spec_tag() == 14,
        forall|tag: u8| tag > 14 ==> #[trigger] Transition::of_tag(tag) is None,
{
}

/// Usage is written as its four numbers: ticks, time, memory and output.
pub proof fn usage_is_four_numbers(u: ResourceUsage)
    ensures
        usage_or_null(Some(u)) == seq![0x84u8] + (cbor::uint(u.preempt_ticks as nat) + (cbor::uint(
            u.wall_clock_ms as nat,
        ) + (cbor::uint(u.memory_bytes as nat) + cbor::uint(u.output_bytes as nat)))),
{
    assert(cbor::head(4, 4) =~= seq![0x84u8]);
}

/// A record says its fields, and what is not there is not there.
pub proof fn records_say_their_fields(r: AuditRecord, a: [u8; 16], h: [u8; 32])
    ensures
        r@.version == r.version,
        r@.request_id == r.request_id@,
        r@.identity == r.identity@,
        r@.digest == r.digest@,
        r@.transition == r.transition,
        r@.reason == r.reason@,
        r@.budget == r.budget,
        r@.usage == r.usage,
        r@.wall_time_ns == r.wall_time_ns,
        r@.sequence == r.sequence,
        r.parent == Some(a) ==> r@.parent == Some(a@),
        r.parent is None ==> r@.parent is None,
        r.caps_hash == Some(h) ==> r@.caps_hash == Some(h@),
        r.caps_hash is None ==> r@.caps_hash is None,
{
}

} // verus!
