//! Tail exporter: groups records by request into invocation spans.
//!
//! Records are read from the log as it grows, across rotations. All records of
//! one request, up to its terminal transition, become one span with one event
//! per record. Lag is the number of records seen but not yet exported.
use super::frame::{FrameError, FrameFault};
use super::record::Transition;
use crate::text;
use vstd::prelude::*;
use vstd::utf8::*;

pub mod group;
pub mod span;
pub mod tail;

verus! {

/// One transition event attached to an invocation span.
#[derive(Clone, Debug, PartialEq, Eq)]
pub struct ExportedEvent {
    pub transition: Transition,
    pub reason: String,
    pub wall_time_ns: u64,
    pub sequence: u64,
    pub caps_hash: Option<[u8; 32]>,
}

/// What an [`ExportedEvent`] says.
pub ghost struct EventModel {
    pub transition: Transition,
    pub reason: Seq<char>,
    pub wall_time_ns: u64,
    pub sequence: u64,
    pub caps_hash: Option<Seq<u8>>,
}

impl View for ExportedEvent {
    type V = EventModel;

    open spec fn view(&self) -> EventModel {
        EventModel {
            transition: self.transition,
            reason: self.reason@,
            wall_time_ns: self.wall_time_ns,
            sequence: self.sequence,
            caps_hash: super::record::opt32(self.caps_hash),
        }
    }
}

/// What events say.
pub open spec fn event_models(v: Seq<ExportedEvent>) -> Seq<EventModel> {
    Seq::new(v.len(), |i: int| v[i]@)
}

/// One invocation span ready for export (terminal transition observed).
#[derive(Clone, Debug, PartialEq, Eq)]
pub struct ExportedInvocation {
    pub request_id: [u8; 16],
    pub parent: Option<[u8; 16]>,
    pub identity: [u8; 32],
    pub digest: [u8; 32],
    pub events: Vec<ExportedEvent>,
    pub start_time_ns: u64,
    pub end_time_ns: u64,
    pub terminal: Transition,
}

/// What an [`ExportedInvocation`] says.
pub ghost struct InvocationModel {
    pub request_id: Seq<u8>,
    pub parent: Option<Seq<u8>>,
    pub identity: Seq<u8>,
    pub digest: Seq<u8>,
    pub events: Seq<EventModel>,
    pub start_time_ns: u64,
    pub end_time_ns: u64,
    pub terminal: Transition,
}

impl View for ExportedInvocation {
    type V = InvocationModel;

    open spec fn view(&self) -> InvocationModel {
        InvocationModel {
            request_id: self.request_id@,
            parent: super::record::opt16(self.parent),
            identity: self.identity@,
            digest: self.digest@,
            events: event_models(self.events@),
            start_time_ns: self.start_time_ns,
            end_time_ns: self.end_time_ns,
            terminal: self.terminal,
        }
    }
}

/// Attributes of a witness span.
#[derive(Clone, Debug, PartialEq, Eq)]
pub struct WitnessAttrs {
    pub gateway_id: String,
    pub file_ulid: [u8; 16],
    pub sequence: u64,
    pub head_hash: [u8; 32],
    pub wall_time_ns: u64,
}

/// Why exporting failed.
#[derive(Clone, Debug, PartialEq, Eq)]
pub enum ExportError {
    Io(String),
    Frame(FrameError),
    Otlp(String),
    Join(String),
    ChannelClosed,
}

/// An [`ExportError`] with its texts as character sequences.
pub ghost enum ExportFault {
    Io(Seq<char>),
    Frame(FrameFault),
    Otlp(Seq<char>),
    Join(Seq<char>),
    ChannelClosed,
}

impl View for ExportError {
    type V = ExportFault;

    open spec fn view(&self) -> ExportFault {
        match *self {
            ExportError::Io(s) => ExportFault::Io(s@),
            ExportError::Frame(e) => ExportFault::Frame(e@),
            ExportError::Otlp(s) => ExportFault::Otlp(s@),
            ExportError::Join(s) => ExportFault::Join(s@),
            ExportError::ChannelClosed => ExportFault::ChannelClosed,
        }
    }
}

impl ExportFault {
    /// The message shown to people.
    pub open spec fn message(self) -> Seq<char> {
        match self {
            ExportFault::Io(s) => "io: "@ + s,
            ExportFault::Frame(f) => f.message(),
            ExportFault::Otlp(s) => "otlp: "@ + s,
            ExportFault::Join(s) => "exporter task join: "@ + s,
            ExportFault::ChannelClosed => "exporter channel closed"@,
        }
    }
}

impl ExportError {
    /// The message shown to people.
    pub fn message(&self) -> (r: String)
        ensures
            r@ == self@.message(),
    {
        match self {
            ExportError::Io(s) => text::join("io: ", s.as_str()),
            ExportError::Frame(e) => e.message(),
            ExportError::Otlp(s) => text::join("otlp: ", s.as_str()),
            ExportError::Join(s) => text::join("exporter task join: ", s.as_str()),
            ExportError::ChannelClosed => "exporter channel closed".to_owned(),
        }
    }
}

/// Counts of records.
#[derive(Debug, PartialEq, Eq)]
pub struct ExportMetrics {
    seen: u64,
    exported: u64,
}

impl ExportMetrics {
    /// Records seen.
    pub closed spec fn spec_seen(self) -> u64 {
        self.seen
    }

    /// Records exported.
    pub closed spec fn spec_exported(self) -> u64 {
        self.exported
    }

    /// Nothing seen, nothing exported.
    #[must_use]
    pub fn new() -> (r: ExportMetrics)
        ensures
            r.spec_seen() == 0,
            r.spec_exported() == 0,
    {
        ExportMetrics { seen: 0, exported: 0 }
    }

    /// Records observed by the tailer but not yet successfully exported.
    #[must_use]
    pub fn lag(&self) -> (r: u64)
        ensures
            r == (if self.spec_seen() >= self.spec_exported() {
                self.spec_seen() - self.spec_exported()
            } else {
                0
            }),
    {
        self.seen.saturating_sub(self.exported)
    }

    /// Records seen.
    #[must_use]
    pub fn seen(&self) -> (r: u64)
        ensures
            r == self.spec_seen(),
    {
        self.seen
    }

    /// Records exported.
    #[must_use]
    pub fn exported(&self) -> (r: u64)
        ensures
            r == self.spec_exported(),
    {
        self.exported
    }

    /// Counts `n` more records as seen.
    pub fn record_seen(&mut self, n: u64)
        ensures
            final(self).spec_seen() == (old(self).spec_seen() + n) % 0x1_0000_0000_0000_0000,
            final(self).spec_exported() == old(self).spec_exported(),
    {
        self.seen = self.seen.wrapping_add(n);
    }

    /// Counts `n` more records as exported.
    pub fn record_exported(&mut self, n: u64)
        ensures
            final(self).spec_exported() == (old(self).spec_exported() + n)
                % 0x1_0000_0000_0000_0000,
            final(self).spec_seen() == old(self).spec_seen(),
    {
        self.exported = self.exported.wrapping_add(n);
    }
}

impl Default for ExportMetrics {
    fn default() -> (r: ExportMetrics)
        ensures
            r.spec_seen() == 0,
            r.spec_exported() == 0,
    {
        ExportMetrics::new()
    }
}

/// A transition after which nothing more happens to a request.
pub open spec fn ends_request(t: Transition) -> bool {
    t is Completed || t is Failed || t is ToolError || t is Killed || t is AuthFailed
        || t is Rejected || t is Denied || t is DelegationRefused || t is Described
}

/// Whether nothing more happens to a request after this transition.
pub fn is_terminal(t: Transition) -> (r: bool)
    ensures
        r == ends_request(t),
{
    match t {
        Transition::Completed
        | Transition::Failed
        | Transition::ToolError
        | Transition::Killed
        | Transition::AuthFailed
        | Transition::Rejected
        | Transition::Denied
        | Transition::DelegationRefused
        | Transition::Described => true,
        _ => false,
    }
}

/// A request goes on after it was received, authenticated, authorized,
/// granted, provisioned or started, and after nothing else.
pub proof fn requests_go_on_or_end(t: Transition)
    ensures
        !ends_request(t) <==> t is Received || t is Authenticated || t is Authorized
            || t is Granted || t is Provisioned || t is Running,
{
}

/// A span and its events say their fields, and what is not there is not there.
pub proof fn spans_say_their_fields(
    s: ExportedInvocation,
    e: ExportedEvent,
    a: [u8; 16],
    h: [u8; 32],
    i: int,
)
    ensures
        s@.request_id == s.request_id@,
        s@.identity == s.identity@,
        s@.digest == s.digest@,
        s@.start_time_ns == s.start_time_ns,
        s@.end_time_ns == s.end_time_ns,
        s@.terminal == s.terminal,
        s.parent == Some(a) ==> s@.parent == Some(a@),
        s.parent is None ==> s@.parent is None,
        s@.events.len() == s.events@.len(),
        0 <= i < s.events@.len() ==> s@.events[i] == s.events@[i]@,
        e@.transition == e.transition,
        e@.reason == e.reason@,
        e@.wall_time_ns == e.wall_time_ns,
        e@.sequence == e.sequence,
        e.caps_hash == Some(h) ==> e@.caps_hash == Some(h@),
        e.caps_hash is None ==> e@.caps_hash is None,
{
}

} // verus!
