//! The witness sink: requests, credentials, listings and the delivery queue.
//!
//! Objects are put with `If-None-Match: *`. A key that exists is a conflict and
//! is not tried again; other failures are retried with growing waits. The queue
//! is bounded, the oldest payload is dropped first, and it never blocks the
//! audit writer.
use super::witness::{WitnessError, WitnessFault};
use crate::text;
use vstd::prelude::*;

pub mod calendar;
pub mod creds;
pub mod listing;
pub mod queue;
pub mod request;
pub mod sigv4;

pub use creds::SigV4Creds;
pub use listing::parse_listing;

verus! {

/// Why the sink failed.
#[derive(Clone, Debug, PartialEq, Eq)]
pub enum SinkError {
    Io(String),
    Http(String),
    Creds(String),
    Conflict,
    Witness(WitnessError),
}

/// A [`SinkError`] with its texts as character sequences.
pub ghost enum SinkFault {
    Io(Seq<char>),
    Http(Seq<char>),
    Creds(Seq<char>),
    Conflict,
    Witness(WitnessFault),
}

impl View for SinkError {
    type V = SinkFault;

    open spec fn view(&self) -> SinkFault {
        match *self {
            SinkError::Io(s) => SinkFault::Io(s@),
            SinkError::Http(s) => SinkFault::Http(s@),
            SinkError::Creds(s) => SinkFault::Creds(s@),
            SinkError::Conflict => SinkFault::Conflict,
            SinkError::Witness(e) => SinkFault::Witness(e@),
        }
    }
}

impl SinkFault {
    /// The message shown to people.
    pub open spec fn message(self) -> Seq<char> {
        match self {
            SinkFault::Io(s) => "io: "@ + s,
            SinkFault::Http(s) => "http: "@ + s,
            SinkFault::Creds(s) => "credentials: "@ + s,
            SinkFault::Conflict => "412 precondition failed (key exists)"@,
            SinkFault::Witness(f) => f.message(),
        }
    }
}

impl SinkError {
    /// The message shown to people.
    pub fn message(&self) -> (r: String)
        ensures
            r@ == self@.message(),
    {
        match self {
            SinkError::Io(s) => text::join("io: ", s.as_str()),
            SinkError::Http(s) => text::join("http: ", s.as_str()),
            SinkError::Creds(s) => text::join("credentials: ", s.as_str()),
            SinkError::Conflict => "412 precondition failed (key exists)".to_owned(),
            SinkError::Witness(e) => e.message(),
        }
    }
}

/// How the sink authenticates.
#[derive(Clone, Debug, PartialEq, Eq)]
pub enum WitnessAuth {
    /// Bearer token read from a file.
    Bearer { token_file: String },
    /// AWS `SigV4` from a credential file that only its owner may read.
    SigV4 { cred_file: String },
}

/// Configuration for the witness emitter.
#[derive(Clone, Debug, PartialEq, Eq)]
pub struct WitnessConfig {
    pub sink_base: String,
    pub auth: WitnessAuth,
    pub interval_records: u64,
    pub interval_s: u64,
}

impl WitnessConfig {
    /// A witness every ten thousand records or every minute.
    #[must_use]
    pub fn defaults(sink_base: String, auth: WitnessAuth) -> (r: WitnessConfig)
        ensures
            r.sink_base@ == sink_base@,
            r.auth == auth,
            r.interval_records == 10_000,
            r.interval_s == 60,
    {
        WitnessConfig { sink_base, auth, interval_records: 10_000, interval_s: 60 }
    }
}

} // verus!
