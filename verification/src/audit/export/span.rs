//! The attributes of exported spans.
use super::{EventModel, ExportedEvent, ExportedInvocation, InvocationModel, WitnessAttrs};
use crate::audit::json_out::transition_name;
use crate::audit::naming::{encode_ulid_bytes, hex_encode};
use crate::audit::record::Transition;
use vstd::prelude::*;

verus! {

/// Span name for one invocation (all transitions as events).
pub const INVOCATION_SPAN_NAME: &'static str = "helix.audit.invocation";

/// Span name for a witness.
pub const WITNESS_SPAN_NAME: &'static str = "helix.audit.witness";

/// The value of an attribute.
#[derive(Clone, Debug, PartialEq, Eq)]
pub enum AttrValue {
    Text(String),
    Int(i64),
}

/// What an [`AttrValue`] says.
pub ghost enum AttrModel {
    Text(Seq<char>),
    Int(int),
}

impl View for AttrValue {
    type V = AttrModel;

    open spec fn view(&self) -> AttrModel {
        match *self {
            AttrValue::Text(s) => AttrModel::Text(s@),
            AttrValue::Int(n) => AttrModel::Int(n as int),
        }
    }
}

/// A named attribute.
#[derive(Clone, Debug, PartialEq, Eq)]
pub struct Attr {
    pub key: &'static str,
    pub value: AttrValue,
}

/// What attributes say, in order.
pub open spec fn attrs_say(v: Seq<Attr>) -> Seq<(Seq<char>, AttrModel)> {
    Seq::new(v.len(), |i: int| (v[i].key@, v[i].value@))
}

/// An event of a span.
#[derive(Clone, Debug, PartialEq, Eq)]
pub struct SpanEvent {
    pub name: &'static str,
    pub attrs: Vec<Attr>,
}

/// What events say, in order.
pub open spec fn events_say(v: Seq<SpanEvent>) -> Seq<(Seq<char>, Seq<(Seq<char>, AttrModel)>)> {
    Seq::new(v.len(), |i: int| (v[i].name@, attrs_say(v[i].attrs@)))
}

/// The status of a span.
#[derive(Clone, Copy, Debug, PartialEq, Eq)]
pub enum SpanStatus {
    Unset,
    Success,
    Failure(&'static str),
}

/// A span to export.
#[derive(Clone, Debug, PartialEq, Eq)]
pub struct SpanData {
    pub name: &'static str,
    pub attrs: Vec<Attr>,
    pub events: Vec<SpanEvent>,
    pub status: SpanStatus,
}

/// A number as a signed attribute, capped.
pub open spec fn capped(n: u64) -> int {
    if n > i64::MAX {
        i64::MAX as int
    } else {
        n as int
    }
}

/// The attributes of an event.
pub open spec fn event_attrs(e: EventModel) -> Seq<(Seq<char>, AttrModel)> {
    let base = seq![
        (
            "helix.transition"@,
            AttrModel::Text(crate::audit::json_out::name_of(e.transition)),
        ),
        ("helix.sequence"@, AttrModel::Int(capped(e.sequence))),
        ("helix.wall_time_ns"@, AttrModel::Int(capped(e.wall_time_ns))),
    ];
    let with_reason = if e.reason.len() > 0 {
        base.push(("helix.reason"@, AttrModel::Text(e.reason)))
    } else {
        base
    };
    match e.caps_hash {
        Some(h) => with_reason.push(
            ("helix.caps_hash"@, AttrModel::Text(crate::audit::naming::hex(h))),
        ),
        None => with_reason,
    }
}

/// The attributes of an invocation.
pub open spec fn invocation_attrs(m: InvocationModel) -> Seq<(Seq<char>, AttrModel)> {
    let base = seq![
        ("helix.request_id"@, AttrModel::Text(crate::audit::naming::ulid_text(m.request_id))),
        ("helix.identity"@, AttrModel::Text(crate::audit::naming::hex(m.identity))),
        ("helix.digest"@, AttrModel::Text(crate::audit::naming::hex(m.digest))),
    ];
    let with_parent = match m.parent {
        Some(p) => base.push(
            (
                "helix.parent_request_id"@,
                AttrModel::Text(crate::audit::naming::ulid_text(p)),
            ),
        ),
        None => base,
    };
    with_parent.push(
        ("helix.terminal"@, AttrModel::Text(crate::audit::json_out::name_of(m.terminal))),
    )
}

fn int_attr(key: &'static str, n: u64) -> (r: Attr)
    ensures
        r.key@ == key@,
        r.value@ == AttrModel::Int(capped(n)),
{
    let v: i64 = if n > i64::MAX as u64 {
        i64::MAX
    } else {
        n as i64
    };
    Attr { key, value: AttrValue::Int(v) }
}

fn text_attr(key: &'static str, s: String) -> (r: Attr)
    ensures
        r.key@ == key@,
        r.value@ == AttrModel::Text(s@),
{
    Attr { key, value: AttrValue::Text(s) }
}

fn event_span(e: &ExportedEvent) -> (r: SpanEvent)
    ensures
        r.name@ == crate::audit::json_out::name_of(e@.transition),
        attrs_say(r.attrs@) == event_attrs(e@),
{
    let name = transition_name(e.transition);
    let mut attrs: Vec<Attr> = Vec::new();
    attrs.push(text_attr("helix.transition", name.to_owned()));
    attrs.push(int_attr("helix.sequence", e.sequence));
    attrs.push(int_attr("helix.wall_time_ns", e.wall_time_ns));
    if !crate::text::str_eq(e.reason.as_str(), "") {
        attrs.push(text_attr("helix.reason", e.reason.clone()));
    }
    match &e.caps_hash {
        Some(h) => {
            attrs.push(text_attr("helix.caps_hash", hex_encode(h.as_slice())));
        },
        None => {},
    }
    proof {
        reveal_strlit("");
        assert(""@ =~= Seq::<char>::empty());
        if e.reason@.len() == 0 {
            assert(e.reason@ =~= ""@);
        }
        assert(attrs_say(attrs@) =~= event_attrs(e@));
    }
    SpanEvent { name, attrs }
}

/// How a request that ended with this transition went.
pub open spec fn status_says(s: SpanStatus, t: Transition) -> bool {
    match s {
        SpanStatus::Success => t is Completed || t is Described,
        SpanStatus::Failure(name) => super::ends_request(t) && !(t is Completed || t is Described)
            && name@ == crate::audit::json_out::name_of(t),
        SpanStatus::Unset => !super::ends_request(t),
    }
}

fn status_of(t: Transition) -> (r: SpanStatus)
    ensures
        status_says(r, t),
{
    match t {
        Transition::Completed | Transition::Described => SpanStatus::Success,
        Transition::Failed
        | Transition::ToolError
        | Transition::Killed
        | Transition::AuthFailed
        | Transition::Rejected
        | Transition::Denied
        | Transition::DelegationRefused => SpanStatus::Failure(transition_name(t)),
        _ => SpanStatus::Unset,
    }
}

/// One span for an invocation: its attributes, one event per transition, and
/// its status.
#[must_use]
pub fn invocation_span(inv: &ExportedInvocation) -> (r: SpanData)
    ensures
        r.name@ == INVOCATION_SPAN_NAME@,
        attrs_say(r.attrs@) == invocation_attrs(inv@),
        events_say(r.events@) == Seq::new(
            inv@.events.len(),
            |i: int|
                (
                    crate::audit::json_out::name_of(inv@.events[i].transition),
                    event_attrs(inv@.events[i]),
                ),
        ),
        status_says(r.status, inv@.terminal),
{
    let mut attrs: Vec<Attr> = Vec::new();
    attrs.push(text_attr("helix.request_id", encode_ulid_bytes(&inv.request_id)));
    attrs.push(text_attr("helix.identity", hex_encode(inv.identity.as_slice())));
    attrs.push(text_attr("helix.digest", hex_encode(inv.digest.as_slice())));
    match &inv.parent {
        Some(p) => {
            attrs.push(text_attr("helix.parent_request_id", encode_ulid_bytes(p)));
        },
        None => {},
    }
    attrs.push(text_attr("helix.terminal", transition_name(inv.terminal).to_owned()));
    assert(attrs_say(attrs@) =~= invocation_attrs(inv@));
    let mut events: Vec<SpanEvent> = Vec::new();
    let mut i: usize = 0;
    while i < inv.events.len()
        invariant
            0 <= i <= inv.events.len(),
            events@.len() == i,
            forall|j: int|
                0 <= j < i ==> (#[trigger] events@[j]).name@ == crate::audit::json_out::name_of(
                    inv@.events[j].transition,
                ) && attrs_say(events@[j].attrs@) == event_attrs(inv@.events[j]),
        decreases inv.events.len() - i,
    {
        events.push(event_span(&inv.events[i]));
        i += 1;
    }
    assert(events_say(events@) =~= Seq::new(
        inv@.events.len(),
        |i: int|
            (
                crate::audit::json_out::name_of(inv@.events[i].transition),
                event_attrs(inv@.events[i]),
            ),
    ));
    SpanData { name: INVOCATION_SPAN_NAME, attrs, events, status: status_of(inv.terminal) }
}

/// One span for a witness.
#[must_use]
pub fn witness_span(w: WitnessAttrs) -> (r: SpanData)
    ensures
        r.name@ == WITNESS_SPAN_NAME@,
        attrs_say(r.attrs@) == seq![
            ("helix.gateway_id"@, AttrModel::Text(w.gateway_id@)),
            (
                "helix.file_ulid"@,
                AttrModel::Text(crate::audit::naming::ulid_text(w.file_ulid@)),
            ),
            ("helix.sequence"@, AttrModel::Int(capped(w.sequence))),
            ("helix.head_hash"@, AttrModel::Text(crate::audit::naming::hex(w.head_hash@))),
            ("helix.wall_time_ns"@, AttrModel::Int(capped(w.wall_time_ns))),
        ],
        r.events@.len() == 0,
        r.status is Unset,
{
    let mut attrs: Vec<Attr> = Vec::new();
    let file_ulid = encode_ulid_bytes(&w.file_ulid);
    let head_hash = hex_encode(w.head_hash.as_slice());
    attrs.push(text_attr("helix.gateway_id", w.gateway_id));
    attrs.push(text_attr("helix.file_ulid", file_ulid));
    attrs.push(int_attr("helix.sequence", w.sequence));
    attrs.push(text_attr("helix.head_hash", head_hash));
    attrs.push(int_attr("helix.wall_time_ns", w.wall_time_ns));
    assert(attrs_say(attrs@) =~= seq![
        ("helix.gateway_id"@, AttrModel::Text(w.gateway_id@)),
        (
            "helix.file_ulid"@,
            AttrModel::Text(crate::audit::naming::ulid_text(w.file_ulid@)),
        ),
        ("helix.sequence"@, AttrModel::Int(capped(w.sequence))),
        ("helix.head_hash"@, AttrModel::Text(crate::audit::naming::hex(w.head_hash@))),
        ("helix.wall_time_ns"@, AttrModel::Int(capped(w.wall_time_ns))),
    ]);
    SpanData { name: WITNESS_SPAN_NAME, attrs, events: Vec::new(), status: SpanStatus::Unset }
}

/// An attribute is among attributes.
pub open spec fn says(attrs: Seq<(Seq<char>, AttrModel)>, key: Seq<char>, value: AttrModel) -> bool {
    exists|i: int| 0 <= i < attrs.len() && #[trigger] attrs[i] == (key, value)
}

/// No attribute has this key.
pub open spec fn is_silent(attrs: Seq<(Seq<char>, AttrModel)>, key: Seq<char>) -> bool {
    forall|i: int| 0 <= i < attrs.len() ==> (#[trigger] attrs[i]).0 != key
}

/// A span shows the request, the caller, the tool and the outcome, and the
/// parent request exactly when there is one: a delegated call never looks like
/// a root request, nor the other way round.
pub proof fn spans_show_their_request(m: InvocationModel)
    ensures
        ({
            let attrs = invocation_attrs(m);
            &&& says(
                attrs,
                "helix.request_id"@,
                AttrModel::Text(crate::audit::naming::ulid_text(m.request_id)),
            )
            &&& says(
                attrs,
                "helix.identity"@,
                AttrModel::Text(crate::audit::naming::hex(m.identity)),
            )
            &&& says(attrs, "helix.digest"@, AttrModel::Text(crate::audit::naming::hex(m.digest)))
            &&& says(
                attrs,
                "helix.terminal"@,
                AttrModel::Text(crate::audit::json_out::name_of(m.terminal)),
            )
            &&& m.parent matches Some(p) ==> says(
                attrs,
                "helix.parent_request_id"@,
                AttrModel::Text(crate::audit::naming::ulid_text(p)),
            )
            &&& m.parent is None ==> is_silent(attrs, "helix.parent_request_id"@)
        }),
{
    let attrs = invocation_attrs(m);
    reveal_strlit("helix.request_id");
    reveal_strlit("helix.identity");
    reveal_strlit("helix.digest");
    reveal_strlit("helix.terminal");
    reveal_strlit("helix.parent_request_id");
    assert("helix.request_id"@.len() == 16);
    assert("helix.identity"@.len() == 14);
    assert("helix.digest"@.len() == 12);
    assert("helix.terminal"@.len() == 14);
    assert("helix.parent_request_id"@.len() == 23);
    assert(attrs[0].0 == "helix.request_id"@);
    assert(attrs[1].0 == "helix.identity"@);
    assert(attrs[2].0 == "helix.digest"@);
    assert(attrs[attrs.len() - 1].0 == "helix.terminal"@);
    if m.parent is Some {
        assert(attrs[3].0 == "helix.parent_request_id"@);
    }
}

/// An event shows its transition, sequence and time, its reason exactly when
/// there is one, and its capability set exactly when there is one. Numbers
/// that fit are shown as they are.
pub proof fn events_show_their_record(e: EventModel)
    ensures
        ({
            let attrs = event_attrs(e);
            &&& says(
                attrs,
                "helix.transition"@,
                AttrModel::Text(crate::audit::json_out::name_of(e.transition)),
            )
            &&& e.sequence <= i64::MAX ==> says(
                attrs,
                "helix.sequence"@,
                AttrModel::Int(e.sequence as int),
            )
            &&& e.wall_time_ns <= i64::MAX ==> says(
                attrs,
                "helix.wall_time_ns"@,
                AttrModel::Int(e.wall_time_ns as int),
            )
            &&& e.reason.len() > 0 ==> says(attrs, "helix.reason"@, AttrModel::Text(e.reason))
            &&& e.reason.len() == 0 ==> is_silent(attrs, "helix.reason"@)
            &&& e.caps_hash matches Some(h) ==> says(
                attrs,
                "helix.caps_hash"@,
                AttrModel::Text(crate::audit::naming::hex(h)),
            )
            &&& e.caps_hash is None ==> is_silent(attrs, "helix.caps_hash"@)
        }),
{
    let attrs = event_attrs(e);
    reveal_strlit("helix.transition");
    reveal_strlit("helix.sequence");
    reveal_strlit("helix.wall_time_ns");
    reveal_strlit("helix.reason");
    reveal_strlit("helix.caps_hash");
    assert("helix.transition"@.len() == 16);
    assert("helix.sequence"@.len() == 14);
    assert("helix.wall_time_ns"@.len() == 18);
    assert("helix.reason"@.len() == 12);
    assert("helix.caps_hash"@.len() == 15);
    assert(attrs[0].0 == "helix.transition"@);
    assert(attrs[1].0 == "helix.sequence"@);
    assert(attrs[2].0 == "helix.wall_time_ns"@);
    if e.reason.len() > 0 {
        assert(attrs[3].0 == "helix.reason"@);
    }
    if e.caps_hash is Some {
        assert(attrs[attrs.len() - 1].0 == "helix.caps_hash"@);
    }
}

/// Numbers are shown in order, and never as less than nothing.
pub proof fn capped_numbers_ascend(a: u64, b: u64)
    requires
        a <= b,
    ensures
        0 <= capped(a) <= capped(b) <= 0x7fff_ffff_ffff_ffff,
        a <= 0x7fff_ffff_ffff_ffff ==> capped(a) == a,
{
}

/// A span succeeds exactly when its request completed or was described, fails
/// with the name of any other end, and has no status before the end.
pub proof fn status_tells_how_it_ended(t: Transition, s: SpanStatus)
    requires
        status_says(s, t),
    ensures
        s is Success <==> t is Completed || t is Described,
        s is Failure <==> t is Failed || t is ToolError || t is Killed || t is AuthFailed
            || t is Rejected || t is Denied || t is DelegationRefused,
        s is Unset <==> t is Received || t is Authenticated || t is Authorized || t is Granted
            || t is Provisioned || t is Running,
        s matches SpanStatus::Failure(name) ==> name@ == crate::audit::json_out::name_of(t),
{
}

/// Attributes and events say what they hold, one by one.
pub proof fn attributes_say_what_they_hold(v: Seq<Attr>, e: Seq<SpanEvent>, i: int)
    ensures
        attrs_say(v).len() == v.len(),
        0 <= i < v.len() ==> attrs_say(v)[i] == (v[i].key@, v[i].value@),
        events_say(e).len() == e.len(),
        0 <= i < e.len() ==> events_say(e)[i] == (e[i].name@, attrs_say(e[i].attrs@)),
{
}

} // verus!
