//! Grouping records by request.
use super::{is_terminal, EventModel, ExportedEvent, ExportedInvocation, InvocationModel};
use crate::audit::record::{AuditRecord, RecordModel};
use crate::path;
use vstd::prelude::*;

verus! {

struct OpenInvocation {
    request_id: [u8; 16],
    parent: Option<[u8; 16]>,
    identity: [u8; 32],
    digest: [u8; 32],
    events: Vec<ExportedEvent>,
    start_time_ns: u64,
}

/// What is known of a request that has not ended.
pub ghost struct OpenModel {
    pub parent: Option<Seq<u8>>,
    pub identity: Seq<u8>,
    pub digest: Seq<u8>,
    pub events: Seq<EventModel>,
    pub start_time_ns: u64,
}

/// The requests that have not ended.
pub struct OpenInvocations {
    open: Vec<OpenInvocation>,
}

spec fn open_model(o: OpenInvocation) -> OpenModel {
    OpenModel {
        parent: crate::audit::record::opt16(o.parent),
        identity: o.identity@,
        digest: o.digest@,
        events: super::event_models(o.events@),
        start_time_ns: o.start_time_ns,
    }
}

/// The entry of this request.
spec fn is_entry(v: Seq<OpenInvocation>, i: int, id: Seq<u8>) -> bool {
    0 <= i < v.len() && v[i].request_id@ == id
}

spec fn has_entry(v: Seq<OpenInvocation>, id: Seq<u8>) -> bool {
    exists|i: int| is_entry(v, i, id)
}

spec fn map_of(v: Seq<OpenInvocation>) -> Map<Seq<u8>, OpenModel> {
    Map::new(
        |id: Seq<u8>| has_entry(v, id),
        |id: Seq<u8>| open_model(v[choose|i: int| is_entry(v, i, id)]),
    )
}

spec fn distinct(v: Seq<OpenInvocation>) -> bool {
    forall|i: int, j: int|
        0 <= i < v.len() && 0 <= j < v.len() && (#[trigger] v[i]).request_id@ == (
        #[trigger] v[j]).request_id@ ==> i == j
}

impl View for OpenInvocations {
    type V = Map<Seq<u8>, OpenModel>;

    closed spec fn view(&self) -> Map<Seq<u8>, OpenModel> {
        map_of(self.open@)
    }
}

/// The event of a record.
pub open spec fn event_of(m: RecordModel) -> EventModel {
    EventModel {
        transition: m.transition,
        reason: m.reason,
        wall_time_ns: m.wall_time_ns,
        sequence: m.sequence,
        caps_hash: m.caps_hash,
    }
}

/// A request whose first record is `m`, before its events.
pub open spec fn opened_by(m: RecordModel) -> OpenModel {
    OpenModel {
        parent: m.parent,
        identity: m.identity,
        digest: m.digest,
        events: Seq::empty(),
        start_time_ns: m.wall_time_ns,
    }
}

/// The request of a record with the record's event added.
pub open spec fn joined_by(open: Map<Seq<u8>, OpenModel>, m: RecordModel) -> OpenModel {
    let o = if open.dom().contains(m.request_id) {
        open[m.request_id]
    } else {
        opened_by(m)
    };
    OpenModel { events: o.events.push(event_of(m)), ..o }
}

/// The span of a request that a record ends.
pub open spec fn span_of(o: OpenModel, m: RecordModel) -> InvocationModel {
    InvocationModel {
        request_id: m.request_id,
        parent: o.parent,
        identity: o.identity,
        digest: o.digest,
        events: o.events,
        start_time_ns: o.start_time_ns,
        end_time_ns: m.wall_time_ns,
        terminal: m.transition,
    }
}

/// The open requests after a record, and the span that it ends.
pub open spec fn handled(open: Map<Seq<u8>, OpenModel>, m: RecordModel) -> (
    Map<Seq<u8>, OpenModel>,
    Option<InvocationModel>,
) {
    let o = joined_by(open, m);
    if super::ends_request(m.transition) {
        (open.remove(m.request_id), Some(span_of(o, m)))
    } else {
        (open.insert(m.request_id, o), None)
    }
}

proof fn lemma_lookup(v: Seq<OpenInvocation>, i: int)
    requires
        distinct(v),
        0 <= i < v.len(),
    ensures
        map_of(v).dom().contains(v[i].request_id@),
        map_of(v)[v[i].request_id@] == open_model(v[i]),
{
    let id = v[i].request_id@;
    assert(is_entry(v, i, id));
    let k = choose|k: int| is_entry(v, k, id);
    assert(v[k].request_id@ == v[i].request_id@);
}

/// Adding an entry inserts its request.
proof fn lemma_push(v: Seq<OpenInvocation>, o: OpenInvocation)
    requires
        distinct(v),
        !has_entry(v, o.request_id@),
    ensures
        distinct(v.push(o)),
        map_of(v.push(o)) == map_of(v).insert(o.request_id@, open_model(o)),
{
    let w = v.push(o);
    assert forall|i: int, j: int|
        0 <= i < w.len() && 0 <= j < w.len() && (#[trigger] w[i]).request_id@ == (
        #[trigger] w[j]).request_id@ implies i == j by {
        if i < v.len() && j < v.len() {
            assert(v[i].request_id@ == v[j].request_id@);
        } else if i < v.len() {
            assert(is_entry(v, i, o.request_id@));
        } else if j < v.len() {
            assert(is_entry(v, j, o.request_id@));
        }
    }
    lemma_lookup(w, v.len() as int);
    assert forall|id: Seq<u8>|
        map_of(w).dom().contains(id) <==> #[trigger] map_of(v).insert(
            o.request_id@,
            open_model(o),
        ).dom().contains(id) by {
        if has_entry(w, id) {
            let i = choose|i: int| is_entry(w, i, id);
            if i < v.len() {
                assert(is_entry(v, i, id));
            }
        }
        if has_entry(v, id) {
            let i = choose|i: int| is_entry(v, i, id);
            assert(is_entry(w, i, id));
        }
    }
    assert forall|id: Seq<u8>| #[trigger] map_of(w).dom().contains(id) implies map_of(w)[id]
        == map_of(v).insert(o.request_id@, open_model(o))[id] by {
        let i = choose|i: int| is_entry(w, i, id);
        lemma_lookup(w, i);
        if i < v.len() {
            assert(is_entry(v, i, id));
            lemma_lookup(v, i);
        }
    }
    assert(map_of(w) =~= map_of(v).insert(o.request_id@, open_model(o)));
}

/// Removing an entry removes its request.
proof fn lemma_remove(v: Seq<OpenInvocation>, k: int)
    requires
        distinct(v),
        0 <= k < v.len(),
    ensures
        distinct(v.remove(k)),
        !has_entry(v.remove(k), v[k].request_id@),
        map_of(v.remove(k)) == map_of(v).remove(v[k].request_id@),
{
    let w = v.remove(k);
    let gone = v[k].request_id@;
    assert forall|i: int, j: int|
        0 <= i < w.len() && 0 <= j < w.len() && (#[trigger] w[i]).request_id@ == (
        #[trigger] w[j]).request_id@ implies i == j by {
        let a = if i < k {
            i
        } else {
            i + 1
        };
        let b = if j < k {
            j
        } else {
            j + 1
        };
        assert(v[a].request_id@ == v[b].request_id@);
    }
    if has_entry(w, gone) {
        let i = choose|i: int| is_entry(w, i, gone);
        let a = if i < k {
            i
        } else {
            i + 1
        };
        assert(v[a].request_id@ == v[k].request_id@);
    }
    assert forall|id: Seq<u8>| has_entry(w, id) <==> (has_entry(v, id) && id != gone) by {
        if has_entry(w, id) {
            let i = choose|i: int| is_entry(w, i, id);
            let a = if i < k {
                i
            } else {
                i + 1
            };
            assert(is_entry(v, a, id));
        }
        if has_entry(v, id) && id != gone {
            let a = choose|a: int| is_entry(v, a, id);
            let i = if a < k {
                a
            } else {
                a - 1
            };
            assert(is_entry(w, i, id));
        }
    }
    assert forall|id: Seq<u8>| #[trigger] map_of(w).dom().contains(id) implies map_of(w)[id]
        == map_of(v).remove(gone)[id] by {
        let i = choose|i: int| is_entry(w, i, id);
        lemma_lookup(w, i);
        let a = if i < k {
            i
        } else {
            i + 1
        };
        assert(v[a] == w[i]);
        lemma_lookup(v, a);
    }
    assert(map_of(w).dom() =~= map_of(v).remove(gone).dom());
    assert(map_of(w) =~= map_of(v).remove(gone));
}

impl OpenInvocations {
    /// No request is open twice.
    #[verifier::type_invariant]
    closed spec fn no_request_twice(self) -> bool {
        distinct(self.open@)
    }

    /// No request is open.
    #[must_use]
    pub fn new() -> (r: OpenInvocations)
        ensures
            r@ == Map::<Seq<u8>, OpenModel>::empty(),
    {
        let r = OpenInvocations { open: Vec::new() };
        assert forall|id: Seq<u8>| !map_of(r.open@).dom().contains(id) by {
            assert(!has_entry(r.open@, id));
        }
        assert(r@ =~= Map::<Seq<u8>, OpenModel>::empty());
        r
    }

    fn find(&self, id: &[u8; 16]) -> (r: Option<usize>)
        ensures
            match r {
                Some(i) => is_entry(self.open@, i as int, id@),
                None => !has_entry(self.open@, id@),
            },
    {
        let mut i: usize = 0;
        while i < self.open.len()
            invariant
                0 <= i <= self.open.len(),
                forall|j: int| 0 <= j < i ==> !is_entry(self.open@, j, id@),
            decreases self.open.len() - i,
        {
            if path::bytes_eq(self.open[i].request_id.as_slice(), id.as_slice()) {
                return Some(i);
            }
            i += 1;
        }
        None
    }

    /// Adds a record to its request. A terminal record ends the request: its
    /// span is handed out with the number of its events.
    pub fn handle_record(&mut self, rec: &AuditRecord) -> (r: Option<(ExportedInvocation, u64)>)
        ensures
            final(self)@ == handled(old(self)@, rec@).0,
            match (r, handled(old(self)@, rec@).1) {
                (Some((inv, n)), Some(m)) => inv@ == m && n == m.events.len(),
                (None, None) => true,
                _ => false,
            },
    {
        proof {
            use_type_invariant(&*self);
        }
        let event = ExportedEvent {
            transition: rec.transition,
            reason: rec.reason.clone(),
            wall_time_ns: rec.wall_time_ns,
            sequence: rec.sequence,
            caps_hash: rec.caps_hash,
        };
        let ghost first = self.open@;
        let mut list: Vec<OpenInvocation> = Vec::new();
        std::mem::swap(&mut list, &mut self.open);
        let mut rest = OpenInvocations { open: list };
        let mut entry = match rest.find(&rec.request_id) {
            Some(i) => {
                proof {
                    lemma_lookup(first, i as int);
                    lemma_remove(first, i as int);
                }
                let mut list: Vec<OpenInvocation> = Vec::new();
                std::mem::swap(&mut list, &mut rest.open);
                let found = list.remove(i);
                assert(list@ =~= first.remove(i as int));
                rest = OpenInvocations { open: list };
                found
            },
            None => {
                proof {
                    assert(!map_of(first).dom().contains(rec.request_id@));
                    assert(map_of(first).remove(rec.request_id@) =~= map_of(first));
                }
                OpenInvocation {
                    request_id: rec.request_id,
                    parent: rec.parent,
                    identity: rec.identity,
                    digest: rec.digest,
                    events: Vec::new(),
                    start_time_ns: rec.wall_time_ns,
                }
            },
        };
        let ghost base = open_model(entry);
        proof {
            assert(base.events =~= (if map_of(first).dom().contains(rec.request_id@) {
                map_of(first)[rec.request_id@].events
            } else {
                Seq::<EventModel>::empty()
            }));
            assert(rest@ == map_of(first).remove(rec.request_id@));
        }
        let ghost events0 = super::event_models(entry.events@);
        entry.events.push(event);
        assert(super::event_models(entry.events@) =~= events0.push(event_of(rec@)));
        assert(open_model(entry) == joined_by(map_of(first), rec@));
        if is_terminal(rec.transition) {
            self.open = rest.open;
            let n: u64 = entry.events.len() as u64;
            let inv = ExportedInvocation {
                request_id: rec.request_id,
                parent: entry.parent,
                identity: entry.identity,
                digest: entry.digest,
                events: entry.events,
                start_time_ns: entry.start_time_ns,
                end_time_ns: rec.wall_time_ns,
                terminal: rec.transition,
            };
            Some((inv, n))
        } else {
            let ghost added = entry;
            let ghost kept = rest.open@;
            proof {
                use_type_invariant(&rest);
                lemma_push(kept, added);
            }
            let mut list = rest.open;
            list.push(entry);
            assert(list@ =~= kept.push(added));
            self.open = list;
            proof {
                let m = map_of(first);
                assert(m.remove(rec.request_id@).insert(rec.request_id@, open_model(added))
                    =~= m.insert(rec.request_id@, open_model(added)));
            }
            None
        }
    }
}

/// The open requests and the spans after records.
pub open spec fn grouped(records: Seq<RecordModel>) -> (
    Map<Seq<u8>, OpenModel>,
    Seq<InvocationModel>,
)
    decreases records.len(),
{
    if records.len() == 0 {
        (Map::empty(), Seq::empty())
    } else {
        let (open, spans) = grouped(records.drop_last());
        let (next, span) = handled(open, records.last());
        match span {
            Some(s) => (next, spans.push(s)),
            None => (next, spans),
        }
    }
}

/// The events of the spans of a request, in order.
pub open spec fn span_events(spans: Seq<InvocationModel>, id: Seq<u8>) -> Seq<EventModel>
    decreases spans.len(),
{
    if spans.len() == 0 {
        Seq::empty()
    } else if spans.last().request_id == id {
        span_events(spans.drop_last(), id) + spans.last().events
    } else {
        span_events(spans.drop_last(), id)
    }
}

/// The events of an open request.
pub open spec fn open_events(open: Map<Seq<u8>, OpenModel>, id: Seq<u8>) -> Seq<EventModel> {
    if open.dom().contains(id) {
        open[id].events
    } else {
        Seq::empty()
    }
}

/// The events of the records of a request, in order.
pub open spec fn record_events(records: Seq<RecordModel>, id: Seq<u8>) -> Seq<EventModel>
    decreases records.len(),
{
    if records.len() == 0 {
        Seq::empty()
    } else if records.last().request_id == id {
        record_events(records.drop_last(), id).push(event_of(records.last()))
    } else {
        record_events(records.drop_last(), id)
    }
}

/// The number of records that end a request.
pub open spec fn endings(records: Seq<RecordModel>) -> nat
    decreases records.len(),
{
    if records.len() == 0 {
        0
    } else {
        endings(records.drop_last()) + if super::ends_request(records.last().transition) {
            1nat
        } else {
            0nat
        }
    }
}

/// Nothing is lost, repeated or reordered: the events in the spans of a
/// request, followed by those of the request if it is open, are the events of
/// its records. There is one span per record that ends a request.
pub proof fn grouping_keeps_records(records: Seq<RecordModel>, id: Seq<u8>)
    ensures
        ({
            let (open, spans) = grouped(records);
            &&& span_events(spans, id) + open_events(open, id) == record_events(records, id)
            &&& spans.len() == endings(records)
        }),
    decreases records.len(),
{
    if records.len() == 0 {
        assert(span_events(Seq::empty(), id) + open_events(Map::empty(), id) =~= Seq::empty());
    } else {
        let m = records.last();
        grouping_keeps_records(records.drop_last(), id);
        let (open, spans) = grouped(records.drop_last());
        let o = joined_by(open, m);
        let e = event_of(m);
        if m.request_id == id {
            assert(o.events =~= open_events(open, id).push(e));
        }
        if super::ends_request(m.transition) {
            let s = span_of(o, m);
            assert(spans.push(s).drop_last() =~= spans);
            if m.request_id == id {
                assert((span_events(spans, id) + o.events) + Seq::<EventModel>::empty() =~= (
                span_events(spans, id) + open_events(open, id)).push(e));
            }
        } else if m.request_id == id {
            assert(span_events(spans, id) + o.events =~= (span_events(spans, id) + open_events(
                open,
                id,
            )).push(e));
        }
    }
}

/// The events before the last are not terminal.
pub open spec fn ends_once(events: Seq<EventModel>) -> bool {
    &&& events.len() > 0
    &&& forall|i: int|
        0 <= i < events.len() - 1 ==> !super::ends_request((#[trigger] events[i]).transition)
}

/// An open request has events, none of them terminal; a span ends with its one
/// terminal event.
pub proof fn spans_end_once(records: Seq<RecordModel>)
    ensures
        ({
            let (open, spans) = grouped(records);
            &&& forall|id: Seq<u8>| #[trigger]
                open.dom().contains(id) ==> ends_once(open[id].events) && !super::ends_request(
                    open[id].events.last().transition,
                )
            &&& forall|i: int|
                0 <= i < spans.len() ==> ends_once((#[trigger] spans[i]).events)
                    && super::ends_request(spans[i].events.last().transition) && spans[i].terminal
                    == spans[i].events.last().transition
        }),
    decreases records.len(),
{
    if records.len() > 0 {
        let m = records.last();
        spans_end_once(records.drop_last());
        let (open, spans) = grouped(records.drop_last());
        let o = joined_by(open, m);
        let e = event_of(m);
        assert(o.events.last() == e);
        assert(ends_once(o.events)) by {
            if open.dom().contains(m.request_id) {
                let before = open[m.request_id].events;
                assert forall|i: int| 0 <= i < o.events.len() - 1 implies !super::ends_request(
                    (#[trigger] o.events[i]).transition,
                ) by {
                    assert(o.events[i] == before[i]);
                    if i == before.len() - 1 {
                        assert(before[i] == before.last());
                    }
                }
            }
        }
    }
}

/// Record `f` is the first record of its request since the request was last
/// ended, counting the records before `n`.
pub open spec fn opens_run(records: Seq<RecordModel>, id: Seq<u8>, f: int, n: int) -> bool {
    &&& 0 <= f < n
    &&& records[f].request_id == id
    &&& forall|j: int|
        f <= j < n && (#[trigger] records[j]).request_id == id ==> !super::ends_request(
            records[j].transition,
        )
    &&& forall|j: int|
        0 <= j < f && (#[trigger] records[j]).request_id == id ==> ended_between(records, id, j, f)
}

/// A record from `j` on and before `n` ends the request.
pub open spec fn ended_between(records: Seq<RecordModel>, id: Seq<u8>, j: int, n: int) -> bool {
    exists|e: int|
        j <= e < n && (#[trigger] records[e]).request_id == id && super::ends_request(
            records[e].transition,
        )
}

/// The span covers one run of records of a request: it says of the request
/// what the run's first record says, and of its end what the last one says.
pub open spec fn covers_run(records: Seq<RecordModel>, span: InvocationModel, f: int, n: int) -> bool {
    &&& 0 <= f <= n < records.len()
    &&& records[n].request_id == span.request_id
    &&& super::ends_request(records[n].transition)
    &&& if f < n {
        opens_run(records, span.request_id, f, n)
    } else {
        forall|j: int|
            0 <= j < n && (#[trigger] records[j]).request_id == span.request_id ==> ended_between(
                records,
                span.request_id,
                j,
                n,
            )
    }
    &&& span.parent == records[f].parent
    &&& span.identity == records[f].identity
    &&& span.digest == records[f].digest
    &&& span.start_time_ns == records[f].wall_time_ns
    &&& span.end_time_ns == records[n].wall_time_ns
    &&& span.terminal == records[n].transition
}

/// A request is open exactly when it has a record that no later record ended,
/// and what is known of it is what its first record said.
proof fn lemma_open_runs(records: Seq<RecordModel>, id: Seq<u8>)
    ensures
        ({
            let open = grouped(records).0;
            &&& open.dom().contains(id) ==> exists|f: int| #[trigger]
                opens_run(records, id, f, records.len() as int) && open[id].parent
                    == records[f].parent && open[id].identity == records[f].identity
                    && open[id].digest == records[f].digest && open[id].start_time_ns
                    == records[f].wall_time_ns
            &&& !open.dom().contains(id) ==> forall|j: int|
                0 <= j < records.len() && (#[trigger] records[j]).request_id == id
                    ==> ended_between(records, id, j, records.len() as int)
        }),
    decreases records.len(),
{
    if records.len() > 0 {
        let n = records.len() - 1;
        let before = records.drop_last();
        let m = records.last();
        lemma_open_runs(before, id);
        let was = grouped(before).0;
        let open = grouped(records).0;
        lemma_ended_longer(records, id);
        if m.request_id == id && super::ends_request(m.transition) {
            assert forall|j: int|
                0 <= j < records.len() && (#[trigger] records[j]).request_id == id implies
                ended_between(records, id, j, records.len() as int) by {
                assert(records[n] == m);
            }
        } else if was.dom().contains(id) {
            let f = choose|f: int| #[trigger]
                opens_run(before, id, f, n) && was[id].parent == before[f].parent
                    && was[id].identity == before[f].identity && was[id].digest == before[f].digest
                    && was[id].start_time_ns == before[f].wall_time_ns;
            assert(records[f] == before[f]);
            assert forall|j: int|
                f <= j < n + 1 && (#[trigger] records[j]).request_id == id implies
                !super::ends_request(records[j].transition) by {
                if j < n {
                    assert(records[j] == before[j]);
                }
            }
            assert forall|j: int| 0 <= j < f && (#[trigger] records[j]).request_id == id implies
                ended_between(records, id, j, f) by {
                assert(before[j] == records[j]);
            }
            assert(opens_run(records, id, f, n + 1));
        } else if m.request_id == id {
            assert forall|j: int| 0 <= j < n && (#[trigger] records[j]).request_id == id implies
                ended_between(records, id, j, n) by {
                assert(before[j] == records[j]);
            }
            assert(opens_run(records, id, n, n + 1));
        } else {
            assert forall|j: int|
                0 <= j < records.len() && (#[trigger] records[j]).request_id == id implies
                ended_between(records, id, j, records.len() as int) by {
                assert(before[j] == records[j]);
            }
        }
    }
}

/// What ended a request before the last record still did after it.
proof fn lemma_ended_longer(records: Seq<RecordModel>, id: Seq<u8>)
    requires
        records.len() > 0,
    ensures
        forall|j: int, n: int|
            n < records.len() && #[trigger] ended_between(records.drop_last(), id, j, n) && j >= 0
                ==> ended_between(records, id, j, n) && ended_between(records, id, j, n + 1),
{
    let before = records.drop_last();
    assert forall|j: int, n: int|
        n < records.len() && #[trigger] ended_between(before, id, j, n) && j >= 0 implies
        ended_between(records, id, j, n) && ended_between(records, id, j, n + 1) by {
        let e = choose|e: int|
            j <= e < n && (#[trigger] before[e]).request_id == id && super::ends_request(
                before[e].transition,
            );
        assert(records[e] == before[e]);
    }
}

proof fn lemma_covers_longer(
    records: Seq<RecordModel>,
    span: InvocationModel,
    f: int,
    n: int,
)
    requires
        records.len() > 0,
        covers_run(records.drop_last(), span, f, n),
    ensures
        covers_run(records, span, f, n),
{
    let before = records.drop_last();
    let id = span.request_id;
    lemma_ended_longer(records, id);
    assert(records[f] == before[f]);
    assert(records[n] == before[n]);
    assert forall|j: int| 0 <= j < before.len() implies #[trigger] records[j] == before[j] by {}
    if f < n {
        assert forall|j: int| 0 <= j < f && (#[trigger] records[j]).request_id == id implies
            ended_between(records, id, j, f) by {
            assert(before[j] == records[j]);
        }
        assert forall|j: int|
            f <= j < n && (#[trigger] records[j]).request_id == id implies !super::ends_request(
            records[j].transition,
        ) by {
            assert(before[j] == records[j]);
        }
    } else {
        assert forall|j: int| 0 <= j < n && (#[trigger] records[j]).request_id == id implies
            ended_between(records, id, j, n) by {
            assert(before[j] == records[j]);
        }
    }
}

/// Every span covers one run of records of its request: its parent, identity,
/// digest and start time are those of the first record of the request since
/// the request was last ended, its end time and outcome those of the record
/// that ends it.
pub proof fn spans_begin_with_their_first_record(records: Seq<RecordModel>, i: int)
    requires
        0 <= i < grouped(records).1.len(),
    ensures
        exists|f: int, n: int| #[trigger] covers_run(records, grouped(records).1[i], f, n),
    decreases records.len(),
{
    let n = records.len() - 1;
    let before = records.drop_last();
    let m = records.last();
    let (open, spans) = grouped(before);
    let span = grouped(records).1[i];
    if i < spans.len() {
        spans_begin_with_their_first_record(before, i);
        let (f, k) = choose|f: int, k: int| #[trigger] covers_run(before, spans[i], f, k);
        lemma_covers_longer(records, span, f, k);
    } else {
        let id = m.request_id;
        lemma_open_runs(before, id);
        lemma_ended_longer(records, id);
        assert forall|j: int| 0 <= j < n implies #[trigger] records[j] == before[j] by {}
        if open.dom().contains(id) {
            let f = choose|f: int| #[trigger]
                opens_run(before, id, f, n) && open[id].parent == before[f].parent
                    && open[id].identity == before[f].identity && open[id].digest
                    == before[f].digest && open[id].start_time_ns == before[f].wall_time_ns;
            assert forall|j: int| 0 <= j < f && (#[trigger] records[j]).request_id == id implies
                ended_between(records, id, j, f) by {
                assert(before[j] == records[j]);
            }
            assert forall|j: int|
                f <= j < n && (#[trigger] records[j]).request_id == id implies
                !super::ends_request(records[j].transition) by {
                assert(before[j] == records[j]);
            }
            assert(covers_run(records, span, f, n));
        } else {
            assert forall|j: int| 0 <= j < n && (#[trigger] records[j]).request_id == id implies
                ended_between(records, id, j, n) by {
                assert(before[j] == records[j]);
            }
            assert(covers_run(records, span, n, n));
        }
    }
}

/// The event of a record says what the record says: its transition, reason,
/// time, sequence and capability set.
pub proof fn events_say_what_records_say(a: RecordModel, b: RecordModel)
    ensures
        event_of(a) == event_of(b) <==> a.transition == b.transition && a.reason == b.reason
            && a.wall_time_ns == b.wall_time_ns && a.sequence == b.sequence && a.caps_hash
            == b.caps_hash,
        event_of(a).transition == a.transition,
        event_of(a).reason == a.reason,
        event_of(a).wall_time_ns == a.wall_time_ns,
        event_of(a).sequence == a.sequence,
        event_of(a).caps_hash == a.caps_hash,
{
}

} // verus!
