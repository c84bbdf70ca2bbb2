//! Which loads a command runs.
use super::load;
use super::load::{truth_text, Fixture, MetricRow, RowModel};
use crate::text;
use vstd::prelude::*;

verus! {

/// A load to run.
#[derive(Clone, Debug, PartialEq, Eq)]
pub struct LoadRequest {
    pub id: String,
    pub name: String,
    pub fixture: Fixture,
    pub concurrency: u32,
    pub duration_s: u64,
    pub warmup_s: u64,
    pub audit_sync: bool,
}

/// What a [`LoadRequest`] says.
pub ghost struct LoadModel {
    pub id: Seq<char>,
    pub name: Seq<char>,
    pub fixture: Fixture,
    pub concurrency: u32,
    pub duration_s: u64,
    pub warmup_s: u64,
    pub audit_sync: bool,
}

impl View for LoadRequest {
    type V = LoadModel;

    open spec fn view(&self) -> LoadModel {
        LoadModel {
            id: self.id@,
            name: self.name@,
            fixture: self.fixture,
            concurrency: self.concurrency,
            duration_s: self.duration_s,
            warmup_s: self.warmup_s,
            audit_sync: self.audit_sync,
        }
    }
}

/// What loads say.
pub open spec fn models(v: Seq<LoadRequest>) -> Seq<LoadModel> {
    v.map_values(|l: LoadRequest| l@)
}

/// The load of a single fixture, or why the fixture is unknown.
pub fn single_load(
    fixture: &str,
    concurrency: u32,
    duration_s: u64,
    warmup_s: u64,
    audit_sync: bool,
    id: &str,
) -> (r: Result<LoadRequest, String>)
    ensures
        match r {
            Ok(l) => l.fixture.name() == fixture@ && l@ == (LoadModel {
                id: id@,
                name: fixture@ + " c="@ + text::decimal(concurrency as nat),
                fixture: l.fixture,
                concurrency,
                duration_s,
                warmup_s,
                audit_sync,
            }),
            Err(m) => (forall|f: Fixture| fixture@ != #[trigger] f.name()) && m@
                == "unknown fixture "@ + fixture@,
        },
{
    match Fixture::parse(fixture) {
        Err(m) => Err(m),
        Ok(f) => Ok(
            LoadRequest {
                id: id.to_owned(),
                name: text::join3(
                    fixture,
                    " c=",
                    text::decimal_string(concurrency as u64).as_str(),
                ),
                fixture: f,
                concurrency,
                duration_s,
                warmup_s,
                audit_sync,
            },
        ),
    }
}

/// An end-to-end load of the trivial fixture.
pub open spec fn end_to_end(
    id: Seq<char>,
    audit_sync: bool,
    duration_s: u64,
    warmup_s: u64,
    c: u32,
) -> LoadModel {
    LoadModel {
        id,
        name: "e2e trivial audit_sync="@ + (if audit_sync {
            "on"@
        } else {
            "off"@
        }) + " c="@ + text::decimal(c as nat),
        fixture: Fixture::Trivial,
        concurrency: c,
        duration_s,
        warmup_s,
        audit_sync,
    }
}

fn end_to_end_load(id: &str, audit_sync: bool, duration_s: u64, warmup_s: u64, c: u32) -> (r:
    LoadRequest)
    ensures
        r@ == end_to_end(id@, audit_sync, duration_s, warmup_s, c),
{
    let label = if audit_sync {
        "on"
    } else {
        "off"
    };
    let mut name = text::join3("e2e trivial audit_sync=", label, " c=");
    name.append(text::decimal_string(c as u64).as_str());
    LoadRequest {
        id: id.to_owned(),
        name,
        fixture: Fixture::Trivial,
        concurrency: c,
        duration_s,
        warmup_s,
        audit_sync,
    }
}

/// End-to-end loads with eight, sixty-four and two hundred and fifty-six in
/// flight.
pub fn multi_loads(id: &str, audit_sync: bool, duration_s: u64, warmup_s: u64) -> (r: Vec<LoadRequest>)
    ensures
        models(r@) == seq![
            end_to_end(id@, audit_sync, duration_s, warmup_s, 8),
            end_to_end(id@, audit_sync, duration_s, warmup_s, 64),
            end_to_end(id@, audit_sync, duration_s, warmup_s, 256),
        ],
{
    let mut out: Vec<LoadRequest> = Vec::new();
    out.push(end_to_end_load(id, audit_sync, duration_s, warmup_s, 8));
    out.push(end_to_end_load(id, audit_sync, duration_s, warmup_s, 64));
    out.push(end_to_end_load(id, audit_sync, duration_s, warmup_s, 256));
    assert(models(out@) =~= seq![
        end_to_end(id@, audit_sync, duration_s, warmup_s, 8),
        end_to_end(id@, audit_sync, duration_s, warmup_s, 64),
        end_to_end(id@, audit_sync, duration_s, warmup_s, 256),
    ]);
    out
}

/// A short load of a guest fixture.
pub open spec fn guest_load(fixture: Fixture) -> LoadModel {
    LoadModel {
        id: "BENCH-6"@,
        name: fixture.name() + " c=8"@,
        fixture,
        concurrency: 8,
        duration_s: 1,
        warmup_s: 0,
        audit_sync: true,
    }
}

fn guest_request(fixture: Fixture, label: &str) -> (r: LoadRequest)
    requires
        label@ == fixture.name(),
    ensures
        r@ == guest_load(fixture),
{
    LoadRequest {
        id: "BENCH-6".to_owned(),
        name: text::join(label, " c=8"),
        fixture,
        concurrency: 8,
        duration_s: 1,
        warmup_s: 0,
        audit_sync: true,
    }
}

/// The loads of the guest fixtures.
pub fn guest_loads() -> (r: Vec<LoadRequest>)
    ensures
        models(r@) == seq![guest_load(Fixture::FsRead), guest_load(Fixture::HttpGet)],
{
    let mut out: Vec<LoadRequest> = Vec::new();
    out.push(guest_request(Fixture::FsRead, "fs_read"));
    out.push(guest_request(Fixture::HttpGet, "http_get"));
    assert(models(out@) =~= seq![guest_load(Fixture::FsRead), guest_load(Fixture::HttpGet)]);
    out
}

/// The load whose memory is watched.
pub fn memory_load() -> (r: LoadRequest)
    ensures
        r@ == (LoadModel {
            id: "BENCH-7"@,
            name: "rss scaffold pulse"@,
            fixture: Fixture::Trivial,
            concurrency: 8,
            duration_s: 1,
            warmup_s: 0,
            audit_sync: false,
        }),
{
    LoadRequest {
        id: "BENCH-7".to_owned(),
        name: "rss scaffold pulse".to_owned(),
        fixture: Fixture::Trivial,
        concurrency: 8,
        duration_s: 1,
        warmup_s: 0,
        audit_sync: false,
    }
}

/// How many invocations a memory run aims at.
pub open spec fn memory_target(full: bool) -> nat {
    if full {
        100_000
    } else {
        1_000
    }
}

/// The row of a memory run, from the row of its load.
pub fn memory_row(pulse: MetricRow, full: bool) -> (r: MetricRow)
    ensures
        r@ == (RowModel {
            id: "BENCH-7"@,
            name: "RSS after "@ + text::decimal(memory_target(full)) + " invocations at c=64"@,
            gate: "≤ 5% RSS growth"@,
            gate_status: "deferred_ax"@,
            notes:
                "scaffold only: run `helix-bench run --fixture trivial --concurrency 64` on AX for real RSS; target_iters="@
                + text::decimal(memory_target(full)) + "; full="@ + load::truth(full),
            ..pulse@
        }),
{
    let target: u64 = if full {
        100_000
    } else {
        1_000
    };
    let shown = text::decimal_string(target);
    let mut notes = text::join3(
        "scaffold only: run `helix-bench run --fixture trivial --concurrency 64` on AX for real RSS; target_iters=",
        shown.as_str(),
        "; full=",
    );
    notes.append(truth_text(full));
    MetricRow {
        id: "BENCH-7".to_owned(),
        name: text::join3("RSS after ", shown.as_str(), " invocations at c=64"),
        concurrency: pulse.concurrency,
        completed: pulse.completed,
        latency_ns: pulse.latency_ns,
        rss_bytes: pulse.rss_bytes,
        gate_status: "deferred_ax".to_owned(),
        gate: "≤ 5% RSS growth".to_owned(),
        notes,
    }
}

/// The load that is cut off.
pub fn preempt_load(duration_s: u64) -> (r: LoadRequest)
    ensures
        r@ == (LoadModel {
            id: "BENCH-8"@,
            name: "preempt kill spin.wasm preempt_ticks=10"@,
            fixture: Fixture::Spin,
            concurrency: 1,
            duration_s,
            warmup_s: 0,
            audit_sync: false,
        }),
{
    LoadRequest {
        id: "BENCH-8".to_owned(),
        name: "preempt kill spin.wasm preempt_ticks=10".to_owned(),
        fixture: Fixture::Spin,
        concurrency: 1,
        duration_s,
        warmup_s: 0,
        audit_sync: false,
    }
}

/// End-to-end loads run the trivial fixture with what was asked for.
pub proof fn end_to_end_loads_are_as_asked(
    id: Seq<char>,
    audit_sync: bool,
    duration_s: u64,
    warmup_s: u64,
    c: u32,
)
    ensures
        ({
            let l = end_to_end(id, audit_sync, duration_s, warmup_s, c);
            &&& l.id == id
            &&& l.fixture is Trivial
            &&& l.concurrency == c
            &&& l.duration_s == duration_s
            &&& l.warmup_s == warmup_s
            &&& l.audit_sync == audit_sync
            &&& audit_sync ==> l.name == "e2e trivial audit_sync="@ + "on"@ + " c="@
                + text::decimal(c as nat)
            &&& !audit_sync ==> l.name == "e2e trivial audit_sync="@ + "off"@ + " c="@
                + text::decimal(c as nat)
        }),
{
}

/// Guest loads are short, with eight in flight and every record synced.
pub proof fn guest_loads_are_short(fixture: Fixture)
    ensures
        ({
            let l = guest_load(fixture);
            &&& l.id == "BENCH-6"@
            &&& l.name == fixture.name() + " c=8"@
            &&& l.fixture == fixture
            &&& l.concurrency == 8
            &&& l.duration_s == 1
            &&& l.warmup_s == 0
            &&& l.audit_sync
        }),
        memory_target(true) == 100_000,
        memory_target(false) == 1_000,
{
}

} // verus!
