//! Load fixtures, and what a load's row says.
use super::results::LatencyNs;
use super::sorting;
use crate::audit::verify;
use crate::audit::verify::join_dir;
use crate::caps::budget::{Ceilings, ResourceBudget};
use crate::text;
use vstd::prelude::*;
use vstd::utf8::*;

verus! {

/// Supported load fixtures.
#[derive(Clone, Copy, Debug, PartialEq, Eq, Structural)]
pub enum Fixture {
    Trivial,
    FsRead,
    HttpGet,
    Spin,
}

impl Fixture {
    /// The fixture's name.
    pub open spec fn name(self) -> Seq<char> {
        match self {
            Fixture::Trivial => "trivial"@,
            Fixture::FsRead => "fs_read"@,
            Fixture::HttpGet => "http_get"@,
            Fixture::Spin => "spin"@,
        }
    }

    /// The fixture's file name.
    pub open spec fn file(self) -> Seq<char> {
        self.name() + ".wasm"@
    }

    /// The fixture with a name.
    pub fn parse(s: &str) -> (r: Result<Fixture, String>)
        ensures
            match r {
                Ok(f) => s@ == f.name(),
                Err(m) => (forall|f: Fixture| s@ != #[trigger] f.name()) && m@
                    == "unknown fixture "@ + s@,
            },
    {
        if text::str_eq(s, "trivial") {
            Ok(Fixture::Trivial)
        } else if text::str_eq(s, "fs_read") {
            Ok(Fixture::FsRead)
        } else if text::str_eq(s, "http_get") {
            Ok(Fixture::HttpGet)
        } else if text::str_eq(s, "spin") {
            Ok(Fixture::Spin)
        } else {
            Err(text::join("unknown fixture ", s))
        }
    }

    /// The fixture's file name.
    pub fn file_name(self) -> (r: &'static str)
        ensures
            r@ == self.file(),
    {
        proof {
            reveal_strlit(".wasm");
            reveal_strlit("trivial");
            reveal_strlit("trivial.wasm");
            reveal_strlit("fs_read");
            reveal_strlit("fs_read.wasm");
            reveal_strlit("http_get");
            reveal_strlit("http_get.wasm");
            reveal_strlit("spin");
            reveal_strlit("spin.wasm");
            assert("trivial.wasm"@ =~= "trivial"@ + ".wasm"@);
            assert("fs_read.wasm"@ =~= "fs_read"@ + ".wasm"@);
            assert("http_get.wasm"@ =~= "http_get"@ + ".wasm"@);
            assert("spin.wasm"@ =~= "spin"@ + ".wasm"@);
        }
        match self {
            Fixture::Trivial => "trivial.wasm",
            Fixture::FsRead => "fs_read.wasm",
            Fixture::HttpGet => "http_get.wasm",
            Fixture::Spin => "spin.wasm",
        }
    }

    /// Runs without imports of the host.
    pub open spec fn is_plain(self) -> bool {
        self == Fixture::Trivial || self == Fixture::Spin
    }
}

/// Where a fixture's file may be, best first.
pub open spec fn places(root: Seq<char>, name: Seq<char>) -> Seq<Seq<char>> {
    seq![
        verify::within_dir(verify::within_dir(root, "adversarial"@), name),
        verify::within_dir(root, name),
        verify::within_dir(verify::within_dir(root, "adversarial/runtime"@), name),
    ]
}

/// Where a fixture's file may be, best first.
pub fn fixture_places(root: &str, name: &str) -> (r: Vec<String>)
    ensures
        crate::texts::texts(r@) == places(root@, name@),
{
    let mut out: Vec<String> = Vec::new();
    out.push(join_dir(join_dir(root, "adversarial").as_str(), name));
    out.push(join_dir(root, name));
    out.push(join_dir(join_dir(root, "adversarial/runtime").as_str(), name));
    assert(crate::texts::texts(out@) =~= places(root@, name@));
    out
}

/// Where a fixture's file is taken from: the first place that holds a file,
/// or the first place.
pub fn resolve_fixture(root: &str, name: &str, first: bool, second: bool, third: bool) -> (r: String)
    ensures
        r@ == places(root@, name@)[if first {
            0
        } else if second {
            1
        } else if third {
            2
        } else {
            0
        }],
{
    if first {
        join_dir(join_dir(root, "adversarial").as_str(), name)
    } else if second {
        join_dir(root, name)
    } else if third {
        join_dir(join_dir(root, "adversarial/runtime").as_str(), name)
    } else {
        join_dir(join_dir(root, "adversarial").as_str(), name)
    }
}

/// One benchmark row. The throughput is the completed invocations over the
/// measured time.
#[derive(Clone, Debug, PartialEq, Eq)]
pub struct MetricRow {
    /// Stable id.
    pub id: String,
    /// Human label.
    pub name: String,
    /// Concurrency / in-flight when applicable.
    pub concurrency: Option<u32>,
    /// Completed invocations when measured.
    pub completed: Option<u64>,
    /// Latency percentiles (ns).
    pub latency_ns: Option<LatencyNs>,
    /// RSS bytes after run.
    pub rss_bytes: Option<u64>,
    /// `pass` / `fail` / `informational` / `deferred_ax`.
    pub gate_status: String,
    /// What the benchmark has to reach.
    pub gate: String,
    /// Extra notes.
    pub notes: String,
}

/// What a [`MetricRow`] says.
pub ghost struct RowModel {
    pub id: Seq<char>,
    pub name: Seq<char>,
    pub concurrency: Option<u32>,
    pub completed: Option<u64>,
    pub latency_ns: Option<LatencyNs>,
    pub rss_bytes: Option<u64>,
    pub gate_status: Seq<char>,
    pub gate: Seq<char>,
    pub notes: Seq<char>,
}

impl View for MetricRow {
    type V = RowModel;

    open spec fn view(&self) -> RowModel {
        RowModel {
            id: self.id@,
            name: self.name@,
            concurrency: self.concurrency,
            completed: self.completed,
            latency_ns: self.latency_ns,
            rss_bytes: self.rss_bytes,
            gate_status: self.gate_status@,
            gate: self.gate@,
            notes: self.notes@,
        }
    }
}

/// What a benchmark has to reach.
pub open spec fn gate_of(id: Seq<char>) -> Seq<char> {
    if id == "BENCH-4"@ {
        "Numeric gate left to D-5 / HLX-8; provisional 16000 rps @ c=64 p99≤5ms"@
    } else if id == "BENCH-5"@ {
        "Throughput delta vs BENCH-4 must not exceed 2×"@
    } else if id == "BENCH-6"@ {
        "informational"@
    } else if id == "BENCH-7"@ {
        "≤ 5% RSS growth after 100000 @ c=64"@
    } else if id == "BENCH-8"@ {
        "Killed within 12 ms p99 (informational)"@
    } else {
        "see benchmark-protocol.md"@
    }
}

/// What a benchmark has to reach.
pub fn gate_text(id: &str) -> (r: String)
    ensures
        r@ == gate_of(id@),
{
    if text::str_eq(id, "BENCH-4") {
        "Numeric gate left to D-5 / HLX-8; provisional 16000 rps @ c=64 p99≤5ms".to_owned()
    } else if text::str_eq(id, "BENCH-5") {
        "Throughput delta vs BENCH-4 must not exceed 2×".to_owned()
    } else if text::str_eq(id, "BENCH-6") {
        "informational".to_owned()
    } else if text::str_eq(id, "BENCH-7") {
        "≤ 5% RSS growth after 100000 @ c=64".to_owned()
    } else if text::str_eq(id, "BENCH-8") {
        "Killed within 12 ms p99 (informational)".to_owned()
    } else {
        "see benchmark-protocol.md".to_owned()
    }
}

/// A row for a load that was not run.
pub open spec fn deferred_row(id: Seq<char>, name: Seq<char>, concurrency: u32, notes: Seq<char>) -> RowModel {
    RowModel {
        id,
        name,
        concurrency: Some(concurrency),
        completed: None,
        latency_ns: None,
        rss_bytes: None,
        gate_status: "deferred_ax"@,
        gate: gate_of(id),
        notes,
    }
}

/// Why a load is not run, if it is not.
pub open spec fn deferral(fixture: Fixture, path: Seq<char>, is_file: bool) -> Option<Seq<char>> {
    if !is_file {
        Some(
            "fixture "@ + fixture.file() + " missing at "@ + path
                + "; scaffold only (AX/D-5 pending)"@,
        )
    } else if !fixture.is_plain() {
        Some(
            fixture.file()
                + " guest component not yet wired for in-process load; helix-bench accepts the name for future AX runs"@,
        )
    } else {
        None
    }
}

/// The row of a load that cannot be run: its file is missing, or needs imports
/// of the host. `None` for a load that can.
pub fn plan_load(
    id: &str,
    name: &str,
    fixture: Fixture,
    concurrency: u32,
    path: &str,
    is_file: bool,
) -> (r: Option<MetricRow>)
    ensures
        match (r, deferral(fixture, path@, is_file)) {
            (Some(row), Some(notes)) => row@ == deferred_row(id@, name@, concurrency, notes),
            (None, None) => true,
            _ => false,
        },
{
    let notes: String = if !is_file {
        let mut s = text::join3("fixture ", fixture.file_name(), " missing at ");
        s.append(path);
        s.append("; scaffold only (AX/D-5 pending)");
        s
    } else {
        match fixture {
            Fixture::Trivial => {
                return None;
            },
            Fixture::Spin => {
                return None;
            },
            _ => text::join(
                fixture.file_name(),
                " guest component not yet wired for in-process load; helix-bench accepts the name for future AX runs",
            ),
        }
    };
    Some(
        MetricRow {
            id: id.to_owned(),
            name: name.to_owned(),
            concurrency: Some(concurrency),
            completed: None,
            latency_ns: None,
            rss_bytes: None,
            gate_status: "deferred_ax".to_owned(),
            gate: gate_text(id),
            notes,
        },
    )
}

/// How much memory an instance under load gets.
pub const LOAD_MEMORY_BYTES: u64 = 4_194_304;

/// How many workers run: at least one.
pub fn workers(concurrency: u32) -> (r: u32)
    ensures
        r == if concurrency == 0 {
            1
        } else {
            concurrency
        },
{
    if concurrency == 0 {
        1
    } else {
        concurrency
    }
}

/// The budget of an invocation under load. The spinning fixture is cut off
/// early.
pub fn load_budget(fixture: Fixture, concurrency: u32) -> (r: ResourceBudget)
    ensures
        r@ == (Ceilings {
            preempt_ticks: if fixture == Fixture::Spin {
                10
            } else {
                60_000
            },
            wall_clock_ms: 60_000,
            memory_bytes: LOAD_MEMORY_BYTES as nat,
            output_bytes: 1024,
            max_delegation_depth: 2,
            max_children: 8,
            max_concurrent_instances: if concurrency == 0 {
                1
            } else {
                concurrency as nat
            },
        }),
{
    let ticks: u32 = match fixture {
        Fixture::Spin => 10,
        _ => 60_000,
    };
    ResourceBudget::new(ticks, 60_000, LOAD_MEMORY_BYTES, 1024, 2, 8, workers(concurrency))
}

/// How many samples are kept at most.
pub const MAX_SAMPLES: usize = 100_000;

/// Keeps a sample while there is room.
pub fn keep_sample(samples: &mut Vec<u64>, elapsed_ns: u128)
    ensures
        final(samples)@ == if old(samples)@.len() < MAX_SAMPLES {
            old(samples)@.push(
                if elapsed_ns <= u64::MAX {
                    elapsed_ns as u64
                } else {
                    u64::MAX
                },
            )
        } else {
            old(samples)@
        },
{
    if samples.len() < MAX_SAMPLES {
        let ns: u64 = if elapsed_ns <= 0xffff_ffff_ffff_ffff {
            elapsed_ns as u64
        } else {
            0xffff_ffff_ffff_ffff
        };
        samples.push(ns);
    }
}

/// The place of a percentile among `n` numbers in order.
pub open spec fn percentile_place(n: nat, p: u8) -> int {
    (p * (n - 1)) / 100
}

/// The percentile of numbers in order; zero where there are none.
pub fn percentile(sorted: &Vec<u64>, p: u8) -> (r: u64)
    requires
        sorted@.len() > 0 ==> percentile_place(sorted@.len(), p) < sorted@.len(),
    ensures
        sorted@.len() == 0 ==> r == 0,
        sorted@.len() > 0 ==> r == sorted@[percentile_place(sorted@.len(), p)],
{
    if sorted.len() == 0 {
        return 0;
    }
    let n: u128 = (sorted.len() - 1) as u128;
    assert(0 <= p * n <= 255 * n) by (nonlinear_arith)
        requires
            p <= 255,
    ;
    let at: u128 = (p as u128 * n) / 100;
    sorted[at as usize]
}

/// A percentile up to the hundredth is in place.
pub proof fn lemma_percentile_place(n: nat, p: u8)
    requires
        n > 0,
        p <= 100,
    ensures
        0 <= percentile_place(n, p) < n,
{
    assert(0 <= p * (n - 1) <= 100 * (n - 1)) by (nonlinear_arith)
        requires
            n > 0,
            p <= 100,
    ;
}

/// The percentiles of samples.
pub open spec fn latency_of(samples: Seq<u64>) -> Option<LatencyNs> {
    let s = sorting::sorted(samples);
    let n = samples.len();
    if n == 0 {
        None
    } else {
        Some(
            LatencyNs {
                p50: s[percentile_place(n, 50)],
                p90: s[percentile_place(n, 90)],
                p99: s[percentile_place(n, 99)],
                max: s[n - 1],
            },
        )
    }
}

/// The percentiles of samples; `None` where there are none.
pub fn latency(samples: &Vec<u64>) -> (r: Option<LatencyNs>)
    ensures
        r == latency_of(samples@),
{
    let sorted = sorting::sort_numbers(samples);
    let n: usize = sorted.len();
    if n == 0 {
        return None;
    }
    proof {
        lemma_percentile_place(n as nat, 50);
        lemma_percentile_place(n as nat, 90);
        lemma_percentile_place(n as nat, 99);
    }
    Some(
        LatencyNs {
            p50: percentile(&sorted, 50),
            p90: percentile(&sorted, 90),
            p99: percentile(&sorted, 99),
            max: sorted[n - 1],
        },
    )
}

/// `true` or `false`.
pub open spec fn truth(b: bool) -> Seq<char> {
    if b {
        "true"@
    } else {
        "false"@
    }
}

/// `true` or `false`.
pub fn truth_text(b: bool) -> (r: &'static str)
    ensures
        r@ == truth(b),
{
    if b {
        "true"
    } else {
        "false"
    }
}

/// The row of a load that was run.
pub fn measured_row(
    id: &str,
    name: &str,
    concurrency: u32,
    samples: &Vec<u64>,
    ok: u64,
    err: u64,
    audit_sync: bool,
    rss_bytes: Option<u64>,
) -> (r: MetricRow)
    ensures
        r@ == (RowModel {
            id: id@,
            name: name@,
            concurrency: Some(concurrency),
            completed: Some(ok),
            latency_ns: latency_of(samples@),
            rss_bytes,
            gate_status: "deferred_ax"@,
            gate: gate_of(id@),
            notes: "in-process pool load scaffold; audit_sync="@ + truth(audit_sync) + "; ok="@
                + text::decimal(ok as nat) + " err="@ + text::decimal(err as nat)
                + "; NOT reference-hardware gated (AX42-1 missing, D-5/HLX-8 open)"@,
        }),
{
    let mut notes = text::join3(
        "in-process pool load scaffold; audit_sync=",
        truth_text(audit_sync),
        "; ok=",
    );
    notes.append(text::decimal_string(ok).as_str());
    notes.append(" err=");
    notes.append(text::decimal_string(err).as_str());
    notes.append("; NOT reference-hardware gated (AX42-1 missing, D-5/HLX-8 open)");
    MetricRow {
        id: id.to_owned(),
        name: name.to_owned(),
        concurrency: Some(concurrency),
        completed: Some(ok),
        latency_ns: latency(samples),
        rss_bytes,
        gate_status: "deferred_ax".to_owned(),
        gate: gate_text(id),
        notes,
    }
}

/// A commit is cut between characters.
pub open spec fn can_be_cut(commit: Seq<char>) -> bool {
    encode_utf8(commit).len() >= 7 ==> valid_utf8(encode_utf8(commit).take(7))
}

/// The first seven bytes of a commit, or all of a shorter one.
pub open spec fn cut_commit(commit: Seq<char>) -> Seq<char> {
    if encode_utf8(commit).len() >= 7 {
        decode_utf8(encode_utf8(commit).take(7))
    } else {
        commit
    }
}

/// The first seven bytes of a commit, or all of a shorter one.
pub fn short_commit(commit: &str) -> (r: String)
    requires
        can_be_cut(commit@),
    ensures
        r@ == cut_commit(commit@),
{
    let bytes = commit.as_bytes();
    if bytes.len() < 7 {
        return commit.to_owned();
    }
    let mut head: Vec<u8> = Vec::new();
    let mut i: usize = 0;
    while i < 7
        invariant
            0 <= i <= 7,
            bytes@.len() >= 7,
            head@ == bytes@.take(i as int),
        decreases 7 - i,
    {
        head.push(bytes[i]);
        assert(head@ =~= bytes@.take(i as int + 1));
        i += 1;
    }
    match text::string_from_utf8(head) {
        Some(s) => s,
        None => String::new(),
    }
}

/// A path below a directory; one that starts at the root stays as it is.
pub open spec fn joined(dir: Seq<char>, name: Seq<char>) -> Seq<char> {
    if name.len() > 0 && name[0] == '/' {
        name
    } else {
        verify::within_dir(dir, name)
    }
}

/// Where results go: `<date>-<commit>.json` below a directory.
pub fn default_out_path(date: &str, commit: &str, out_dir: &str) -> (r: String)
    requires
        can_be_cut(commit@),
    ensures
        r@ == joined(out_dir@, date@ + "-"@ + cut_commit(commit@) + ".json"@),
{
    let short = short_commit(commit);
    let mut name = text::join3(date, "-", short.as_str());
    name.append(".json");
    let cs = text::chars_of(name.as_str());
    if cs.len() > 0 && cs[0] == '/' {
        return name;
    }
    join_dir(out_dir, name.as_str())
}

/// Where results go: where they were asked to, or the default.
pub fn default_out(explicit: Option<String>, date: &str, commit: &str, out_dir: &str) -> (r: String)
    requires
        can_be_cut(commit@),
    ensures
        match explicit {
            Some(p) => r@ == p@,
            None => r@ == joined(out_dir@, date@ + "-"@ + cut_commit(commit@) + ".json"@),
        },
{
    match explicit {
        Some(p) => p,
        None => default_out_path(date, commit, out_dir),
    }
}

/// The percentiles of samples grow with the percentage, and the largest sample
/// bounds them.
pub proof fn percentiles_ascend(samples: Seq<u64>)
    requires
        samples.len() > 0,
    ensures
        latency_of(samples) matches Some(l) && l.p50 <= l.p90 <= l.p99 <= l.max && samples.contains(
            l.max,
        ) && forall|i: int| 0 <= i < samples.len() ==> samples[i] <= l.max,
{
    broadcast use vstd::seq_lib::group_to_multiset_ensures;

    let n = samples.len();
    lemma_percentile_place(n, 50);
    lemma_percentile_place(n, 90);
    lemma_percentile_place(n, 99);
    vstd::seq_lib::to_multiset_len(samples);
    let s = sorting::sorted(samples);
    sorting::lemma_sorted(samples);
    vstd::seq_lib::to_multiset_len(s);
    assert(50 * (n - 1) <= 90 * (n - 1) <= 99 * (n - 1));
    let top = s[n - 1];
    assert(s.contains(top));
    assert(samples.to_multiset().count(top) > 0);
    assert forall|i: int| 0 <= i < samples.len() implies samples[i] <= top by {
        assert(samples.contains(samples[i]));
        assert(s.to_multiset().count(samples[i]) > 0);
        let j = choose|j: int| 0 <= j < s.len() && s[j] == samples[i];
        assert(s[j] <= top);
    }
}

/// A load is run exactly when its file is there and it needs nothing of the
/// host.
pub proof fn plain_loads_with_a_file_are_run(fixture: Fixture, path: Seq<char>, is_file: bool)
    ensures
        deferral(fixture, path, is_file) is None <==> is_file && (fixture is Trivial
            || fixture is Spin),
        !is_file ==> deferral(fixture, path, is_file) == Some(
            "fixture "@ + fixture.name() + ".wasm"@ + " missing at "@ + path
                + "; scaffold only (AX/D-5 pending)"@,
        ),
{
    let f = fixture.name();
    assert("fixture "@ + (f + ".wasm"@) =~= "fixture "@ + f + ".wasm"@);
}

/// Each fixture has its own name.
pub proof fn fixtures_are_told_apart(a: Fixture, b: Fixture)
    ensures
        a.name() == b.name() ==> a == b,
        a.name() == "trivial"@ <==> a is Trivial,
        a.name() == "fs_read"@ <==> a is FsRead,
        a.name() == "http_get"@ <==> a is HttpGet,
        a.name() == "spin"@ <==> a is Spin,
{
    reveal_strlit("trivial");
    reveal_strlit("fs_read");
    reveal_strlit("http_get");
    reveal_strlit("spin");
    assert("trivial"@[0] == 't');
    assert("fs_read"@[0] == 'f');
    assert("http_get"@[0] == 'h');
    assert("spin"@[0] == 's');
}

/// A percentile stands as far into the samples as its share of the way from
/// the first to the last, rounded down.
pub proof fn percentiles_stand_at_their_share(n: nat, p: u8)
    requires
        n > 0,
        p <= 100,
    ensures
        100 * percentile_place(n, p) <= p * (n - 1) < 100 * (percentile_place(n, p) + 1),
        percentile_place(n, 0) == 0,
        percentile_place(n, 100) == n - 1,
        percentile_place(n, 50) == (n - 1) / 2,
{
}

/// The latencies of samples are samples: half, nine tenths and ninety-nine
/// hundredths of the way up, and the top.
pub proof fn latencies_are_samples_in_order(samples: Seq<u64>)
    requires
        samples.len() > 0,
    ensures
        ({
            let s = sorting::sorted(samples);
            let n = samples.len() as int;
            &&& latency_of(samples) matches Some(l)
            &&& l.p50 == s[(n - 1) / 2]
            &&& l.p90 == s[(9 * (n - 1)) / 10]
            &&& l.p99 == s[(99 * (n - 1)) / 100]
            &&& l.max == s[n - 1]
            &&& s.to_multiset() == samples.to_multiset()
            &&& forall|i: int, j: int| 0 <= i <= j < s.len() ==> s[i] <= s[j]
        }),
        latency_of(Seq::<u64>::empty()) is None,
{
    sorting::lemma_sorted(samples);
}

/// A commit is shown by its first seven bytes, or whole if it is shorter.
pub proof fn commits_are_cut_to_seven(commit: Seq<char>)
    requires
        can_be_cut(commit),
    ensures
        encode_utf8(commit).len() >= 7 ==> encode_utf8(cut_commit(commit)) == encode_utf8(
            commit,
        ).take(7),
        encode_utf8(commit).len() < 7 ==> cut_commit(commit) == commit,
{
    if encode_utf8(commit).len() >= 7 {
        vstd::utf8::decode_utf8_encode_utf8(encode_utf8(commit).take(7));
    }
}

/// What each benchmark has to reach.
pub proof fn gates_are_these()
    ensures
        gate_of("BENCH-4"@)
            == "Numeric gate left to D-5 / HLX-8; provisional 16000 rps @ c=64 p99≤5ms"@,
        gate_of("BENCH-5"@) == "Throughput delta vs BENCH-4 must not exceed 2×"@,
        gate_of("BENCH-6"@) == "informational"@,
        gate_of("BENCH-7"@) == "≤ 5% RSS growth after 100000 @ c=64"@,
        gate_of("BENCH-8"@) == "Killed within 12 ms p99 (informational)"@,
{
    reveal_strlit("BENCH-4");
    reveal_strlit("BENCH-5");
    reveal_strlit("BENCH-6");
    reveal_strlit("BENCH-7");
    reveal_strlit("BENCH-8");
    assert("BENCH-4"@[6] == '4');
    assert("BENCH-5"@[6] == '5');
    assert("BENCH-6"@[6] == '6');
    assert("BENCH-7"@[6] == '7');
    assert("BENCH-8"@[6] == '8');
}

/// A load that is not run has a row without measurements.
pub proof fn deferred_rows_have_no_measurements(
    id: Seq<char>,
    name: Seq<char>,
    concurrency: u32,
    notes: Seq<char>,
)
    ensures
        ({
            let r = deferred_row(id, name, concurrency, notes);
            &&& r.id == id && r.name == name && r.notes == notes
            &&& r.concurrency == Some(concurrency)
            &&& r.completed is None && r.latency_ns is None && r.rss_bytes is None
            &&& r.gate_status == "deferred_ax"@
            &&& r.gate == gate_of(id)
        }),
        truth(true) == "true"@,
        truth(false) == "false"@,
{
}

/// A fixture is looked for among the adversarial ones, then at the root, then
/// among those of the runtime.
pub proof fn fixtures_are_looked_for_in_order(root: Seq<char>, name: Seq<char>)
    requires
        root.len() > 0,
        root.last() != '/',
    ensures
        places(root, name).len() == 3,
        places(root, name)[0] == root + "/adversarial/"@ + name,
        places(root, name)[1] == root + "/"@ + name,
        places(root, name)[2] == root + "/adversarial/runtime/"@ + name,
{
    reveal_strlit("/");
    reveal_strlit("adversarial");
    reveal_strlit("adversarial/runtime");
    reveal_strlit("/adversarial/");
    reveal_strlit("/adversarial/runtime/");
    let a = verify::within_dir(root, "adversarial"@);
    let b = verify::within_dir(root, "adversarial/runtime"@);
    assert(a.last() == "adversarial"@[10]);
    assert(b.last() == "adversarial/runtime"@[18]);
    assert("/adversarial/"@ =~= "/"@ + "adversarial"@ + "/"@);
    assert("/adversarial/runtime/"@ =~= "/"@ + "adversarial/runtime"@ + "/"@);
    assert(places(root, name)[0] =~= root + "/adversarial/"@ + name);
    assert(places(root, name)[2] =~= root + "/adversarial/runtime/"@ + name);
}

} // verus!
