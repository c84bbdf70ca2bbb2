//! Deltas between two result files.
use super::load;
use super::load::{truth_text, MetricRow, RowModel};
use crate::order;
use crate::text;
use crate::texts;
use vstd::prelude::*;
use vstd::utf8::*;

verus! {

/// What is compared of a result file.
#[derive(Clone, Debug, PartialEq, Eq)]
pub struct BenchSummary {
    /// UTC date.
    pub date: String,
    /// Full commit hash.
    pub commit: String,
    /// Short commit when available.
    pub commit_short: String,
    /// Machine class.
    pub machine: String,
    /// True on the pinned reference host.
    pub is_reference_hardware: bool,
    /// Metrics.
    pub metrics: Vec<MetricRow>,
}

impl BenchSummary {
    /// The short commit, or the full one.
    pub open spec fn shown_commit(self) -> Seq<char> {
        if self.commit_short@.len() == 0 {
            self.commit@
        } else {
            self.commit_short@
        }
    }

    /// The short commit, or the full one.
    pub fn commit_short_or(&self) -> (r: &str)
        ensures
            r@ == self.shown_commit(),
    {
        if text::chars_of(self.commit_short.as_str()).len() == 0 {
            self.commit.as_str()
        } else {
            self.commit_short.as_str()
        }
    }
}

/// The lines above the metrics.
pub open spec fn head_lines(a: BenchSummary, b: BenchSummary) -> Seq<Seq<char>> {
    let top = seq![
        "compare "@ + a.shown_commit() + " ("@ + a.date@ + ") -> "@ + b.shown_commit() + " ("@
            + b.date@ + ")"@,
        "hardware a: "@ + a.machine@ + " ref="@ + load::truth(a.is_reference_hardware) + " | b: "@
            + b.machine@ + " ref="@ + load::truth(b.is_reference_hardware),
    ];
    if a.is_reference_hardware && b.is_reference_hardware {
        top
    } else {
        top.push(
            "note: one or both runs are NOT on AX42-1 reference hardware; do not treat BENCH-4/5 deltas as gated."@,
        )
    }
}

/// The lines above the metrics.
pub fn compare_head(a: &BenchSummary, b: &BenchSummary) -> (r: Vec<String>)
    ensures
        texts::texts(r@) == head_lines(*a, *b),
{
    let mut first = text::join3("compare ", a.commit_short_or(), " (");
    first.append(a.date.as_str());
    first.append(") -> ");
    first.append(b.commit_short_or());
    first.append(" (");
    first.append(b.date.as_str());
    first.append(")");
    let mut second = text::join3("hardware a: ", a.machine.as_str(), " ref=");
    second.append(truth_text(a.is_reference_hardware));
    second.append(" | b: ");
    second.append(b.machine.as_str());
    second.append(" ref=");
    second.append(truth_text(b.is_reference_hardware));
    let mut out: Vec<String> = Vec::new();
    out.push(first);
    out.push(second);
    if !a.is_reference_hardware || !b.is_reference_hardware {
        out.push(
            "note: one or both runs are NOT on AX42-1 reference hardware; do not treat BENCH-4/5 deltas as gated.".to_owned(),
        );
    }
    assert(texts::texts(out@) =~= head_lines(*a, *b));
    out
}

/// The ids of metrics, in place.
pub open spec fn ids_of(v: Seq<MetricRow>) -> Seq<Seq<char>> {
    v.map_values(|m: MetricRow| m.id@)
}

/// Texts are ordered by their bytes.
pub open spec fn by_bytes() -> spec_fn(Seq<char>) -> Seq<u8> {
    |t: Seq<char>| encode_utf8(t)
}

/// The ids of both files, once each, in order.
pub open spec fn all_ids(a: Seq<MetricRow>, b: Seq<MetricRow>) -> Seq<Seq<char>> {
    order::arranged(ids_of(a) + ids_of(b), by_bytes())
}

/// The last metric with an id among the first `n`.
pub open spec fn last_with(v: Seq<MetricRow>, id: Seq<char>, n: nat) -> Option<nat>
    decreases n,
{
    if n == 0 {
        None
    } else if v[n - 1].id@ == id {
        Some((n - 1) as nat)
    } else {
        last_with(v, id, (n - 1) as nat)
    }
}

/// A number that fits a signed one, or zero.
pub open spec fn clamped(n: u64) -> int {
    if n <= i64::MAX {
        n as int
    } else {
        0
    }
}

/// A number with its sign.
pub open spec fn signed(n: int) -> Seq<char> {
    if n < 0 {
        "-"@ + text::decimal((-n) as nat)
    } else {
        "+"@ + text::decimal(n as nat)
    }
}

/// One latency before and after.
pub open spec fn latency_delta(label: Seq<char>, x: u64, y: u64) -> Seq<char> {
    label + text::decimal(x as nat) + "ns -> "@ + text::decimal(y as nat) + "ns ("@ + signed(
        clamped(y) - clamped(x),
    ) + "ns) "@
}

/// What follows the throughput in a metric's line.
pub open spec fn delta_tail(a: RowModel, b: RowModel) -> Seq<char> {
    let latencies = match (a.latency_ns, b.latency_ns) {
        (Some(x), Some(y)) => latency_delta("p50 "@, x.p50, y.p50) + latency_delta(
            "p99 "@,
            x.p99,
            y.p99,
        ),
        _ => Seq::empty(),
    };
    latencies + "gate "@ + a.gate_status + " -> "@ + b.gate_status
}

/// A line on an id.
#[derive(Clone, Debug, PartialEq, Eq)]
pub enum CompareLine {
    /// In one file only.
    Text(String),
    /// In both: what stands before and behind the throughput, and the places of
    /// the two metrics.
    Delta { head: String, tail: String, a: usize, b: usize },
}

/// A [`CompareLine`] with its texts as character sequences.
pub ghost enum LineModel {
    Text(Seq<char>),
    Delta { head: Seq<char>, tail: Seq<char>, a: nat, b: nat },
}

impl View for CompareLine {
    type V = LineModel;

    open spec fn view(&self) -> LineModel {
        match *self {
            CompareLine::Text(s) => LineModel::Text(s@),
            CompareLine::Delta { head, tail, a, b } => LineModel::Delta {
                head: head@,
                tail: tail@,
                a: a as nat,
                b: b as nat,
            },
        }
    }
}

/// The line on an id.
pub open spec fn line_on(a: Seq<MetricRow>, b: Seq<MetricRow>, id: Seq<char>) -> LineModel {
    match (last_with(a, id, a.len()), last_with(b, id, b.len())) {
        (Some(i), Some(j)) => LineModel::Delta {
            head: id + " ("@ + a[i as int].name@ + ") "@,
            tail: delta_tail(a[i as int]@, b[j as int]@),
            a: i,
            b: j,
        },
        (Some(_), None) => LineModel::Text(id + ": present only in a"@),
        _ => LineModel::Text(id + ": present only in b"@),
    }
}

fn find_last(v: &Vec<MetricRow>, id: &str) -> (r: Option<usize>)
    ensures
        match (r, last_with(v@, id@, v@.len())) {
            (Some(i), Some(j)) => i == j && i < v@.len(),
            (None, None) => true,
            _ => false,
        },
{
    let mut n: usize = v.len();
    while n > 0
        invariant
            n <= v.len(),
            last_with(v@, id@, v@.len()) == last_with(v@, id@, n as nat),
        decreases n,
    {
        if text::str_eq(v[n - 1].id.as_str(), id) {
            return Some(n - 1);
        }
        n -= 1;
    }
    None
}

fn clamp(n: u64) -> (r: i64)
    ensures
        r == clamped(n),
        r >= 0,
{
    if n <= 0x7fff_ffff_ffff_ffff {
        n as i64
    } else {
        0
    }
}

fn push_signed(s: &mut String, n: i64)
    requires
        n > i64::MIN,
    ensures
        final(s)@ == old(s)@ + signed(n as int),
{
    let ghost before = s@;
    if n < 0 {
        s.append("-");
        text::push_decimal(s, (-n) as u64);
    } else {
        s.append("+");
        text::push_decimal(s, n as u64);
    }
    assert(s@ =~= before + signed(n as int));
}

fn push_latency(s: &mut String, label: &str, x: u64, y: u64)
    ensures
        final(s)@ == old(s)@ + latency_delta(label@, x, y),
{
    let ghost before = s@;
    let mut t = text::join3(label, text::decimal_string(x).as_str(), "ns -> ");
    text::push_decimal(&mut t, y);
    t.append("ns (");
    push_signed(&mut t, clamp(y) - clamp(x));
    t.append("ns) ");
    assert(t@ == latency_delta(label@, x, y));
    s.append(t.as_str());
}

fn tail_of(a: &MetricRow, b: &MetricRow) -> (r: String)
    ensures
        r@ == delta_tail(a@, b@),
{
    let mut s = String::new();
    assert(s@ =~= Seq::empty());
    match (&a.latency_ns, &b.latency_ns) {
        (Some(x), Some(y)) => {
            push_latency(&mut s, "p50 ", x.p50, y.p50);
            push_latency(&mut s, "p99 ", x.p99, y.p99);
            assert(s@ =~= latency_delta("p50 "@, x.p50, y.p50) + latency_delta(
                "p99 "@,
                x.p99,
                y.p99,
            ));
        },
        _ => {},
    }
    s.append("gate ");
    s.append(a.gate_status.as_str());
    s.append(" -> ");
    s.append(b.gate_status.as_str());
    s
}

fn line_for(a: &Vec<MetricRow>, b: &Vec<MetricRow>, id: &str) -> (r: CompareLine)
    ensures
        r@ == line_on(a@, b@, id@),
{
    match (find_last(a, id), find_last(b, id)) {
        (Some(i), Some(j)) => {
            let mut head = text::join3(id, " (", a[i].name.as_str());
            head.append(") ");
            CompareLine::Delta { head, tail: tail_of(&a[i], &b[j]), a: i, b: j }
        },
        (Some(_), None) => CompareLine::Text(text::join(id, ": present only in a")),
        _ => CompareLine::Text(text::join(id, ": present only in b")),
    }
}

fn push_ids(out: &mut Vec<String>, v: &Vec<MetricRow>)
    ensures
        texts::texts(final(out)@) == texts::texts(old(out)@) + ids_of(v@),
{
    let ghost before = texts::texts(out@);
    let ghost ids = ids_of(v@);
    let mut i: usize = 0;
    assert(before + ids.take(0) =~= before);
    while i < v.len()
        invariant
            0 <= i <= v.len(),
            ids == ids_of(v@),
            texts::texts(out@) == before + ids.take(i as int),
        decreases v.len() - i,
    {
        let ghost held = out@;
        out.push(v[i].id.clone());
        assert(texts::texts(out@) =~= texts::texts(held).push(ids[i as int]));
        assert(before + ids.take(i as int + 1) =~= (before + ids.take(i as int)).push(
            ids[i as int],
        ));
        i += 1;
    }
    assert(ids.take(i as int) =~= ids);
}

/// The ids of both files, once each, in order.
fn ids_in_order(a: &Vec<MetricRow>, b: &Vec<MetricRow>) -> (r: Vec<String>)
    ensures
        texts::texts(r@) == all_ids(a@, b@),
{
    let ghost all = ids_of(a@) + ids_of(b@);
    let mut ids: Vec<String> = Vec::new();
    push_ids(&mut ids, a);
    push_ids(&mut ids, b);
    assert(texts::texts(ids@) =~= all);
    let sorted = texts::sort_texts(ids);
    let ghost s = texts::texts(sorted@);
    let mut out: Vec<String> = Vec::new();
    let mut i: usize = 0;
    while i < sorted.len()
        invariant
            0 <= i <= sorted.len(),
            s == texts::texts(sorted@),
            texts::ascend(s),
            order::ascending_by(texts::texts(out@), by_bytes()),
            forall|k: int|
                0 <= k < i ==> texts::texts(out@).contains(#[trigger] s[k]),
            forall|k: int|
                0 <= k < out@.len() ==> s.contains(#[trigger] texts::texts(out@)[k]),
            i > 0 ==> out@.len() > 0 && texts::texts(out@).last() == s[i - 1],
            i == 0 ==> out@.len() == 0,
        decreases sorted.len() - i,
    {
        let ghost held = texts::texts(out@);
        assert(s[i as int] == sorted@[i as int]@);
        let again = if out.len() > 0 {
            assert(held.last() == out@[out@.len() - 1]@);
            text::str_eq(out[out.len() - 1].as_str(), sorted[i].as_str())
        } else {
            false
        };
        if again {
            assert(held[held.len() - 1] == s[i as int]);
            assert(held.contains(s[i as int]));
        } else {
            let ghost x = s[i as int];
            out.push(sorted[i].clone());
            proof {
                let now = texts::texts(out@);
                assert(now =~= held.push(x));
                assert forall|k: int, m: int| 0 <= k < m < now.len() implies order::before(
                    by_bytes()(#[trigger] now[k]),
                    by_bytes()(#[trigger] now[m]),
                ) by {
                    if m == held.len() {
                        let y = held.last();
                        encode_utf8_decode_utf8(x);
                        encode_utf8_decode_utf8(y);
                        order::lemma_before_total(encode_utf8(y), encode_utf8(x));
                        assert(order::before(encode_utf8(y), encode_utf8(x)));
                        if k < held.len() - 1 {
                            assert(order::before(by_bytes()(held[k]), by_bytes()(y)));
                            order::lemma_before_transitive(
                                encode_utf8(held[k]),
                                encode_utf8(y),
                                encode_utf8(x),
                            );
                        }
                    } else {
                        assert(now[k] == held[k] && now[m] == held[m]);
                    }
                }
                assert forall|k: int| 0 <= k < i + 1 implies now.contains(#[trigger] s[k]) by {
                    if k < i {
                        let q = choose|q: int| 0 <= q < held.len() && held[q] == s[k];
                        assert(now[q] == s[k]);
                    } else {
                        assert(now[held.len() as int] == s[k]);
                    }
                }
                assert forall|k: int| 0 <= k < now.len() implies s.contains(
                    #[trigger] now[k],
                ) by {
                    if k < held.len() {
                        assert(now[k] == held[k]);
                    } else {
                        assert(s.contains(s[i as int]));
                    }
                }
            }
        }
        i += 1;
    }
    proof {
        broadcast use vstd::seq_lib::group_to_multiset_ensures;

        let t = texts::texts(out@);
        assert forall|x: Seq<char>|
            #![trigger t.contains(x)]
            #![trigger all.contains(x)]
            t.contains(x) <==> all.contains(x) by {
            assert(all.contains(x) <==> all.to_multiset().count(x) > 0);
            assert(s.contains(x) <==> s.to_multiset().count(x) > 0);
            if t.contains(x) {
                let k = choose|k: int| 0 <= k < t.len() && t[k] == x;
                assert(s.contains(t[k]));
            }
            if s.contains(x) {
                let k = choose|k: int| 0 <= k < s.len() && s[k] == x;
                assert(t.contains(s[k]));
            }
        }
        assert(order::is_arranged(t, all, by_bytes()));
        order::lemma_ascending_unique(t, order::arranged(all, by_bytes()), by_bytes());
    }
    out
}

/// The lines on the metrics of two files: one per id, in order.
pub fn compare_metrics(a: &BenchSummary, b: &BenchSummary) -> (r: Vec<CompareLine>)
    ensures
        r@.len() == all_ids(a.metrics@, b.metrics@).len(),
        forall|i: int|
            0 <= i < r@.len() ==> (#[trigger] r@[i])@ == line_on(
                a.metrics@,
                b.metrics@,
                all_ids(a.metrics@, b.metrics@)[i],
            ),
{
    let ids = ids_in_order(&a.metrics, &b.metrics);
    let ghost all = all_ids(a.metrics@, b.metrics@);
    let mut out: Vec<CompareLine> = Vec::new();
    let mut i: usize = 0;
    while i < ids.len()
        invariant
            0 <= i <= ids.len(),
            texts::texts(ids@) == all,
            all == all_ids(a.metrics@, b.metrics@),
            out@.len() == i,
            forall|k: int|
                0 <= k < i ==> (#[trigger] out@[k])@ == line_on(a.metrics@, b.metrics@, all[k]),
        decreases ids.len() - i,
    {
        assert(all[i as int] == ids@[i as int]@);
        let line = line_for(&a.metrics, &b.metrics, ids[i].as_str());
        out.push(line);
        i += 1;
    }
    out
}

/// Of several metrics with an id the last one counts; there is none exactly
/// when no metric has the id.
pub proof fn the_last_metric_counts(v: Seq<MetricRow>, id: Seq<char>, n: nat)
    requires
        n <= v.len(),
    ensures
        last_with(v, id, n) matches Some(i) ==> i < n && v[i as int].id@ == id && forall|j: int|
            i < j < n ==> (#[trigger] v[j]).id@ != id,
        last_with(v, id, n) is None ==> forall|j: int| 0 <= j < n ==> (#[trigger] v[j]).id@ != id,
    decreases n,
{
    if n > 0 {
        the_last_metric_counts(v, id, (n - 1) as nat);
    }
}

/// An id in both files has a line with both metrics, and one in a single file
/// a line that says in which.
pub proof fn every_id_has_its_line(a: Seq<MetricRow>, b: Seq<MetricRow>, id: Seq<char>)
    ensures
        ({
            let in_a = exists|i: int| 0 <= i < a.len() && (#[trigger] a[i]).id@ == id;
            let in_b = exists|i: int| 0 <= i < b.len() && (#[trigger] b[i]).id@ == id;
            &&& in_a && in_b ==> (line_on(a, b, id) matches LineModel::Delta {
                head,
                tail,
                a: i,
                b: j,
            } && i < a.len() && j < b.len() && a[i as int].id@ == id && b[j as int].id@ == id
                && head == id + " ("@ + a[i as int].name@ + ") "@ && tail == delta_tail(
                a[i as int]@,
                b[j as int]@,
            ))
            &&& in_a && !in_b ==> line_on(a, b, id) == LineModel::Text(
                id + ": present only in a"@,
            )
            &&& !in_a && in_b ==> line_on(a, b, id) == LineModel::Text(
                id + ": present only in b"@,
            )
        }),
{
    the_last_metric_counts(a, id, a.len());
    the_last_metric_counts(b, id, b.len());
}

/// The first line names both runs, the older one first; the warning stands
/// exactly when one of them was not made on the reference hardware.
pub proof fn heads_warn_of_other_hardware(a: BenchSummary, b: BenchSummary)
    ensures
        head_lines(a, b)[0] == "compare "@ + a.shown_commit() + " ("@ + a.date@ + ") -> "@
            + b.shown_commit() + " ("@ + b.date@ + ")"@,
        head_lines(a, b).len() == if a.is_reference_hardware && b.is_reference_hardware {
            2nat
        } else {
            3nat
        },
        a.commit_short@.len() > 0 ==> a.shown_commit() == a.commit_short@,
        a.commit_short@.len() == 0 ==> a.shown_commit() == a.commit@,
{
}

/// The change of a latency is what it was before taken from what it is after,
/// with its sign.
pub proof fn deltas_are_after_less_before(label: Seq<char>, x: u64, y: u64)
    requires
        x <= i64::MAX,
        y <= i64::MAX,
    ensures
        latency_delta(label, x, y) == label + text::decimal(x as nat) + "ns -> "@ + text::decimal(
            y as nat,
        ) + "ns ("@ + (if y >= x {
            "+"@ + text::decimal((y - x) as nat)
        } else {
            "-"@ + text::decimal((x - y) as nat)
        }) + "ns) "@,
{
}

/// Latencies are compared where both runs have them; the gates always are.
pub proof fn tails_compare_latencies_and_gates(a: RowModel, b: RowModel)
    ensures
        a.latency_ns matches Some(x) ==> b.latency_ns matches Some(y) ==> delta_tail(a, b)
            == latency_delta("p50 "@, x.p50, y.p50) + latency_delta("p99 "@, x.p99, y.p99)
            + "gate "@ + a.gate_status + " -> "@ + b.gate_status,
        a.latency_ns is None || b.latency_ns is None ==> delta_tail(a, b) == "gate "@
            + a.gate_status + " -> "@ + b.gate_status,
{
    if a.latency_ns is None || b.latency_ns is None {
        assert(Seq::<char>::empty() + "gate "@ =~= "gate "@);
    }
}

} // verus!
