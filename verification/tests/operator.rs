//! What the operator commands and the bench harness print.
use helix::audit::caps::encode_capability_set;
use helix::audit::hash::sha256_32;
use helix::audit::naming::hex_encode;
use helix::audit::record::{AuditRecord, Transition};
use helix::audit::verify::{verify_dir, DirEntry};
use helix::audit::writer::{LogWriter, WriteReq};
use helix::bench::compare::{compare_head, compare_metrics, BenchSummary, CompareLine};
use helix::bench::load::{
    default_out, default_out_path, fixture_places, gate_text, keep_sample, latency, load_budget,
    measured_row, percentile, plan_load, resolve_fixture, short_commit, workers, Fixture,
    MetricRow, MAX_SAMPLES,
};
use helix::bench::plan::{
    guest_loads, memory_load, memory_row, multi_loads, preempt_load, single_load,
};
use helix::bench::results::{commit_of, date_of, fingerprint, holes, parse_rss_bytes, LatencyNs};
use helix::bench::sorting::sort_numbers;
use helix::caps::{CapabilitySet, Identity, Interface, ToolDigest};
use helix::ctl::audit::{caps_path, caps_shown, caps_unread, caps_view, dump_output, verify_output};
use helix::ctl::run::{
    budget_or_default, default_budget, is_wasm_artifact, next_request_id, outcome_output, output_as,
    resolve_invoke, select_mode, success_output, Outcome, RunArgs, RunMode,
};
use helix::ctl::tool::{reload_output, reregister_output};
use helix::json::Json;

fn log(n: u8) -> Vec<u8> {
    let (mut bytes, mut writer) = LogWriter::open_genesis("gw".to_owned(), [n; 16]).unwrap();
    let mut batch = Vec::new();
    for i in 0..3u8 {
        let r = AuditRecord::new(
            [i; 16],
            None,
            [0u8; 32],
            [0u8; 32],
            Transition::Completed,
            "ok".to_owned(),
            None,
            None,
            None,
            0,
            0,
        );
        batch.push(WriteReq::new(r, false));
    }
    bytes.extend_from_slice(&writer.frame_batch(batch).unwrap().framed);
    bytes
}

#[test]
fn verify_prints_each_file() {
    let entry = DirEntry {
        name: helix::audit::naming::log_file_name(&[1u8; 16]),
        content: Ok(log(1)),
    };
    let r = verify_dir("/audit", vec![entry], &vec![]);
    let o = verify_output("/audit", &r);
    assert_eq!(o.code, 0);
    assert_eq!(o.out[0], "ok: 1 file(s) verified under /audit");
    let report = r.unwrap();
    assert_eq!(
        o.out[1],
        format!(
            "  {} frames=3 head={}",
            report.files[0].path,
            hex_encode(&report.files[0].report.head_hash)
        )
    );
    let o = verify_output("/audit", &verify_dir("/audit", vec![], &vec![]));
    assert_eq!((o.code, o.out.len()), (1, 0));
    assert!(o.err[0].starts_with("verify failed: "));
}

#[test]
fn dump_prints_what_can_be_read() {
    let bytes = log(1);
    let o = dump_output("f.log", Ok(bytes.clone()));
    assert_eq!((o.records.len(), o.err.len(), o.code), (3, 0, 0));
    let mut cut = bytes.clone();
    cut.truncate(bytes.len() - 10);
    let o = dump_output("f.log", Ok(cut));
    assert_eq!((o.records.len(), o.code), (2, 1));
    assert!(o.err[0].starts_with("dump: chain verify warning: "));
    assert!(o.err[1].starts_with("dump: stopped at offset "));
    let mut relinked = bytes;
    let last = relinked.len() - 1;
    relinked[last] ^= 1;
    let o = dump_output("f.log", Ok(relinked));
    assert_eq!((o.records.len(), o.err.len(), o.code), (3, 1, 0));
    let o = dump_output("f.log", Ok(vec![0x01]));
    assert!(o.err[1].starts_with("dump: header: "));
    let o = dump_output("f.log", Err("gone".to_owned()));
    assert_eq!((o.err[0].as_str(), o.code), ("dump: read f.log: gone", 1));
}

#[test]
fn caps_are_shown_under_their_hash() {
    let set = CapabilitySet::new(&[Interface::Stdio], vec![], vec![], vec![]).unwrap();
    let bytes = encode_capability_set(&set).unwrap();
    let digest = sha256_32(&bytes);
    let (d, path) = caps_path("/audit", &hex_encode(&digest)).unwrap();
    assert_eq!(d, digest);
    assert_eq!(path, format!("/audit/caps/{}.cbor", hex_encode(&digest)));
    assert!(matches!(caps_view(&digest, &bytes), Ok(Json::Object(_))));
    let err = caps_view(&[0u8; 32], &bytes).unwrap_err();
    assert_eq!(
        err,
        format!(
            "caps: content hash mismatch: expected {}, file hashes to {}",
            hex_encode(&[0u8; 32]),
            hex_encode(&digest)
        )
    );
    assert!(matches!(caps_shown(&digest, &bytes), Some(Ok(Json::Object(_)))));
    assert_eq!(caps_shown(&[0u8; 32], &bytes).unwrap().unwrap_err(), err);
    let junk = [0x9f, 0xff];
    let err = caps_view(&sha256_32(&junk), &junk).unwrap_err();
    assert!(err.starts_with("caps: decode CBOR: "));
    assert!(caps_path("/audit", "xyz").unwrap_err().starts_with("caps: bad hash: "));
    assert_eq!(caps_unread("p", "gone"), "caps: read p: gone");
}

fn args() -> RunArgs {
    RunArgs {
        wasm: "t.wasm".to_owned(),
        input: "{}".to_owned(),
        caps: None,
        policy: None,
        identity: None,
        tool: None,
        artifacts: None,
    }
}

#[test]
fn runs_need_capabilities() {
    let mut a = args();
    a.policy = Some("p".to_owned());
    let o = select_mode(a.clone()).unwrap_err();
    assert_eq!(o.code, 2);
    a.identity = Some("i".to_owned());
    a.tool = Some("t".to_owned());
    assert_eq!(
        select_mode(a.clone()).unwrap(),
        RunMode::Policy { path: "p".to_owned(), identity: "i".to_owned(), tool: "t".to_owned() }
    );
    a.caps = Some("c".to_owned());
    assert_eq!(select_mode(a).unwrap(), RunMode::Caps { path: "c".to_owned() });
    let b = default_budget();
    assert_eq!((b.preempt_ticks(), b.wall_clock_ms()), (500, 2000));
    assert_eq!((b.memory_bytes(), b.output_bytes()), (64 * 1024 * 1024, 1024 * 1024));
    assert_eq!(budget_or_default(None), b);
    let other = load_budget(Fixture::Spin, 0);
    assert_eq!(budget_or_default(Some(other)), other);
}

#[test]
fn policies_are_resolved_in_order() {
    let who = Identity::from_bytes([1u8; 32]);
    let tool = ToolDigest::from_bytes([2u8; 32]);
    let grant = || Some((CapabilitySet::empty(), default_budget()));
    let resolve = |i, t, g| resolve_invoke("me", i, "count", t, tool, g);
    assert_eq!(
        resolve(None, None, None).unwrap_err(),
        "unknown identity alias me"
    );
    assert_eq!(
        resolve(Some(who), None, None).unwrap_err(),
        "unknown tool alias count"
    );
    let other = ToolDigest::from_bytes([3u8; 32]);
    assert_eq!(
        resolve(Some(who), Some(other), grant()).unwrap_err(),
        format!(
            "wasm digest mismatch for alias count: policy has {}, file has {}",
            "03".repeat(32),
            "02".repeat(32)
        )
    );
    assert_eq!(
        resolve(Some(who), Some(tool), None).unwrap_err(),
        "no grant for me / count"
    );
    let (i, _, b) = resolve(Some(who), Some(tool), grant()).unwrap();
    assert_eq!((i, b), (who, default_budget()));
}

#[test]
fn request_ids_hold_time_and_number() {
    assert_eq!(next_request_id(5, 7).as_u128(), 5 * 65_536 + 7);
    assert_eq!(next_request_id(5, 65_537).as_u128(), 5 * 65_536 + 1);
    assert!(next_request_id(6, 0).as_u128() > next_request_id(5, 65_535).as_u128());
}

#[test]
fn artifacts_are_components() {
    assert!(is_wasm_artifact("/a/b.wasm"));
    assert!(!is_wasm_artifact("/a/.wasm"));
    assert!(!is_wasm_artifact("/a.wasm/b"));
    assert!(!is_wasm_artifact("/a/b.wat"));
}

#[test]
fn outcomes_are_printed() {
    let json = Outcome::Success { output: b"{ \"b\": [1, 2.5], \"a\": null }".to_vec() };
    let o = outcome_output(&json);
    assert_eq!((o.out, o.code), (vec!["{\"a\":null,\"b\":[1,2.5]}".to_owned()], 0));
    let raw = Outcome::Success { output: b"hi".to_vec() };
    assert_eq!(outcome_output(&raw).out, vec!["hi".to_owned()]);
    assert_eq!(success_output(b"{} {}").out, vec!["{} {}".to_owned()]);
    assert_eq!(success_output(&[b'a', 0xff]).out, vec!["a\u{fffd}".to_owned()]);
    assert_eq!(output_as(Some("{}".to_owned()), b"{ }").out, vec!["{}".to_owned()]);
    let o = outcome_output(&Outcome::Completed { output: b"late".to_vec() });
    assert_eq!((o.out[0].as_str(), o.code), ("late", 1));
    let o = outcome_output(&Outcome::Terminal { kind: "Killed".to_owned() });
    assert_eq!(o.out[0], "terminal: Killed");
    let o = outcome_output(&Outcome::Error { message: "bad".to_owned() });
    assert_eq!((o.out[0].as_str(), o.code), ("error: bad", 1));
}

#[test]
fn tools_are_reported() {
    let ok = vec![ToolDigest::from_bytes([1u8; 32])];
    let o = reregister_output(&ok, &vec![]);
    assert_eq!(o.out[0], "reregister-all: 1 ok, 0 errors");
    assert_eq!(o.out[1], format!("  ok sha256:{}", "01".repeat(32)));
    assert_eq!(o.code, 0);
    let o = reregister_output(&vec![], &vec![("p".to_owned(), "e".to_owned())]);
    assert_eq!((o.err[0].as_str(), o.code), ("  fail p: e", 1));
    assert_eq!(reload_output(7, &Ok(())).out[0], "sent SIGHUP to pid 7");
    assert_eq!(reload_output(7, &Err("no".to_owned())).err[0], "error: no");
}

#[test]
fn fixtures_are_named() {
    for (name, file) in [
        ("trivial", "trivial.wasm"),
        ("fs_read", "fs_read.wasm"),
        ("http_get", "http_get.wasm"),
        ("spin", "spin.wasm"),
    ] {
        assert_eq!(Fixture::parse(name).unwrap().file_name(), file);
    }
    assert_eq!(Fixture::parse("x").unwrap_err(), "unknown fixture x");
    let places = fixture_places("/f", "a.wasm");
    assert_eq!(
        places,
        vec!["/f/adversarial/a.wasm", "/f/a.wasm", "/f/adversarial/runtime/a.wasm"]
    );
    assert_eq!(resolve_fixture("/f", "a.wasm", false, true, true), places[1]);
    assert_eq!(resolve_fixture("/f", "a.wasm", false, false, true), places[2]);
    assert_eq!(resolve_fixture("/f", "a.wasm", false, false, false), places[0]);
}

#[test]
fn loads_are_planned() {
    let row = plan_load("BENCH-6", "n", Fixture::Trivial, 8, "/f/x", false).unwrap();
    assert_eq!(
        row.notes,
        "fixture trivial.wasm missing at /f/x; scaffold only (AX/D-5 pending)"
    );
    assert_eq!(row.gate, "informational");
    assert_eq!(row.gate_status, "deferred_ax");
    let row = plan_load("x", "n", Fixture::FsRead, 8, "/f/x", true).unwrap();
    assert!(row.notes.starts_with("fs_read.wasm guest component not yet wired"));
    assert_eq!(row.gate, "see benchmark-protocol.md");
    assert!(plan_load("x", "n", Fixture::Spin, 8, "/f/x", true).is_none());
    assert_eq!(load_budget(Fixture::Spin, 3).preempt_ticks(), 10);
    assert_eq!(load_budget(Fixture::Trivial, 3).preempt_ticks(), 60_000);
    assert_eq!(workers(0), 1);
    assert_eq!(gate_text("BENCH-8"), "Killed within 12 ms p99 (informational)");

    let l = single_load("spin", 4, 5, 1, true, "BENCH-4").unwrap();
    assert_eq!((l.name.as_str(), l.fixture), ("spin c=4", Fixture::Spin));
    assert!(single_load("x", 4, 5, 1, true, "BENCH-4").is_err());
    let many = multi_loads("BENCH-5", false, 3, 1);
    let c: Vec<u32> = many.iter().map(|l| l.concurrency).collect();
    assert_eq!(c, vec![8, 64, 256]);
    assert_eq!(many[1].name, "e2e trivial audit_sync=off c=64");
    assert_eq!(guest_loads()[1].name, "http_get c=8");
    assert_eq!(preempt_load(3).fixture, Fixture::Spin);
    let pulse = measured_row(
        &memory_load().id,
        &memory_load().name,
        8,
        &vec![],
        2,
        1,
        false,
        Some(9),
    );
    assert_eq!(pulse.latency_ns, None);
    let row = memory_row(pulse, true);
    assert_eq!(row.name, "RSS after 100000 invocations at c=64");
    assert_eq!((row.rss_bytes, row.completed), (Some(9), Some(2)));
    assert!(row.notes.ends_with("target_iters=100000; full=true"));
}

#[test]
fn samples_make_percentiles() {
    let mut samples = Vec::new();
    for n in (0..=100u64).rev() {
        keep_sample(&mut samples, u128::from(n));
    }
    keep_sample(&mut samples, u128::MAX);
    assert_eq!(samples.last(), Some(&u64::MAX));
    samples.pop();
    assert_eq!(
        latency(&samples),
        Some(LatencyNs { p50: 50, p90: 90, p99: 99, max: 100 })
    );
    assert_eq!(latency(&vec![]), None);
    assert_eq!(percentile(&vec![], 50), 0);
    assert_eq!(percentile(&vec![1, 2, 3, 4], 50), 2);
    assert_eq!(sort_numbers(&vec![3, 1, 2, 1]), vec![1, 1, 2, 3]);
    let mut full = vec![0u64; MAX_SAMPLES];
    keep_sample(&mut full, 1);
    assert_eq!(full.len(), MAX_SAMPLES);
    let row = measured_row("BENCH-4", "n", 8, &samples, 101, 2, true, None);
    assert_eq!(
        row.notes,
        "in-process pool load scaffold; audit_sync=true; ok=101 err=2; \
         NOT reference-hardware gated (AX42-1 missing, D-5/HLX-8 open)"
    );
    assert_eq!(row.latency_ns.unwrap().p99, 99);
}

#[test]
fn results_have_a_place() {
    assert_eq!(short_commit("0123456789"), "0123456");
    assert_eq!(short_commit("012"), "012");
    assert_eq!(
        default_out_path("2024-01-02", "0123456789", "/out"),
        "/out/2024-01-02-0123456.json"
    );
    assert_eq!(default_out(Some("x".to_owned()), "d", "c", "/out"), "x");
    assert_eq!(default_out(None, "d", "c", "/out/"), "/out/d-c.json");
    assert_eq!(commit_of(Some(b"abc\n")), "abc");
    assert_eq!(commit_of(None), "unknown");
    assert_eq!(date_of(None, 5), "epoch-5");
    assert_eq!(date_of(Some(b"2024-01-02\n"), 5), "2024-01-02");
    assert_eq!(holes().len(), 5);
}

#[test]
fn hosts_are_fingerprinted() {
    assert_eq!(parse_rss_bytes("Name:\tx\nVmRSS:\t  12 kB\n"), Some(12 * 1024));
    assert_eq!(parse_rss_bytes("VmRSS: x kB\nVmRSS: 1 kB"), None);
    assert_eq!(parse_rss_bytes("VmRSS: 18446744073709551615 kB"), Some(u64::MAX));
    assert_eq!(parse_rss_bytes("VmRSS: 18446744073709551616 kB"), None);
    let f = fingerprint(
        Some(4),
        Some("Linux 6\r\nmore"),
        Some("x\nmodel name\t: Fast CPU\n"),
        Some("MemTotal: bad\nMemTotal: +2 kB\n"),
        None,
    );
    assert_eq!((f.cpus, f.memory_bytes), (4, 2048));
    assert_eq!((f.cpu.as_str(), f.os.as_str(), f.machine.as_str()), ("Fast CPU", "Linux 6", "unknown"));
    assert!(!f.is_reference_hardware);
    let f = fingerprint(None, None, None, None, Some("box"));
    assert_eq!((f.cpus, f.memory_bytes, f.machine.as_str()), (1, 0, "box"));
    assert_eq!((f.cpu.as_str(), f.os.as_str()), ("unknown", "unknown"));
}

fn row(id: &str, p50: Option<u64>) -> MetricRow {
    MetricRow {
        id: id.to_owned(),
        name: "n".to_owned(),
        concurrency: None,
        completed: None,
        latency_ns: p50.map(|n| LatencyNs { p50: n, p90: n, p99: n + 1, max: n }),
        rss_bytes: None,
        gate_status: "pass".to_owned(),
        gate: String::new(),
        notes: String::new(),
    }
}

fn summary(metrics: Vec<MetricRow>, reference: bool) -> BenchSummary {
    BenchSummary {
        date: "2024-01-02".to_owned(),
        commit: "0123456789".to_owned(),
        commit_short: String::new(),
        machine: "box".to_owned(),
        is_reference_hardware: reference,
        metrics,
    }
}

#[test]
fn results_are_compared() {
    let a = summary(vec![row("B", Some(10)), row("A", None), row("B", Some(20))], true);
    let mut b = summary(vec![row("C", None), row("B", Some(15))], true);
    b.commit_short = "0123".to_owned();
    assert_eq!(
        compare_head(&a, &b),
        vec![
            "compare 0123456789 (2024-01-02) -> 0123 (2024-01-02)",
            "hardware a: box ref=true | b: box ref=true"
        ]
    );
    b.is_reference_hardware = false;
    assert_eq!(compare_head(&a, &b).len(), 3);
    let lines = compare_metrics(&a, &b);
    assert_eq!(
        lines,
        vec![
            CompareLine::Text("A: present only in a".to_owned()),
            CompareLine::Delta {
                head: "B (n) ".to_owned(),
                tail: "p50 20ns -> 15ns (-5ns) p99 21ns -> 16ns (-5ns) gate pass -> pass"
                    .to_owned(),
                a: 2,
                b: 1
            },
            CompareLine::Text("C: present only in b".to_owned()),
        ]
    );
    let same = compare_metrics(&b, &b);
    assert!(matches!(&same[0], CompareLine::Delta { tail, .. } if tail.contains("(+0ns)")));
}
