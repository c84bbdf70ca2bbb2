//! Witnesses, the sink, verification against witnesses, and the receiver.
use helix::audit::naming::{encode_ulid_bytes, hex_encode};
use helix::audit::record::{AuditRecord, Transition};
use helix::audit::retention::RetentionEntry;
use helix::audit::verify::{verify_dir, DirEntry, DirVerifyReport};
use helix::audit::witness::{
    retention_object_key, witness_object_key, SinkPayload, Witness, WitnessError,
};
use helix::audit::witness_receive::{
    base_url, check_auth, get_plan, is_temp_name, listed_keys, next_put_step, safe_join,
    temp_extension, token_of, walk_root, GetPlan, PutStep, ReceiveState, BAD_REQUEST, CREATED,
    INTERNAL_SERVER_ERROR, PRECONDITION_FAILED, UNAUTHORIZED,
};
use helix::audit::witness_sink::calendar::{civil_from_days, secs_to_utc, utc_basic};
use helix::audit::witness_sink::creds::check_mode_0600;
use helix::audit::witness_sink::listing::select_keys;
use helix::audit::witness_sink::queue::{lag_ns, DeliveryAction, WitnessQueue, QUEUE_CAP};
use helix::audit::witness_sink::request::{
    authorize, authorize_at, bearer_token, exclusive_headers, get_outcome, holds_listing,
    list_outcome, put_outcome, sign_request, urlencoding_lite, SinkAddress, UrlParts,
};
use helix::audit::witness_sink::sigv4::{sign_at, sign_sigv4};
use helix::audit::witness_sink::{
    parse_listing, SigV4Creds, SinkError, WitnessAuth, WitnessConfig,
};
use helix::audit::witness_verify::{
    is_witness_sequence_key, sequence_keys, witness_prefix, WitnessCheck, WitnessVerifyError,
};
use helix::audit::writer::{LogWriter, WriteReq};
use helix::json::Json;

fn witness(n: u64) -> Witness {
    Witness::new("gw-1".to_owned(), [7u8; 16], n, [9u8; 32], 1_700_000_000_000)
}

#[test]
fn witness_cbor_round_trip_deterministic() {
    let w = Witness::new("gw-1".to_owned(), [7u8; 16], 42, [9u8; 32], 1_700_000_000_000);
    let a = w.encode_cbor().unwrap();
    let b = w.encode_cbor().unwrap();
    assert_eq!(a, b);
    let decoded = Witness::decode_cbor(&a).unwrap();
    assert_eq!(decoded, w);
    assert_eq!(
        w.object_key(),
        format!("gw-1/{}/{:020}", encode_ulid_bytes(&[7u8; 16]), 42)
    );
}

#[test]
fn witnesses_refuse_what_is_none() {
    assert!(matches!(Witness::decode_cbor(&[]), Err(WitnessError::Decode(_))));
    assert!(Witness::decode_cbor(&[0xa0]).is_err());
    assert!(Witness::decode_cbor(&[0xbf, 0xff]).is_err());
    assert!(WitnessError::Encode("x".to_owned()).message().contains('x'));
}

#[test]
fn object_keys_are_told_apart() {
    let entry = RetentionEntry::new("gw-1".to_owned(), [7u8; 16], [1u8; 32], 5, "f.log".to_owned());
    let retention = retention_object_key(&entry);
    assert_eq!(retention, format!("gw-1/{}/retention", encode_ulid_bytes(&[7u8; 16])));
    assert!(!is_witness_sequence_key(&retention));
    let key = witness_object_key("gw-1", &[7u8; 16], u64::MAX);
    assert!(is_witness_sequence_key(&key));
    assert_ne!(key, witness_object_key("gw-1", &[7u8; 16], u64::MAX - 1));
    assert!(!is_witness_sequence_key("00000000000000000001"));
    assert!(!is_witness_sequence_key("gw/0000000000000000000x"));
    let p = SinkPayload::Retention(entry);
    assert_eq!(p.object_key(), retention);
    assert!(p.as_witness().is_none());
    let w = SinkPayload::Witness(witness(3));
    assert_eq!(w.object_key(), witness(3).object_key());
    assert_eq!(w.encode_cbor().unwrap(), witness(3).encode_cbor().unwrap());
    assert_eq!(w.as_witness(), Some(&witness(3)));
    assert!(matches!(witness(3).to_json(), Json::Object(_)));
}

#[test]
fn dates_are_gregorian() {
    assert_eq!(utc_basic(0), "19700101T000000Z");
    assert_eq!(utc_basic(951_782_400), "20000229T000000Z");
    assert_eq!(utc_basic(1_440_938_160), "20150830T123600Z");
    assert_eq!(utc_basic(4_102_444_799), "20991231T235959Z");
    assert_eq!(secs_to_utc(86_399), (1970, 1, 1, 23, 59, 59));
    assert_eq!(civil_from_days(719_468), (1970, 1, 1));
    assert_eq!(civil_from_days(0), (0, 3, 1));
    assert_eq!(civil_from_days(-1), (0, 2, 29));
}

fn creds() -> SigV4Creds {
    SigV4Creds {
        access_key_id: "AKID".to_owned(),
        secret_access_key: "example-secret".to_owned(),
        session_token: None,
        region: "us-east-1".to_owned(),
        service: "s3".to_owned(),
    }
}

const SIGNATURE: &str = "6539bf005476a102b7d08e4af21481224f60637cbde91bf44bf3f2116cad53aa";

#[test]
fn signatures_match_a_computed_one() {
    let headers = sign_at(
        &creds(),
        "PUT",
        "sink.example.com",
        "/bucket/gw/x",
        "",
        b"hello",
        "20150830T123600Z",
    )
    .unwrap();
    assert_eq!(headers.len(), 3);
    assert_eq!(
        headers[0],
        (
            "x-amz-content-sha256".to_owned(),
            "2cf24dba5fb0a30e26e83b2ac5b9e29e1b161e5c1fa7425e73043362938b9824".to_owned()
        )
    );
    assert_eq!(headers[1], ("x-amz-date".to_owned(), "20150830T123600Z".to_owned()));
    assert_eq!(
        headers[2].1,
        format!(
            "AWS4-HMAC-SHA256 Credential=AKID/20150830/us-east-1/s3/aws4_request, \
             SignedHeaders=host;x-amz-content-sha256;x-amz-date, Signature={SIGNATURE}"
        )
    );
    let same = sign_sigv4(
        &creds(),
        "PUT",
        "sink.example.com",
        "/bucket/gw/x",
        "",
        b"hello",
        1_440_938_160,
    )
    .unwrap();
    assert_eq!(same, headers);
    let mut with_token = creds();
    with_token.session_token = Some("tok".to_owned());
    let headers = sign_sigv4(&with_token, "GET", "h", "/", "", b"", 0).unwrap();
    assert_eq!(headers[3], ("x-amz-security-token".to_owned(), "tok".to_owned()));
}

#[test]
fn requests_are_authorized() {
    let address = SinkAddress::new("https://sink.example.com/bucket/");
    let bearer = WitnessAuth::Bearer { token_file: "t".to_owned() };
    let headers = authorize(&address, &bearer, " tok \n", "GET", "k", b"", 0).unwrap();
    assert_eq!(headers, vec![("authorization".to_owned(), "Bearer tok".to_owned())]);

    let sigv4 = WitnessAuth::SigV4 { cred_file: "c".to_owned() };
    let file = "access_key_id=AKID\nsecret_access_key=example-secret\n";
    let headers =
        authorize(&address, &sigv4, file, "PUT", "/gw/x", b"hello", 1_440_938_160).unwrap();
    assert!(headers[2].1.ends_with(SIGNATURE));
    let err = authorize(&address, &sigv4, "", "PUT", "k", b"", 0).unwrap_err();
    assert_eq!(err, SinkError::Creds("missing access_key_id".to_owned()));
    let bad = SinkAddress::new("no address");
    let err = authorize_at(&bad, &sigv4, file, "PUT", "k", b"", "20150830T123600Z").unwrap_err();
    match err {
        SinkError::Http(m) => assert!(m.starts_with("bad url no address/k: "), "{m}"),
        other => panic!("{other:?}"),
    }
    let parts = UrlParts { host: None, path: String::new(), query: None };
    let err = sign_request(&creds(), "u", Ok(parts), "GET", b"", "20150830T123600Z").unwrap_err();
    assert_eq!(err, SinkError::Http("missing host".to_owned()));
    let root = UrlParts { host: Some("h".to_owned()), path: String::new(), query: None };
    let slash = UrlParts { host: Some("h".to_owned()), path: "/".to_owned(), query: None };
    assert_eq!(
        sign_request(&creds(), "u", Ok(root), "GET", b"", "20150830T123600Z"),
        sign_request(&creds(), "u", Ok(slash), "GET", b"", "20150830T123600Z")
    );
    assert_eq!(bearer_token("\tabc\r\n"), "abc");
    assert_eq!(exclusive_headers()[0], ("if-none-match".to_owned(), "*".to_owned()));
}

#[test]
fn credentials_are_parsed() {
    let c = SigV4Creds::parse(
        "# comment\n[default]\nAWS-Access-Key-Id = \"AKID\"\r\nsecret_access_key=s=1\n\
         junk\nregion = eu-west-1\naws_session_token=tok\n",
    )
    .unwrap();
    assert_eq!(c.access_key_id, "AKID");
    assert_eq!(c.secret_access_key, "s=1");
    assert_eq!(c.session_token, Some("tok".to_owned()));
    assert_eq!(c.region, "eu-west-1");
    assert_eq!(c.service, "s3");
    let err = SigV4Creds::parse("access_key_id=a").unwrap_err();
    assert_eq!(err.message(), "credentials: missing secret_access_key");
    let err = SigV4Creds::parse("").unwrap_err();
    assert_eq!(err.message(), "credentials: missing access_key_id");
}

#[test]
fn loose_files_are_refused() {
    assert!(check_mode_0600("/c", 0o100_600).is_ok());
    let err = check_mode_0600("/c", 0o100_644).unwrap_err();
    assert_eq!(
        err.message(),
        "credentials: credential file /c mode 644 is not 0600 (group/other bits set)"
    );
}

#[test]
fn addresses_are_joined() {
    let a = SinkAddress::new("http://sink//");
    assert_eq!(a.url_for("//gw/x"), "http://sink/gw/x");
    assert_eq!(a.list_url(""), "http://sink/");
    assert_eq!(a.list_url("/gw/"), "http://sink/gw/");
    assert_eq!(a.list_query_url("gw/ü x"), "http://sink?list-type=2&prefix=gw/%C3%BC%20x");
    assert_eq!(SinkAddress::prefix_for("/gw/"), "gw/");
    assert_eq!(urlencoding_lite("a-Z_0.~/+"), "a-Z_0.~/%2B");
}

#[test]
fn answers_are_classified() {
    assert!(put_outcome(200, "u", "200 OK", "").is_ok());
    assert_eq!(put_outcome(412, "u", "412", "").unwrap_err(), SinkError::Conflict);
    assert_eq!(
        put_outcome(500, "u", "500 Internal Server Error", "oops").unwrap_err().message(),
        "http: PUT u -> 500 Internal Server Error: oops"
    );
    assert!(get_outcome(299, "u", "").is_ok());
    assert_eq!(
        get_outcome(404, "u", "404 Not Found").unwrap_err().message(),
        "http: GET u -> 404 Not Found"
    );
    assert!(holds_listing(200) && !holds_listing(302));
    assert_eq!(
        list_outcome(403, "u", "403 Forbidden").unwrap_err().message(),
        "http: LIST u -> 403 Forbidden"
    );
    assert_eq!(SinkError::Conflict.message(), "412 precondition failed (key exists)");
    assert_eq!(SinkError::Io("x".to_owned()).message(), "io: x");
}

#[test]
fn listings_are_parsed() {
    let json = br#"["gw/b", 3, "gw/a", "other/c"]"#;
    assert_eq!(parse_listing(json, "gw/").unwrap(), vec!["gw/a", "gw/b"]);
    assert_eq!(parse_listing(json, "").unwrap().len(), 3);
    let xml = b"<List><Key>gw/b</Key><Key>x</Key><Key>gw/a</Key><Key>open";
    assert_eq!(parse_listing(xml, "gw/").unwrap(), vec!["gw/a", "gw/b"]);
    assert!(parse_listing(b"{}", "").unwrap().is_empty());
    let given = Some(vec![Some("b".to_owned()), None, Some("a".to_owned())]);
    assert_eq!(select_keys(given, b"", ""), vec!["a", "b"]);
}

#[test]
fn configuration_has_defaults() {
    let auth = WitnessAuth::Bearer { token_file: "t".to_owned() };
    let c = WitnessConfig::defaults("http://sink".to_owned(), auth.clone());
    assert_eq!((c.interval_records, c.interval_s), (10_000, 60));
    assert_eq!((c.sink_base.as_str(), c.auth), ("http://sink", auth));
}

#[test]
fn queue_drops_the_oldest() {
    let mut q = WitnessQueue::new();
    for n in 0..(QUEUE_CAP as u64 + 3) {
        let dropped = q.submit_witness(witness(n));
        assert_eq!(dropped, n >= QUEUE_CAP as u64);
    }
    assert_eq!(q.len(), QUEUE_CAP);
    assert_eq!(q.dropped(), 3);
    let first = q.next(60).unwrap();
    assert_eq!(first.key(), &witness(3).object_key());
    assert_eq!(first.body(), &witness(3).encode_cbor().unwrap());
    assert_eq!(first.attrs().unwrap().sequence, 3);
}

#[test]
fn deliveries_end_as_told() {
    let mut q = WitnessQueue::new();
    q.submit(SinkPayload::Witness(witness(1)));
    q.submit_witness(witness(2));
    let s = q.next(1).unwrap();
    assert!(matches!(q.settle(s, &Ok(()), 0, false), DeliveryAction::Delivered));
    assert_eq!(q.len(), 1);

    let s = q.next(1).unwrap();
    let action = q.settle(s, &Err(SinkError::Conflict), 0, false);
    assert!(matches!(action, DeliveryAction::Conflict));
    assert_eq!((q.len(), q.conflicts()), (0, 1));
    assert!(q.next(1).is_none());

    q.submit_witness(witness(3));
    q.submit_witness(witness(4));
    let failed = Err(SinkError::Http("down".to_owned()));
    let mut s = q.next(1).unwrap();
    let mut waits = Vec::new();
    for _ in 0..7 {
        match q.settle(s, &failed, 10, false) {
            DeliveryAction::Retry { sending, wait_ms } => {
                waits.push(wait_ms);
                s = sending;
            }
            _ => panic!("must retry"),
        }
    }
    assert_eq!(waits, vec![50, 100, 200, 400, 800, 1000, 1000]);
    assert!(matches!(q.settle(s, &failed, 1000, false), DeliveryAction::Requeued));
    let s = q.next(1).unwrap();
    assert_eq!(s.key(), &witness(3).object_key());
    assert!(matches!(q.settle(s, &failed, 0, true), DeliveryAction::Requeued));
    assert_eq!(q.len(), 2);
    assert_eq!(q.dropped(), 0);
}

#[test]
fn lag_counts_from_the_last_delivery() {
    assert_eq!(lag_ns(5_000_000, 0), 5_000_000);
    assert_eq!(lag_ns(5_000_000, 3), 2_000_000);
    assert_eq!(lag_ns(5_000_000, 9), 0);
}

fn record(n: u8) -> AuditRecord {
    AuditRecord::new(
        [n; 16],
        None,
        [0u8; 32],
        [0u8; 32],
        Transition::Completed,
        "ok".to_owned(),
        None,
        None,
        None,
        u64::from(n),
        0,
    )
}

fn local(reasons: [u8; 3]) -> DirVerifyReport {
    let ulid = [5u8; 16];
    let (mut bytes, mut writer) = LogWriter::open_genesis("gw".to_owned(), ulid).unwrap();
    let batch = reasons.iter().map(|n| WriteReq::new(record(*n), false)).collect();
    bytes.extend_from_slice(&writer.frame_batch(batch).unwrap().framed);
    let entry = DirEntry {
        name: helix::audit::naming::log_file_name(&ulid),
        content: Ok(bytes),
    };
    verify_dir("/audit", vec![entry], &vec![]).unwrap()
}

fn witness_of(report: &DirVerifyReport, index: usize) -> Witness {
    let f = &report.files[0].report;
    let frame = &f.frames[index];
    Witness::new(
        f.header.gateway_id.clone(),
        f.header.file_ulid,
        frame.record.sequence,
        frame.frame_hash,
        0,
    )
}

#[test]
fn witnesses_confirm_an_unchanged_log() {
    let report = local([1, 2, 3]);
    assert_eq!(witness_prefix(&report, None), "gw/");
    assert_eq!(witness_prefix(&report, Some("other")), "other/");
    assert_eq!(witness_prefix(&report, Some("")), "");
    let (w0, w2) = (witness_of(&report, 0), witness_of(&report, 2));
    let listing = vec![
        w2.object_key(),
        "gw/x/retention".to_owned(),
        w0.object_key(),
    ];
    assert_eq!(sequence_keys(&listing), vec![w2.object_key(), w0.object_key()]);
    let mut check = WitnessCheck::start(report, "gw/".to_owned(), &listing).unwrap();
    assert_eq!(check.next_key(), Some(&w0.object_key()));
    check.check(Ok(w0.encode_cbor().unwrap())).unwrap();
    assert_eq!(check.next_key(), Some(&w2.object_key()));
    check.check(Ok(w2.encode_cbor().unwrap())).unwrap();
    assert_eq!(check.next_key(), None);
    let done = check.finish();
    assert_eq!(done.witnesses_checked, 2);
    assert_eq!(done.local.files.len(), 1);
}

#[test]
fn rewritten_logs_are_tampering() {
    let honest = local([1, 2, 3]);
    let w = witness_of(&honest, 2);
    let rewritten = local([1, 9, 3]);
    let listing = vec![w.object_key()];
    let mut check = WitnessCheck::start(rewritten, "gw/".to_owned(), &listing).unwrap();
    let err = check.check(Ok(w.encode_cbor().unwrap())).unwrap_err();
    assert!(err.is_tampering());
    assert!(matches!(err, WitnessVerifyError::ConflictTampering { sequence: 2, .. }));
    assert!(err.first_break_message().contains(&hex_encode(&w.head_hash)));

    let mut unknown = w.clone();
    unknown.sequence = 7;
    let err = check.check(Ok(unknown.encode_cbor().unwrap())).unwrap_err();
    assert!(matches!(err, WitnessVerifyError::Tampering { sequence: 7, .. }));
    assert!(err.first_break_message().contains("(missing local sequence)"));

    let err = check.check(Ok(vec![0xff])).unwrap_err();
    assert!(matches!(err, WitnessVerifyError::WitnessDecode { .. }));
    assert!(!err.is_tampering());
    let err = check.check(Err(SinkError::Http("down".to_owned()))).unwrap_err();
    assert_eq!(err.first_break_message(), "http: down");
}

#[test]
fn no_witnesses_is_an_error() {
    let err = WitnessCheck::start(local([1, 2, 3]), "gw/".to_owned(), &vec![])
        .err()
        .unwrap();
    assert_eq!(err.first_break_message(), "no witness objects under prefix gw/");
}

#[test]
fn receivers_check_tokens_and_keys() {
    let state = ReceiveState { dir: "/objects".to_owned(), token: "tok".to_owned() };
    assert_eq!(check_auth(Some("Bearer tok"), &state.token), Ok(()));
    assert_eq!(check_auth(Some("bearer tok"), &state.token), Err(UNAUTHORIZED));
    assert_eq!(check_auth(None, &state.token), Err(UNAUTHORIZED));
    assert_eq!(safe_join(&state.dir, "gw/x"), Ok("/objects/gw/x".to_owned()));
    assert_eq!(safe_join(&state.dir, "gw/../x"), Err(BAD_REQUEST));
    assert_eq!(safe_join(&state.dir, "a..b"), Err(BAD_REQUEST));
    assert_eq!(safe_join(&state.dir, "/etc/passwd"), Err(BAD_REQUEST));
    assert_eq!(token_of(" tok\n"), "tok");
    assert_eq!(base_url("127.0.0.1:80"), "http://127.0.0.1:80");
}

#[test]
fn receivers_list_and_read() {
    assert_eq!(get_plan("gw/", false, false), GetPlan::List { prefix: "gw/".to_owned() });
    assert_eq!(get_plan("gw", true, false), GetPlan::List { prefix: "gw".to_owned() });
    assert_eq!(get_plan("gw/x", false, true), GetPlan::Read);
    assert_eq!(get_plan("gw/x", false, false), GetPlan::NotFound);
    assert_eq!(walk_root("/objects", ""), "/objects");
    assert_eq!(walk_root("/objects", "gw/"), "/objects/gw");
    let temp = format!("gw/x.{}", temp_extension(12, 345));
    assert_eq!(temp, "gw/x.tmp-12-345");
    assert!(is_temp_name(&temp));
    assert!(!is_temp_name("gw/.tmp-1-2"));
    assert!(!is_temp_name("gw.tmp-1/x"));
    let key = witness(1).object_key();
    assert!(!is_temp_name(&key));
    let listed = listed_keys(&vec![key.clone(), temp, "a\\b".to_owned()]);
    assert_eq!(listed, vec!["a/b".to_owned(), key]);
}

#[test]
fn uploads_never_replace() {
    let run = |gave: &[bool]| {
        let mut step = PutStep::MakeDirs;
        for yes in gave {
            step = next_put_step(step, *yes);
        }
        step
    };
    assert_eq!(run(&[true, false, true, true]), PutStep::Answer(CREATED));
    assert_eq!(run(&[true, true]), PutStep::Answer(PRECONDITION_FAILED));
    assert_eq!(run(&[false]), PutStep::Answer(INTERNAL_SERVER_ERROR));
    assert_eq!(run(&[true, false, false]), PutStep::Discard);
    assert_eq!(run(&[true, false, false, true]), PutStep::Answer(INTERNAL_SERVER_ERROR));
    assert_eq!(run(&[true, false, true, false]), PutStep::DiscardAndCheck);
    assert_eq!(run(&[true, false, true, false, true]), PutStep::Answer(PRECONDITION_FAILED));
    assert_eq!(run(&[true, false, true, false, false]), PutStep::Answer(INTERNAL_SERVER_ERROR));
}
