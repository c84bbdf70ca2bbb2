//! Records, frames, chains, side files, export and fail-closed behaviour.
use helix::audit::caps::decoding::is_numbered;
use helix::audit::caps::store::CreateOutcome;
use helix::audit::caps::{
    decode_capability_set, encode_capability_set, interface_name, method_name, mode_name,
    parse_interface, parse_method, parse_mode, CapsStore, CapsStoreError,
};
use helix::audit::export::group::OpenInvocations;
use helix::audit::export::span::{
    invocation_span, witness_span, AttrValue, SpanStatus, INVOCATION_SPAN_NAME, WITNESS_SPAN_NAME,
};
use helix::audit::export::tail::{
    list_log_files_sorted, next_step, successor_path, FileCursor, TailStep,
};
use helix::audit::export::{is_terminal, ExportError, ExportMetrics, ExportedInvocation};
use helix::audit::fail_closed::{
    AuditHealth, FailClosedConfig, FatalHook, FaultSite, InjectedIoFault, IoFault, NoopIoFault,
    ProcessExitFatal, RecordingFatal,
};
use helix::audit::frame::{decode_frame, encode_frame, hash_frame_bytes, FrameError};
use helix::audit::hash::sha256_32;
use helix::audit::header::{FileHeader, HeaderError};
use helix::audit::hook::{NoopSyncHook, SequenceStampHook, SyncHook};
use helix::audit::json_out::{
    cbor_to_json, cbor_to_json_generic, record_to_json, transition_name, JsonOutError,
};
use helix::audit::naming::{
    caps_rel_path, decode_ulid_str, encode_ulid_bytes, hex_decode_32, hex_encode, log_file_name,
    parse_log_file_name, NamingError,
};
use helix::audit::record::{
    truncate_reason, AuditRecord, RecordError, ResourceUsage, Transition,
};
use helix::audit::retention::RetentionEntry;
use helix::audit::tags::{GENESIS_PREV_HASH, REASON_MAX_BYTES};
use helix::audit::verify::{verify_dir, verify_file, DirEntry, DirVerifyReport, VerifyError};
use helix::audit::writer::{LogWriter, WriteReceipt, WriteReq, WriterError};
use helix::caps::{
    CapabilitySet, CapabilitySetWire, DirGrant, FileGrant, FileMode, HostGrant, Interface,
    Interner, Method, MethodMask,
};
use helix::json::Json;
use std::collections::HashMap;

fn ulidish(n: u8) -> [u8; 16] {
    let mut a = [0u8; 16];
    a[15] = n;
    a
}

fn identity(n: u8) -> [u8; 32] {
    let mut a = [0u8; 32];
    a[0] = n;
    a
}

fn digest(n: u8) -> [u8; 32] {
    let mut a = [0u8; 32];
    a[31] = n;
    a
}

fn empty_caps_hash() -> [u8; 32] {
    let bytes = encode_capability_set(&CapabilitySet::empty()).expect("EMPTY encodes");
    sha256_32(&bytes)
}

fn sample_record(transition: Transition, seq: u64) -> AuditRecord {
    AuditRecord::new(
        ulidish(1),
        None,
        identity(2),
        digest(3),
        transition,
        "ok".to_owned(),
        if matches!(transition, Transition::Granted) {
            Some(empty_caps_hash())
        } else {
            None
        },
        if matches!(transition, Transition::Granted) {
            Some(ResourceUsage::new(10, 20, 30, 40))
        } else {
            None
        },
        if matches!(
            transition,
            Transition::Completed | Transition::ToolError | Transition::Killed
        ) {
            Some(ResourceUsage::new(1, 2, 3, 4))
        } else {
            None
        },
        1_700_000_000_000_000_000,
        seq,
    )
}

/// A log that is written batch by batch.
struct Log {
    bytes: Vec<u8>,
    writer: LogWriter,
}

impl Log {
    fn genesis(gateway: &str, ulid: [u8; 16]) -> Log {
        let (bytes, writer) = LogWriter::open_genesis(gateway.to_owned(), ulid).unwrap();
        Log { bytes, writer }
    }

    fn append(&mut self, records: Vec<(AuditRecord, bool)>) -> Vec<WriteReceipt> {
        let batch = records
            .into_iter()
            .map(|(r, wait)| WriteReq::new(r, wait))
            .collect();
        let batch = self.writer.frame_batch(batch).unwrap();
        self.bytes.extend_from_slice(&batch.framed);
        self.writer.synced(&batch)
    }
}

fn get<'a>(j: &'a Json, key: &str) -> &'a Json {
    match j {
        Json::Object(entries) => &entries.iter().find(|(k, _)| k == key).expect(key).1,
        other => panic!("no object: {other:?}"),
    }
}

fn text(j: &Json) -> &str {
    match j {
        Json::Text(s) => s,
        other => panic!("no text: {other:?}"),
    }
}

#[test]
fn aud5_deterministic_cbor_round_trip() {
    for (i, t) in Transition::all().into_iter().enumerate() {
        let mut rec = sample_record(t, i as u64);
        rec.reason = format!("reason-{i}");
        if i % 2 == 0 {
            rec.parent = Some(ulidish(7));
        }
        let bytes = rec.encode_cbor().unwrap();
        let decoded = AuditRecord::decode_cbor(&bytes).unwrap();
        assert_eq!(decoded, rec, "semantic equality for {t:?}");
        let re = decoded.encode_cbor().unwrap();
        assert_eq!(re, bytes, "byte-identical re-encode for {t:?}");
    }

    let long = "x".repeat(REASON_MAX_BYTES + 50);
    let rec = AuditRecord::new(
        ulidish(1),
        None,
        identity(1),
        digest(1),
        Transition::AuthFailed,
        long,
        None,
        None,
        None,
        0,
        0,
    );
    assert!(rec.reason.len() <= REASON_MAX_BYTES);
    let bytes = rec.encode_cbor().unwrap();
    let decoded = AuditRecord::decode_cbor(&bytes).unwrap();
    assert_eq!(decoded.encode_cbor().unwrap(), bytes);
}

fn data_set(noise: bool) -> CapabilitySet {
    let mut interner = Interner::new();
    if noise {
        interner.intern_path(b"/noise");
    }
    let a = interner.intern_authority("example.com:443");
    let (d, p) = if noise {
        let d = interner.intern_path(b"/data");
        (d, interner.intern_path(b"/data/x"))
    } else {
        let p = interner.intern_path(b"/data/x");
        (interner.intern_path(b"/data"), p)
    };
    let interfaces = if noise {
        [Interface::HttpOutbound, Interface::Filesystem]
    } else {
        [Interface::Filesystem, Interface::HttpOutbound]
    };
    CapabilitySet::new(
        &interfaces,
        vec![FileGrant::new(p, FileMode::Read)],
        vec![DirGrant::new(d, FileMode::ReadWrite)],
        vec![HostGrant::new(a, MethodMask::new(&[Method::Get]))],
    )
    .unwrap()
    .with_interner(interner)
}

/// Stores a set in a directory that is a map, as the store asks for it.
fn ensure(
    store: &mut CapsStore,
    files: &mut HashMap<String, Vec<u8>>,
    set: &CapabilitySet,
) -> Result<[u8; 32], CapsStoreError> {
    let pending = store.ensure(set)?;
    if let Some(path) = &pending.path {
        let outcome = match files.get(path) {
            Some(held) => CreateOutcome::Exists(held.clone()),
            None => {
                files.insert(path.clone(), pending.bytes.clone());
                CreateOutcome::Created
            }
        };
        store.settle(&pending.hash, &pending.bytes, outcome)?;
    }
    Ok(pending.hash)
}

#[test]
fn aud5_caps_side_file_hash_and_store() {
    let set_a = data_set(false);
    let set_b = data_set(true);

    assert!(set_a.eq(&set_b));
    let bytes_a = encode_capability_set(&set_a).unwrap();
    let bytes_b = encode_capability_set(&set_b).unwrap();
    assert_eq!(bytes_a, bytes_b, "equal sets must share side-file bytes");
    assert_eq!(sha256_32(&bytes_a), sha256_32(&bytes_b));

    let decoded = decode_capability_set(&bytes_a).unwrap();
    assert!(decoded.eq(&set_a));
    assert_eq!(encode_capability_set(&decoded).unwrap(), bytes_a);

    let empty_bytes = encode_capability_set(&CapabilitySet::empty()).unwrap();
    assert_ne!(empty_bytes, vec![0xa0]);

    let mut files = HashMap::new();
    let mut store = CapsStore::open("/audit".to_owned());
    let h1 = ensure(&mut store, &mut files, &set_a).unwrap();
    let h2 = ensure(&mut store, &mut files, &set_b).unwrap();
    assert_eq!(h1, h2);
    assert!(store.seen_in_process(&h1));
    let h3 = ensure(&mut store, &mut files, &set_a).unwrap();
    assert_eq!(h3, h1);
    let path = store.path_for(&h1);
    assert_eq!(path, format!("/audit/caps/{}.cbor", hex_encode(&h1)));
    assert_eq!(files.get(&path).unwrap(), &bytes_a);
    assert_eq!(files.len(), 1);

    let (first, second) = store.ensure_pair(&set_a, &CapabilitySet::empty()).unwrap();
    assert_eq!(first.path, None);
    let (req, avail) = (first.hash, second.hash);
    files.insert(second.path.unwrap(), second.bytes.clone());
    store.settle(&avail, &second.bytes, CreateOutcome::Created).unwrap();
    assert_eq!(req, h1);
    assert_ne!(req, avail);
    assert!(files.contains_key(&store.path_for(&avail)));
}

#[test]
fn store_refuses_other_content() {
    let set = data_set(false);
    let mut store = CapsStore::open("/audit".to_owned());
    assert_eq!(store.audit_dir(), "/audit");
    let pending = store.ensure(&set).unwrap();
    assert_eq!(CapsStore::hash(&set).unwrap(), pending.hash);
    let err = store
        .settle(&pending.hash, &pending.bytes, CreateOutcome::Exists(vec![0xa0]))
        .unwrap_err();
    assert!(matches!(err, CapsStoreError::ContentConflict { .. }));
    assert!(!store.seen_in_process(&pending.hash));
    let err = store
        .settle(&pending.hash, &pending.bytes, CreateOutcome::Failed("disk full".to_owned()))
        .unwrap_err();
    assert_eq!(err, CapsStoreError::Io("disk full".to_owned()));
    let err = store.ensure_bytes(&[1u8; 32], &pending.bytes).unwrap_err();
    assert!(matches!(err, CapsStoreError::HashMismatch { .. }));
    store
        .settle(&pending.hash, &pending.bytes, CreateOutcome::Exists(pending.bytes.clone()))
        .unwrap();
    assert_eq!(store.ensure(&set).unwrap().path, None);
    assert!(CapsStore::decode(&CapsStore::encode(&set).unwrap()).unwrap().eq(&set));
}

fn log_entry(ulid: &[u8; 16], bytes: &[u8]) -> DirEntry {
    DirEntry { name: log_file_name(ulid), content: Ok(bytes.to_vec()) }
}

fn side_entry(hash: &[u8; 32], bytes: &[u8]) -> DirEntry {
    DirEntry { name: caps_rel_path(hash), content: Ok(bytes.to_vec()) }
}

#[test]
fn aud5_missing_or_mismatched_caps_fails_verify() {
    let ulid = ulidish(0x21);
    let mut log = Log::genesis("gw-caps", ulid);
    log.append(vec![(sample_record(Transition::Granted, 0), true)]);
    let hash = empty_caps_hash();

    let err = verify_dir("/audit", vec![log_entry(&ulid, &log.bytes)], &vec![])
        .expect_err("missing caps must fail");
    assert!(matches!(err, VerifyError::MissingCaps { .. }), "got {err:?}");

    let err = verify_dir(
        "/audit",
        vec![log_entry(&ulid, &log.bytes)],
        &vec![side_entry(&hash, &[0xa0u8])],
    )
    .expect_err("hash mismatch must fail");
    assert!(matches!(err, VerifyError::CapsHashMismatch { .. }), "got {err:?}");

    let real = encode_capability_set(&CapabilitySet::empty()).unwrap();
    verify_dir(
        "/audit",
        vec![log_entry(&ulid, &log.bytes)],
        &vec![side_entry(&hash, &real)],
    )
    .expect("real EMPTY side file must verify");
}

#[test]
fn aud1_chain_verify_and_byte_flip() {
    let mut log = Log::genesis("gw-aud1", ulidish(0x11));
    for i in 0..5u64 {
        let t = if i == 0 {
            Transition::Granted
        } else if i == 4 {
            Transition::Completed
        } else {
            Transition::Running
        };
        let wait = t.is_synced();
        log.append(vec![(sample_record(t, 0), wait)]);
    }

    let bytes = log.bytes;
    let report = verify_file(&bytes).unwrap();
    assert_eq!(report.frames.len(), 5);
    assert_eq!(report.header.prev_hash, GENESIS_PREV_HASH);

    let (header, hdr_len) = FileHeader::decode_cbor(&bytes).unwrap();
    assert_eq!(header.gateway_id, "gw-aud1");
    let mut offset = hdr_len;
    for _ in 0..2 {
        let (_f, n) = decode_frame(&bytes[offset..]).unwrap();
        offset += n;
    }
    let flip_at = offset + 4;
    let mut corrupted = bytes.clone();
    corrupted[flip_at] ^= 0x01;
    let err = verify_file(&corrupted).unwrap_err();
    assert_eq!(err.break_index(), Some(2), "fail at exact index: {err:?}");
}

#[test]
fn a_changed_record_breaks_there_or_at_the_next() {
    let mut log = Log::genesis("gw", ulidish(1));
    for _ in 0..4 {
        log.append(vec![(sample_record(Transition::Granted, 0), true)]);
    }
    let whole = verify_file(&log.bytes).unwrap();
    assert_eq!(log.writer.head_hash(), whole.head_hash);
    let (_, mut start) = FileHeader::decode_cbor(&log.bytes).unwrap();
    for k in 0..4 {
        let (_, n) = decode_frame(&log.bytes[start..]).unwrap();
        for at in start + 4..start + n - 32 {
            let mut changed = log.bytes.clone();
            changed[at] ^= 0x01;
            match verify_file(&changed) {
                Err(e) => {
                    let found = e.break_index();
                    assert!(found == Some(k) || (k < 3 && found == Some(k + 1)), "byte {at}");
                }
                Ok(report) => {
                    assert_eq!(k, 3);
                    assert_ne!(report.head_hash, whole.head_hash);
                }
            }
        }
        start += n;
    }
}

#[test]
fn the_head_hash_carries_over_to_the_next_file() {
    let mut first = Log::genesis("gw", ulidish(1));
    let mut record = sample_record(Transition::Granted, 0);
    record.caps_hash = None;
    first.append(vec![(record, true)]);
    let (bytes, next) =
        LogWriter::open("gw".to_owned(), ulidish(2), first.writer.head_hash()).unwrap();
    assert_eq!(next.head_hash(), first.writer.head_hash());
    let entries = vec![log_entry(&ulidish(1), &first.bytes), log_entry(&ulidish(2), &bytes)];
    assert_eq!(verify_dir("/audit", entries, &vec![]).unwrap().files.len(), 2);
}

#[test]
fn every_byte_flip_behind_the_header_is_found() {
    let mut log = Log::genesis("gw", ulidish(1));
    log.append(vec![(sample_record(Transition::Granted, 0), true)]);
    log.append(vec![(sample_record(Transition::Completed, 0), true)]);
    let whole = verify_file(&log.bytes).unwrap();
    let (_, start) = FileHeader::decode_cbor(&log.bytes).unwrap();
    for at in start..log.bytes.len() {
        let mut changed = log.bytes.clone();
        changed[at] ^= 0x01;
        match verify_file(&changed) {
            Ok(report) => assert_ne!(report.head_hash, whole.head_hash, "byte {at}"),
            Err(e) => assert!(e.first_break_message().len() > 0),
        }
    }
}

#[test]
fn aud8_group_commit_and_sync_stamp() {
    let mut log = Log::genesis("gw-aud8", ulidish(0x88));
    let mut hook = SequenceStampHook::new();
    let mut receipts = Vec::new();
    for round in 0..16u64 {
        let mut batch = Vec::new();
        for _ in 0..4 {
            batch.push((sample_record(Transition::Authorized, 0), false));
            batch.push((sample_record(Transition::Granted, 0), true));
        }
        let n = batch.len();
        let got = log.append(batch);
        hook.on_sync(round * 8 + 7, n);
        for r in &got {
            assert!(r.sync_stamp > 0, "response missing sync stamp");
        }
        receipts.extend(got);
    }

    let syncs = hook.sync_count();
    let n_synced = receipts.len() as u64;
    assert_eq!(n_synced, 64);
    assert!(
        syncs < n_synced,
        "group commit: sync_count {syncs} must be < synced records {n_synced}"
    );
    for r in &receipts {
        assert!(r.sync_stamp > 0);
        assert!(r.sync_stamp <= syncs);
    }
    assert_eq!(hook.last_stamp(), 16);
    NoopSyncHook.on_sync(1, 1);

    let report = verify_file(&log.bytes).unwrap();
    assert_eq!(report.frames.len(), 128);
    for (i, f) in report.frames.iter().enumerate() {
        assert_eq!(f.record.sequence, i as u64);
    }
}

/// Four files, each with two records, each carrying on from the one before.
fn rotated() -> Vec<([u8; 16], Vec<u8>)> {
    let mut out = Vec::new();
    let mut prev = GENESIS_PREV_HASH;
    for n in 1..=4u8 {
        let ulid = ulidish(n);
        let (mut bytes, mut writer) = LogWriter::open("gw-aud3".to_owned(), ulid, prev).unwrap();
        for i in 0..2u64 {
            let t = if i % 2 == 0 { Transition::Granted } else { Transition::Completed };
            let batch = writer
                .frame_batch(vec![WriteReq::new(sample_record(t, 0), true)])
                .unwrap();
            bytes.extend_from_slice(&batch.framed);
        }
        prev = verify_file(&bytes).unwrap().head_hash;
        out.push((ulid, bytes));
    }
    out
}

fn verify_rotated(files: &[([u8; 16], Vec<u8>)]) -> Result<DirVerifyReport, VerifyError> {
    let real = encode_capability_set(&CapabilitySet::empty()).unwrap();
    let mut entries: Vec<DirEntry> = files.iter().map(|(u, b)| log_entry(u, b)).collect();
    entries.reverse();
    entries.push(DirEntry { name: "notes.txt".to_owned(), content: Ok(vec![1, 2, 3]) });
    verify_dir("/audit", entries, &vec![side_entry(&empty_caps_hash(), &real)])
}

#[test]
fn aud3_rotation_carry_forward_and_boundary_break() {
    let mut files = rotated();
    let report = verify_rotated(&files).expect("two-file sequence must verify");
    assert!(report.files.len() >= 2);
    assert_eq!(report.files[0].path, format!("/audit/{}", log_file_name(&ulidish(1))));

    for win in report.files.windows(2) {
        assert_eq!(
            win[1].report.header.prev_hash,
            win[0].report.head_hash,
            "carry-forward mismatch between {} and {}",
            win[0].path,
            win[1].path
        );
    }

    let second = verify_file(&files[1].1).unwrap();
    let mut bad_header = second.header.clone();
    bad_header.prev_hash = [0x5au8; 32];
    let mut out = bad_header.encode_cbor().unwrap();
    let mut prev = bad_header.prev_hash;
    for frame in &second.frames {
        let (fb, new_hash) = encode_frame(&frame.record, &prev).unwrap();
        out.extend_from_slice(&fb);
        prev = new_hash;
    }
    verify_file(&out).expect("file2 alone still verifies");
    files[1].1 = out;

    let err = verify_rotated(&files).expect_err("boundary break must be detected");
    match err {
        VerifyError::BoundaryBreak { .. } => {}
        other => panic!("expected BoundaryBreak, got {}", other.first_break_message()),
    }
}

#[test]
fn directories_fail_as_told() {
    let err = verify_dir("/audit", vec![], &vec![]).unwrap_err();
    assert_eq!(err, VerifyError::EmptyDir("/audit".to_owned()));
    let unread = DirEntry {
        name: log_file_name(&ulidish(1)),
        content: Err("permission denied".to_owned()),
    };
    let err = verify_dir("/audit", vec![unread], &vec![]).unwrap_err();
    assert_eq!(err, VerifyError::Io("permission denied".to_owned()));
}

#[test]
fn retention_entry_round_trip_shape() {
    let ulid = [0xabu8; 16];
    let final_hash = [0x11u8; 32];
    let entry = RetentionEntry::new(
        "gw-ret".to_owned(),
        ulid,
        final_hash,
        42,
        log_file_name(&ulid),
    );
    let cbor = entry.encode_cbor().unwrap();
    assert!(!cbor.is_empty());
    let j = entry.to_json();
    assert_eq!(text(get(&j, "gateway_id")), "gw-ret");
    assert_eq!(text(get(&j, "final_hash")), hex_encode(&final_hash));
    assert!(matches!(get(&j, "wall_time_ns"), Json::Unsigned(42)));
}

fn sample_set() -> CapabilitySet {
    let mut interner = Interner::new();
    let p1 = interner.intern_path(b"/srv/data/a.csv");
    let p2 = interner.intern_path(b"/srv/inbox");
    let a1 = interner.intern_authority("api.example.com:443");
    CapabilitySet::new(
        &[
            Interface::Filesystem,
            Interface::HttpOutbound,
            Interface::Stdio,
        ],
        vec![FileGrant::new(p1, FileMode::Read)],
        vec![DirGrant::new(p2, FileMode::ReadWrite)],
        vec![HostGrant::new(
            a1,
            MethodMask::new(&[Method::Get, Method::Post]),
        )],
    )
    .unwrap()
    .with_interner(interner)
}

#[test]
fn equal_sets_same_bytes_and_hash() {
    let a = sample_set();
    let mut interner = Interner::new();
    let _noise = interner.intern_path(b"/unrelated");
    let a1 = interner.intern_authority("api.example.com:443");
    let p2 = interner.intern_path(b"/srv/inbox");
    let p1 = interner.intern_path(b"/srv/data/a.csv");
    let b = CapabilitySet::new(
        &[
            Interface::Stdio,
            Interface::Filesystem,
            Interface::HttpOutbound,
        ],
        vec![FileGrant::new(p1, FileMode::Read)],
        vec![DirGrant::new(p2, FileMode::ReadWrite)],
        vec![HostGrant::new(
            a1,
            MethodMask::new(&[Method::Post, Method::Get]),
        )],
    )
    .unwrap()
    .with_interner(interner);

    assert!(a.eq(&b));
    let ea = encode_capability_set(&a).unwrap();
    let eb = encode_capability_set(&b).unwrap();
    assert_eq!(ea, eb, "equal sets must produce identical CBOR");
    assert_eq!(sha256_32(&ea), sha256_32(&eb));
}

#[test]
fn round_trip_byte_identical() {
    let set = sample_set();
    let bytes = encode_capability_set(&set).unwrap();
    let decoded = decode_capability_set(&bytes).unwrap();
    assert!(decoded.eq(&set));
    let re = encode_capability_set(&decoded).unwrap();
    assert_eq!(re, bytes);
}

#[test]
fn bytes_behind_a_set_are_refused() {
    for set in [sample_set(), CapabilitySet::empty()] {
        for extra in [vec![0x00], vec![0xa0], vec![0xff, 0xff]] {
            let mut bytes = encode_capability_set(&set).unwrap();
            bytes.extend_from_slice(&extra);
            assert_eq!(
                decode_capability_set(&bytes).unwrap_err(),
                CapsStoreError::Structure(format!("trailing {} bytes", extra.len()))
            );
        }
    }
}

#[test]
fn encoded_sets_can_be_numbered() {
    for set in [sample_set(), CapabilitySet::empty()] {
        assert!(is_numbered(&encode_capability_set(&set).unwrap()));
        assert!(CapabilitySetWire::from(set).fits());
    }
    assert!(is_numbered(&[0xff]));
}

#[test]
fn other_sets_have_other_bytes() {
    let set = encode_capability_set(&sample_set()).unwrap();
    let none = encode_capability_set(&CapabilitySet::empty()).unwrap();
    assert_ne!(set, none);
    assert_ne!(sha256_32(&set), sha256_32(&none));
}

#[test]
fn a_pair_is_planned_in_order() {
    let mut interner = Interner::new();
    let p = interner.intern_path(&[b'/', 0xff]);
    let odd = CapabilitySet::new(
        &[Interface::Filesystem],
        vec![FileGrant::new(p, FileMode::Read)],
        vec![],
        vec![],
    )
    .unwrap()
    .with_interner(interner);
    assert!(odd.ids_resolve());
    let store = CapsStore::open("/audit".to_owned());
    let (a, b) = store.ensure_pair(&sample_set(), &CapabilitySet::empty()).unwrap();
    assert_eq!(a.hash, CapsStore::hash(&sample_set()).unwrap());
    assert_eq!(b.path, Some(store.path_for(&b.hash)));
    assert!(matches!(store.ensure_pair(&odd, &sample_set()), Err(CapsStoreError::NonUtf8Path(_))));
    assert!(matches!(store.ensure_pair(&sample_set(), &odd), Err(CapsStoreError::NonUtf8Path(_))));
}

#[test]
fn untidy_paths_grant_the_same_when_decoded() {
    let mut interner = Interner::new();
    let inbox = interner.intern_path(b"/srv/inbox/");
    let file = interner.intern_path(b"/srv/inbox/a.csv");
    let set = CapabilitySet::new(
        &[Interface::Filesystem],
        vec![FileGrant::new(file, FileMode::ReadWrite)],
        vec![DirGrant::new(inbox, FileMode::Read)],
        vec![],
    )
    .unwrap()
    .with_interner(interner);
    let bytes = encode_capability_set(&set).unwrap();
    let decoded = decode_capability_set(&bytes).unwrap();
    assert!(decoded.eq(&set));
    assert!(decoded.is_subset_of(&set) && set.is_subset_of(&decoded));
    // The file is interned before the directory, and with it `/srv/inbox`.
    let again = encode_capability_set(&decoded).unwrap();
    assert_ne!(again, bytes);
    let tidy = decode_capability_set(&again).unwrap();
    assert_eq!(encode_capability_set(&tidy).unwrap(), again);
}

#[test]
fn empty_set_stable() {
    let a = CapabilitySet::empty();
    let b = CapabilitySet::empty();
    let ea = encode_capability_set(&a).unwrap();
    let eb = encode_capability_set(&b).unwrap();
    assert_eq!(ea, eb);
    assert_ne!(ea, vec![0xa0]);
    let decoded = decode_capability_set(&ea).unwrap();
    assert!(decoded.eq(&CapabilitySet::empty()));
}

#[test]
fn empty_set_bytes_are_pinned() {
    let bytes = encode_capability_set(&CapabilitySet::empty()).unwrap();
    let mut expected = vec![0xa4];
    for key in ["dirs", "files", "hosts", "interfaces"] {
        expected.push(0x60 + key.len() as u8);
        expected.extend_from_slice(key.as_bytes());
        expected.push(0x80);
    }
    assert_eq!(bytes, expected);
}

#[test]
fn side_file_faults_are_told_apart() {
    assert!(matches!(decode_capability_set(&[0xbf, 0xff]), Err(CapsStoreError::Indefinite)));
    assert!(decode_capability_set(&[0xa0]).unwrap().eq(&CapabilitySet::empty()));
    assert_eq!(
        decode_capability_set(&[0xa0, 0x00]).unwrap_err(),
        CapsStoreError::Structure("trailing 1 bytes".to_owned())
    );
    assert!(matches!(decode_capability_set(&[]), Err(CapsStoreError::Decode(_))));
    assert_eq!(
        parse_interface("environment").unwrap_err(),
        CapsStoreError::UnknownInterface("environment".to_owned())
    );
    assert_eq!(
        parse_mode("append").unwrap_err(),
        CapsStoreError::UnknownMode("append".to_owned())
    );
    assert_eq!(
        parse_method("TRACE").unwrap_err(),
        CapsStoreError::UnknownMethod("TRACE".to_owned())
    );
    assert_eq!(parse_interface(interface_name(Interface::Random)).unwrap(), Interface::Random);
    assert_eq!(parse_mode(mode_name(FileMode::ReadWrite)).unwrap(), FileMode::ReadWrite);
    assert_eq!(parse_method(method_name(Method::Patch)).unwrap(), Method::Patch);
    let mut interner = Interner::new();
    let p = interner.intern_path(&[b'/', 0xff]);
    let odd = CapabilitySet::new(
        &[Interface::Filesystem],
        vec![FileGrant::new(p, FileMode::Read)],
        vec![],
        vec![],
    )
    .unwrap()
    .with_interner(interner);
    assert_eq!(
        encode_capability_set(&odd).unwrap_err(),
        CapsStoreError::NonUtf8Path("/\u{fffd}".to_owned())
    );
}

#[test]
fn unreadable_floats_fail_with_the_words_of_the_decoder() {
    for item in [vec![0xf9, 0x3c, 0x00], vec![0xfa, 0x00], vec![0xfb]] {
        let expected = minicbor::Decoder::new(&item).f64().unwrap_err().to_string();
        match cbor_to_json_generic(&item) {
            Err(JsonOutError::Decode(m)) => assert_eq!(m, expected),
            other => panic!("unexpected {other:?}"),
        }
    }
}

#[test]
fn terminal_set_covers_state_machine_exits() {
    assert!(is_terminal(Transition::Completed));
    assert!(is_terminal(Transition::Failed));
    assert!(!is_terminal(Transition::Granted));
    assert!(!is_terminal(Transition::Running));
}

#[test]
fn sha256_is_the_real_digest() {
    assert_eq!(
        hex_encode(&sha256_32(b"abc")),
        "ba7816bf8f01cfea414140de5dae2223b00361a396177a9cb410ff61f20015ad"
    );
}

#[test]
fn names_round_trip() {
    let ulid = [0xabu8; 16];
    let shown = encode_ulid_bytes(&ulid);
    assert_eq!(shown.len(), 26);
    assert_eq!(decode_ulid_str(&shown).unwrap(), ulid);
    assert_eq!(decode_ulid_str("short").unwrap_err(), NamingError::BadUlidLen(5));
    assert_eq!(
        decode_ulid_str("UUUUUUUUUUUUUUUUUUUUUUUUUU").unwrap_err(),
        NamingError::BadUlidChar
    );
    assert_eq!(parse_log_file_name(&log_file_name(&ulid)), Some(ulid));
    assert_eq!(parse_log_file_name("helix-x.log"), None);
    assert_eq!(parse_log_file_name("other.log"), None);
    let hash = sha256_32(b"x");
    assert_eq!(hex_decode_32(&hex_encode(&hash)).unwrap(), hash);
    assert_eq!(hex_decode_32("00").unwrap_err(), NamingError::BadHexLen(2));
    assert_eq!(hex_decode_32(&"zz".repeat(32)).unwrap_err(), NamingError::BadHexChar);
    assert_eq!(hex_encode(&[0x0f, 0xa0]), "0fa0");
    assert_eq!(NamingError::BadHexChar.message().is_empty(), false);
}

#[test]
fn reasons_are_cut_between_characters() {
    assert_eq!(truncate_reason("short".to_owned()), "short");
    let long = "é".repeat(200);
    let cut = truncate_reason(long);
    assert_eq!(cut.len(), 256);
    let odd = format!("x{}", "é".repeat(200));
    assert_eq!(truncate_reason(odd).len(), 255);
}

#[test]
fn records_refuse_what_is_no_record() {
    assert!(matches!(AuditRecord::decode_cbor(&[]), Err(RecordError::Decode(_))));
    assert_eq!(AuditRecord::decode_cbor(&[0xbf, 0xff]).unwrap_err(), RecordError::IndefiniteMap);
    assert!(matches!(AuditRecord::decode_cbor(&[0xa0]), Err(RecordError::MissingField(_))));
    let mut rec = sample_record(Transition::Granted, 3);
    rec.version = 9;
    assert_eq!(
        AuditRecord::decode_cbor(&rec.encode_cbor().unwrap()).unwrap_err(),
        RecordError::UnsupportedVersion(9)
    );
    assert_eq!(Transition::from_tag(200).unwrap_err(), RecordError::UnknownTransition(200));
    for t in Transition::all() {
        assert_eq!(Transition::from_tag(t.tag()).unwrap(), t);
    }
    assert_eq!(
        ResourceUsage::from_array([1, 2, 3, 4]),
        ResourceUsage::new(1, 2, 3, 4)
    );
    assert_eq!(ResourceUsage::new(5, 6, 7, 8).to_array(), [5, 6, 7, 8]);
    assert!(RecordError::BadUsageLen(3).message().contains('3'));
}

#[test]
fn headers_round_trip_and_refuse() {
    let h = FileHeader::new(ulidish(4), "gw".to_owned(), [7u8; 32]);
    let bytes = h.encode_cbor().unwrap();
    let (back, n) = FileHeader::decode_cbor(&bytes).unwrap();
    assert_eq!(back, h);
    assert_eq!(n, bytes.len());
    assert_eq!(FileHeader::decode_cbor(&[0xbf, 0xff]).unwrap_err(), HeaderError::IndefiniteMap);
    assert!(matches!(FileHeader::decode_cbor(&[0xa0]), Err(HeaderError::MissingField(_))));
    let mut newer = h.clone();
    newer.version = 2;
    assert_eq!(
        FileHeader::decode_cbor(&newer.encode_cbor().unwrap()).unwrap_err(),
        HeaderError::UnsupportedVersion(2)
    );
}

#[test]
fn frames_round_trip_and_refuse() {
    let rec = sample_record(Transition::Running, 5);
    let (bytes, hash) = encode_frame(&rec, &[9u8; 32]).unwrap();
    assert_eq!(hash, hash_frame_bytes(&bytes));
    assert_eq!(hash, sha256_32(&bytes));
    let (frame, n) = decode_frame(&bytes).unwrap();
    assert_eq!(n, bytes.len());
    assert_eq!(frame.record, rec);
    assert_eq!(frame.prev_hash, [9u8; 32]);
    assert_eq!(frame.frame_hash, hash);
    assert_eq!(decode_frame(&bytes[..n - 1]).unwrap_err(), FrameError::Truncated);
    assert_eq!(decode_frame(&[0, 0, 0]).unwrap_err(), FrameError::Truncated);
}

#[test]
fn verification_names_the_first_break() {
    let mut log = Log::genesis("gw", ulidish(1));
    log.append(vec![(sample_record(Transition::Granted, 0), true)]);
    log.append(vec![(sample_record(Transition::Completed, 0), true)]);
    let (_, start) = FileHeader::decode_cbor(&log.bytes).unwrap();
    let (_, n) = decode_frame(&log.bytes[start..]).unwrap();

    let mut cut = log.bytes.clone();
    cut.truncate(log.bytes.len() - 1);
    assert!(matches!(verify_file(&cut), Err(VerifyError::TrailingBytes(_))));

    let mut relinked = log.bytes.clone();
    let last = relinked.len() - 1;
    relinked[last] ^= 1;
    let err = verify_file(&relinked).unwrap_err();
    assert!(matches!(err, VerifyError::ChainBreak { index: 1, .. }));
    assert_eq!(err.break_index(), Some(1));
    assert!(err.first_break_message().starts_with("chain break at record index 1"));

    let mut garbled = log.bytes.clone();
    garbled[start + n + 4] = 0xff;
    let err = verify_file(&garbled).unwrap_err();
    assert!(matches!(err, VerifyError::FrameAt { index: 1, .. }));
    assert!(matches!(verify_file(&[0x01]), Err(VerifyError::Header(_))));
}

#[test]
fn writers_number_records_and_wake_waiters() {
    let mut log = Log::genesis("gw", ulidish(1));
    let mut first = sample_record(Transition::Running, 77);
    first.sequence = 77;
    let got = log.append(vec![
        (first, false),
        (sample_record(Transition::Granted, 0), true),
    ]);
    assert_eq!(got, vec![WriteReceipt { sequence: 1, sync_stamp: 1 }]);
    let got = log.append(vec![(sample_record(Transition::Completed, 0), true)]);
    assert_eq!(got, vec![WriteReceipt { sequence: 2, sync_stamp: 2 }]);
    let report = verify_file(&log.bytes).unwrap();
    let sequences: Vec<u64> = report.frames.iter().map(|f| f.record.sequence).collect();
    assert_eq!(sequences, vec![0, 1, 2]);
    assert!(WriterError::ChannelClosed.message().len() > 0);
}

#[test]
fn json_lines_show_a_record() {
    let j = record_to_json(&sample_record(Transition::Granted, 4));
    assert_eq!(text(get(&j, "transition")), transition_name(Transition::Granted));
    assert_eq!(text(get(&j, "request_id")), encode_ulid_bytes(&ulidish(1)));
    assert!(matches!(get(&j, "parent"), Json::Null));
    assert!(matches!(get(&j, "sequence"), Json::Unsigned(4)));
    assert_eq!(text(get(&j, "caps_hash")), hex_encode(&empty_caps_hash()));
}

#[test]
fn plain_cbor_becomes_json() {
    let bytes = [
        0xa2, 0x61, b'a', 0x83, 0x01, 0x20, 0xf5, 0x61, b'b', 0x42, 0x0f, 0xa0,
    ];
    let j = cbor_to_json_generic(&bytes).unwrap();
    match get(&j, "a") {
        Json::List(items) => {
            assert!(matches!(items[0], Json::Unsigned(1)));
            assert!(matches!(items[1], Json::Signed(-1)));
            assert!(matches!(items[2], Json::Bool(true)));
        }
        other => panic!("no list: {other:?}"),
    }
    assert_eq!(text(get(&j, "b")), "0fa0");
    let j = cbor_to_json(&[0x81, 0xf6]).unwrap();
    assert!(matches!(j, Json::List(v) if matches!(v[0], Json::Null)));
    assert_eq!(
        cbor_to_json_generic(&[0x9f, 0xff]).unwrap_err(),
        JsonOutError::Unsupported("ArrayIndef".to_owned())
    );
    assert_eq!(cbor_to_json_generic(&[0x01, 0x01]).unwrap_err(), JsonOutError::Trailing(1));
    assert!(matches!(cbor_to_json_generic(&[]), Err(JsonOutError::Decode(_))));
    assert_eq!(
        cbor_to_json_generic(&[0xfb, 0x7f, 0xf0, 0, 0, 0, 0, 0, 0]).unwrap_err(),
        JsonOutError::NonFiniteFloat
    );
    let half = [0xfb, 0x3f, 0xe0, 0, 0, 0, 0, 0, 0];
    match cbor_to_json_generic(&half).unwrap() {
        Json::Float(item) => {
            assert_eq!(minicbor::Decoder::new(&item).f64().unwrap(), 0.5);
        }
        other => panic!("no float: {other:?}"),
    }
    let shown = cbor_to_json(&encode_capability_set(&sample_set()).unwrap()).unwrap();
    assert!(matches!(get(&shown, "files"), Json::List(v) if v.len() == 1));
}

fn record_for(rid: [u8; 16], transition: Transition, at: u64) -> AuditRecord {
    AuditRecord::new(
        rid,
        None,
        identity(2),
        digest(3),
        transition,
        "ok".to_owned(),
        None,
        None,
        None,
        at,
        0,
    )
}

fn drain(
    cursor: &mut FileCursor,
    bytes: &[u8],
    open: &mut OpenInvocations,
    metrics: &mut ExportMetrics,
) -> Vec<(ExportedInvocation, u64)> {
    let mut out = Vec::new();
    cursor.read_available(bytes, open, metrics, &mut out).unwrap();
    out
}

#[test]
fn aud4_exporter_pause_store_safe_and_catchup() {
    let mut log = Log::genesis("gw-aud4", ulidish(0x41));
    let mut request_ids = Vec::new();
    for n in 1..=20u64 {
        let mut rid = [0u8; 16];
        rid[8..].copy_from_slice(&n.to_be_bytes());
        request_ids.push(rid);
        log.append(vec![(record_for(rid, Transition::Granted, 2 * n), true)]);
        log.append(vec![(record_for(rid, Transition::Completed, 2 * n + 1), true)]);
    }
    let report = verify_file(&log.bytes).expect("store must verify while exporter paused");
    assert_eq!(report.frames.len(), 40);

    let mut metrics = ExportMetrics::new();
    let mut open = OpenInvocations::new();
    let mut cursor = FileCursor::open("/audit/helix.log".to_owned());
    let half = log.bytes.len() / 2 + 3;
    let mut spans = drain(&mut cursor, &log.bytes[..half], &mut open, &mut metrics);
    assert!(metrics.lag() > 0, "exporter lag must grow while sink paused");
    spans.extend(drain(&mut cursor, &log.bytes, &mut open, &mut metrics));
    assert_eq!(metrics.seen(), 40);
    assert_eq!(cursor.offset(), log.bytes.len() as u64);
    assert_eq!(cursor.path(), "/audit/helix.log");

    for (_, n) in &spans {
        metrics.record_exported(*n);
    }
    assert_eq!(metrics.lag(), 0, "lag must return to 0 after catch-up");
    assert_eq!(metrics.exported(), 40);

    assert_eq!(spans.len(), request_ids.len());
    let got: Vec<[u8; 16]> = spans.iter().map(|(i, _)| i.request_id).collect();
    assert_eq!(got, request_ids, "every request_id must appear as one span");
    for (inv, n) in &spans {
        assert_eq!(*n, 2);
        assert_eq!(inv.events.len(), 2);
        assert_eq!(inv.events[0].transition, Transition::Granted);
        assert_eq!(inv.events[1].transition, Transition::Completed);
        assert_eq!(inv.terminal, Transition::Completed);
    }
}

#[test]
fn interleaved_requests_stay_apart() {
    let mut open = OpenInvocations::new();
    let (a, b) = (ulidish(1), ulidish(2));
    assert!(open.handle_record(&record_for(a, Transition::Granted, 10)).is_none());
    assert!(open.handle_record(&record_for(b, Transition::Granted, 11)).is_none());
    assert!(open.handle_record(&record_for(a, Transition::Running, 12)).is_none());
    let (inv, n) = open.handle_record(&record_for(b, Transition::Killed, 13)).unwrap();
    assert_eq!((inv.request_id, n), (b, 2));
    assert_eq!((inv.start_time_ns, inv.end_time_ns), (11, 13));
    let (inv, n) = open.handle_record(&record_for(a, Transition::Completed, 14)).unwrap();
    assert_eq!((inv.request_id, n), (a, 3));
    assert_eq!(inv.terminal, Transition::Completed);
}

#[test]
fn log_files_follow_each_other() {
    let names = vec![
        log_file_name(&ulidish(2)),
        "readme".to_owned(),
        log_file_name(&ulidish(1)),
    ];
    let logs = list_log_files_sorted(names);
    assert_eq!(logs, vec![log_file_name(&ulidish(1)), log_file_name(&ulidish(2))]);
    assert_eq!(successor_path(&logs, &logs[0]), Some(logs[1].clone()));
    assert_eq!(successor_path(&logs, &logs[1]), None);
    assert_eq!(next_step(true, None, 5, 5), TailStep::Again);
    assert_eq!(next_step(false, None, 5, 5), TailStep::Wait);
    assert_eq!(
        next_step(false, Some("next".to_owned()), 5, 5),
        TailStep::Advance("next".to_owned())
    );
    assert_eq!(next_step(false, Some("next".to_owned()), 4, 5), TailStep::Wait);
}

#[test]
fn broken_frames_stop_the_tail() {
    let mut log = Log::genesis("gw", ulidish(1));
    log.append(vec![(record_for(ulidish(9), Transition::Granted, 1), true)]);
    let (_, start) = FileHeader::decode_cbor(&log.bytes).unwrap();
    log.bytes[start + 4] = 0xff;
    let mut cursor = FileCursor::open("x".to_owned());
    let mut out = Vec::new();
    let err = cursor
        .read_available(
            &log.bytes,
            &mut OpenInvocations::new(),
            &mut ExportMetrics::new(),
            &mut out,
        )
        .unwrap_err();
    assert!(matches!(err, ExportError::Frame(_)));
    assert!(err.message().len() > 0);
}

#[test]
fn spans_carry_attributes() {
    let mut open = OpenInvocations::new();
    open.handle_record(&record_for(ulidish(1), Transition::Granted, 10));
    let (inv, _) = open
        .handle_record(&record_for(ulidish(1), Transition::Completed, 14))
        .unwrap();
    let span = invocation_span(&inv);
    assert_eq!(span.name, INVOCATION_SPAN_NAME);
    assert_eq!(span.events.len(), 2);
    assert_eq!(span.status, SpanStatus::Success);
    assert!(span
        .attrs
        .iter()
        .any(|a| a.value == AttrValue::Text(encode_ulid_bytes(&ulidish(1)))));
    open.handle_record(&record_for(ulidish(2), Transition::Granted, 10));
    let (inv, _) = open
        .handle_record(&record_for(ulidish(2), Transition::Failed, 14))
        .unwrap();
    assert!(matches!(invocation_span(&inv).status, SpanStatus::Failure(_)));
    let w = helix::audit::witness::Witness::new("gw".to_owned(), ulidish(1), 9, [3u8; 32], 5);
    let span = witness_span(w.to_attrs());
    assert_eq!(span.name, WITNESS_SPAN_NAME);
    assert_eq!(span.status, SpanStatus::Unset);
}

#[test]
fn faults_fail_as_often_as_told() {
    let mut fault = InjectedIoFault::times(FaultSite::Sync, 28, 2);
    assert_eq!(fault.before_write(), Ok(()));
    assert_eq!(fault.before_sync(), Err(28));
    assert_eq!(fault.before_rotate_open(), Ok(()));
    assert_eq!(fault.before_sync(), Err(28));
    assert_eq!(fault.before_sync(), Ok(()));
    let mut always = InjectedIoFault::always(FaultSite::Write, 5);
    for _ in 0..100 {
        assert_eq!(always.before_write(), Err(5));
    }
    let mut none = NoopIoFault;
    assert_eq!(none.before_write(), Ok(()));
}

#[test]
fn fatal_errors_end_the_process() {
    assert_eq!(ProcessExitFatal.on_fatal(&WriterError::ChannelClosed), Some(78));
    let mut fatal = RecordingFatal::new();
    assert!(!fatal.fired());
    assert_eq!(fatal.on_fatal(&WriterError::ChannelClosed), None);
    assert!(fatal.fired());
    let config = FailClosedConfig::<ProcessExitFatal, NoopIoFault>::default();
    assert_eq!(config.max_consecutive_errors, 3);
    assert_eq!(config.with_max_consecutive_errors(7).max_consecutive_errors, 7);
    for h in [AuditHealth::Healthy, AuditHealth::Degraded, AuditHealth::Failed] {
        assert_eq!(AuditHealth::from_u8(h.to_u8()), h);
    }
    assert_eq!(AuditHealth::Healthy.as_str(), "ok");
}
