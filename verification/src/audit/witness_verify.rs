//! Verifying a directory against off-host witnesses.
//!
//! The local chain is walked first. Then each witness is fetched and its
//! `(sequence, head_hash)` compared with the local frame. A mismatch is
//! tampering, which is distinct from a break of the chain.
use super::frame;
use super::hash;
use super::naming;
use super::naming::{encode_ulid_bytes, hex_encode};
use super::verify;
use super::verify::{DirFileReport, DirVerifyReport, ReportModel, VerifyError, VerifyFault};
use super::witness;
use super::witness::{Witness, WitnessError, WitnessFault};
use super::witness_sink::{SinkError, SinkFault};
use crate::text;
use crate::texts;
use vstd::prelude::*;

verus! {

/// Outcome of verifying local logs against off-host witnesses.
#[derive(Debug)]
pub struct WitnessVerifyReport {
    pub local: DirVerifyReport,
    pub witnesses_checked: usize,
}

/// Why verification against witnesses failed.
#[derive(Debug)]
pub enum WitnessVerifyError {
    Local(VerifyError),
    Sink(SinkError),
    Tampering {
        gateway_id: String,
        file_ulid: String,
        sequence: u64,
        witness_hash: String,
        local_hash: String,
    },
    ConflictTampering { key: String, sequence: u64, local_hash: String, witness_hash: String },
    WitnessDecode { key: String, source: WitnessError },
    EmptyWitnesses(String),
}

/// A [`WitnessVerifyError`] with its texts as character sequences.
pub ghost enum WitnessVerifyFault {
    Local(VerifyFault),
    Sink(SinkFault),
    Tampering {
        gateway_id: Seq<char>,
        file_ulid: Seq<char>,
        sequence: u64,
        witness_hash: Seq<char>,
        local_hash: Seq<char>,
    },
    ConflictTampering {
        key: Seq<char>,
        sequence: u64,
        local_hash: Seq<char>,
        witness_hash: Seq<char>,
    },
    WitnessDecode { key: Seq<char>, source: WitnessFault },
    EmptyWitnesses(Seq<char>),
}

impl View for WitnessVerifyError {
    type V = WitnessVerifyFault;

    open spec fn view(&self) -> WitnessVerifyFault {
        match *self {
            WitnessVerifyError::Local(e) => WitnessVerifyFault::Local(e@),
            WitnessVerifyError::Sink(e) => WitnessVerifyFault::Sink(e@),
            WitnessVerifyError::Tampering {
                gateway_id,
                file_ulid,
                sequence,
                witness_hash,
                local_hash,
            } => WitnessVerifyFault::Tampering {
                gateway_id: gateway_id@,
                file_ulid: file_ulid@,
                sequence,
                witness_hash: witness_hash@,
                local_hash: local_hash@,
            },
            WitnessVerifyError::ConflictTampering { key, sequence, local_hash, witness_hash } =>
                WitnessVerifyFault::ConflictTampering {
                key: key@,
                sequence,
                local_hash: local_hash@,
                witness_hash: witness_hash@,
            },
            WitnessVerifyError::WitnessDecode { key, source } =>
                WitnessVerifyFault::WitnessDecode { key: key@, source: source@ },
            WitnessVerifyError::EmptyWitnesses(s) => WitnessVerifyFault::EmptyWitnesses(s@),
        }
    }
}

impl WitnessVerifyFault {
    /// A witness disagrees with the local log.
    pub open spec fn is_tampering(self) -> bool {
        self is Tampering || self is ConflictTampering
    }

    /// The message shown to people.
    pub open spec fn message(self) -> Seq<char> {
        match self {
            WitnessVerifyFault::Local(f) => f.message(),
            WitnessVerifyFault::Sink(f) => f.message(),
            WitnessVerifyFault::Tampering {
                gateway_id,
                file_ulid,
                sequence,
                witness_hash,
                local_hash,
            } => "tampering at gateway="@ + gateway_id + " file_ulid="@ + file_ulid + " sequence="@
                + text::decimal(sequence as nat) + ": witness head_hash "@ + witness_hash
                + " != local head_hash "@ + local_hash,
            WitnessVerifyFault::ConflictTampering { key, sequence, local_hash, witness_hash } =>
                "tampering (witness conflict / immutable key) at key "@ + key + ": local sequence "@
                + text::decimal(sequence as nat) + " head_hash "@ + local_hash
                + " disagrees with witness "@ + witness_hash,
            WitnessVerifyFault::WitnessDecode { key, source } => "witness decode for key "@ + key
                + ": "@ + source.message(),
            WitnessVerifyFault::EmptyWitnesses(s) => "no witness objects under prefix "@ + s,
        }
    }
}

impl WitnessVerifyError {
    /// Whether a witness disagrees with the local log.
    #[must_use]
    pub fn is_tampering(&self) -> (r: bool)
        ensures
            r == self@.is_tampering(),
    {
        match self {
            WitnessVerifyError::Tampering { .. } => true,
            WitnessVerifyError::ConflictTampering { .. } => true,
            _ => false,
        }
    }

    /// Operator-facing one-line summary.
    #[must_use]
    pub fn first_break_message(&self) -> (r: String)
        ensures
            r@ == self@.message(),
    {
        match self {
            WitnessVerifyError::Local(e) => e.first_break_message(),
            WitnessVerifyError::Sink(e) => e.message(),
            WitnessVerifyError::Tampering {
                gateway_id,
                file_ulid,
                sequence,
                witness_hash,
                local_hash,
            } => {
                let mut s = text::join3(
                    "tampering at gateway=",
                    gateway_id.as_str(),
                    " file_ulid=",
                );
                s.append(file_ulid.as_str());
                s.append(" sequence=");
                s.append(text::decimal_string(*sequence).as_str());
                s.append(": witness head_hash ");
                s.append(witness_hash.as_str());
                s.append(" != local head_hash ");
                s.append(local_hash.as_str());
                s
            },
            WitnessVerifyError::ConflictTampering { key, sequence, local_hash, witness_hash } => {
                let mut s = text::join3(
                    "tampering (witness conflict / immutable key) at key ",
                    key.as_str(),
                    ": local sequence ",
                );
                s.append(text::decimal_string(*sequence).as_str());
                s.append(" head_hash ");
                s.append(local_hash.as_str());
                s.append(" disagrees with witness ");
                s.append(witness_hash.as_str());
                s
            },
            WitnessVerifyError::WitnessDecode { key, source } => {
                let mut s = text::join3("witness decode for key ", key.as_str(), ": ");
                s.append(source.message().as_str());
                s
            },
            WitnessVerifyError::EmptyWitnesses(p) => text::join(
                "no witness objects under prefix ",
                p.as_str(),
            ),
        }
    }
}

/// A key ends in a `/` and twenty digits.
pub open spec fn is_sequence_key(key: Seq<char>) -> bool {
    key.len() >= 21 && key[key.len() - 21] == '/' && forall|i: int|
        key.len() - 20 <= i < key.len() ==> text::is_digit(#[trigger] key[i])
}

/// Whether a key is that of a witness, and not of a retention entry.
pub fn is_witness_sequence_key(key: &str) -> (r: bool)
    ensures
        r == is_sequence_key(key@),
{
    let cs = text::chars_of(key);
    let n: usize = cs.len();
    if n < 21 {
        return false;
    }
    if cs[n - 21] != '/' {
        return false;
    }
    let mut i: usize = n - 20;
    while i < n
        invariant
            n == cs@.len(),
            n >= 21,
            n - 20 <= i <= n,
            cs@ == key@,
            forall|j: int| n - 20 <= j < i ==> text::is_digit(#[trigger] key@[j]),
        decreases n - i,
    {
        let c = cs[i];
        if !('0' <= c && c <= '9') {
            assert(!text::is_digit(key@[i as int]));
            return false;
        }
        i += 1;
    }
    true
}

/// The witness keys among keys.
pub open spec fn sequence_keys_of(keys: Seq<Seq<char>>) -> Seq<Seq<char>>
    decreases keys.len(),
{
    if keys.len() == 0 {
        Seq::empty()
    } else if is_sequence_key(keys.last()) {
        sequence_keys_of(keys.drop_last()).push(keys.last())
    } else {
        sequence_keys_of(keys.drop_last())
    }
}

/// The witness keys of a listing, in its order.
pub fn sequence_keys(keys: &Vec<String>) -> (r: Vec<String>)
    ensures
        texts::texts(r@) == sequence_keys_of(texts::texts(keys@)),
{
    let ghost all = texts::texts(keys@);
    let mut out: Vec<String> = Vec::new();
    let mut i: usize = 0;
    assert(all.take(0) =~= Seq::empty());
    assert(texts::texts(out@) =~= sequence_keys_of(all.take(0)));
    while i < keys.len()
        invariant
            0 <= i <= keys.len(),
            all == texts::texts(keys@),
            texts::texts(out@) == sequence_keys_of(all.take(i as int)),
        decreases keys.len() - i,
    {
        let ghost before = out@;
        assert(all.take(i as int + 1).drop_last() =~= all.take(i as int));
        if is_witness_sequence_key(keys[i].as_str()) {
            out.push(keys[i].clone());
            assert(texts::texts(out@) =~= texts::texts(before).push(all[i as int]));
        }
        i += 1;
    }
    assert(all.take(i as int) =~= all);
    out
}

/// The hash of the last frame with a sequence among the first `n`.
pub open spec fn head_in(frames: Seq<frame::FrameModel>, sequence: u64, n: nat) -> Option<Seq<u8>>
    decreases n,
{
    if n == 0 {
        None
    } else if frames[n - 1].record.sequence == sequence {
        Some(frames[n - 1].frame_hash)
    } else {
        head_in(frames, sequence, (n - 1) as nat)
    }
}

/// The hash of the last frame with a sequence in the files with an ULID among
/// the first `n`.
pub open spec fn head_among(
    files: Seq<(Seq<char>, ReportModel)>,
    ulid: Seq<u8>,
    sequence: u64,
    n: nat,
) -> Option<Seq<u8>>
    decreases n,
{
    if n == 0 {
        None
    } else {
        let report = files[n - 1].1;
        let here = head_in(report.frames, sequence, report.frames.len());
        if report.header.file_ulid == ulid && here is Some {
            here
        } else {
            head_among(files, ulid, sequence, (n - 1) as nat)
        }
    }
}

/// The local head hash behind a record of a file.
pub open spec fn head_at(files: Seq<(Seq<char>, ReportModel)>, ulid: Seq<u8>, sequence: u64) -> Option<
    Seq<u8>,
> {
    head_among(files, ulid, sequence, files.len())
}

fn same_bytes16(a: &[u8; 16], b: &[u8; 16]) -> (r: bool)
    ensures
        r == (a@ == b@),
{
    let mut i: usize = 0;
    while i < 16
        invariant
            0 <= i <= 16,
            forall|j: int| 0 <= j < i ==> a@[j] == b@[j],
        decreases 16 - i,
    {
        if a[i] != b[i] {
            return false;
        }
        i += 1;
    }
    assert(a@ =~= b@);
    true
}

fn same_bytes32(a: &[u8; 32], b: &[u8; 32]) -> (r: bool)
    ensures
        r == (a@ == b@),
{
    let mut i: usize = 0;
    while i < 32
        invariant
            0 <= i <= 32,
            forall|j: int| 0 <= j < i ==> a@[j] == b@[j],
        decreases 32 - i,
    {
        if a[i] != b[i] {
            return false;
        }
        i += 1;
    }
    assert(a@ =~= b@);
    true
}

fn local_head(files: &Vec<DirFileReport>, ulid: &[u8; 16], sequence: u64) -> (r: Option<[u8; 32]>)
    ensures
        match (r, head_at(verify::dir_models(files@), ulid@, sequence)) {
            (Some(h), Some(m)) => h@ == m,
            (None, None) => true,
            _ => false,
        },
{
    let ghost models = verify::dir_models(files@);
    let mut n: usize = files.len();
    while n > 0
        invariant
            n <= files.len(),
            models == verify::dir_models(files@),
            head_at(models, ulid@, sequence) == head_among(models, ulid@, sequence, n as nat),
        decreases n,
    {
        let report = &files[n - 1].report;
        assert(models[n - 1].1 == report@);
        if same_bytes16(&report.header.file_ulid, ulid) {
            let mut k: usize = report.frames.len();
            let ghost frames = report@.frames;
            while k > 0
                invariant
                    k <= report.frames.len(),
                    frames == report@.frames,
                    0 < n <= files.len(),
                    models == verify::dir_models(files@),
                    models[n - 1].1 == report@,
                    report@.header.file_ulid == ulid@,
                    head_at(models, ulid@, sequence) == head_among(
                        models,
                        ulid@,
                        sequence,
                        n as nat,
                    ),
                    head_in(frames, sequence, frames.len()) == head_in(
                        frames,
                        sequence,
                        k as nat,
                    ),
                decreases k,
            {
                let f = &report.frames[k - 1];
                assert(frames[k - 1] == f@);
                if f.record.sequence == sequence {
                    return Some(f.frame_hash);
                }
                k -= 1;
            }
        }
        n -= 1;
    }
    None
}

/// The gateway whose witnesses are looked for: the one asked for, or that of
/// the first file.
pub open spec fn gateway_of(
    gateway_id: Option<Seq<char>>,
    files: Seq<(Seq<char>, ReportModel)>,
) -> Seq<char> {
    match gateway_id {
        Some(g) => g,
        None => if files.len() > 0 {
            files[0].1.header.gateway_id
        } else {
            Seq::empty()
        },
    }
}

/// The prefix under which a gateway's witnesses are listed.
pub open spec fn prefix_of(gateway: Seq<char>) -> Seq<char> {
    if gateway.len() == 0 {
        Seq::empty()
    } else {
        gateway + "/"@
    }
}

/// The prefix under which to list witnesses.
pub fn witness_prefix(local: &DirVerifyReport, gateway_id: Option<&str>) -> (r: String)
    ensures
        r@ == prefix_of(
            gateway_of(
                match gateway_id {
                    Some(g) => Some(g@),
                    None => None,
                },
                verify::dir_models(local.files@),
            ),
        ),
{
    proof {
        reveal_strlit("");
    }
    let gateway: String = match gateway_id {
        Some(g) => g.to_owned(),
        None => if local.files.len() > 0 {
            local.files[0].report.header.gateway_id.clone()
        } else {
            let none = "".to_owned();
            assert(none@ =~= Seq::empty());
            none
        },
    };
    if text::chars_of(gateway.as_str()).len() == 0 {
        assert(gateway@ =~= Seq::empty());
        return gateway;
    }
    text::join(gateway.as_str(), "/")
}

/// What is wrong with what was fetched under a key.
pub open spec fn against(
    files: Seq<(Seq<char>, ReportModel)>,
    key: Seq<char>,
    body: Result<Seq<u8>, SinkFault>,
) -> Option<WitnessVerifyFault> {
    match body {
        Err(f) => Some(WitnessVerifyFault::Sink(f)),
        Ok(b) => match witness::decoded(b) {
            Err(source) => Some(WitnessVerifyFault::WitnessDecode { key, source }),
            Ok(w) => match head_at(files, w.file_ulid, w.sequence) {
                None => Some(
                    WitnessVerifyFault::Tampering {
                        gateway_id: w.gateway_id,
                        file_ulid: naming::ulid_text(w.file_ulid),
                        sequence: w.sequence,
                        witness_hash: naming::hex(w.head_hash),
                        local_hash: "(missing local sequence)"@,
                    },
                ),
                Some(h) => if h == w.head_hash {
                    None
                } else {
                    Some(
                        WitnessVerifyFault::ConflictTampering {
                            key,
                            sequence: w.sequence,
                            local_hash: naming::hex(h),
                            witness_hash: naming::hex(w.head_hash),
                        },
                    )
                },
            },
        },
    }
}

/// What a fetch gave.
pub open spec fn body_says(r: Result<Vec<u8>, SinkError>) -> Result<Seq<u8>, SinkFault> {
    match r {
        Ok(b) => Ok(b@),
        Err(e) => Err(e@),
    }
}

/// Checks what was fetched under a key against the local files.
fn check_witness(files: &Vec<DirFileReport>, key: &String, body: Result<Vec<u8>, SinkError>) -> (r:
    Result<(), WitnessVerifyError>)
    ensures
        match (r, against(verify::dir_models(files@), key@, body_says(body))) {
            (Ok(_), None) => true,
            (Err(e), Some(f)) => e@ == f,
            _ => false,
        },
{
    let bytes = match body {
        Ok(b) => b,
        Err(e) => {
            return Err(WitnessVerifyError::Sink(e));
        },
    };
    let w = match Witness::decode_cbor(bytes.as_slice()) {
        Ok(w) => w,
        Err(source) => {
            return Err(WitnessVerifyError::WitnessDecode { key: key.clone(), source });
        },
    };
    match local_head(files, &w.file_ulid, w.sequence) {
        None => {
            let file_ulid = encode_ulid_bytes(&w.file_ulid);
            let witness_hash = hex_encode(w.head_hash.as_slice());
            Err(
                WitnessVerifyError::Tampering {
                    gateway_id: w.gateway_id,
                    file_ulid,
                    sequence: w.sequence,
                    witness_hash,
                    local_hash: "(missing local sequence)".to_owned(),
                },
            )
        },
        Some(h) => {
            if same_bytes32(&h, &w.head_hash) {
                return Ok(());
            }
            Err(
                WitnessVerifyError::ConflictTampering {
                    key: key.clone(),
                    sequence: w.sequence,
                    local_hash: hex_encode(h.as_slice()),
                    witness_hash: hex_encode(w.head_hash.as_slice()),
                },
            )
        },
    }
}

/// A verification under way: the local report, the witness keys in order, and
/// how many of them have been checked.
pub struct WitnessCheck {
    local: DirVerifyReport,
    keys: Vec<String>,
    checked: usize,
}

/// What is under way.
pub ghost struct CheckModel {
    pub files: Seq<(Seq<char>, ReportModel)>,
    pub keys: Seq<Seq<char>>,
    pub checked: nat,
}

impl View for WitnessCheck {
    type V = CheckModel;

    closed spec fn view(&self) -> CheckModel {
        CheckModel {
            files: verify::dir_models(self.local.files@),
            keys: texts::texts(self.keys@),
            checked: self.checked as nat,
        }
    }
}

impl WitnessCheck {
    #[verifier::type_invariant]
    spec fn inv(self) -> bool {
        self.checked <= self.keys@.len()
    }

    /// Starts with what the sink lists under `prefix`. Without a witness there
    /// is nothing to verify against.
    pub fn start(local: DirVerifyReport, prefix: String, listing: &Vec<String>) -> (r: Result<
        WitnessCheck,
        WitnessVerifyError,
    >)
        ensures
            match r {
                Ok(c) => c@ == (CheckModel {
                    files: verify::dir_models(local.files@),
                    keys: texts::sorted(sequence_keys_of(texts::texts(listing@))),
                    checked: 0,
                }) && c@.keys.len() > 0 && texts::is_sorted(
                    c@.keys,
                    sequence_keys_of(texts::texts(listing@)),
                ),
                Err(e) => sequence_keys_of(texts::texts(listing@)).len() == 0 && e@
                    == WitnessVerifyFault::EmptyWitnesses(prefix@),
            },
    {
        let found = sequence_keys(listing);
        if found.len() == 0 {
            assert(texts::texts(found@).len() == 0);
            return Err(WitnessVerifyError::EmptyWitnesses(prefix));
        }
        let ghost all = texts::texts(found@);
        let keys = texts::sort_texts(found);
        proof {
            vstd::seq_lib::to_multiset_len(texts::texts(keys@));
            vstd::seq_lib::to_multiset_len(all);
        }
        Ok(WitnessCheck { local, keys, checked: 0 })
    }

    /// The key to fetch next.
    pub fn next_key(&self) -> (r: Option<&String>)
        ensures
            match r {
                Some(k) => self@.checked < self@.keys.len() && k@ == self@.keys[self@.checked as int],
                None => self@.checked == self@.keys.len(),
            },
    {
        proof {
            use_type_invariant(self);
        }
        if self.checked < self.keys.len() {
            assert(self@.keys[self.checked as int] == self.keys@[self.checked as int]@);
            Some(&self.keys[self.checked])
        } else {
            None
        }
    }

    /// Checks what was fetched under the next key.
    pub fn check(&mut self, body: Result<Vec<u8>, SinkError>) -> (r: Result<(), WitnessVerifyError>)
        requires
            old(self)@.checked < old(self)@.keys.len(),
        ensures
            match (
                r,
                against(
                    old(self)@.files,
                    old(self)@.keys[old(self)@.checked as int],
                    body_says(body),
                ),
            ) {
                (Ok(_), None) => final(self)@ == (CheckModel {
                    checked: old(self)@.checked + 1,
                    ..old(self)@
                }),
                (Err(e), Some(f)) => e@ == f && final(self)@ == old(self)@,
                _ => false,
            },
    {
        proof {
            use_type_invariant(&*self);
            assert(self@.keys[self.checked as int] == self.keys@[self.checked as int]@);
        }
        let n: usize = self.keys.len();
        assert(self.checked < n);
        match check_witness(&self.local.files, &self.keys[self.checked], body) {
            Ok(_) => {
                self.checked = self.checked + 1;
                Ok(())
            },
            Err(e) => Err(e),
        }
    }

    /// The report.
    pub fn finish(self) -> (r: WitnessVerifyReport)
        ensures
            verify::dir_models(r.local.files@) == self@.files,
            r.witnesses_checked == self@.checked,
    {
        WitnessVerifyReport { local: self.local, witnesses_checked: self.checked }
    }
}

/// Frame `k` of file `i` is record `sequence` of the file with this ULID.
pub open spec fn is_record_of(
    files: Seq<(Seq<char>, ReportModel)>,
    ulid: Seq<u8>,
    sequence: u64,
    i: int,
    k: int,
) -> bool {
    &&& 0 <= i < files.len()
    &&& files[i].1.header.file_ulid == ulid
    &&& 0 <= k < files[i].1.frames.len()
    &&& files[i].1.frames[k].record.sequence == sequence
}

proof fn lemma_head_in(frames: Seq<frame::FrameModel>, sequence: u64, n: nat)
    requires
        n <= frames.len(),
    ensures
        head_in(frames, sequence, n) matches Some(h) ==> exists|k: int|
            0 <= k < n && (#[trigger] frames[k]).record.sequence == sequence && frames[k].frame_hash
                == h && forall|j: int|
                k < j < n ==> (#[trigger] frames[j]).record.sequence != sequence,
        head_in(frames, sequence, n) is None ==> forall|k: int|
            0 <= k < n ==> (#[trigger] frames[k]).record.sequence != sequence,
    decreases n,
{
    if n > 0 && frames[n - 1].record.sequence != sequence {
        lemma_head_in(frames, sequence, (n - 1) as nat);
        if head_in(frames, sequence, n) is Some {
            let h = head_in(frames, sequence, n)->0;
            let k = choose|k: int|
                0 <= k < n - 1 && (#[trigger] frames[k]).record.sequence == sequence
                    && frames[k].frame_hash == h && forall|j: int|
                    k < j < n - 1 ==> (#[trigger] frames[j]).record.sequence != sequence;
            assert(frames[k].frame_hash == h);
        }
    } else if n > 0 {
        assert(frames[n - 1].record.sequence == sequence);
    }
}

proof fn lemma_head_among(
    files: Seq<(Seq<char>, ReportModel)>,
    ulid: Seq<u8>,
    sequence: u64,
    n: nat,
)
    requires
        n <= files.len(),
    ensures
        head_among(files, ulid, sequence, n) matches Some(h) ==> exists|i: int, k: int| #[trigger]
            is_record_of(files, ulid, sequence, i, k) && i < n && files[i].1.frames[k].frame_hash
                == h && forall|a: int, c: int| #[trigger]
                is_record_of(files, ulid, sequence, a, c) && a < n ==> a < i || (a == i && c <= k),
        head_among(files, ulid, sequence, n) is None ==> forall|i: int, k: int| #[trigger]
            is_record_of(files, ulid, sequence, i, k) ==> i >= n,
    decreases n,
{
    if n > 0 {
        let report = files[n - 1].1;
        lemma_head_in(report.frames, sequence, report.frames.len());
        let here = head_in(report.frames, sequence, report.frames.len());
        if report.header.file_ulid == ulid && here is Some {
            let h = here->0;
            let k = choose|k: int|
                0 <= k < report.frames.len() && (#[trigger] report.frames[k]).record.sequence
                    == sequence && report.frames[k].frame_hash == h && forall|j: int|
                    k < j < report.frames.len() ==> (#[trigger] report.frames[j]).record.sequence
                        != sequence;
            assert(is_record_of(files, ulid, sequence, n - 1, k));
            assert forall|a: int, c: int| #[trigger]
                is_record_of(files, ulid, sequence, a, c) && a < n implies a < n - 1 || (a == n - 1
                && c <= k) by {
                if a == n - 1 && c > k {
                    assert(report.frames[c].record.sequence == sequence);
                }
            }
        } else {
            lemma_head_among(files, ulid, sequence, (n - 1) as nat);
            assert forall|c: int| !#[trigger] is_record_of(files, ulid, sequence, n - 1, c) by {
                if is_record_of(files, ulid, sequence, n - 1, c) {
                    assert(report.frames[c].record.sequence == sequence);
                }
            }
            let before = head_among(files, ulid, sequence, (n - 1) as nat);
            if before is Some {
                let (i, k) = choose|i: int, k: int| #[trigger]
                    is_record_of(files, ulid, sequence, i, k) && i < n - 1
                        && files[i].1.frames[k].frame_hash == before->0 && forall|a: int, c: int|
                     #[trigger]
                        is_record_of(files, ulid, sequence, a, c) && a < n - 1 ==> a < i || (a == i
                            && c <= k);
                assert forall|a: int, c: int| #[trigger]
                    is_record_of(files, ulid, sequence, a, c) && a < n implies a < i || (a == i
                    && c <= k) by {
                    if a == n - 1 {
                        assert(!is_record_of(files, ulid, sequence, n - 1, c));
                    }
                }
                assert(is_record_of(files, ulid, sequence, i, k));
            } else {
                assert forall|i: int, k: int| #[trigger]
                    is_record_of(files, ulid, sequence, i, k) implies i >= n by {
                    if i == n - 1 {
                        assert(!is_record_of(files, ulid, sequence, n - 1, k));
                    }
                }
            }
        }
    }
}

/// The hash that a witness is compared with is that of a frame with the
/// witness's sequence in a file whose header holds the witness's ULID, the
/// last such frame if there are several. There is one to compare with exactly
/// when some file with that ULID holds such a frame.
pub proof fn witnesses_meet_their_own_record(
    files: Seq<(Seq<char>, ReportModel)>,
    ulid: Seq<u8>,
    sequence: u64,
)
    ensures
        head_at(files, ulid, sequence) is Some <==> exists|i: int, k: int|
            0 <= i < files.len() && files[i].1.header.file_ulid == ulid && 0 <= k
                < files[i].1.frames.len() && (#[trigger] files[i].1.frames[k]).record.sequence
                == sequence,
        head_at(files, ulid, sequence) matches Some(h) ==> exists|i: int, k: int|
            0 <= i < files.len() && files[i].1.header.file_ulid == ulid && 0 <= k
                < files[i].1.frames.len() && (#[trigger] files[i].1.frames[k]).record.sequence
                == sequence && files[i].1.frames[k].frame_hash == h && forall|a: int, c: int|
                0 <= a < files.len() && files[a].1.header.file_ulid == ulid && 0 <= c
                    < files[a].1.frames.len() && (
                #[trigger] files[a].1.frames[c]).record.sequence == sequence ==> a < i || (a == i
                    && c <= k),
{
    lemma_head_among(files, ulid, sequence, files.len());
    if head_at(files, ulid, sequence) is Some {
        let h = head_at(files, ulid, sequence)->0;
        let (i, k) = choose|i: int, k: int| #[trigger]
            is_record_of(files, ulid, sequence, i, k) && i < files.len()
                && files[i].1.frames[k].frame_hash == h && forall|a: int, c: int| #[trigger]
                is_record_of(files, ulid, sequence, a, c) && a < files.len() ==> a < i || (a == i
                    && c <= k);
        assert(files[i].1.frames[k].record.sequence == sequence);
        assert forall|a: int, c: int|
            0 <= a < files.len() && files[a].1.header.file_ulid == ulid && 0 <= c
                < files[a].1.frames.len() && (#[trigger] files[a].1.frames[c]).record.sequence
                == sequence implies a < i || (a == i && c <= k) by {
            assert(is_record_of(files, ulid, sequence, a, c));
        }
    } else {
        assert forall|i: int, k: int|
            0 <= i < files.len() && files[i].1.header.file_ulid == ulid && 0 <= k
                < files[i].1.frames.len() implies (
        #[trigger] files[i].1.frames[k]).record.sequence != sequence by {
            if files[i].1.frames[k].record.sequence == sequence {
                assert(is_record_of(files, ulid, sequence, i, k));
            }
        }
    }
}

/// A witness that passes names a frame that the local files hold, with the
/// hash that the frame has there. A witness that names a record of no local
/// file is reported with nothing to compare, and one whose record has another
/// hash is reported with both hashes.
pub proof fn passing_witnesses_name_a_frame(
    files: Seq<(Seq<char>, ReportModel)>,
    key: Seq<char>,
    body: Seq<u8>,
)
    requires
        witness::decoded(body) is Ok,
    ensures
        ({
            let w = witness::decoded(body)->Ok_0;
            let held = exists|i: int, k: int|
                0 <= i < files.len() && files[i].1.header.file_ulid == w.file_ulid && 0 <= k
                    < files[i].1.frames.len() && (
                #[trigger] files[i].1.frames[k]).record.sequence == w.sequence;
            match against(files, key, Ok(body)) {
                None => exists|i: int, k: int|
                    0 <= i < files.len() && files[i].1.header.file_ulid == w.file_ulid && 0 <= k
                        < files[i].1.frames.len() && (
                    #[trigger] files[i].1.frames[k]).record.sequence == w.sequence
                        && files[i].1.frames[k].frame_hash == w.head_hash,
                Some(WitnessVerifyFault::Tampering {
                    gateway_id,
                    file_ulid,
                    sequence,
                    witness_hash,
                    local_hash,
                }) => !held && gateway_id == w.gateway_id && file_ulid == naming::ulid_text(
                    w.file_ulid,
                ) && sequence == w.sequence && witness_hash == naming::hex(w.head_hash)
                    && local_hash == "(missing local sequence)"@,
                Some(WitnessVerifyFault::ConflictTampering {
                    key: at,
                    sequence,
                    local_hash,
                    witness_hash,
                }) => at == key && sequence == w.sequence && witness_hash == naming::hex(
                    w.head_hash,
                ) && exists|i: int, k: int|
                    0 <= i < files.len() && files[i].1.header.file_ulid == w.file_ulid && 0 <= k
                        < files[i].1.frames.len() && (
                    #[trigger] files[i].1.frames[k]).record.sequence == w.sequence
                        && files[i].1.frames[k].frame_hash != w.head_hash && local_hash
                        == naming::hex(files[i].1.frames[k].frame_hash),
                Some(_) => false,
            }
        }),
{
    let w = witness::decoded(body)->Ok_0;
    witnesses_meet_their_own_record(files, w.file_ulid, w.sequence);
    if head_at(files, w.file_ulid, w.sequence) is Some {
        let h = head_at(files, w.file_ulid, w.sequence)->0;
        let (i, k) = choose|i: int, k: int|
            0 <= i < files.len() && files[i].1.header.file_ulid == w.file_ulid && 0 <= k
                < files[i].1.frames.len() && (#[trigger] files[i].1.frames[k]).record.sequence
                == w.sequence && files[i].1.frames[k].frame_hash == h;
        assert(files[i].1.frames[k].frame_hash == h);
    }
}

/// An untouched log passes: a witness that was written of a frame passes
/// wherever that frame is, as long as no other frame has the same file and
/// sequence.
pub proof fn honest_witnesses_pass(
    files: Seq<(Seq<char>, ReportModel)>,
    key: Seq<char>,
    body: Seq<u8>,
    i: int,
    k: int,
)
    requires
        0 <= i < files.len(),
        0 <= k < files[i].1.frames.len(),
        witness::decoded(body) matches Ok(w) && w.file_ulid == files[i].1.header.file_ulid
            && w.sequence == files[i].1.frames[k].record.sequence && w.head_hash
            == files[i].1.frames[k].frame_hash,
        forall|a: int, c: int|
            0 <= a < files.len() && 0 <= c < files[a].1.frames.len()
                && files[a].1.header.file_ulid == files[i].1.header.file_ulid && (
            #[trigger] files[a].1.frames[c]).record.sequence
                == files[i].1.frames[k].record.sequence ==> a == i && c == k,
    ensures
        against(files, key, Ok(body)) is None,
{
    let w = witness::decoded(body)->Ok_0;
    witnesses_meet_their_own_record(files, w.file_ulid, w.sequence);
    assert(files[i].1.frames[k].record.sequence == w.sequence);
}

/// A witness passes exactly when it reads, and the local log holds the record
/// that it names with the head hash that it names; a witness that reads and
/// does not pass is reported as tampering.
pub proof fn passing_means_agreement(
    files: Seq<(Seq<char>, ReportModel)>,
    key: Seq<char>,
    body: Seq<u8>,
)
    ensures
        against(files, key, Ok(body)) is None <==> (witness::decoded(body) matches Ok(w)
            && head_at(files, w.file_ulid, w.sequence) == Some(w.head_hash)),
        witness::decoded(body) is Ok ==> (against(files, key, Ok(body)) matches Some(f)
            ==> f.is_tampering()),
{
}

/// The keys under which witnesses are stored are witness keys, and those of
/// retention entries are not.
pub proof fn stored_keys_are_told_apart(gateway_id: Seq<char>, file_ulid: Seq<u8>, sequence: u64)
    ensures
        is_sequence_key(witness::witness_name(gateway_id, file_ulid, sequence)),
        !is_sequence_key(witness::retention_name(gateway_id, file_ulid)),
{
    witness::lemma_sequence_digits(sequence);
    reveal_strlit("/");
    reveal_strlit("/retention");
    let key = witness::witness_name(gateway_id, file_ulid, sequence);
    let tail = text::padded_decimal(sequence as nat, 20);
    let n = key.len() as int;
    assert(key[n - 21] == '/');
    assert forall|i: int| n - 20 <= i < n implies text::is_digit(#[trigger] key[i]) by {
        assert(key[i] == tail[i - (n - 20)]);
    }
    let other = witness::retention_name(gateway_id, file_ulid);
    assert(other[other.len() - 1] == 'n');
}

proof fn lemma_prefix_binds(
    b: Seq<u8>,
    p: nat,
    e: Seq<u8>,
    i: nat,
    c: Seq<u8>,
    q: nat,
    f: Seq<u8>,
    j: nat,
    k: nat,
)
    requires
        verify::chain_from(b, p, e, i) is Ok,
        verify::chain_from(c, q, f, j) is Ok,
        k < verify::chain_from(b, p, e, i)->Ok_0.0.len(),
        k < verify::chain_from(c, q, f, j)->Ok_0.0.len(),
        verify::chain_from(b, p, e, i)->Ok_0.0[k as int].frame_hash == verify::chain_from(
            c,
            q,
            f,
            j,
        )->Ok_0.0[k as int].frame_hash,
    ensures
        verify::files_collide(b, c) || (e == f && verify::chain_from(b, p, e, i)->Ok_0.0.take(
            k as int + 1,
        ) == verify::chain_from(c, q, f, j)->Ok_0.0.take(k as int + 1)),
    decreases k,
{
    let s = b.skip(p as int);
    let t = c.skip(q as int);
    let (x, m) = frame::decoded(s)->Ok_0;
    let (y, n) = frame::decoded(t)->Ok_0;
    let fb = verify::chain_from(b, p, e, i)->Ok_0.0;
    let fc = verify::chain_from(c, q, f, j)->Ok_0.0;
    assert(fb[0] == x && fc[0] == y);
    assert(s.len() >= m && m >= 36 && t.len() >= n && n >= 36);
    if !verify::files_collide(b, c) {
        if k > 0 {
            let rb = verify::chain_from(b, p + m, x.frame_hash, i + 1)->Ok_0.0;
            let rc = verify::chain_from(c, q + n, y.frame_hash, j + 1)->Ok_0.0;
            assert(fb =~= seq![x] + rb);
            assert(fc =~= seq![y] + rc);
            assert(fb[k as int] == rb[k - 1] && fc[k as int] == rc[k - 1]);
            lemma_prefix_binds(
                b,
                p + m,
                x.frame_hash,
                i + 1,
                c,
                q + n,
                y.frame_hash,
                j + 1,
                (k - 1) as nat,
            );
            assert(fb.take(k as int + 1) =~= seq![x] + rb.take(k as int));
            assert(fc.take(k as int + 1) =~= seq![y] + rc.take(k as int));
        } else {
            assert(fb.take(1) =~= seq![x]);
            assert(fc.take(1) =~= seq![y]);
        }
        let u = s.take(m as int);
        let v = t.take(n as int);
        assert(hash::sha256(u) == hash::sha256(v));
        assert(u =~= b.subrange(p as int, (p + m) as int));
        assert(v =~= c.subrange(q as int, (q + n) as int));
        verify::lemma_no_collision(b, (p as int, (p + m) as int), c, (q as int, (q + n) as int));
        assert(u.len() == m && v.len() == n);
        frame::lemma_decoded_bytes(s, t);
        assert(x == y);
    }
}

/// A witness binds the log: where two files both verify and hold the same
/// frame hash at the same place, every record up to there is the same, and so
/// is what they carry on from, unless a stretch of the one and a different
/// stretch of the other have one digest.
pub proof fn witness_binds_the_log(b: Seq<u8>, c: Seq<u8>, k: nat)
    requires
        verify::verified(b) is Ok,
        verify::verified(c) is Ok,
        k < verify::verified(b)->Ok_0.frames.len(),
        k < verify::verified(c)->Ok_0.frames.len(),
        verify::verified(b)->Ok_0.frames[k as int].frame_hash == verify::verified(
            c,
        )->Ok_0.frames[k as int].frame_hash,
    ensures
        verify::files_collide(b, c) || (verify::verified(b)->Ok_0.frames.take(k as int + 1)
            == verify::verified(c)->Ok_0.frames.take(k as int + 1) && verify::verified(
            b,
        )->Ok_0.header.prev_hash == verify::verified(c)->Ok_0.header.prev_hash),
{
    let (hb, p) = super::header::decoded(b)->Ok_0;
    let (hc, q) = super::header::decoded(c)->Ok_0;
    lemma_prefix_binds(b, p, hb.prev_hash, 0, c, q, hc.prev_hash, 0, k);
}

/// A gateway's witnesses are listed under its prefix, and are picked from what
/// is listed; its retention entries are not.
pub proof fn witnesses_are_found_under_their_prefix(g: Seq<char>, u: Seq<u8>, s: u64)
    requires
        u.len() == 16,
    ensures
        witness::witness_name(g, u, s).take(prefix_of(g).len() as int) == prefix_of(g),
        is_sequence_key(witness::witness_name(g, u, s)),
        g.len() > 0 ==> prefix_of(g) == g + "/"@,
        g.len() == 0 ==> prefix_of(g).len() == 0,
{
    reveal_strlit("/");
    witness::witness_keys_have_three_parts(g, u, s);
    let k = witness::witness_name(g, u, s);
    if g.len() > 0 {
        assert(k.take(g.len() as int + 1) =~= g + "/"@);
    } else {
        assert(k.take(0) =~= Seq::empty());
    }
}

/// The witnesses looked for are those of the gateway that was asked for, or
/// else of the gateway that wrote the first file.
pub proof fn the_first_file_names_the_gateway(g: Seq<char>, files: Seq<(Seq<char>, ReportModel)>)
    ensures
        gateway_of(Some(g), files) == g,
        files.len() > 0 ==> gateway_of(None, files) == files[0].1.header.gateway_id,
        files.len() == 0 ==> gateway_of(None, files).len() == 0,
{
}

/// Exactly the keys of witnesses are picked, in their order.
pub proof fn witness_keys_are_picked(keys: Seq<Seq<char>>)
    ensures
        sequence_keys_of(keys) == keys.filter(
            |k: Seq<char>|
                k.len() >= 21 && k[k.len() - 21] == '/' && forall|i: int|
                    k.len() - 20 <= i < k.len() ==> '0' <= #[trigger] k[i] <= '9',
        ),
    decreases keys.len(),
{
    reveal(Seq::filter);
    let f = |k: Seq<char>|
        k.len() >= 21 && k[k.len() - 21] == '/' && forall|i: int|
            k.len() - 20 <= i < k.len() ==> '0' <= #[trigger] k[i] <= '9';
    if keys.len() > 0 {
        witness_keys_are_picked(keys.drop_last());
        let k = keys.last();
        assert(is_sequence_key(k) == f(k)) by {
            if is_sequence_key(k) {
                assert forall|i: int| k.len() - 20 <= i < k.len() implies '0' <= #[trigger] k[i]
                    <= '9' by {
                    assert(text::is_digit(k[i]));
                }
            }
        }
    }
}

/// Faults of the local log, of the sink and of a witness that does not read
/// are no tampering, nor is a lack of witnesses; any other fault is.
pub proof fn tampering_is_disagreement(f: WitnessVerifyFault)
    ensures
        !f.is_tampering() <==> f is Local || f is Sink || f is WitnessDecode || f is EmptyWitnesses,
{
}

/// What tampering says to an operator: where it is, and both hashes.
pub proof fn tampering_says_where(f: WitnessVerifyFault)
    ensures
        f matches WitnessVerifyFault::Tampering {
            gateway_id,
            file_ulid,
            sequence,
            witness_hash,
            local_hash,
        } ==> f.message() == "tampering at gateway="@ + gateway_id + " file_ulid="@ + file_ulid
            + " sequence="@ + text::decimal(sequence as nat) + ": witness head_hash "@
            + witness_hash + " != local head_hash "@ + local_hash,
        f matches WitnessVerifyFault::ConflictTampering {
            key,
            sequence,
            local_hash,
            witness_hash,
        } ==> f.message() == "tampering (witness conflict / immutable key) at key "@ + key
            + ": local sequence "@ + text::decimal(sequence as nat) + " head_hash "@ + local_hash
            + " disagrees with witness "@ + witness_hash,
        f matches WitnessVerifyFault::EmptyWitnesses(s) ==> f.message()
            == "no witness objects under prefix "@ + s,
{
}

} // verus!
