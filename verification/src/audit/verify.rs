//! Hash-chain verification.
use super::frame::{decode_frame, Frame, FrameError, FrameFault, FrameModel};
use super::hash;
use super::hash::sha256_32;
use super::header::{FileHeader, HeaderError, HeaderFault, HeaderModel};
use super::naming::{caps_rel_path, hex_encode, parse_log_file_name};
use super::record::RecordModel;
use crate::cbor;
use crate::order;
use crate::order::Keyed;
use crate::path;
use crate::text;
use vstd::prelude::*;
use vstd::seq_lib::*;
use vstd::utf8::*;

verus! {

/// Result of verifying an audit log file.
#[derive(Debug, PartialEq, Eq)]
pub struct VerifyReport {
    pub header: FileHeader,
    pub frames: Vec<Frame>,
    /// Head hash after the last frame (or header `prev_hash` if empty).
    pub head_hash: [u8; 32],
}

/// What a [`VerifyReport`] says.
pub ghost struct ReportModel {
    pub header: HeaderModel,
    pub frames: Seq<FrameModel>,
    pub head_hash: Seq<u8>,
}

/// What frames say.
pub open spec fn frame_models(v: Seq<Frame>) -> Seq<FrameModel> {
    Seq::new(v.len(), |i: int| v[i]@)
}

impl View for VerifyReport {
    type V = ReportModel;

    open spec fn view(&self) -> ReportModel {
        ReportModel {
            header: self.header@,
            frames: frame_models(self.frames@),
            head_hash: self.head_hash@,
        }
    }
}

/// One file within a directory verification walk.
#[derive(Debug, PartialEq, Eq)]
pub struct DirFileReport {
    pub path: String,
    pub report: VerifyReport,
}

/// Result of verifying an audit directory.
#[derive(Debug, PartialEq, Eq)]
pub struct DirVerifyReport {
    pub files: Vec<DirFileReport>,
}

/// What [`DirFileReport`]s say.
pub open spec fn dir_models(v: Seq<DirFileReport>) -> Seq<(Seq<char>, ReportModel)> {
    Seq::new(v.len(), |i: int| (v[i].path@, v[i].report@))
}

/// Why verification failed.
#[derive(Debug, PartialEq, Eq)]
pub enum VerifyError {
    Header(HeaderError),
    FrameAt { index: usize, source: FrameError },
    ChainBreak { index: usize, expected: [u8; 32], found: [u8; 32] },
    TrailingBytes(usize),
    Io(String),
    EmptyDir(String),
    BoundaryBreak { prev_file: String, next_file: String, expected: String, found: String },
    MissingCaps { caps_hash: String, log_file: String, index: usize, expected_path: String },
    CapsHashMismatch {
        caps_hash: String,
        log_file: String,
        index: usize,
        path: String,
        actual: String,
    },
}

/// A [`VerifyError`] with its texts as character sequences.
pub ghost enum VerifyFault {
    Header(HeaderFault),
    FrameAt { index: nat, source: FrameFault },
    ChainBreak { index: nat, expected: Seq<u8>, found: Seq<u8> },
    TrailingBytes(nat),
    Io(Seq<char>),
    EmptyDir(Seq<char>),
    BoundaryBreak {
        prev_file: Seq<char>,
        next_file: Seq<char>,
        expected: Seq<char>,
        found: Seq<char>,
    },
    MissingCaps {
        caps_hash: Seq<char>,
        log_file: Seq<char>,
        index: nat,
        expected_path: Seq<char>,
    },
    CapsHashMismatch {
        caps_hash: Seq<char>,
        log_file: Seq<char>,
        index: nat,
        path: Seq<char>,
        actual: Seq<char>,
    },
}

impl View for VerifyError {
    type V = VerifyFault;

    open spec fn view(&self) -> VerifyFault {
        match *self {
            VerifyError::Header(e) => VerifyFault::Header(e@),
            VerifyError::FrameAt { index, source } => VerifyFault::FrameAt {
                index: index as nat,
                source: source@,
            },
            VerifyError::ChainBreak { index, expected, found } => VerifyFault::ChainBreak {
                index: index as nat,
                expected: expected@,
                found: found@,
            },
            VerifyError::TrailingBytes(n) => VerifyFault::TrailingBytes(n as nat),
            VerifyError::Io(s) => VerifyFault::Io(s@),
            VerifyError::EmptyDir(s) => VerifyFault::EmptyDir(s@),
            VerifyError::BoundaryBreak { prev_file, next_file, expected, found } =>
                VerifyFault::BoundaryBreak {
                prev_file: prev_file@,
                next_file: next_file@,
                expected: expected@,
                found: found@,
            },
            VerifyError::MissingCaps { caps_hash, log_file, index, expected_path } =>
                VerifyFault::MissingCaps {
                caps_hash: caps_hash@,
                log_file: log_file@,
                index: index as nat,
                expected_path: expected_path@,
            },
            VerifyError::CapsHashMismatch { caps_hash, log_file, index, path, actual } =>
                VerifyFault::CapsHashMismatch {
                caps_hash: caps_hash@,
                log_file: log_file@,
                index: index as nat,
                path: path@,
                actual: actual@,
            },
        }
    }
}

/// Bytes as a list of two-digit hex numbers in square brackets.
pub open spec fn hex_list(b: Seq<u8>) -> Seq<char> {
    "["@ + hex_items(b) + "]"@
}

/// Two-digit hex numbers with commas between them.
pub open spec fn hex_items(b: Seq<u8>) -> Seq<char>
    decreases b.len(),
{
    if b.len() == 0 {
        Seq::empty()
    } else if b.len() == 1 {
        super::naming::hex(b)
    } else {
        hex_items(b.drop_last()) + ", "@ + super::naming::hex(seq![b.last()])
    }
}

impl VerifyFault {
    /// Record index at which verification failed, when applicable.
    pub open spec fn break_index(self) -> Option<nat> {
        match self {
            VerifyFault::FrameAt { index, .. } => Some(index),
            VerifyFault::ChainBreak { index, .. } => Some(index),
            VerifyFault::MissingCaps { index, .. } => Some(index),
            VerifyFault::CapsHashMismatch { index, .. } => Some(index),
            _ => None,
        }
    }

    /// The message shown to people.
    pub open spec fn message(self) -> Seq<char> {
        match self {
            VerifyFault::Header(f) => f.message(),
            VerifyFault::FrameAt { index, source } => "frame decode failed at record index "@
                + text::decimal(index) + ": "@ + source.message(),
            VerifyFault::ChainBreak { index, expected, found } => "chain break at record index "@
                + text::decimal(index) + ": expected prev_hash "@ + hex_list(expected)
                + ", found "@ + hex_list(found),
            VerifyFault::TrailingBytes(n) => "trailing bytes after last frame ("@ + text::decimal(n)
                + " bytes)"@,
            VerifyFault::Io(s) => "io: "@ + s,
            VerifyFault::EmptyDir(s) => "no helix-*.log files in "@ + s,
            VerifyFault::BoundaryBreak { prev_file, next_file, expected, found } =>
                "rotation boundary break between "@ + prev_file + " and "@ + next_file
                + ": expected header prev_hash "@ + expected + ", found "@ + found,
            VerifyFault::MissingCaps { caps_hash, log_file, index, expected_path } =>
                "missing caps side file for hash "@ + caps_hash + " (referenced by "@ + log_file
                + " record "@ + text::decimal(index) + "): expected "@ + expected_path,
            VerifyFault::CapsHashMismatch { caps_hash, log_file, index, path, actual } =>
                "caps side file hash mismatch for "@ + caps_hash + " (referenced by "@ + log_file
                + " record "@ + text::decimal(index) + "):          file "@ + path
                + " content hashes to "@ + actual,
        }
    }
}

fn push_hex_list(s: &mut String, b: &[u8])
    ensures
        final(s)@ == old(s)@ + hex_list(b@),
{
    let ghost first = s@;
    s.append("[");
    let mut i: usize = 0;
    assert(b@.take(0) =~= Seq::<u8>::empty());
    assert(s@ =~= first + "["@ + hex_items(b@.take(0)));
    while i < b.len()
        invariant
            0 <= i <= b.len(),
            s@ == first + "["@ + hex_items(b@.take(i as int)),
        decreases b.len() - i,
    {
        if i > 0 {
            s.append(", ");
        }
        let one = vstd::slice::slice_subrange(b, i, i + 1);
        let shown = hex_encode(one);
        s.append(shown.as_str());
        proof {
            let next = b@.take(i as int + 1);
            assert(next.drop_last() =~= b@.take(i as int));
            if i == 0 {
                assert(next =~= one@);
            } else {
                assert(one@ =~= seq![next.last()]);
            }
            assert(s@ =~= first + "["@ + hex_items(next));
        }
        i += 1;
    }
    s.append("]");
    assert(b@.take(i as int) =~= b@);
    assert(s@ =~= first + hex_list(b@));
}

impl VerifyError {
    /// Record index at which verification failed, when applicable.
    #[must_use]
    pub fn break_index(&self) -> (r: Option<usize>)
        ensures
            match (r, self@.break_index()) {
                (Some(i), Some(j)) => i == j,
                (None, None) => true,
                _ => false,
            },
    {
        match self {
            VerifyError::FrameAt { index, .. } => Some(*index),
            VerifyError::ChainBreak { index, .. } => Some(*index),
            VerifyError::MissingCaps { index, .. } => Some(*index),
            VerifyError::CapsHashMismatch { index, .. } => Some(*index),
            _ => None,
        }
    }

    /// Operator-facing one-line summary of the first break.
    #[must_use]
    pub fn first_break_message(&self) -> (r: String)
        ensures
            r@ == self@.message(),
    {
        match self {
            VerifyError::Header(e) => e.message(),
            VerifyError::FrameAt { index, source } => {
                let mut s = text::join3(
                    "frame decode failed at record index ",
                    text::decimal_string(*index as u64).as_str(),
                    ": ",
                );
                s.append(source.message().as_str());
                s
            },
            VerifyError::ChainBreak { index, expected, found } => {
                let mut s = text::join3(
                    "chain break at record index ",
                    text::decimal_string(*index as u64).as_str(),
                    ": expected prev_hash ",
                );
                push_hex_list(&mut s, expected.as_slice());
                s.append(", found ");
                push_hex_list(&mut s, found.as_slice());
                s
            },
            VerifyError::TrailingBytes(n) => text::join3(
                "trailing bytes after last frame (",
                text::decimal_string(*n as u64).as_str(),
                " bytes)",
            ),
            VerifyError::Io(m) => text::join("io: ", m.as_str()),
            VerifyError::EmptyDir(d) => text::join("no helix-*.log files in ", d.as_str()),
            VerifyError::BoundaryBreak { prev_file, next_file, expected, found } => {
                let mut s = text::join3(
                    "rotation boundary break between ",
                    prev_file.as_str(),
                    " and ",
                );
                s.append(next_file.as_str());
                s.append(": expected header prev_hash ");
                s.append(expected.as_str());
                s.append(", found ");
                s.append(found.as_str());
                s
            },
            VerifyError::MissingCaps { caps_hash, log_file, index, expected_path } => {
                let mut s = text::join3(
                    "missing caps side file for hash ",
                    caps_hash.as_str(),
                    " (referenced by ",
                );
                s.append(log_file.as_str());
                s.append(" record ");
                text::push_decimal(&mut s, *index as u64);
                s.append("): expected ");
                s.append(expected_path.as_str());
                s
            },
            VerifyError::CapsHashMismatch { caps_hash, log_file, index, path, actual } => {
                let mut s = text::join3(
                    "caps side file hash mismatch for ",
                    caps_hash.as_str(),
                    " (referenced by ",
                );
                s.append(log_file.as_str());
                s.append(" record ");
                text::push_decimal(&mut s, *index as u64);
                s.append("):          file ");
                s.append(path.as_str());
                s.append(" content hashes to ");
                s.append(actual.as_str());
                s
            },
        }
    }
}

/// The frames from an offset to the end and the head hash behind them, when
/// each frame holds the hash of the one before it; otherwise the first break.
pub open spec fn chain_from(b: Seq<u8>, offset: nat, expected: Seq<u8>, index: nat) -> Result<
    (Seq<FrameModel>, Seq<u8>),
    VerifyFault,
>
    decreases b.len() - offset,
{
    if offset >= b.len() {
        Ok((Seq::empty(), expected))
    } else if b.len() - offset < 4 {
        Err(VerifyFault::TrailingBytes((b.len() - offset) as nat))
    } else {
        match super::frame::decoded(b.skip(offset as int)) {
            Err(FrameFault::Truncated) => Err(
                VerifyFault::TrailingBytes((b.len() - offset) as nat),
            ),
            Err(f) => Err(VerifyFault::FrameAt { index, source: f }),
            Ok((frame, n)) => if frame.prev_hash != expected {
                Err(VerifyFault::ChainBreak { index, expected, found: frame.prev_hash })
            } else {
                match chain_from(b, offset + n, frame.frame_hash, index + 1) {
                    Ok((rest, head)) => Ok((seq![frame] + rest, head)),
                    Err(f) => Err(f),
                }
            },
        }
    }
}

/// What verifying a log file gives: its header, its frames and its head hash,
/// or the first break.
pub open spec fn verified(b: Seq<u8>) -> Result<ReportModel, VerifyFault> {
    match super::header::decoded(b) {
        Err(f) => Err(VerifyFault::Header(f)),
        Ok((header, start)) => match chain_from(b, start, header.prev_hash, 0) {
            Ok((frames, head_hash)) => Ok(ReportModel { header, frames, head_hash }),
            Err(f) => Err(f),
        },
    }
}

/// Verify the chain in `file_bytes`. Fails at the index of the first record
/// whose framing or `prev_hash` does not match.
pub fn verify_file(file_bytes: &[u8]) -> (r: Result<VerifyReport, VerifyError>)
    ensures
        match (r, verified(file_bytes@)) {
            (Ok(x), Ok(m)) => x@ == m,
            (Err(e), Err(f)) => e@ == f,
            _ => false,
        },
{
    let (header, start): (FileHeader, usize) = match FileHeader::decode_cbor(file_bytes) {
        Ok(v) => v,
        Err(e) => {
            return Err(VerifyError::Header(e));
        },
    };
    let mut offset: usize = start;
    let mut expected_prev = header.prev_hash;
    let mut frames: Vec<Frame> = Vec::new();
    let mut index: usize = 0;
    let ghost b = file_bytes@;
    let ghost all = chain_from(b, start as nat, header.prev_hash@, 0);
    proof {
        assert(frame_models(frames@) =~= Seq::<FrameModel>::empty());
        lemma_joined_empty(all);
    }
    while offset < file_bytes.len()
        invariant
            b == file_bytes@,
            offset <= b.len(),
            index <= offset,
            all == chain_from(b, start as nat, header.prev_hash@, 0),
            super::header::decoded(b) == Ok::<(HeaderModel, nat), HeaderFault>(
                (header@, start as nat),
            ),
            all == joined(
                frame_models(frames@),
                chain_from(b, offset as nat, expected_prev@, index as nat),
            ),
        decreases file_bytes.len() - offset,
    {
        let left: usize = file_bytes.len() - offset;
        if left < 4 {
            return Err(VerifyError::TrailingBytes(left));
        }
        let rest = vstd::slice::slice_subrange(file_bytes, offset, file_bytes.len());
        assert(rest@ =~= b.skip(offset as int));
        let (frame, consumed): (Frame, usize) = match decode_frame(rest) {
            Ok(v) => v,
            Err(FrameError::Truncated) => {
                return Err(VerifyError::TrailingBytes(left));
            },
            Err(source) => {
                return Err(VerifyError::FrameAt { index, source });
            },
        };
        if !path::bytes_eq(frame.prev_hash.as_slice(), expected_prev.as_slice()) {
            return Err(
                VerifyError::ChainBreak {
                    index,
                    expected: expected_prev,
                    found: frame.prev_hash,
                },
            );
        }
        let ghost before = frame_models(frames@);
        let ghost old_prev = expected_prev@;
        let ghost model = frame@;
        expected_prev = frame.frame_hash;
        let ghost at = offset as nat;
        offset = offset + consumed;
        frames.push(frame);
        proof {
            assert(frame_models(frames@) =~= before.push(model));
            lemma_joined_step(
                before,
                model,
                chain_from(b, offset as nat, expected_prev@, index as nat + 1),
            );
        }
        index = index + 1;
    }
    assert(frame_models(frames@) + Seq::<FrameModel>::empty() =~= frame_models(frames@));
    Ok(VerifyReport { header, frames, head_hash: expected_prev })
}

/// What is known of the whole chain once its first frames are known.
spec fn joined(
    first: Seq<FrameModel>,
    rest: Result<(Seq<FrameModel>, Seq<u8>), VerifyFault>,
) -> Result<(Seq<FrameModel>, Seq<u8>), VerifyFault> {
    match rest {
        Ok((frames, head)) => Ok((first + frames, head)),
        Err(f) => Err(f),
    }
}

proof fn lemma_joined_empty(rest: Result<(Seq<FrameModel>, Seq<u8>), VerifyFault>)
    ensures
        joined(Seq::empty(), rest) == rest,
{
    if let Ok((frames, head)) = rest {
        assert(Seq::<FrameModel>::empty() + frames =~= frames);
    }
}

proof fn lemma_joined_step(
    first: Seq<FrameModel>,
    frame: FrameModel,
    rest: Result<(Seq<FrameModel>, Seq<u8>), VerifyFault>,
)
    ensures
        joined(first, joined(seq![frame], rest)) == joined(first.push(frame), rest),
{
    if let Ok((frames, head)) = rest {
        assert(first + (seq![frame] + frames) =~= first.push(frame) + frames);
    }
}

/// The bytes of records framed one behind the other.
pub open spec fn chain_bytes(records: Seq<RecordModel>, prev_hash: Seq<u8>) -> Seq<u8>
    decreases records.len(),
{
    if records.len() == 0 {
        Seq::empty()
    } else {
        let f = super::frame::framed(records[0].encoded(), prev_hash);
        f + chain_bytes(records.skip(1), hash::sha256(f))
    }
}

/// The head hash behind records framed one behind the other.
pub open spec fn chain_head(records: Seq<RecordModel>, prev_hash: Seq<u8>) -> Seq<u8>
    decreases records.len(),
{
    if records.len() == 0 {
        prev_hash
    } else {
        chain_head(
            records.skip(1),
            hash::sha256(super::frame::framed(records[0].encoded(), prev_hash)),
        )
    }
}

/// The frames of records framed one behind the other.
pub open spec fn chain_frames(records: Seq<RecordModel>, prev_hash: Seq<u8>) -> Seq<FrameModel>
    decreases records.len(),
{
    if records.len() == 0 {
        Seq::empty()
    } else {
        let h = hash::sha256(super::frame::framed(records[0].encoded(), prev_hash));
        seq![FrameModel { record: records[0], prev_hash, frame_hash: h }] + chain_frames(
            records.skip(1),
            h,
        )
    }
}

/// A record that can be framed and read back.
pub open spec fn writable(m: RecordModel) -> bool {
    &&& m.sized()
    &&& m.version <= super::tags::RECORD_VERSION
    &&& encode_utf8(m.reason).len() <= super::tags::REASON_MAX_BYTES
    &&& m.encoded().len() <= u32::MAX
}

proof fn lemma_chain_accepted(
    b: Seq<u8>,
    offset: nat,
    records: Seq<RecordModel>,
    prev_hash: Seq<u8>,
    index: nat,
)
    requires
        offset <= b.len(),
        b.skip(offset as int) == chain_bytes(records, prev_hash),
        prev_hash.len() == 32,
        forall|i: int| 0 <= i < records.len() ==> writable(#[trigger] records[i]),
    ensures
        chain_from(b, offset, prev_hash, index) == Ok::<(Seq<FrameModel>, Seq<u8>), VerifyFault>(
            (chain_frames(records, prev_hash), chain_head(records, prev_hash)),
        ),
    decreases records.len(),
{
    if records.len() == 0 {
        assert(b.skip(offset as int).len() == 0);
    } else {
        let m = records[0];
        let f = super::frame::framed(m.encoded(), prev_hash);
        let h = hash::sha256(f);
        let rest = chain_bytes(records.skip(1), h);
        let s = b.skip(offset as int);
        assert(s == f + rest);
        super::frame::frame_round_trip(m, prev_hash, rest);
        reveal_with_fuel(cbor::pow256, 5);
        cbor::lemma_be(m.encoded().len(), 4);
        let next = offset + f.len();
        assert(b.skip(next as int) =~= rest) by {
            assert(s.skip(f.len() as int) =~= rest);
            assert(b.skip(next as int) =~= s.skip(f.len() as int));
        }
        assert forall|i: int| 0 <= i < records.skip(1).len() implies writable(
            #[trigger] records.skip(1)[i],
        ) by {
            assert(records.skip(1)[i] == records[i + 1]);
        }
        lemma_chain_accepted(b, next, records.skip(1), h, index + 1);
    }
}

/// A file made of a header and records framed one behind the other verifies,
/// with exactly those records, and its head hash is the chain's.
pub proof fn written_file_verifies(header: HeaderModel, records: Seq<RecordModel>)
    requires
        header.sized(),
        header.version <= super::tags::HEADER_VERSION,
        encode_utf8(header.gateway_id).len() <= u64::MAX,
        forall|i: int| 0 <= i < records.len() ==> writable(#[trigger] records[i]),
    ensures
        verified(header.encoded() + chain_bytes(records, header.prev_hash)) == Ok::<
            ReportModel,
            VerifyFault,
        >(
            ReportModel {
                header,
                frames: chain_frames(records, header.prev_hash),
                head_hash: chain_head(records, header.prev_hash),
            },
        ),
{
    let tail = chain_bytes(records, header.prev_hash);
    let b = header.encoded() + tail;
    super::header::header_round_trip(header, tail);
    assert(b.skip(header.encoded().len() as int) =~= tail);
    lemma_chain_accepted(b, header.encoded().len(), records, header.prev_hash, 0);
}

/// Records behind records are one chain.
pub proof fn chain_concat(a: Seq<RecordModel>, c: Seq<RecordModel>, prev_hash: Seq<u8>)
    ensures
        chain_bytes(a + c, prev_hash) == chain_bytes(a, prev_hash) + chain_bytes(
            c,
            chain_head(a, prev_hash),
        ),
        chain_head(a + c, prev_hash) == chain_head(c, chain_head(a, prev_hash)),
    decreases a.len(),
{
    if a.len() == 0 {
        assert(a + c =~= c);
        assert(chain_bytes(a, prev_hash) + chain_bytes(c, prev_hash) =~= chain_bytes(c, prev_hash));
    } else {
        let f = super::frame::framed(a[0].encoded(), prev_hash);
        let h = hash::sha256(f);
        assert((a + c).skip(1) =~= a.skip(1) + c);
        assert((a + c)[0] == a[0]);
        chain_concat(a.skip(1), c, h);
        assert(f + (chain_bytes(a.skip(1), h) + chain_bytes(c, chain_head(a.skip(1), h))) =~= (f
            + chain_bytes(a.skip(1), h)) + chain_bytes(c, chain_head(a.skip(1), h)));
    }
}

/// One record is one frame.
pub proof fn lemma_chain_one(m: RecordModel, prev_hash: Seq<u8>)
    ensures
        chain_bytes(seq![m], prev_hash) == super::frame::framed(m.encoded(), prev_hash),
        chain_head(seq![m], prev_hash) == hash::sha256(
            super::frame::framed(m.encoded(), prev_hash),
        ),
{
    reveal_with_fuel(chain_bytes, 2);
    reveal_with_fuel(chain_head, 2);
    let f = super::frame::framed(m.encoded(), prev_hash);
    assert(f + Seq::<u8>::empty() =~= f);
}

/// A stretch of `b` and a different stretch of `c` have one digest.
pub open spec fn files_collide(b: Seq<u8>, c: Seq<u8>) -> bool {
    exists|u: (int, int), v: (int, int)|
        0 <= u.0 <= u.1 <= b.len() && 0 <= v.0 <= v.1 <= c.len() && b.subrange(u.0, u.1)
            != c.subrange(v.0, v.1) && #[trigger] hash::sha256(b.subrange(u.0, u.1))
            == #[trigger] hash::sha256(c.subrange(v.0, v.1))
}

/// Without a collision, stretches with one digest are the same.
pub proof fn lemma_no_collision(b: Seq<u8>, u: (int, int), c: Seq<u8>, v: (int, int))
    requires
        !files_collide(b, c),
        0 <= u.0 <= u.1 <= b.len(),
        0 <= v.0 <= v.1 <= c.len(),
        hash::sha256(b.subrange(u.0, u.1)) == hash::sha256(c.subrange(v.0, v.1)),
    ensures
        b.subrange(u.0, u.1) == c.subrange(v.0, v.1),
{
}

proof fn lemma_chain_binds(
    b: Seq<u8>,
    p: nat,
    e: Seq<u8>,
    i: nat,
    c: Seq<u8>,
    q: nat,
    f: Seq<u8>,
    j: nat,
)
    requires
        chain_from(b, p, e, i) is Ok,
        chain_from(c, q, f, j) is Ok,
        chain_from(b, p, e, i)->Ok_0.0.len() == chain_from(c, q, f, j)->Ok_0.0.len(),
        chain_from(b, p, e, i)->Ok_0.1 == chain_from(c, q, f, j)->Ok_0.1,
    ensures
        (cbor::from(b, p) == cbor::from(c, q) && e == f) || files_collide(b, c),
    decreases b.len() - p,
{
    if p >= b.len() {
        if q < c.len() {
            assert(chain_from(c, q, f, j)->Ok_0.0.len() > 0);
        }
        assert(cbor::from(b, p) =~= cbor::from(c, q));
    } else {
        if q >= c.len() {
            assert(chain_from(b, p, e, i)->Ok_0.0.len() > 0);
        }
        let s = b.skip(p as int);
        let t = c.skip(q as int);
        let (x, m) = super::frame::decoded(s)->Ok_0;
        let (y, n) = super::frame::decoded(t)->Ok_0;
        assert(s.len() >= m && m >= 36 && t.len() >= n && n >= 36);
        lemma_chain_binds(b, p + m, x.frame_hash, i + 1, c, q + n, y.frame_hash, j + 1);
        if !files_collide(b, c) {
            let u = s.take(m as int);
            let v = t.take(n as int);
            assert(hash::sha256(u) == hash::sha256(v));
            assert(u =~= b.subrange(p as int, (p + m) as int));
            assert(v =~= c.subrange(q as int, (q + n) as int));
            lemma_no_collision(b, (p as int, (p + m) as int), c, (q as int, (q + n) as int));
            assert(u.len() == m && v.len() == n);
            assert(s =~= u + cbor::from(b, p + m));
            assert(t =~= v + cbor::from(c, q + n));
            assert(x.prev_hash =~= u.subrange(m - 32, m as int));
            assert(y.prev_hash =~= v.subrange(n - 32, n as int));
        }
    }
}

/// Tampering shows: two files that both verify with as many records and the
/// same head hash have the same bytes behind their headers and carry on from
/// the same hash, unless a stretch of the one and a different stretch of the
/// other have one digest.
pub proof fn head_hash_binds_the_log(b: Seq<u8>, c: Seq<u8>)
    requires
        verified(b) is Ok,
        verified(c) is Ok,
        verified(b)->Ok_0.frames.len() == verified(c)->Ok_0.frames.len(),
        verified(b)->Ok_0.head_hash == verified(c)->Ok_0.head_hash,
    ensures
        (cbor::from(b, super::header::decoded(b)->Ok_0.1) == cbor::from(
            c,
            super::header::decoded(c)->Ok_0.1,
        ) && verified(b)->Ok_0.header.prev_hash == verified(c)->Ok_0.header.prev_hash)
            || files_collide(b, c),
{
    let (hb, p) = super::header::decoded(b)->Ok_0;
    let (hc, q) = super::header::decoded(c)->Ok_0;
    lemma_chain_binds(b, p, hb.prev_hash, 0, c, q, hc.prev_hash, 0);
}

/// Where the frame that is `k` frames behind an offset starts.
pub open spec fn frame_at(b: Seq<u8>, offset: nat, k: nat) -> nat
    decreases k,
{
    if k == 0 {
        offset
    } else {
        match super::frame::decoded(cbor::from(b, offset)) {
            Ok((_, n)) => frame_at(b, offset + n, (k - 1) as nat),
            Err(_) => offset,
        }
    }
}

/// Where the frame of record `k` starts in a file, and where the one before
/// it ends.
pub open spec fn frame_start(b: Seq<u8>, k: nat) -> nat {
    match super::header::decoded(b) {
        Ok((_, start)) => frame_at(b, start, k),
        Err(_) => 0,
    }
}

/// The bytes of a frame that starts and ends here.
pub open spec fn frame_bytes(b: Seq<u8>, from: nat, to: nat) -> Seq<u8> {
    b.subrange(from as int, to as int)
}

/// `c` is `b` with other bytes inside the stretch from `from` to `to`.
pub open spec fn changed_within(b: Seq<u8>, c: Seq<u8>, from: int, to: int) -> bool {
    &&& b.len() == c.len()
    &&& b != c
    &&& forall|i: int| 0 <= i < b.len() && !(from <= i < to) ==> #[trigger] b[i] == c[i]
}

/// What a file says of a changed record: the break at the record itself, or
/// at the next; for a last record that still reads, another head hash.
pub open spec fn reported(
    r: Result<(Seq<FrameModel>, Seq<u8>), VerifyFault>,
    k: nat,
    last: bool,
    head: Seq<u8>,
) -> bool {
    match r {
        Err(f) => f.break_index() == Some(k) || (!last && f.break_index() == Some(k + 1)),
        Ok((_, h)) => last && h != head,
    }
}

proof fn lemma_change_reported(
    b: Seq<u8>,
    c: Seq<u8>,
    p: nat,
    e: Seq<u8>,
    i: nat,
    k: nat,
)
    requires
        p <= b.len(),
        chain_from(b, p, e, i) is Ok,
        k < chain_from(b, p, e, i)->Ok_0.0.len(),
        changed_within(b, c, frame_at(b, p, k) as int + 4, frame_at(b, p, k + 1) - 32),
    ensures
        p <= frame_at(b, p, k),
        frame_at(b, p, k) + 36 <= frame_at(b, p, k + 1) <= b.len(),
        reported(
            chain_from(c, p, e, i),
            i + k,
            k + 1 == chain_from(b, p, e, i)->Ok_0.0.len(),
            chain_from(b, p, e, i)->Ok_0.1,
        ) || hash::sha256(frame_bytes(b, frame_at(b, p, k), frame_at(b, p, k + 1)))
            == hash::sha256(frame_bytes(c, frame_at(b, p, k), frame_at(b, p, k + 1))),
    decreases k,
{
    let s = b.skip(p as int);
    let t = c.skip(p as int);
    let (x, m) = super::frame::decoded(s)->Ok_0;
    assert(s.len() >= m && m >= 36);
    assert(cbor::from(b, p) == s);
    reveal_with_fuel(frame_at, 2);
    let rest = chain_from(b, p + m, x.frame_hash, i + 1)->Ok_0;
    assert(chain_from(b, p, e, i)->Ok_0.0 =~= seq![x] + rest.0);
    if k == 0 {
        let to = p + m;
        assert(frame_at(b, p, 1) == to);
        assert(t.take(4) =~= s.take(4));
        assert(t.subrange(m - 32, m as int) =~= s.subrange(m - 32, m as int));
        assert(frame_bytes(b, p, to) =~= s.take(m as int));
        assert(frame_bytes(c, p, to) =~= t.take(m as int));
        match super::frame::decoded(t) {
            Ok((y, n)) => {
                assert(n == m && y.prev_hash == x.prev_hash);
                if hash::sha256(s.take(m as int)) != hash::sha256(t.take(m as int)) {
                    if rest.0.len() == 0 {
                        assert(to >= b.len());
                        assert(chain_from(c, to, y.frame_hash, i + 1)->Ok_0.1 == y.frame_hash);
                    } else {
                        assert(to < b.len());
                        assert(c.skip(to as int) =~= b.skip(to as int));
                        assert(chain_from(c, to, y.frame_hash, i + 1)->Err_0.break_index() == Some(
                            i + 1,
                        ));
                    }
                }
            },
            Err(f) => {
                assert(f is Record);
            },
        }
    } else {
        lemma_change_reported(b, c, p + m, x.frame_hash, i + 1, (k - 1) as nat);
        let at = frame_at(b, p + m, (k - 1) as nat);
        assert(frame_at(b, p, k) == at);
        assert(frame_at(b, p, k + 1) == frame_at(b, p + m, k));
        assert(t.take(m as int) =~= s.take(m as int)) by {
            assert forall|j: int| 0 <= j < m implies t[j] == s[j] by {
                assert(b[p + j] == c[p + j]);
            }
        }
        assert(t.take(4) =~= s.take(m as int).take(4));
        assert(s.take(4) =~= s.take(m as int).take(4));
        assert(t.subrange(4, m - 32) =~= t.take(m as int).subrange(4, m - 32));
        assert(s.subrange(4, m - 32) =~= s.take(m as int).subrange(4, m - 32));
        assert(t.subrange(m - 32, m as int) =~= t.take(m as int).subrange(m - 32, m as int));
        assert(s.subrange(m - 32, m as int) =~= s.take(m as int).subrange(m - 32, m as int));
        assert(super::frame::decoded(t) == super::frame::decoded(s));
    }
}

/// A changed record is found. Let `c` be a verified file `b` with other bytes
/// inside the CBOR of record `k`. Verifying `c` breaks at record `k`, which no
/// longer reads, or at the next, which holds another hash; where `k` is the
/// last record and still reads, the head hash is another. The exception is a
/// changed frame with the digest of the frame that it replaces.
pub proof fn changed_record_is_reported(b: Seq<u8>, c: Seq<u8>, k: nat)
    requires
        verified(b) is Ok,
        k < verified(b)->Ok_0.frames.len(),
        changed_within(b, c, frame_start(b, k) as int + 4, frame_start(b, k + 1) - 32),
    ensures
        match verified(c) {
            Err(f) => f.break_index() == Some(k) || (k + 1 < verified(b)->Ok_0.frames.len()
                && f.break_index() == Some(k + 1)),
            Ok(r) => k + 1 == verified(b)->Ok_0.frames.len() && r.head_hash != verified(
                b,
            )->Ok_0.head_hash,
        } || hash::sha256(frame_bytes(b, frame_start(b, k), frame_start(b, k + 1)))
            == hash::sha256(frame_bytes(c, frame_start(b, k), frame_start(b, k + 1))),
{
    let (h, p) = super::header::decoded(b)->Ok_0;
    assert(p < b.len());
    lemma_change_reported(b, c, p, h.prev_hash, 0, k);
    assert(b.take(p as int) =~= c.take(p as int)) by {
        assert forall|i: int| 0 <= i < p implies b[i] == c[i] by {
            assert(!(frame_start(b, k) + 4 <= i));
        }
    }
    super::header::lemma_header_local(b, c);
}

/// A directory entry: its name, and its content or why it could not be read.
#[derive(Debug)]
pub struct DirEntry {
    pub name: String,
    pub content: Result<Vec<u8>, String>,
}

/// Bytes, or why they could not be read.
pub open spec fn content_of(e: DirEntry) -> Result<Seq<u8>, Seq<char>> {
    match e.content {
        Ok(b) => Ok(b@),
        Err(m) => Err(m@),
    }
}

impl Keyed for DirEntry {
    open spec fn key(&self) -> Seq<u8> {
        encode_utf8(self.name@)
    }

    fn get_key(&self) -> &[u8] {
        self.name.as_str().as_bytes()
    }
}

/// The entry is a log file by its name.
pub open spec fn is_log(e: DirEntry) -> bool {
    super::naming::log_name_ulid(encode_utf8(e.name@)) is Some
}

/// The log files among entries.
pub open spec fn logs(v: Seq<DirEntry>) -> Seq<DirEntry>
    decreases v.len(),
{
    if v.len() == 0 {
        Seq::empty()
    } else if is_log(v.last()) {
        logs(v.drop_last()).push(v.last())
    } else {
        logs(v.drop_last())
    }
}

/// A name within a directory.
pub open spec fn within_dir(dir: Seq<char>, name: Seq<char>) -> Seq<char> {
    if dir.len() == 0 {
        name
    } else if dir.last() == '/' {
        dir + name
    } else {
        dir + "/"@ + name
    }
}

/// A name within a directory.
pub fn join_dir(dir: &str, name: &str) -> (r: String)
    ensures
        r@ == within_dir(dir@, name@),
{
    let cs = text::chars_of(dir);
    if cs.len() == 0 {
        return name.to_owned();
    }
    if cs[cs.len() - 1] == '/' {
        text::join(dir, name)
    } else {
        text::join3(dir, "/", name)
    }
}

/// The first entry with this name.
pub open spec fn entry_named(v: Seq<DirEntry>, name: Seq<char>) -> Option<Result<
    Seq<u8>,
    Seq<char>,
>>
    decreases v.len(),
{
    if v.len() == 0 {
        None
    } else if v[0].name@ == name {
        Some(content_of(v[0]))
    } else {
        entry_named(v.skip(1), name)
    }
}

/// What is wrong with the side file that record `index` refers to.
pub open spec fn side_file_fault(
    dir: Seq<char>,
    log: Seq<char>,
    index: nat,
    caps_hash: Option<Seq<u8>>,
    side: Seq<DirEntry>,
) -> Option<VerifyFault> {
    match caps_hash {
        None => None,
        Some(h) => match entry_named(side, super::naming::caps_name(h)) {
            None => Some(
                VerifyFault::MissingCaps {
                    caps_hash: super::naming::hex(h),
                    log_file: log,
                    index,
                    expected_path: within_dir(dir, super::naming::caps_name(h)),
                },
            ),
            Some(Err(m)) => Some(VerifyFault::Io(m)),
            Some(Ok(b)) => if hash::sha256(b) == h {
                None
            } else {
                Some(
                    VerifyFault::CapsHashMismatch {
                        caps_hash: super::naming::hex(h),
                        log_file: log,
                        index,
                        path: within_dir(dir, super::naming::caps_name(h)),
                        actual: super::naming::hex(hash::sha256(b)),
                    },
                )
            },
        },
    }
}

/// What is first wrong with the side files of the first `n` records.
pub open spec fn side_files_fault(
    dir: Seq<char>,
    log: Seq<char>,
    frames: Seq<FrameModel>,
    side: Seq<DirEntry>,
    n: nat,
) -> Option<VerifyFault>
    decreases n,
{
    if n == 0 {
        None
    } else {
        match side_files_fault(dir, log, frames, side, (n - 1) as nat) {
            Some(f) => Some(f),
            None => side_file_fault(
                dir,
                log,
                (n - 1) as nat,
                frames[n - 1].record.caps_hash,
                side,
            ),
        }
    }
}

/// What is wrong at the boundary behind a file with this head hash.
pub open spec fn boundary_fault(
    last: Option<(Seq<u8>, Seq<char>)>,
    found: Seq<u8>,
    log: Seq<char>,
) -> Option<VerifyFault> {
    match last {
        None => None,
        Some((expected, prev_file)) => if found == expected {
            None
        } else {
            Some(
                VerifyFault::BoundaryBreak {
                    prev_file,
                    next_file: log,
                    expected: super::naming::hex(expected),
                    found: super::naming::hex(found),
                },
            )
        },
    }
}

/// What verifying one file of a directory gives: the file's own chain first,
/// then the boundary, then the side files.
pub open spec fn file_in_dir(
    dir: Seq<char>,
    e: DirEntry,
    side: Seq<DirEntry>,
    last: Option<(Seq<u8>, Seq<char>)>,
) -> Result<ReportModel, VerifyFault> {
    let log = within_dir(dir, e.name@);
    match content_of(e) {
        Err(m) => Err(VerifyFault::Io(m)),
        Ok(b) => match verified(b) {
            Err(f) => Err(f),
            Ok(report) => match boundary_fault(last, report.header.prev_hash, log) {
                Some(f) => Err(f),
                None => match side_files_fault(
                    dir,
                    log,
                    report.frames,
                    side,
                    report.frames.len(),
                ) {
                    Some(f) => Err(f),
                    None => Ok(report),
                },
            },
        },
    }
}

/// What verifying the first `n` files gives.
pub open spec fn files_in_dir(
    dir: Seq<char>,
    files: Seq<DirEntry>,
    side: Seq<DirEntry>,
    n: nat,
) -> Result<Seq<(Seq<char>, ReportModel)>, VerifyFault>
    decreases n,
{
    if n == 0 {
        Ok(Seq::empty())
    } else {
        match files_in_dir(dir, files, side, (n - 1) as nat) {
            Err(f) => Err(f),
            Ok(done) => {
                let last = if n == 1 {
                    None
                } else {
                    Some((done.last().1.head_hash, done.last().0))
                };
                match file_in_dir(dir, files[n - 1], side, last) {
                    Err(f) => Err(f),
                    Ok(report) => Ok(done.push((within_dir(dir, files[n - 1].name@), report))),
                }
            },
        }
    }
}

/// What verifying a directory gives whose log files are `files` in order.
pub open spec fn verified_dir(
    dir: Seq<char>,
    files: Seq<DirEntry>,
    side: Seq<DirEntry>,
) -> Result<Seq<(Seq<char>, ReportModel)>, VerifyFault> {
    if files.len() == 0 {
        Err(VerifyFault::EmptyDir(dir))
    } else {
        files_in_dir(dir, files, side, files.len())
    }
}

/// The log files among entries.
fn list_log_files(entries: Vec<DirEntry>) -> (out: Vec<DirEntry>)
    ensures
        out@ == logs(entries@),
{
    let ghost all = entries@;
    let mut rest: Vec<DirEntry> = entries;
    let mut out: Vec<DirEntry> = Vec::new();
    let mut done: usize = 0;
    let n: usize = rest.len();
    assert(all.take(0) =~= Seq::<DirEntry>::empty());
    while done < n
        invariant
            n == all.len(),
            0 <= done <= n,
            rest@ == all.skip(done as int),
            out@ == logs(all.take(done as int)),
        decreases n - done,
    {
        assert(rest@[0] == all[done as int]);
        let e = rest.remove(0);
        proof {
            assert(all.take(done as int + 1).drop_last() =~= all.take(done as int));
            assert(rest@ =~= all.skip(done as int + 1));
        }
        if parse_log_file_name(e.name.as_str()).is_some() {
            out.push(e);
        }
        done += 1;
    }
    assert(all.take(done as int) =~= all);
    out
}

fn find_entry<'a>(v: &'a Vec<DirEntry>, name: &str) -> (r: Option<&'a DirEntry>)
    ensures
        match (r, entry_named(v@, name@)) {
            (Some(e), Some(c)) => content_of(*e) == c,
            (None, None) => true,
            _ => false,
        },
{
    let mut i: usize = 0;
    assert(v@.skip(0) =~= v@);
    while i < v.len()
        invariant
            0 <= i <= v.len(),
            entry_named(v@, name@) == entry_named(v@.skip(i as int), name@),
        decreases v.len() - i,
    {
        if text::str_eq(v[i].name.as_str(), name) {
            return Some(&v[i]);
        }
        assert(v@.skip(i as int).skip(1) =~= v@.skip(i as int + 1));
        i += 1;
    }
    None
}

/// Checks the side file that record `index` refers to.
fn check_side_file(
    dir: &str,
    log: &String,
    index: usize,
    caps_hash: &Option<[u8; 32]>,
    side: &Vec<DirEntry>,
) -> (r: Option<VerifyError>)
    ensures
        match (
            r,
            side_file_fault(
                dir@,
                log@,
                index as nat,
                super::record::opt32(*caps_hash),
                side@,
            ),
        ) {
            (Some(e), Some(f)) => e@ == f,
            (None, None) => true,
            _ => false,
        },
{
    let h = match caps_hash {
        Some(h) => h,
        None => {
            return None;
        },
    };
    let rel = caps_rel_path(h);
    match find_entry(side, rel.as_str()) {
        None => Some(
            VerifyError::MissingCaps {
                caps_hash: hex_encode(h.as_slice()),
                log_file: log.clone(),
                index,
                expected_path: join_dir(dir, rel.as_str()),
            },
        ),
        Some(e) => match &e.content {
            Err(m) => Some(VerifyError::Io(m.clone())),
            Ok(b) => {
                let actual = sha256_32(b.as_slice());
                if path::bytes_eq(actual.as_slice(), h.as_slice()) {
                    None
                } else {
                    Some(
                        VerifyError::CapsHashMismatch {
                            caps_hash: hex_encode(h.as_slice()),
                            log_file: log.clone(),
                            index,
                            path: join_dir(dir, rel.as_str()),
                            actual: hex_encode(actual.as_slice()),
                        },
                    )
                }
            },
        },
    }
}

/// Once a side file is found wrong the verdict stays.
proof fn lemma_side_files_fault(
    dir: Seq<char>,
    log: Seq<char>,
    frames: Seq<FrameModel>,
    side: Seq<DirEntry>,
    k: nat,
    n: nat,
)
    requires
        k <= n,
        side_files_fault(dir, log, frames, side, k) is Some,
    ensures
        side_files_fault(dir, log, frames, side, n) == side_files_fault(
            dir,
            log,
            frames,
            side,
            k,
        ),
    decreases n,
{
    if k < n {
        lemma_side_files_fault(dir, log, frames, side, k, (n - 1) as nat);
    }
}

/// Once a file is found wrong the verdict stays.
proof fn lemma_files_in_dir(
    dir: Seq<char>,
    files: Seq<DirEntry>,
    side: Seq<DirEntry>,
    k: nat,
    n: nat,
)
    requires
        k <= n,
        files_in_dir(dir, files, side, k) is Err,
    ensures
        files_in_dir(dir, files, side, n) == files_in_dir(dir, files, side, k),
    decreases n,
{
    if k < n {
        lemma_files_in_dir(dir, files, side, k, (n - 1) as nat);
    }
}

/// Verifies one file of a directory.
fn verify_file_in_dir(
    dir: &str,
    e: &DirEntry,
    side: &Vec<DirEntry>,
    last: Option<(&[u8; 32], &String)>,
) -> (r: Result<VerifyReport, VerifyError>)
    ensures
        match (
            r,
            file_in_dir(
                dir@,
                *e,
                side@,
                match last {
                    Some((h, p)) => Some((h@, p@)),
                    None => None,
                },
            ),
        ) {
            (Ok(x), Ok(m)) => x@ == m,
            (Err(x), Err(f)) => x@ == f,
            _ => false,
        },
{
    let log = join_dir(dir, e.name.as_str());
    let report = match &e.content {
        Err(m) => {
            return Err(VerifyError::Io(m.clone()));
        },
        Ok(b) => match verify_file(b.as_slice()) {
            Ok(report) => report,
            Err(x) => {
                return Err(x);
            },
        },
    };
    if let Some((expected, prev_file)) = last {
        if !path::bytes_eq(report.header.prev_hash.as_slice(), expected.as_slice()) {
            return Err(
                VerifyError::BoundaryBreak {
                    prev_file: prev_file.clone(),
                    next_file: log,
                    expected: hex_encode(expected.as_slice()),
                    found: hex_encode(report.header.prev_hash.as_slice()),
                },
            );
        }
    }
    let mut i: usize = 0;
    while i < report.frames.len()
        invariant
            log@ == within_dir(dir@, e.name@),
            content_of(*e) is Ok,
            verified(content_of(*e)->Ok_0) == Ok::<ReportModel, VerifyFault>(report@),
            boundary_fault(
                match last {
                    Some((h, p)) => Some((h@, p@)),
                    None => None,
                },
                report@.header.prev_hash,
                log@,
            ) is None,
            0 <= i <= report.frames.len(),
            side_files_fault(dir@, log@, report@.frames, side@, i as nat) is None,
        decreases report.frames.len() - i,
    {
        assert(report@.frames[i as int] == report.frames@[i as int]@);
        match check_side_file(dir, &log, i, &report.frames[i].record.caps_hash, side) {
            Some(x) => {
                proof {
                    lemma_side_files_fault(
                        dir@,
                        log@,
                        report@.frames,
                        side@,
                        i as nat + 1,
                        report@.frames.len(),
                    );
                }
                return Err(x);
            },
            None => {},
        }
        i += 1;
    }
    Ok(report)
}

/// Among side files is one `caps/<hex>.cbor` whose content hashes to `h`.
pub open spec fn holds_side_file(side: Seq<DirEntry>, h: Seq<u8>) -> bool {
    exists|j: int|
        0 <= j < side.len() && (#[trigger] side[j]).name@ == "caps/"@ + super::naming::hex(h)
            + ".cbor"@ && (side[j].content matches Ok(b) && hash::sha256(b@) == h)
}

/// Every record that refers to a capability set has its side file.
pub open spec fn sides_held(files: Seq<DirFileReport>, side: Seq<DirEntry>) -> bool {
    forall|i: int, k: int|
        0 <= i < files.len() && 0 <= k < files[i].report.frames@.len() && (
        #[trigger] files[i].report.frames@[k]).record.caps_hash is Some ==> holds_side_file(
            side,
            files[i].report.frames@[k].record.caps_hash->0@,
        )
}

proof fn lemma_sides_held(
    dir: Seq<char>,
    files: Seq<DirEntry>,
    side: Seq<DirEntry>,
    done: Seq<DirFileReport>,
)
    requires
        verified_dir(dir, files, side) == Ok::<Seq<(Seq<char>, ReportModel)>, VerifyFault>(
            dir_models(done),
        ),
    ensures
        sides_held(done, side),
{
    let models = dir_models(done);
    assert forall|i: int, k: int|
        0 <= i < done.len() && 0 <= k < done[i].report.frames@.len() && (
        #[trigger] done[i].report.frames@[k]).record.caps_hash is Some implies holds_side_file(
        side,
        done[i].report.frames@[k].record.caps_hash->0@,
    ) by {
        assert(models[i].1.frames[k] == done[i].report.frames@[k]@);
        verified_directories_hold_their_side_files(dir, files, side, i, k);
    }
}

/// Verify the `helix-*.log` files of a directory in ULID order: each chain,
/// the carry-forward `prev_hash` across file boundaries, and that every
/// referenced `caps_hash` has a side file `caps/<hex>.cbor` whose contents
/// hash to that digest. `entries` are the files of the directory and `side`
/// the side files under their relative paths.
pub fn verify_dir(dir: &str, entries: Vec<DirEntry>, side: &Vec<DirEntry>) -> (r: Result<
    DirVerifyReport,
    VerifyError,
>)
    ensures
        exists|files: Seq<DirEntry>| #[trigger]
            order::is_arrangement(files, logs(entries@)) && match (
                r,
                verified_dir(dir@, files, side@),
            ) {
                (Ok(x), Ok(m)) => dir_models(x.files@) == m,
                (Err(e), Err(f)) => e@ == f,
                _ => false,
            },
        r matches Ok(x) ==> sides_held(x.files@, side@),
{
    let found = list_log_files(entries);
    let files = order::sort_by_key(found);
    proof {
        to_multiset_len(found@);
        to_multiset_len(files@);
        assert(order::is_arrangement(files@, logs(entries@)));
    }
    if files.len() == 0 {
        return Err(VerifyError::EmptyDir(dir.to_owned()));
    }
    let mut done: Vec<DirFileReport> = Vec::new();
    let mut i: usize = 0;
    assert(dir_models(done@) =~= Seq::<(Seq<char>, ReportModel)>::empty());
    while i < files.len()
        invariant
            order::is_arrangement(files@, logs(entries@)),
            0 <= i <= files.len(),
            files.len() > 0,
            done@.len() == i,
            files_in_dir(dir@, files@, side@, i as nat) == Ok::<
                Seq<(Seq<char>, ReportModel)>,
                VerifyFault,
            >(dir_models(done@)),
        decreases files.len() - i,
    {
        let last: Option<(&[u8; 32], &String)> = if i == 0 {
            None
        } else {
            assert(dir_models(done@).last() == (done@[i - 1].path@, done@[i - 1].report@));
            Some((&done[i - 1].report.head_hash, &done[i - 1].path))
        };
        match verify_file_in_dir(dir, &files[i], side, last) {
            Ok(report) => {
                let ghost before = dir_models(done@);
                let ghost m = report@;
                let at = join_dir(dir, files[i].name.as_str());
                done.push(DirFileReport { path: at, report });
                assert(dir_models(done@) =~= before.push((within_dir(dir@, files@[i as int].name@), m)));
            },
            Err(e) => {
                proof {
                    lemma_files_in_dir(dir@, files@, side@, i as nat + 1, files@.len());
                }
                return Err(e);
            },
        }
        i += 1;
    }
    proof {
        lemma_sides_held(dir@, files@, side@, done@);
    }
    Ok(DirVerifyReport { files: done })
}

/// In a directory that verifies, each file carries on from the head hash of
/// the file before it.
pub proof fn rotation_carries_the_chain(
    dir: Seq<char>,
    files: Seq<DirEntry>,
    side: Seq<DirEntry>,
    i: int,
)
    requires
        verified_dir(dir, files, side) is Ok,
        0 < i < files.len(),
    ensures
        verified_dir(dir, files, side)->Ok_0.len() == files.len(),
        verified_dir(dir, files, side)->Ok_0[i].1.header.prev_hash == verified_dir(
            dir,
            files,
            side,
        )->Ok_0[i - 1].1.head_hash,
{
    lemma_boundaries(dir, files, side, files.len(), i);
}

proof fn lemma_boundaries(
    dir: Seq<char>,
    files: Seq<DirEntry>,
    side: Seq<DirEntry>,
    n: nat,
    i: int,
)
    requires
        files_in_dir(dir, files, side, n) is Ok,
    ensures
        files_in_dir(dir, files, side, n)->Ok_0.len() == n,
        0 < i < n ==> files_in_dir(dir, files, side, n)->Ok_0[i].1.header.prev_hash
            == files_in_dir(dir, files, side, n)->Ok_0[i - 1].1.head_hash,
    decreases n,
{
    if n > 0 {
        lemma_boundaries(dir, files, side, (n - 1) as nat, i);
    }
}

/// The files of a directory whose first `n` files verify, each with its path
/// and its own report.
proof fn lemma_reports(
    dir: Seq<char>,
    files: Seq<DirEntry>,
    side: Seq<DirEntry>,
    n: nat,
    i: int,
)
    requires
        files_in_dir(dir, files, side, n) is Ok,
        0 <= i < n,
    ensures
        files_in_dir(dir, files, side, n)->Ok_0.len() == n,
        files_in_dir(dir, files, side, n)->Ok_0[i].0 == within_dir(dir, files[i].name@),
        content_of(files[i]) is Ok,
        verified(content_of(files[i])->Ok_0) == Ok::<ReportModel, VerifyFault>(
            files_in_dir(dir, files, side, n)->Ok_0[i].1,
        ),
        side_files_fault(
            dir,
            within_dir(dir, files[i].name@),
            files_in_dir(dir, files, side, n)->Ok_0[i].1.frames,
            side,
            files_in_dir(dir, files, side, n)->Ok_0[i].1.frames.len(),
        ) is None,
    decreases n,
{
    lemma_boundaries(dir, files, side, n, i);
    if i < n - 1 {
        lemma_reports(dir, files, side, (n - 1) as nat, i);
    }
}

/// An entry is found by its name: the first one that has it.
proof fn lemma_entry_named(v: Seq<DirEntry>, name: Seq<char>)
    ensures
        match entry_named(v, name) {
            Some(c) => exists|j: int|
                0 <= j < v.len() && (#[trigger] v[j]).name@ == name && content_of(v[j]) == c,
            None => forall|j: int| 0 <= j < v.len() ==> (#[trigger] v[j]).name@ != name,
        },
    decreases v.len(),
{
    if v.len() > 0 {
        if v[0].name@ == name {
            assert(content_of(v[0]) == entry_named(v, name)->0);
        } else {
            let rest = v.skip(1);
            lemma_entry_named(rest, name);
            match entry_named(rest, name) {
                Some(c) => {
                    let j = choose|j: int|
                        0 <= j < rest.len() && (#[trigger] rest[j]).name@ == name && content_of(
                            rest[j],
                        ) == c;
                    assert(v[j + 1] == rest[j]);
                },
                None => {
                    assert forall|j: int| 0 <= j < v.len() implies (#[trigger] v[j]).name@
                        != name by {
                        if j > 0 {
                            assert(rest[j - 1] == v[j]);
                        }
                    }
                },
            }
        }
    }
}

/// A directory that verifies reports every log file, in order, under its own
/// path, with what verifying that file alone gives.
pub proof fn verified_directories_report_every_file(
    dir: Seq<char>,
    files: Seq<DirEntry>,
    side: Seq<DirEntry>,
    i: int,
)
    requires
        verified_dir(dir, files, side) is Ok,
        0 <= i < files.len(),
    ensures
        verified_dir(dir, files, side)->Ok_0.len() == files.len(),
        verified_dir(dir, files, side)->Ok_0[i].0 == within_dir(dir, files[i].name@),
        files[i].content matches Ok(b) && verified(b@) == Ok::<ReportModel, VerifyFault>(
            verified_dir(dir, files, side)->Ok_0[i].1,
        ),
{
    lemma_reports(dir, files, side, files.len(), i);
}

/// A directory that verifies holds the capability set of every record that
/// refers to one, at whatever place the record stands: a side file
/// `caps/<hex>.cbor` whose content hashes to the hash in the record.
pub proof fn verified_directories_hold_their_side_files(
    dir: Seq<char>,
    files: Seq<DirEntry>,
    side: Seq<DirEntry>,
    i: int,
    k: int,
)
    requires
        verified_dir(dir, files, side) is Ok,
        0 <= i < verified_dir(dir, files, side)->Ok_0.len(),
        0 <= k < verified_dir(dir, files, side)->Ok_0[i].1.frames.len(),
        verified_dir(dir, files, side)->Ok_0[i].1.frames[k].record.caps_hash is Some,
    ensures
        ({
            let h = verified_dir(dir, files, side)->Ok_0[i].1.frames[k].record.caps_hash->0;
            exists|j: int|
                0 <= j < side.len() && (#[trigger] side[j]).name@ == "caps/"@ + super::naming::hex(
                    h,
                ) + ".cbor"@ && (side[j].content matches Ok(b) && hash::sha256(b@) == h)
        }),
{
    let report = verified_dir(dir, files, side)->Ok_0[i].1;
    let log = within_dir(dir, files[i].name@);
    let h = report.frames[k].record.caps_hash->0;
    lemma_boundaries(dir, files, side, files.len(), i);
    lemma_reports(dir, files, side, files.len(), i);
    if side_files_fault(dir, log, report.frames, side, k as nat + 1) is Some {
        lemma_side_files_fault(dir, log, report.frames, side, k as nat + 1, report.frames.len());
    }
    lemma_entry_named(side, super::naming::caps_name(h));
}

/// What a fault of a directory says is so: it names a file, or two neighbours,
/// or a record of a file, and what is wrong is wrong there. The files before
/// it are in order.
pub open spec fn fault_is_so(
    dir: Seq<char>,
    files: Seq<DirEntry>,
    side: Seq<DirEntry>,
    i: int,
    fault: VerifyFault,
) -> bool {
    let log = within_dir(dir, files[i].name@);
    &&& 0 <= i < files.len()
    &&& match files[i].content {
        Err(m) => fault == VerifyFault::Io(m@),
        Ok(b) => match verified(b@) {
            Err(f) => fault == f,
            Ok(report) => match fault {
                VerifyFault::BoundaryBreak { prev_file, next_file, expected, found } => {
                    &&& i > 0
                    &&& prev_file == within_dir(dir, files[i - 1].name@)
                    &&& next_file == log
                    &&& files[i - 1].content matches Ok(c)
                    &&& verified(c@) matches Ok(before)
                    &&& expected == super::naming::hex(before.head_hash)
                    &&& found == super::naming::hex(report.header.prev_hash)
                    &&& before.head_hash != report.header.prev_hash
                },
                VerifyFault::MissingCaps { caps_hash, log_file, index, expected_path } => {
                    &&& index < report.frames.len()
                    &&& report.frames[index as int].record.caps_hash matches Some(h)
                    &&& caps_hash == super::naming::hex(h)
                    &&& log_file == log
                    &&& expected_path == within_dir(
                        dir,
                        "caps/"@ + super::naming::hex(h) + ".cbor"@,
                    )
                    &&& forall|j: int|
                        0 <= j < side.len() ==> (#[trigger] side[j]).name@ != "caps/"@
                            + super::naming::hex(h) + ".cbor"@
                },
                VerifyFault::CapsHashMismatch { caps_hash, log_file, index, path, actual } => {
                    &&& index < report.frames.len()
                    &&& report.frames[index as int].record.caps_hash matches Some(h)
                    &&& caps_hash == super::naming::hex(h)
                    &&& log_file == log
                    &&& path == within_dir(dir, "caps/"@ + super::naming::hex(h) + ".cbor"@)
                    &&& exists|j: int|
                        0 <= j < side.len() && (#[trigger] side[j]).name@ == "caps/"@
                            + super::naming::hex(h) + ".cbor"@ && (side[j].content matches Ok(c)
                            && hash::sha256(c@) != h && actual == super::naming::hex(
                            hash::sha256(c@),
                        ))
                },
                VerifyFault::Io(m) => exists|k: int, j: int|
                    0 <= k < report.frames.len() && 0 <= j < side.len() && (
                    #[trigger] report.frames[k]).record.caps_hash is Some && (
                    #[trigger] side[j]).name@ == "caps/"@ + super::naming::hex(
                        report.frames[k].record.caps_hash->0,
                    ) + ".cbor"@ && (side[j].content matches Err(x) && x@ == m),
                _ => false,
            },
        },
    }
}

proof fn lemma_side_fault_is_so(
    dir: Seq<char>,
    files: Seq<DirEntry>,
    side: Seq<DirEntry>,
    i: int,
    n: nat,
)
    requires
        0 <= i < files.len(),
        files[i].content is Ok,
        verified(files[i].content->Ok_0@) is Ok,
        n <= verified(files[i].content->Ok_0@)->Ok_0.frames.len(),
    ensures
        side_files_fault(
            dir,
            within_dir(dir, files[i].name@),
            verified(files[i].content->Ok_0@)->Ok_0.frames,
            side,
            n,
        ) matches Some(f) ==> fault_is_so(dir, files, side, i, f),
    decreases n,
{
    let report = verified(files[i].content->Ok_0@)->Ok_0;
    let log = within_dir(dir, files[i].name@);
    if n > 0 {
        lemma_side_fault_is_so(dir, files, side, i, (n - 1) as nat);
        let k = n - 1;
        match report.frames[k].record.caps_hash {
            Some(h) => {
                let name = super::naming::caps_name(h);
                lemma_entry_named(side, name);
                if entry_named(side, name) is Some {
                    let j = choose|j: int|
                        0 <= j < side.len() && (#[trigger] side[j]).name@ == name && content_of(
                            side[j],
                        ) == entry_named(side, name)->0;
                    assert(side[j].name@ == name);
                    assert(report.frames[k].record.caps_hash is Some);
                }
            },
            None => {},
        }
    }
}

proof fn lemma_fault_is_so(
    dir: Seq<char>,
    files: Seq<DirEntry>,
    side: Seq<DirEntry>,
    n: nat,
)
    requires
        n <= files.len(),
        files_in_dir(dir, files, side, n) is Err,
    ensures
        exists|i: int|
            0 <= i < n && files_in_dir(dir, files, side, i as nat) is Ok && #[trigger] fault_is_so(
                dir,
                files,
                side,
                i,
                files_in_dir(dir, files, side, n)->Err_0,
            ),
    decreases n,
{
    if n > 0 {
        let m = (n - 1) as nat;
        match files_in_dir(dir, files, side, m) {
            Err(f) => {
                lemma_fault_is_so(dir, files, side, m);
                let i = choose|i: int|
                    0 <= i < m && files_in_dir(dir, files, side, i as nat) is Ok
                        && #[trigger] fault_is_so(dir, files, side, i, f);
                assert(fault_is_so(dir, files, side, i, f));
            },
            Ok(done) => {
                let e = files[m as int];
                let f = files_in_dir(dir, files, side, n)->Err_0;
                lemma_boundaries(dir, files, side, m, 0);
                if content_of(e) is Ok && verified(content_of(e)->Ok_0) is Ok {
                    let report = verified(content_of(e)->Ok_0)->Ok_0;
                    lemma_side_fault_is_so(dir, files, side, m as int, report.frames.len());
                    if m > 0 {
                        lemma_reports(dir, files, side, m, m - 1);
                    }
                }
                assert(fault_is_so(dir, files, side, m as int, f));
            },
        }
    }
}

/// A directory that does not verify has no log file, or the fault that is
/// reported names one, and is so there: the fault of that file alone, of the
/// carry-forward from the file before it, or of the side file of one of its
/// records. The files before it verify.
pub proof fn directory_faults_are_so(dir: Seq<char>, files: Seq<DirEntry>, side: Seq<DirEntry>)
    requires
        verified_dir(dir, files, side) is Err,
    ensures
        files.len() == 0 ==> verified_dir(dir, files, side)->Err_0 == VerifyFault::EmptyDir(dir),
        files.len() > 0 ==> exists|i: int|
            #[trigger] fault_is_so(
                dir,
                files,
                side,
                i,
                verified_dir(dir, files, side)->Err_0,
            ) && (i > 0 ==> verified_dir(dir, files.take(i), side) is Ok),
{
    if files.len() > 0 {
        lemma_fault_is_so(dir, files, side, files.len());
        let f = verified_dir(dir, files, side)->Err_0;
        let i = choose|i: int|
            0 <= i < files.len() && files_in_dir(dir, files, side, i as nat) is Ok
                && #[trigger] fault_is_so(dir, files, side, i, f);
        lemma_prefix(dir, files, side, i as nat, i as nat);
        assert(fault_is_so(dir, files, side, i, f));
    }
}

proof fn lemma_prefix(
    dir: Seq<char>,
    files: Seq<DirEntry>,
    side: Seq<DirEntry>,
    n: nat,
    k: nat,
)
    requires
        k <= n <= files.len(),
    ensures
        files_in_dir(dir, files.take(n as int), side, k) == files_in_dir(dir, files, side, k),
    decreases k,
{
    if k > 0 {
        lemma_prefix(dir, files, side, n, (k - 1) as nat);
    }
}

/// A log file that verifies is a chain: the first frame holds the hash in the
/// header, each other frame the hash of the frame before it, and the head hash
/// is that of the last frame.
pub proof fn verified_files_are_chained(b: Seq<u8>)
    requires
        verified(b) is Ok,
    ensures
        ({
            let report = verified(b)->Ok_0;
            let n = report.frames.len() as int;
            &&& forall|j: int, k: int|
                0 <= j && k == j + 1 && k < n ==> (#[trigger] report.frames[k]).prev_hash == (
                #[trigger] report.frames[j]).frame_hash
            &&& n > 0 ==> report.frames[0].prev_hash == report.header.prev_hash
            &&& report.head_hash == if n == 0 {
                report.header.prev_hash
            } else {
                report.frames[n - 1].frame_hash
            }
        }),
{
    let (header, start) = super::header::decoded(b)->Ok_0;
    lemma_chained(b, start, header.prev_hash, 0);
}

proof fn lemma_chained(b: Seq<u8>, offset: nat, expected: Seq<u8>, index: nat)
    requires
        chain_from(b, offset, expected, index) is Ok,
    ensures
        ({
            let (frames, head) = chain_from(b, offset, expected, index)->Ok_0;
            let n = frames.len() as int;
            &&& forall|j: int, k: int|
                0 <= j && k == j + 1 && k < n ==> (#[trigger] frames[k]).prev_hash == (
                #[trigger] frames[j]).frame_hash
            &&& n > 0 ==> frames[0].prev_hash == expected
            &&& head == if n == 0 {
                expected
            } else {
                frames[n - 1].frame_hash
            }
        }),
    decreases b.len() - offset,
{
    if offset < b.len() {
        let (frame, n) = super::frame::decoded(b.skip(offset as int))->Ok_0;
        lemma_chained(b, offset + n, frame.frame_hash, index + 1);
        let (rest, head) = chain_from(b, offset + n, frame.frame_hash, index + 1)->Ok_0;
        let frames = seq![frame] + rest;
        assert forall|j: int, k: int| 0 <= j && k == j + 1 && k < frames.len() implies (
        #[trigger] frames[k]).prev_hash == (#[trigger] frames[j]).frame_hash by {
            assert(frames[k] == rest[k - 1]);
            if j > 0 {
                assert(frames[j] == rest[j - 1]);
            }
        }
    }
}

/// Exactly the entries with the name of a log file are verified, in place.
pub proof fn log_files_are_verified(v: Seq<DirEntry>)
    ensures
        logs(v) == v.filter(
            |e: DirEntry| super::naming::log_name_ulid(encode_utf8(e.name@)) is Some,
        ),
    decreases v.len(),
{
    reveal(Seq::filter);
    if v.len() > 0 {
        log_files_are_verified(v.drop_last());
    }
}

/// A name within a directory has one slash between them, and ends in the name.
pub proof fn names_stand_within_their_directory(dir: Seq<char>, name: Seq<char>)
    ensures
        dir.len() == 0 ==> within_dir(dir, name) == name,
        dir.len() > 0 && dir.last() != '/' ==> within_dir(dir, name) == dir + "/"@ + name,
        within_dir(dir + "/"@, name) == dir + "/"@ + name,
        within_dir(dir, name).skip(within_dir(dir, name).len() - name.len()) == name,
{
    reveal_strlit("/");
    assert((dir + "/"@).last() == '/');
    let w = within_dir(dir, name);
    assert(w.skip(w.len() - name.len()) =~= name);
}

/// Behind `k` frames from an offset the chain breaks as the fault says: there
/// a frame holds another hash than that of the frame before it, or no frame
/// can be read, or too few bytes are left for one.
pub open spec fn break_is_so(
    b: Seq<u8>,
    offset: nat,
    expected: Seq<u8>,
    index: nat,
    k: nat,
    fault: VerifyFault,
) -> bool {
    let p = frame_at(b, offset, k);
    let here = super::frame::decoded(cbor::from(b, p));
    match fault {
        VerifyFault::ChainBreak { index: i, expected: e, found } => {
            &&& i == index + k
            &&& e != found
            &&& here matches Ok((x, _))
            &&& x.prev_hash == found
            &&& k == 0 ==> e == expected
            &&& k > 0 ==> (super::frame::decoded(
                cbor::from(b, frame_at(b, offset, (k - 1) as nat)),
            ) matches Ok((y, _)) && e == y.frame_hash)
        },
        VerifyFault::FrameAt { index: i, source } => {
            &&& i == index + k
            &&& here matches Err(f)
            &&& f == source
            &&& !(f is Truncated)
        },
        VerifyFault::TrailingBytes(n) => {
            &&& p < b.len()
            &&& n == b.len() - p
            &&& n < 4 || here == Err::<(FrameModel, nat), FrameFault>(FrameFault::Truncated)
        },
        _ => false,
    }
}

proof fn lemma_break_is_so(b: Seq<u8>, offset: nat, expected: Seq<u8>, index: nat) -> (k: nat)
    requires
        chain_from(b, offset, expected, index) is Err,
    ensures
        break_is_so(
            b,
            offset,
            expected,
            index,
            k,
            chain_from(b, offset, expected, index)->Err_0,
        ),
    decreases b.len() - offset,
{
    let f = chain_from(b, offset, expected, index)->Err_0;
    let s = b.skip(offset as int);
    assert(cbor::from(b, offset) == s);
    if b.len() - offset < 4 {
        0
    } else {
        match super::frame::decoded(s) {
            Err(_) => 0,
            Ok((frame, n)) => if frame.prev_hash != expected {
                0
            } else {
                let j = lemma_break_is_so(b, offset + n, frame.frame_hash, index + 1);
                assert(frame_at(b, offset, j + 1) == frame_at(b, offset + n, j));
                if j > 0 {
                    assert(frame_at(b, offset, j) == frame_at(b, offset + n, (j - 1) as nat));
                } else {
                    assert(frame_at(b, offset, 0) == offset);
                }
                j + 1
            },
        }
    }
}

/// A file that does not verify has a header that does not read, or the break
/// that is reported is where it says: the record with that index does not
/// follow from the one before it, or does not read, or the file ends within
/// it.
pub proof fn reported_breaks_are_so(b: Seq<u8>) -> (k: nat)
    requires
        verified(b) is Err,
    ensures
        match super::header::decoded(b) {
            Err(h) => verified(b)->Err_0 == VerifyFault::Header(h),
            Ok((header, start)) => break_is_so(
                b,
                start,
                header.prev_hash,
                0,
                k,
                verified(b)->Err_0,
            ),
        },
{
    match super::header::decoded(b) {
        Err(_) => 0,
        Ok((header, start)) => lemma_break_is_so(b, start, header.prev_hash, 0),
    }
}

/// A fault tells a record exactly when it is one of a record: of its frame, of
/// its place in the chain, or of its side file.
pub proof fn faults_of_records_tell_the_record(f: VerifyFault)
    ensures
        f.break_index() is None <==> f is Header || f is TrailingBytes || f is Io || f is EmptyDir
            || f is BoundaryBreak,
        f matches VerifyFault::FrameAt { index, .. } ==> f.break_index() == Some(index),
        f matches VerifyFault::ChainBreak { index, .. } ==> f.break_index() == Some(index),
        f matches VerifyFault::MissingCaps { index, .. } ==> f.break_index() == Some(index),
        f matches VerifyFault::CapsHashMismatch { index, .. } ==> f.break_index() == Some(index),
{
}

/// What each fault says to an operator.
pub proof fn faults_say_what_is_wrong(f: VerifyFault)
    ensures
        f matches VerifyFault::ChainBreak { index, expected, found } ==> f.message()
            == "chain break at record index "@ + text::decimal(index) + ": expected prev_hash "@
            + hex_list(expected) + ", found "@ + hex_list(found),
        f matches VerifyFault::TrailingBytes(n) ==> f.message()
            == "trailing bytes after last frame ("@ + text::decimal(n) + " bytes)"@,
        f matches VerifyFault::EmptyDir(s) ==> f.message() == "no helix-*.log files in "@ + s,
        f matches VerifyFault::FrameAt { index, source } ==> f.message()
            == "frame decode failed at record index "@ + text::decimal(index) + ": "@
            + source.message(),
        f matches VerifyFault::BoundaryBreak { prev_file, next_file, expected, found } ==> f.message()
            == "rotation boundary break between "@ + prev_file + " and "@ + next_file
            + ": expected header prev_hash "@ + expected + ", found "@ + found,
        f matches VerifyFault::MissingCaps { caps_hash, log_file, index, expected_path } ==> f.message()
            == "missing caps side file for hash "@ + caps_hash + " (referenced by "@ + log_file
            + " record "@ + text::decimal(index) + "): expected "@ + expected_path,
        f matches VerifyFault::Io(s) ==> f.message() == "io: "@ + s,
{
}

/// Files are verified in the order of their names, which is that of their
/// ULIDs, and none is left out or added.
pub proof fn files_are_verified_in_order(files: Seq<DirEntry>, of: Seq<DirEntry>)
    requires
        order::is_arrangement(files, of),
    ensures
        files.to_multiset() == of.to_multiset(),
        forall|i: int, j: int|
            0 <= i < j < files.len() ==> (#[trigger] files[i]).name@ == (#[trigger] files[j]).name@
                || order::before(encode_utf8(files[i].name@), encode_utf8(files[j].name@)),
{
    order::arrangements_ascend(files, of);
    assert forall|i: int, j: int| 0 <= i < j < files.len() implies (#[trigger] files[i]).name@ == (
    #[trigger] files[j]).name@ || order::before(
        encode_utf8(files[i].name@),
        encode_utf8(files[j].name@),
    ) by {
        assert(files[i].key() == files[j].key() || order::before(files[i].key(), files[j].key()));
        encode_utf8_decode_utf8(files[i].name@);
        encode_utf8_decode_utf8(files[j].name@);
    }
}

/// A report says its header, its frames in their order and its head hash.
pub proof fn reports_say_what_they_hold(r: VerifyReport, f: Seq<DirFileReport>, i: int)
    ensures
        r@.header == r.header@,
        r@.head_hash == r.head_hash@,
        r@.frames.len() == r.frames@.len(),
        0 <= i < r.frames@.len() ==> r@.frames[i] == r.frames@[i]@,
        dir_models(f).len() == f.len(),
        0 <= i < f.len() ==> dir_models(f)[i] == (f[i].path@, f[i].report@),
{
}

} // verus!
