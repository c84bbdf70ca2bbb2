//! Frame layout: `u32 BE length || CBOR record || 32-byte prev_hash`.
use super::hash;
use super::naming::array32;
use super::record::{AuditRecord, RecordError, RecordFault, RecordModel};
use crate::cbor;
use crate::text;
use vstd::prelude::*;

verus! {

/// Bytes of a hash.
pub const HASH_LEN: usize = 32;

/// Bytes of a frame's length field.
pub const LENGTH_LEN: usize = 4;

/// One on-disk frame (decoded).
#[derive(Clone, Debug, PartialEq, Eq)]
pub struct Frame {
    pub record: AuditRecord,
    /// `prev_hash` stored in this frame (hash of the previous frame's bytes).
    pub prev_hash: [u8; 32],
    /// `sha256(length || record || prev_hash)` of this frame (head after append).
    pub frame_hash: [u8; 32],
}

/// What a [`Frame`] says.
pub ghost struct FrameModel {
    pub record: RecordModel,
    pub prev_hash: Seq<u8>,
    pub frame_hash: Seq<u8>,
}

impl View for Frame {
    type V = FrameModel;

    open spec fn view(&self) -> FrameModel {
        FrameModel {
            record: self.record@,
            prev_hash: self.prev_hash@,
            frame_hash: self.frame_hash@,
        }
    }
}

/// Why a frame could not be made or read.
#[derive(Clone, Debug, PartialEq, Eq)]
pub enum FrameError {
    Record(RecordError),
    Truncated,
    RecordTooLarge(usize),
}

/// A [`FrameError`] with its texts as character sequences.
pub ghost enum FrameFault {
    Record(RecordFault),
    Truncated,
    RecordTooLarge(nat),
}

impl View for FrameError {
    type V = FrameFault;

    open spec fn view(&self) -> FrameFault {
        match *self {
            FrameError::Record(e) => FrameFault::Record(e@),
            FrameError::Truncated => FrameFault::Truncated,
            FrameError::RecordTooLarge(n) => FrameFault::RecordTooLarge(n as nat),
        }
    }
}

impl FrameFault {
    /// The message shown to people.
    pub open spec fn message(self) -> Seq<char> {
        match self {
            FrameFault::Record(f) => f.message(),
            FrameFault::Truncated => "truncated frame"@,
            FrameFault::RecordTooLarge(n) => "record CBOR length "@ + text::decimal(n)
                + " exceeds u32"@,
        }
    }
}

impl FrameError {
    /// The message shown to people.
    pub fn message(&self) -> (r: String)
        ensures
            r@ == self@.message(),
    {
        match self {
            FrameError::Record(e) => e.message(),
            FrameError::Truncated => "truncated frame".to_owned(),
            FrameError::RecordTooLarge(n) => text::join3(
                "record CBOR length ",
                text::decimal_string(*n as u64).as_str(),
                " exceeds u32",
            ),
        }
    }
}

/// The frame of record bytes behind a hash.
pub open spec fn framed(record: Seq<u8>, prev_hash: Seq<u8>) -> Seq<u8> {
    cbor::be(record.len(), 4) + record + prev_hash
}

/// The frame at the start of bytes and its length, or why there is none.
pub open spec fn decoded(b: Seq<u8>) -> Result<(FrameModel, nat), FrameFault> {
    if b.len() < 36 {
        Err(FrameFault::Truncated)
    } else {
        let n = cbor::un_be(b.take(4));
        let total = 4 + n + 32;
        if b.len() < total {
            Err(FrameFault::Truncated)
        } else {
            match super::record::decoded(b.subrange(4, (4 + n) as int)) {
                Ok(record) => Ok(
                    (
                        FrameModel {
                            record,
                            prev_hash: b.subrange((4 + n) as int, total as int),
                            frame_hash: hash::sha256(b.take(total as int)),
                        },
                        total,
                    ),
                ),
                Err(f) => Err(FrameFault::Record(f)),
            }
        }
    }
}

/// Encode a record into a frame using `prev_hash` of the previous frame.
pub fn encode_frame(record: &AuditRecord, prev_hash: &[u8; 32]) -> (r: Result<
    (Vec<u8>, [u8; 32]),
    FrameError,
>)
    ensures
        match r {
            Ok((b, h)) => record@.encoded().len() <= u32::MAX && b@ == framed(
                record@.encoded(),
                prev_hash@,
            ) && h@ == hash::sha256(b@),
            Err(e) => record@.encoded().len() > u32::MAX && e@ == FrameFault::RecordTooLarge(
                record@.encoded().len(),
            ),
        },
{
    let body = match record.encode_cbor() {
        Ok(b) => b,
        Err(e) => {
            return Err(FrameError::Record(e));
        },
    };
    if body.len() > 0xffff_ffff {
        return Err(FrameError::RecordTooLarge(body.len()));
    }
    let len: u32 = body.len() as u32;
    let mut frame = be4(len);
    frame.extend_from_slice(body.as_slice());
    frame.extend_from_slice(prev_hash.as_slice());
    assert(frame@ =~= framed(record@.encoded(), prev_hash@));
    let frame_hash = hash_frame_bytes(frame.as_slice());
    Ok((frame, frame_hash))
}

/// Four bytes, most significant first.
fn be4(n: u32) -> (r: Vec<u8>)
    ensures
        r@ == cbor::be(n as nat, 4),
{
    let mut out: Vec<u8> = Vec::new();
    out.push((n / 0x100_0000) as u8);
    out.push((n / 0x1_0000 % 256) as u8);
    out.push((n / 0x100 % 256) as u8);
    out.push((n % 256) as u8);
    proof {
        reveal_with_fuel(cbor::be, 5);
        assert(out@ =~= cbor::be(n as nat, 4));
    }
    out
}

/// Hash covering framing: `sha256(length || record || prev_hash)`.
#[must_use]
pub fn hash_frame_bytes(frame: &[u8]) -> (r: [u8; 32])
    ensures
        r@ == hash::sha256(frame@),
{
    hash::digest(frame)
}

/// Decode one frame starting at `buf[0]`. Returns `(frame, bytes_consumed)`.
pub fn decode_frame(buf: &[u8]) -> (r: Result<(Frame, usize), FrameError>)
    ensures
        match (r, decoded(buf@)) {
            (Ok((x, used)), Ok((m, n))) => x@ == m && used == n && 0 < used <= buf@.len(),
            (Err(e), Err(f)) => e@ == f,
            _ => false,
        },
{
    if buf.len() < LENGTH_LEN + HASH_LEN {
        return Err(FrameError::Truncated);
    }
    let record_len: u64 = buf[0] as u64 * 0x100_0000 + buf[1] as u64 * 0x1_0000 + buf[2] as u64
        * 0x100 + buf[3] as u64;
    proof {
        let s = buf@.take(4);
        reveal_with_fuel(cbor::un_be, 5);
        assert(s.drop_last().drop_last().drop_last().drop_last() =~= Seq::<u8>::empty());
        assert(record_len == cbor::un_be(s));
    }
    if (buf.len() as u64) < 36 + record_len {
        return Err(FrameError::Truncated);
    }
    let n: usize = record_len as usize;
    let total: usize = LENGTH_LEN + n + HASH_LEN;
    let record_bytes = vstd::slice::slice_subrange(buf, LENGTH_LEN, LENGTH_LEN + n);
    let prev_hash = array32(vstd::slice::slice_subrange(buf, LENGTH_LEN + n, total));
    let record = match AuditRecord::decode_cbor(record_bytes) {
        Ok(v) => v,
        Err(e) => {
            return Err(FrameError::Record(e));
        },
    };
    let whole = vstd::slice::slice_subrange(buf, 0, total);
    assert(whole@ =~= buf@.take(total as int));
    let frame_hash = hash_frame_bytes(whole);
    Ok((Frame { record, prev_hash, frame_hash }, total))
}

/// A frame reads back from its bytes, whatever follows it.
pub proof fn frame_round_trip(m: RecordModel, prev_hash: Seq<u8>, rest: Seq<u8>)
    requires
        m.sized(),
        m.version <= super::tags::RECORD_VERSION,
        vstd::utf8::encode_utf8(m.reason).len() <= super::tags::REASON_MAX_BYTES,
        m.encoded().len() <= u32::MAX,
        prev_hash.len() == 32,
    ensures
        decoded(framed(m.encoded(), prev_hash) + rest) == Ok::<(FrameModel, nat), FrameFault>(
            (
                FrameModel {
                    record: m,
                    prev_hash,
                    frame_hash: hash::sha256(framed(m.encoded(), prev_hash)),
                },
                framed(m.encoded(), prev_hash).len(),
            ),
        ),
{
    let e = m.encoded();
    let f = framed(e, prev_hash);
    let b = f + rest;
    reveal_with_fuel(cbor::pow256, 5);
    cbor::lemma_be(e.len(), 4);
    assert(b.take(4) =~= cbor::be(e.len(), 4));
    assert(b.subrange(4, 4 + e.len() as int) =~= e);
    assert(b.subrange(4 + e.len() as int, 4 + e.len() as int + 32) =~= prev_hash);
    assert(b.take(f.len() as int) =~= f);
    super::record::record_round_trip(m, Seq::empty());
    assert(e + Seq::<u8>::empty() =~= e);
}

/// Frames of the same bytes are the same, whatever follows them.
pub proof fn lemma_decoded_bytes(s: Seq<u8>, t: Seq<u8>)
    requires
        decoded(s) is Ok,
        decoded(t) is Ok,
        s.take(decoded(s)->Ok_0.1 as int) == t.take(decoded(t)->Ok_0.1 as int),
    ensures
        decoded(s)->Ok_0 == decoded(t)->Ok_0,
{
    let m = decoded(s)->Ok_0.1 as int;
    let n = decoded(t)->Ok_0.1 as int;
    let u = s.take(m);
    assert(u.len() == m && t.take(n).len() == n);
    assert(s.take(4) =~= u.take(4));
    assert(t.take(4) =~= u.take(4));
    assert(s.subrange(4, m - 32) =~= u.subrange(4, m - 32));
    assert(t.subrange(4, m - 32) =~= u.subrange(4, m - 32));
    assert(s.subrange(m - 32, m) =~= u.subrange(m - 32, m));
    assert(t.subrange(m - 32, m) =~= u.subrange(m - 32, m));
}

/// A frame is the length of the record in four bytes, the record and the hash
/// of the frame before it, in that order.
pub proof fn frames_have_three_parts(record: Seq<u8>, prev_hash: Seq<u8>)
    requires
        record.len() <= u32::MAX,
        prev_hash.len() == 32,
    ensures
        ({
            let f = framed(record, prev_hash);
            let n = record.len() as int;
            &&& f.len() == 4 + n + 32
            &&& f[0] * 0x100_0000 + f[1] * 0x1_0000 + f[2] * 0x100 + f[3] == n
            &&& f.subrange(4, 4 + n) == record
            &&& f.subrange(4 + n, 4 + n + 32) == prev_hash
        }),
{
    let f = framed(record, prev_hash);
    let n = record.len();
    reveal_with_fuel(cbor::pow256, 5);
    cbor::lemma_be(n, 4);
    let s = cbor::be(n, 4);
    reveal_with_fuel(cbor::un_be, 5);
    assert(s.drop_last().drop_last().drop_last().drop_last() =~= Seq::<u8>::empty());
    assert(f[0] == s[0] && f[1] == s[1] && f[2] == s[2] && f[3] == s[3]);
    assert(f.subrange(4, 4 + n as int) =~= record);
    assert(f.subrange(4 + n as int, 4 + n as int + 32) =~= prev_hash);
}

/// A frame that is read is whole: its record is what its middle reads as, its
/// previous hash is its end, its own hash covers all of it, and it takes as
/// many bytes as its length says.
pub proof fn read_frames_are_whole(b: Seq<u8>)
    requires
        decoded(b) is Ok,
    ensures
        ({
            let (f, total) = decoded(b)->Ok_0;
            let n = b[0] * 0x100_0000 + b[1] * 0x1_0000 + b[2] * 0x100 + b[3];
            &&& total == 4 + n + 32
            &&& total <= b.len()
            &&& super::record::decoded(b.subrange(4, 4 + n)) == Ok::<
                RecordModel,
                super::record::RecordFault,
            >(f.record)
            &&& f.prev_hash == b.subrange(4 + n, 4 + n + 32)
            &&& f.frame_hash == hash::sha256(b.subrange(0, total as int))
        }),
{
    let s = b.take(4);
    reveal_with_fuel(cbor::un_be, 5);
    assert(s.drop_last().drop_last().drop_last().drop_last() =~= Seq::<u8>::empty());
    assert(s[0] == b[0] && s[1] == b[1] && s[2] == b[2] && s[3] == b[3]);
    let total = decoded(b)->Ok_0.1;
    assert(b.take(total as int) =~= b.subrange(0, total as int));
}

/// A frame says its record and its hashes.
pub proof fn frames_say_their_fields(f: Frame)
    ensures
        f@.record == f.record@,
        f@.prev_hash == f.prev_hash@,
        f@.frame_hash == f.frame_hash@,
{
}

} // verus!
