//! Group-commit audit writer: what is written, synced and answered.
//!
//! A batch of requests becomes one run of frames. Once those bytes are written
//! and synced, each waiting request gets a receipt.
use super::frame::{encode_frame, FrameError, FrameFault};
use super::header::{FileHeader, HeaderError, HeaderFault, HeaderModel};
use super::record::{AuditRecord, RecordModel};
use super::tags::{GENESIS_PREV_HASH, HEADER_VERSION};
use super::verify;
use super::verify::{ReportModel, VerifyFault};
use crate::text;
use vstd::prelude::*;
use vstd::utf8::*;

verus! {

/// Receipt after a synced write.
#[derive(Clone, Copy, Debug, PartialEq, Eq, Structural)]
pub struct WriteReceipt {
    pub sequence: u64,
    /// Number of the sync that covered this record, from 1.
    pub sync_stamp: u64,
}

/// Why writing failed.
#[derive(Clone, Debug, PartialEq, Eq)]
pub enum WriterError {
    Io(String),
    Frame(FrameError),
    Header(HeaderError),
    ChannelClosed,
    MissingReceipt,
    Join(String),
}

/// A [`WriterError`] with its texts as character sequences.
pub ghost enum WriterFault {
    Io(Seq<char>),
    Frame(FrameFault),
    Header(HeaderFault),
    ChannelClosed,
    MissingReceipt,
    Join(Seq<char>),
}

impl View for WriterError {
    type V = WriterFault;

    open spec fn view(&self) -> WriterFault {
        match *self {
            WriterError::Io(s) => WriterFault::Io(s@),
            WriterError::Frame(e) => WriterFault::Frame(e@),
            WriterError::Header(e) => WriterFault::Header(e@),
            WriterError::ChannelClosed => WriterFault::ChannelClosed,
            WriterError::MissingReceipt => WriterFault::MissingReceipt,
            WriterError::Join(s) => WriterFault::Join(s@),
        }
    }
}

impl WriterFault {
    /// The message shown to people.
    pub open spec fn message(self) -> Seq<char> {
        match self {
            WriterFault::Io(s) => "io: "@ + s,
            WriterFault::Frame(f) => f.message(),
            WriterFault::Header(f) => f.message(),
            WriterFault::ChannelClosed => "audit writer channel closed"@,
            WriterFault::MissingReceipt => "expected sync receipt"@,
            WriterFault::Join(s) => "writer task join: "@ + s,
        }
    }
}

impl WriterError {
    /// The message shown to people.
    pub fn message(&self) -> (r: String)
        ensures
            r@ == self@.message(),
    {
        match self {
            WriterError::Io(s) => text::join("io: ", s.as_str()),
            WriterError::Frame(e) => e.message(),
            WriterError::Header(e) => e.message(),
            WriterError::ChannelClosed => "audit writer channel closed".to_owned(),
            WriterError::MissingReceipt => "expected sync receipt".to_owned(),
            WriterError::Join(s) => text::join("writer task join: ", s.as_str()),
        }
    }
}

/// A record to write and whether its sender waits for a sync. The writer
/// assigns the record's sequence.
#[derive(Debug)]
pub struct WriteReq {
    pub record: AuditRecord,
    pub wait: bool,
}

impl WriteReq {
    /// A request; any sequence of the caller's is cleared.
    #[must_use]
    pub fn new(record: AuditRecord, wait: bool) -> (r: WriteReq)
        ensures
            r.record@ == (RecordModel { sequence: 0, ..record@ }),
            r.wait == wait,
    {
        let mut record = record;
        record.sequence = 0;
        WriteReq { record, wait }
    }
}

/// The records of requests.
pub open spec fn records_of(reqs: Seq<WriteReq>) -> Seq<RecordModel> {
    Seq::new(reqs.len(), |i: int| reqs[i].record@)
}

/// The sequence `i` places after `first`; it stops at the largest number.
pub open spec fn sequence_at(first: u64, i: nat) -> u64 {
    if first + i > u64::MAX {
        u64::MAX
    } else {
        (first + i) as u64
    }
}

/// Records with their sequences assigned in order.
pub open spec fn sequenced(records: Seq<RecordModel>, first: u64) -> Seq<RecordModel> {
    Seq::new(
        records.len(),
        |i: int| RecordModel { sequence: sequence_at(first, i as nat), ..records[i] },
    )
}

/// The sequences of the requests whose senders wait.
pub open spec fn waiting(reqs: Seq<WriteReq>, first: u64) -> Seq<u64>
    decreases reqs.len(),
{
    if reqs.len() == 0 {
        Seq::empty()
    } else {
        let before = waiting(reqs.drop_last(), first);
        if reqs.last().wait {
            before.push(sequence_at(first, (reqs.len() - 1) as nat))
        } else {
            before
        }
    }
}

/// Every record fits in a frame.
pub open spec fn all_fit(records: Seq<RecordModel>) -> bool {
    forall|i: int| 0 <= i < records.len() ==> (#[trigger] records[i]).encoded().len() <= u32::MAX
}

/// The `k`th record is the first that does not fit in a frame.
pub open spec fn first_unfit(records: Seq<RecordModel>, k: int) -> bool {
    &&& 0 <= k < records.len()
    &&& records[k].encoded().len() > u32::MAX
    &&& all_fit(records.take(k))
}

/// A batch framed for writing.
#[derive(Debug, PartialEq, Eq)]
pub struct Batch {
    /// The bytes to write.
    pub framed: Vec<u8>,
    /// The highest sequence in the batch.
    pub head_sequence: u64,
    /// The number of records.
    pub len: usize,
    /// The sequences whose senders wait, in order.
    pub waiters: Vec<u64>,
}

/// What the writer carries from batch to batch.
#[derive(Debug, PartialEq, Eq)]
pub struct LogWriter {
    prev_hash: [u8; 32],
    next_sequence: u64,
    syncs: u64,
}

/// What a [`LogWriter`] carries.
pub ghost struct WriterModel {
    /// The hash of the last frame.
    pub prev_hash: Seq<u8>,
    /// The sequence of the next record.
    pub next_sequence: u64,
    /// Completed syncs.
    pub syncs: u64,
}

impl View for LogWriter {
    type V = WriterModel;

    closed spec fn view(&self) -> WriterModel {
        WriterModel {
            prev_hash: self.prev_hash@,
            next_sequence: self.next_sequence,
            syncs: self.syncs,
        }
    }
}

impl LogWriter {
    /// A writer for a new file, with the header to write first.
    pub fn open(gateway_id: String, file_ulid: [u8; 16], prev_hash: [u8; 32]) -> (r: Result<
        (Vec<u8>, LogWriter),
        WriterError,
    >)
        ensures
            r matches Ok((header, w)) && header@ == (HeaderModel {
                version: HEADER_VERSION,
                file_ulid: file_ulid@,
                gateway_id: gateway_id@,
                prev_hash: prev_hash@,
            }).encoded() && w@ == (WriterModel {
                prev_hash: prev_hash@,
                next_sequence: 0,
                syncs: 0,
            }),
    {
        let header = FileHeader::new(file_ulid, gateway_id, prev_hash);
        match header.encode_cbor() {
            Ok(bytes) => Ok((bytes, LogWriter { prev_hash, next_sequence: 0, syncs: 0 })),
            Err(e) => Err(WriterError::Header(e)),
        }
    }

    /// A writer for the first file of a log: its previous hash is all zeros.
    pub fn open_genesis(gateway_id: String, file_ulid: [u8; 16]) -> (r: Result<
        (Vec<u8>, LogWriter),
        WriterError,
    >)
        ensures
            r matches Ok((header, w)) && header@ == (HeaderModel {
                version: HEADER_VERSION,
                file_ulid: file_ulid@,
                gateway_id: gateway_id@,
                prev_hash: Seq::new(32, |i: int| 0u8),
            }).encoded() && w@ == (WriterModel {
                prev_hash: Seq::new(32, |i: int| 0u8),
                next_sequence: 0,
                syncs: 0,
            }),
    {
        assert(GENESIS_PREV_HASH@ =~= Seq::new(32, |i: int| 0u8));
        LogWriter::open(gateway_id, file_ulid, GENESIS_PREV_HASH)
    }

    /// Frames a batch behind what was written before. On failure the writer is
    /// as it was.
    pub fn frame_batch(&mut self, batch: Vec<WriteReq>) -> (r: Result<Batch, WriterError>)
        ensures
            ({
                let from = old(self)@;
                let records = sequenced(records_of(batch@), from.next_sequence);
                match r {
                    Ok(b) => {
                        &&& all_fit(records)
                        &&& b.framed@ == verify::chain_bytes(records, from.prev_hash)
                        &&& b.head_sequence == (if records.len() == 0 {
                            from.next_sequence
                        } else {
                            records.last().sequence
                        })
                        &&& b.len == records.len()
                        &&& b.waiters@ == waiting(batch@, from.next_sequence)
                        &&& final(self)@ == (WriterModel {
                            prev_hash: verify::chain_head(records, from.prev_hash),
                            next_sequence: sequence_at(from.next_sequence, records.len()),
                            syncs: from.syncs,
                        })
                    },
                    Err(e) => {
                        &&& exists|k: int| #[trigger]
                            first_unfit(records, k) && e@ == WriterFault::Frame(
                                FrameFault::RecordTooLarge(records[k].encoded().len()),
                            )
                        &&& final(self)@ == from
                    },
                }
            }),
    {
        let mut reqs = batch;
        let len: usize = reqs.len();
        let mut framed: Vec<u8> = Vec::new();
        let mut waiters: Vec<u64> = Vec::new();
        let mut prev_hash = self.prev_hash;
        let mut next_sequence: u64 = self.next_sequence;
        let mut head_sequence: u64 = self.next_sequence;
        let ghost from = self@;
        let ghost records = sequenced(records_of(batch@), from.next_sequence);
        let mut i: usize = 0;
        proof {
            assert(records.take(0) =~= Seq::empty());
            assert(batch@.take(0) =~= Seq::empty());
        }
        while i < len
            invariant
                0 <= i <= len,
                len == batch@.len(),
                reqs@.len() == len,
                forall|j: int| i <= j < len ==> #[trigger] reqs@[j] == batch@[j],
                from == self@,
                *self == *old(self),
                records == sequenced(records_of(batch@), from.next_sequence),
                all_fit(records.take(i as int)),
                framed@ == verify::chain_bytes(records.take(i as int), from.prev_hash),
                prev_hash@ == verify::chain_head(records.take(i as int), from.prev_hash),
                next_sequence == sequence_at(from.next_sequence, i as nat),
                head_sequence == (if i == 0 {
                    from.next_sequence
                } else {
                    sequence_at(from.next_sequence, (i - 1) as nat)
                }),
                waiters@ == waiting(batch@.take(i as int), from.next_sequence),
            decreases len - i,
        {
            let sequence: u64 = next_sequence;
            reqs[i].record.sequence = sequence;
            head_sequence = sequence;
            next_sequence = next_sequence.saturating_add(1);
            let ghost m = records[i as int];
            assert(reqs@[i as int].record@ == m);
            let (bytes, frame_hash): (Vec<u8>, [u8; 32]) = match encode_frame(
                &reqs[i].record,
                &prev_hash,
            ) {
                Ok(v) => v,
                Err(e) => {
                    assert(first_unfit(records, i as int));
                    return Err(WriterError::Frame(e));
                },
            };
            framed.extend_from_slice(bytes.as_slice());
            proof {
                let done = records.take(i as int);
                assert(records.take(i as int + 1) =~= done + seq![m]);
                verify::chain_concat(done, seq![m], from.prev_hash);
                verify::lemma_chain_one(m, prev_hash@);
                assert(batch@.take(i as int + 1).drop_last() =~= batch@.take(i as int));
                assert forall|j: int| 0 <= j < records.take(i as int + 1).len() implies (
                #[trigger] records.take(i as int + 1)[j]).encoded().len() <= u32::MAX by {
                    if j < i {
                        assert(records.take(i as int + 1)[j] == done[j]);
                    }
                }
            }
            prev_hash = frame_hash;
            if reqs[i].wait {
                waiters.push(sequence);
            }
            i += 1;
        }
        proof {
            assert(records.take(len as int) =~= records);
            assert(batch@.take(len as int) =~= batch@);
        }
        self.prev_hash = prev_hash;
        self.next_sequence = next_sequence;
        Ok(Batch { framed, head_sequence, len, waiters })
    }

    /// The hash of the last frame, for the header of the file that carries on.
    #[must_use]
    pub fn head_hash(&self) -> (r: [u8; 32])
        ensures
            r@ == self@.prev_hash,
    {
        self.prev_hash
    }

    /// Answers a batch that was written and synced: one receipt for each
    /// waiting sender, all with the number of this sync.
    pub fn synced(&mut self, batch: &Batch) -> (r: Vec<WriteReceipt>)
        requires
            old(self)@.syncs < u64::MAX,
        ensures
            final(self)@ == (WriterModel { syncs: (old(self)@.syncs + 1) as u64, ..old(self)@ }),
            r@ == receipts(batch.waiters@, (old(self)@.syncs + 1) as u64),
    {
        self.syncs = self.syncs + 1;
        let mut out: Vec<WriteReceipt> = Vec::new();
        let mut i: usize = 0;
        while i < batch.waiters.len()
            invariant
                0 <= i <= batch.waiters@.len(),
                out@ == receipts(batch.waiters@.take(i as int), self.syncs),
            decreases batch.waiters@.len() - i,
        {
            out.push(WriteReceipt { sequence: batch.waiters[i], sync_stamp: self.syncs });
            assert(out@ =~= receipts(batch.waiters@.take(i as int + 1), self.syncs));
            i += 1;
        }
        assert(batch.waiters@.take(i as int) =~= batch.waiters@);
        out
    }
}

/// A receipt for each sequence, all with one stamp.
pub open spec fn receipts(sequences: Seq<u64>, sync_stamp: u64) -> Seq<WriteReceipt> {
    Seq::new(sequences.len(), |i: int| WriteReceipt { sequence: sequences[i], sync_stamp })
}

/// The bytes of batches written one behind the other.
pub open spec fn written(batches: Seq<Seq<RecordModel>>, prev_hash: Seq<u8>, first: u64) -> Seq<
    u8,
>
    decreases batches.len(),
{
    if batches.len() == 0 {
        Seq::empty()
    } else {
        let records = sequenced(batches[0], first);
        verify::chain_bytes(records, prev_hash) + written(
            batches.skip(1),
            verify::chain_head(records, prev_hash),
            sequence_at(first, records.len()),
        )
    }
}

/// The records of batches in order.
pub open spec fn joined(batches: Seq<Seq<RecordModel>>) -> Seq<RecordModel>
    decreases batches.len(),
{
    if batches.len() == 0 {
        Seq::empty()
    } else {
        batches[0] + joined(batches.skip(1))
    }
}

proof fn lemma_written(batches: Seq<Seq<RecordModel>>, prev_hash: Seq<u8>, first: u64)
    ensures
        written(batches, prev_hash, first) == verify::chain_bytes(
            sequenced(joined(batches), first),
            prev_hash,
        ),
    decreases batches.len(),
{
    if batches.len() > 0 {
        let a = sequenced(batches[0], first);
        let rest = joined(batches.skip(1));
        let next = sequence_at(first, a.len());
        let h = verify::chain_head(a, prev_hash);
        lemma_written(batches.skip(1), h, next);
        let c = sequenced(rest, next);
        assert(sequenced(joined(batches), first) =~= a + c);
        verify::chain_concat(a, c, prev_hash);
    }
}

/// A file that the writer made verifies, however its records were batched:
/// it holds exactly the records written, numbered from 0 without a gap.
pub proof fn written_batches_verify(header: HeaderModel, batches: Seq<Seq<RecordModel>>)
    requires
        header.sized(),
        header.version <= HEADER_VERSION,
        encode_utf8(header.gateway_id).len() <= u64::MAX,
        forall|i: int|
            0 <= i < sequenced(joined(batches), 0).len() ==> verify::writable(
                #[trigger] sequenced(joined(batches), 0)[i],
            ),
    ensures
        ({
            let records = sequenced(joined(batches), 0);
            &&& verify::verified(header.encoded() + written(batches, header.prev_hash, 0)) == Ok::<
                ReportModel,
                VerifyFault,
            >(
                ReportModel {
                    header,
                    frames: verify::chain_frames(records, header.prev_hash),
                    head_hash: verify::chain_head(records, header.prev_hash),
                },
            )
            &&& forall|i: int|
                0 <= i < records.len() && i <= u64::MAX ==> (#[trigger] records[i]).sequence == i
        }),
{
    lemma_written(batches, header.prev_hash, 0);
    verify::written_file_verifies(header, sequenced(joined(batches), 0));
}

/// Records get the sequences that follow the last one written, one each, and
/// are otherwise written as they are.
pub proof fn sequences_count_up(records: Seq<RecordModel>, first: u64, i: int)
    requires
        0 <= i < records.len(),
        first + records.len() <= u64::MAX,
    ensures
        ({
            let out = sequenced(records, first);
            let m = records[i];
            &&& out.len() == records.len()
            &&& out[i].sequence == first + i
            &&& out[i] == (RecordModel { sequence: out[i].sequence, ..m })
            &&& sequence_at(first, records.len()) == first + records.len()
        }),
{
}

/// The sequence of a record that was handed in is not taken over: records that
/// differ in nothing else are written alike.
pub proof fn callers_choose_no_sequence(a: RecordModel, b: RecordModel, first: u64)
    requires
        a == (RecordModel { sequence: a.sequence, ..b }),
    ensures
        sequenced(seq![a], first) == sequenced(seq![b], first),
{
    assert(sequenced(seq![a], first) =~= sequenced(seq![b], first));
}

/// A sender that waits is answered with the sequence of its record, and nobody
/// else is answered. Every answer carries the number of the sync.
pub proof fn waiting_senders_are_answered(reqs: Seq<WriteReq>, first: u64, stamp: u64, s: u64)
    requires
        first + reqs.len() <= u64::MAX,
    ensures
        receipts(waiting(reqs, first), stamp).contains(
            (WriteReceipt { sequence: s, sync_stamp: stamp }),
        ) <==> exists|i: int|
            0 <= i < reqs.len() && (#[trigger] reqs[i]).wait && s == first + i,
        forall|k: int|
            0 <= k < receipts(waiting(reqs, first), stamp).len() ==> (#[trigger] receipts(
                waiting(reqs, first),
                stamp,
            )[k]).sync_stamp == stamp,
{
    let w = waiting(reqs, first);
    let r = receipts(w, stamp);
    lemma_waiting(reqs, first, s);
    let x = WriteReceipt { sequence: s, sync_stamp: stamp };
    if w.contains(s) {
        let k = choose|k: int| 0 <= k < w.len() && w[k] == s;
        assert(r[k] == x);
    }
    if r.contains(x) {
        let k = choose|k: int| 0 <= k < r.len() && r[k] == x;
        assert(w[k] == s);
    }
}

proof fn lemma_waiting(reqs: Seq<WriteReq>, first: u64, s: u64)
    requires
        first + reqs.len() <= u64::MAX,
    ensures
        waiting(reqs, first).contains(s) <==> exists|i: int|
            0 <= i < reqs.len() && (#[trigger] reqs[i]).wait && s == first + i,
    decreases reqs.len(),
{
    if reqs.len() > 0 {
        let front = reqs.drop_last();
        let before = waiting(front, first);
        let n = reqs.len() - 1;
        let last = sequence_at(first, n as nat);
        lemma_waiting(front, first, s);
        if before.contains(s) {
            let i = choose|i: int| 0 <= i < front.len() && (#[trigger] front[i]).wait && s == first + i;
            assert(reqs[i].wait);
            let k = choose|k: int| 0 <= k < before.len() && before[k] == s;
            assert(before.push(last)[k] == s);
        }
        assert(before.push(last)[before.len() as int] == last);
        if before.push(last).contains(s) && s != last {
            let k = choose|k: int| 0 <= k < before.push(last).len() && before.push(last)[k] == s;
            assert(before[k] == s);
        }
        if exists|i: int| 0 <= i < reqs.len() && (#[trigger] reqs[i]).wait && s == first + i {
            let i = choose|i: int| 0 <= i < reqs.len() && (#[trigger] reqs[i]).wait && s == first + i;
            if i < n {
                assert(front[i].wait);
            }
        }
    }
}

/// The answers come in the order of the records.
pub proof fn answers_come_in_order(reqs: Seq<WriteReq>, first: u64)
    requires
        first + reqs.len() <= u64::MAX,
    ensures
        forall|j: int, k: int|
            0 <= j < k < waiting(reqs, first).len() ==> #[trigger] waiting(reqs, first)[j]
                < #[trigger] waiting(reqs, first)[k],
        forall|k: int|
            0 <= k < waiting(reqs, first).len() ==> #[trigger] waiting(reqs, first)[k] < first
                + reqs.len(),
    decreases reqs.len(),
{
    if reqs.len() > 0 {
        answers_come_in_order(reqs.drop_last(), first);
        let before = waiting(reqs.drop_last(), first);
        let all = waiting(reqs, first);
        assert forall|k: int| 0 <= k < all.len() implies #[trigger] all[k] < first
            + reqs.len() by {
            if k < before.len() {
                assert(all[k] == before[k]);
            }
        }
        assert forall|j: int, k: int| 0 <= j < k < all.len() implies #[trigger] all[j]
            < #[trigger] all[k] by {
            assert(all[j] == before[j]);
            if k < before.len() {
                assert(all[k] == before[k]);
            }
        }
    }
}

/// A batch is written as it was handed in: record by record, in its order.
pub proof fn batches_keep_their_order(reqs: Seq<WriteReq>, i: int)
    requires
        0 <= i < reqs.len(),
    ensures
        records_of(reqs).len() == reqs.len(),
        records_of(reqs)[i] == reqs[i].record@,
{
}

/// Records fit in a frame as long as their length fits in four bytes; the
/// first that does not is the one reported.
pub proof fn the_first_oversized_record_is_reported(records: Seq<RecordModel>, k: int)
    requires
        first_unfit(records, k),
    ensures
        0 <= k < records.len(),
        records[k].encoded().len() > 0xffff_ffff,
        forall|j: int| 0 <= j < k ==> (#[trigger] records[j]).encoded().len() <= 0xffff_ffff,
        !all_fit(records),
{
    assert forall|j: int| 0 <= j < k implies (#[trigger] records[j]).encoded().len()
        <= 0xffff_ffff by {
        assert(records.take(k)[j] == records[j]);
    }
}

} // verus!
