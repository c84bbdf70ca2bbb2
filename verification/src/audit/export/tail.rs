//! Following log files as they grow.
use super::group::OpenInvocations;
use super::{ExportError, ExportFault, ExportMetrics, ExportedInvocation, InvocationModel};
use crate::audit::frame::{decode_frame, Frame, FrameError, FrameFault};
use crate::audit::header::FileHeader;
use crate::audit::naming::parse_log_file_name;
use crate::audit::record::RecordModel;
use crate::order;
use crate::text;
use vstd::prelude::*;
use vstd::utf8::*;

verus! {

/// The records of whole frames from an offset on, the offset behind them, and
/// the fault that stopped the reading, if any. A frame that is not all there
/// yet is left for later.
pub open spec fn tail(b: Seq<u8>, offset: nat) -> (Seq<RecordModel>, nat, Option<FrameFault>)
    decreases b.len() - offset,
{
    if offset >= b.len() {
        (Seq::empty(), offset, None)
    } else {
        match crate::audit::frame::decoded(b.skip(offset as int)) {
            Ok((frame, n)) => {
                let (records, end, fault) = tail(b, offset + n);
                (seq![frame.record] + records, end, fault)
            },
            Err(FrameFault::Truncated) => (Seq::empty(), offset, None),
            Err(f) => (Seq::empty(), offset, Some(f)),
        }
    }
}

/// Where reading goes on.
pub ghost struct CursorModel {
    pub path: Seq<char>,
    pub offset: u64,
    pub header_done: bool,
}

impl CursorModel {
    /// Where frames start in the bytes now there; `None` while there is no
    /// whole header. A file that has shrunk is read anew.
    pub open spec fn start(self, b: Seq<u8>) -> Option<nat> {
        if self.header_done && self.offset <= b.len() {
            Some(self.offset as nat)
        } else {
            match crate::audit::header::decoded(b) {
                Ok((_, n)) => Some(n),
                Err(_) => None,
            }
        }
    }

    /// The cursor after reading the bytes now there.
    pub open spec fn after(self, b: Seq<u8>) -> CursorModel {
        if b.len() == 0 {
            self
        } else {
            match self.start(b) {
                None => CursorModel { header_done: false, ..self },
                Some(at) => {
                    let (_, end, fault) = tail(b, at);
                    CursorModel {
                        offset: if fault is None {
                            end as u64
                        } else {
                            self.offset
                        },
                        header_done: true,
                        ..self
                    }
                },
            }
        }
    }

    /// The records among the bytes now there, and the fault behind them.
    pub open spec fn new_records(self, b: Seq<u8>) -> (Seq<RecordModel>, Option<FrameFault>) {
        if b.len() == 0 || self.start(b) is None {
            (Seq::empty(), None)
        } else {
            let (records, _, fault) = tail(b, self.start(b)->0);
            (records, fault)
        }
    }
}

/// A log file and how far it has been read.
#[derive(Debug, PartialEq, Eq)]
pub struct FileCursor {
    path: String,
    offset: u64,
    header_done: bool,
}

impl View for FileCursor {
    type V = CursorModel;

    closed spec fn view(&self) -> CursorModel {
        CursorModel {
            path: self.path@,
            offset: self.offset,
            header_done: self.header_done,
        }
    }
}

/// The open requests after records, starting from some.
pub open spec fn opened_after(
    open: Map<Seq<u8>, super::group::OpenModel>,
    records: Seq<RecordModel>,
) -> Map<Seq<u8>, super::group::OpenModel>
    decreases records.len(),
{
    if records.len() == 0 {
        open
    } else {
        super::group::handled(opened_after(open, records.drop_last()), records.last()).0
    }
}

/// The spans that records end, starting from some open requests.
pub open spec fn spans_after(
    open: Map<Seq<u8>, super::group::OpenModel>,
    records: Seq<RecordModel>,
) -> Seq<InvocationModel>
    decreases records.len(),
{
    if records.len() == 0 {
        Seq::empty()
    } else {
        let before = spans_after(open, records.drop_last());
        match super::group::handled(
            opened_after(open, records.drop_last()),
            records.last(),
        ).1 {
            Some(s) => before.push(s),
            None => before,
        }
    }
}

/// What spans with their counts say.
pub open spec fn span_models(v: Seq<(ExportedInvocation, u64)>) -> Seq<InvocationModel> {
    Seq::new(v.len(), |i: int| v[i].0@)
}

/// Each span comes with the number of its events.
pub open spec fn counted(v: Seq<(ExportedInvocation, u64)>) -> bool {
    forall|i: int| 0 <= i < v.len() ==> (#[trigger] v[i]).1 == v[i].0.events@.len()
}

proof fn lemma_tail_end(b: Seq<u8>, offset: nat)
    requires
        offset <= b.len(),
    ensures
        tail(b, offset).1 <= b.len(),
    decreases b.len() - offset,
{
    if offset < b.len() {
        if let Ok((frame, n)) = crate::audit::frame::decoded(b.skip(offset as int)) {
            lemma_tail_end(b, offset + n);
        }
    }
}

impl FileCursor {
    /// A cursor at the start of a file.
    #[must_use]
    pub fn open(path: String) -> (r: FileCursor)
        ensures
            r@ == (CursorModel { path: path@, offset: 0, header_done: false }),
    {
        FileCursor { path, offset: 0, header_done: false }
    }

    /// The file.
    #[must_use]
    pub fn path(&self) -> (r: &str)
        ensures
            r@ == self@.path,
    {
        self.path.as_str()
    }

    /// How far the file has been read.
    #[must_use]
    pub fn offset(&self) -> (r: u64)
        ensures
            r == self@.offset,
    {
        self.offset
    }

    /// Reads what has been appended to a file that now holds `bytes`. Spans
    /// that end are added to `out` with the number of their events. Tells
    /// whether any frame was read.
    pub fn read_available(
        &mut self,
        bytes: &[u8],
        open: &mut OpenInvocations,
        metrics: &mut ExportMetrics,
        out: &mut Vec<(ExportedInvocation, u64)>,
    ) -> (r: Result<bool, ExportError>)
        requires
            counted(old(out)@),
        ensures
            ({
                let (records, fault) = old(self)@.new_records(bytes@);
                &&& final(self)@ == old(self)@.after(bytes@)
                &&& final(open)@ == opened_after(old(open)@, records)
                &&& span_models(final(out)@) == span_models(old(out)@) + spans_after(
                    old(open)@,
                    records,
                )
                &&& counted(final(out)@)
                &&& final(metrics).spec_seen() == (old(metrics).spec_seen() + records.len())
                    % 0x1_0000_0000_0000_0000
                &&& final(metrics).spec_exported() == old(metrics).spec_exported()
                &&& match (r, fault) {
                    (Ok(progressed), None) => progressed == (records.len() > 0),
                    (Err(e), Some(f)) => e@ == ExportFault::Frame(f),
                    _ => false,
                }
            }),
    {
        if bytes.len() == 0 {
            assert(span_models(out@) + Seq::empty() =~= span_models(out@));
            return Ok(false);
        }
        let mut offset: usize = 0;
        if self.header_done && self.offset <= bytes.len() as u64 {
            offset = self.offset as usize;
        } else {
            match FileHeader::decode_cbor(bytes) {
                Ok((_, n)) => {
                    offset = n;
                    self.header_done = true;
                },
                Err(_) => {
                    self.header_done = false;
                    assert(span_models(out@) + Seq::empty() =~= span_models(out@));
                    return Ok(false);
                },
            }
        }
        let ghost b = bytes@;
        let ghost at = offset as nat;
        let ghost (records, end, fault) = tail(b, at);
        let ghost mut done: Seq<RecordModel> = Seq::empty();
        let mut progressed = false;
        proof {
            lemma_tail_end(b, at);
            assert(done + records =~= records);
            assert(span_models(out@) + Seq::empty() =~= span_models(out@));
        }
        while offset < bytes.len()
            invariant
                b == bytes@,
                b.len() > 0,
                offset <= b.len(),
                self@ == (CursorModel { header_done: true, ..old(self)@ }),
                old(self)@.start(b) == Some(at),
                tail(b, at) == (records, end, fault),
                end <= b.len(),
                records == done + tail(b, offset as nat).0,
                end == tail(b, offset as nat).1,
                fault == tail(b, offset as nat).2,
                open@ == opened_after(old(open)@, done),
                span_models(out@) == span_models(old(out)@) + spans_after(old(open)@, done),
                counted(out@),
                metrics.spec_seen() == (old(metrics).spec_seen() + done.len())
                    % 0x1_0000_0000_0000_0000,
                metrics.spec_exported() == old(metrics).spec_exported(),
                progressed == (done.len() > 0),
            ensures
                fault is None,
                tail(b, offset as nat).0.len() == 0,
                end == offset,
                offset <= b.len(),
            decreases bytes.len() - offset,
        {
            let rest = vstd::slice::slice_subrange(bytes, offset, bytes.len());
            assert(rest@ =~= b.skip(offset as int));
            let (frame, consumed): (Frame, usize) = match decode_frame(rest) {
                Ok(v) => v,
                Err(FrameError::Truncated) => {
                    break;
                },
                Err(e) => {
                    assert(done + tail(b, offset as nat).0 =~= done);
                    return Err(ExportError::Frame(e));
                },
            };
            let ghost m = frame.record@;
            let ghost next = done.push(m);
            proof {
                assert(done + tail(b, offset as nat).0 =~= next + tail(
                    b,
                    (offset + consumed) as nat,
                ).0);
                assert(next.drop_last() =~= done);
            }
            offset = offset + consumed;
            progressed = true;
            metrics.record_seen(1);
            let ghost before = span_models(out@);
            let ghost out0 = out@;
            match open.handle_record(&frame.record) {
                Some(span) => {
                    let ghost s = span.0@;
                    out.push(span);
                    proof {
                        assert(span_models(out@) =~= before.push(s));
                        assert(span_models(old(out)@) + spans_after(old(open)@, next) =~= (
                        span_models(old(out)@) + spans_after(old(open)@, done)).push(s));
                        assert forall|i: int| 0 <= i < out@.len() implies (#[trigger] out@[i]).1
                            == out@[i].0.events@.len() by {
                            if i < out0.len() {
                                assert(out@[i] == out0[i]);
                            } else {
                                assert(s.events.len() == out@[i].0.events@.len());
                            }
                        }
                    }
                },
                None => {},
            }
            proof {
                lemma_count(old(metrics).spec_seen() as int, done.len() as int);
                done = next;
            }
        }
        assert(done + tail(b, offset as nat).0 =~= done);
        self.offset = offset as u64;
        Ok(progressed)
    }
}

proof fn lemma_count(a: int, n: int)
    ensures
        ((a + n) % 0x1_0000_0000_0000_0000 + 1) % 0x1_0000_0000_0000_0000 == (a + (n + 1))
            % 0x1_0000_0000_0000_0000,
{
}

/// A whole frame stays the same frame when bytes are added behind it.
proof fn lemma_frame_grows(s: Seq<u8>, t: Seq<u8>)
    requires
        crate::audit::frame::decoded(s) is Ok,
    ensures
        crate::audit::frame::decoded(s + t) == crate::audit::frame::decoded(s),
{
    let u = s + t;
    let n = crate::cbor::un_be(s.take(4));
    assert(u.take(4) =~= s.take(4));
    assert(u.subrange(4, (4 + n) as int) =~= s.subrange(4, (4 + n) as int));
    let total = 4 + n + 32;
    assert(u.subrange((4 + n) as int, total as int) =~= s.subrange((4 + n) as int, total as int));
    assert(u.take(total as int) =~= s.take(total as int));
}

/// Following a growing file loses and repeats nothing: reading what is there,
/// and later what has been added, gives the records that reading all of it at
/// once gives.
pub proof fn tail_in_parts(b: Seq<u8>, more: Seq<u8>, offset: nat)
    requires
        offset <= b.len(),
        tail(b, offset).2 is None,
    ensures
        ({
            let first = tail(b, offset);
            let second = tail(b + more, first.1);
            tail(b + more, offset) == (first.0 + second.0, second.1, second.2)
        }),
    decreases b.len() - offset,
{
    let c = b + more;
    if offset >= b.len() {
        let second = tail(c, offset);
        assert(Seq::<RecordModel>::empty() + second.0 =~= second.0);
    } else {
        let s = b.skip(offset as int);
        match crate::audit::frame::decoded(s) {
            Ok((frame, n)) => {
                lemma_frame_grows(s, more);
                assert(c.skip(offset as int) =~= s + more);
                tail_in_parts(b, more, offset + n);
                let first = tail(b, offset + n);
                let second = tail(c, first.1);
                assert(seq![frame.record] + (first.0 + second.0) =~= (seq![frame.record] + first.0)
                    + second.0);
            },
            Err(_) => {
                let second = tail(c, offset);
                assert(Seq::<RecordModel>::empty() + second.0 =~= second.0);
            },
        }
    }
}

/// The names that are log file names.
pub open spec fn log_names(names: Seq<String>) -> Seq<String>
    decreases names.len(),
{
    if names.len() == 0 {
        Seq::empty()
    } else if crate::audit::naming::log_name_ulid(encode_utf8(names.last()@)) is Some {
        log_names(names.drop_last()).push(names.last())
    } else {
        log_names(names.drop_last())
    }
}

/// The log files of a directory, by name.
pub fn list_log_files_sorted(names: Vec<String>) -> (r: Vec<String>)
    ensures
        order::is_arrangement(r@, log_names(names@)),
{
    let ghost all = names@;
    let mut rest = names;
    let mut picked: Vec<String> = Vec::new();
    proof {
        assert(picked@.reverse() =~= Seq::<String>::empty());
        assert(log_names(all) =~= log_names(rest@) + picked@.reverse());
    }
    while rest.len() > 0
        invariant
            log_names(all) == log_names(rest@) + picked@.reverse(),
        decreases rest.len(),
    {
        let ghost before = rest@;
        let ghost chosen = picked@;
        match rest.pop() {
            Some(name) => {
                assert(before.drop_last() =~= rest@);
                let ghost g = name;
                if parse_log_file_name(name.as_str()).is_some() {
                    picked.push(name);
                    proof {
                        assert(picked@.reverse() =~= seq![g] + chosen.reverse());
                        assert(log_names(rest@).push(g) + chosen.reverse() =~= log_names(rest@) + (
                        seq![g] + chosen.reverse()));
                    }
                }
            },
            None => {},
        }
    }
    let ghost found = picked@;
    proof {
        assert(rest@ =~= Seq::<String>::empty());
        assert(log_names(all) =~= found.reverse());
        lemma_reverse_bag(found);
    }
    order::sort_by_key(picked)
}

/// Reversing keeps what a list holds.
proof fn lemma_reverse_bag(s: Seq<String>)
    ensures
        s.reverse().to_multiset() == s.to_multiset(),
    decreases s.len(),
{
    if s.len() == 0 {
        assert(s.reverse() =~= s);
    } else {
        let f = s.drop_last();
        let x = s.last();
        lemma_reverse_bag(f);
        assert(s =~= f.push(x));
        assert(s.reverse() =~= f.reverse().insert(0, x));
        vstd::seq_lib::to_multiset_insert(f.reverse(), 0, x);
        vstd::seq_lib::to_multiset_build(f, x);
    }
}

/// The name after the first that is `current`.
pub open spec fn following(logs: Seq<String>, current: Seq<char>) -> Option<Seq<char>>
    decreases logs.len(),
{
    if logs.len() == 0 {
        None
    } else if logs[0]@ == current {
        if logs.len() > 1 {
            Some(logs[1]@)
        } else {
            None
        }
    } else {
        following(logs.skip(1), current)
    }
}

/// The log file after `current`.
pub fn successor_path(logs: &Vec<String>, current: &str) -> (r: Option<String>)
    ensures
        match (r, following(logs@, current@)) {
            (Some(x), Some(y)) => x@ == y,
            (None, None) => true,
            _ => false,
        },
{
    let mut i: usize = 0;
    assert(logs@.skip(0) =~= logs@);
    while i < logs.len()
        invariant
            0 <= i <= logs.len(),
            following(logs@, current@) == following(logs@.skip(i as int), current@),
        decreases logs.len() - i,
    {
        if text::str_eq(logs[i].as_str(), current) {
            if i + 1 < logs.len() {
                return Some(logs[i + 1].clone());
            }
            return None;
        }
        assert(logs@.skip(i as int).skip(1) =~= logs@.skip(i as int + 1));
        i += 1;
    }
    None
}

/// What the tailer does next.
#[derive(Debug, PartialEq, Eq)]
pub enum TailStep {
    /// Read again at once.
    Again,
    /// Go on with this file.
    Advance(String),
    /// Wait for more.
    Wait,
}

/// What to do after a read: a file that gave nothing new is left for its
/// successor once all of it (`len` bytes) has been read.
pub fn next_step(progressed: bool, successor: Option<String>, offset: u64, len: u64) -> (r: TailStep)
    ensures
        match r {
            TailStep::Again => progressed,
            TailStep::Advance(next) => !progressed && successor is Some && next@
                == successor->0@ && offset >= len,
            TailStep::Wait => !progressed && (successor is None || offset < len),
        },
{
    if progressed {
        return TailStep::Again;
    }
    match successor {
        Some(next) => {
            if offset >= len {
                TailStep::Advance(next)
            } else {
                TailStep::Wait
            }
        },
        None => TailStep::Wait,
    }
}

proof fn lemma_read_whole(b: Seq<u8>, offset: nat, expected: Seq<u8>, index: nat)
    requires
        offset <= b.len(),
        crate::audit::verify::chain_from(b, offset, expected, index) is Ok,
    ensures
        ({
            let frames = crate::audit::verify::chain_from(b, offset, expected, index)->Ok_0.0;
            tail(b, offset) == (
                Seq::new(frames.len(), |i: int| frames[i].record),
                b.len(),
                None::<FrameFault>,
            )
        }),
    decreases b.len() - offset,
{
    let frames = crate::audit::verify::chain_from(b, offset, expected, index)->Ok_0.0;
    let records = Seq::new(frames.len(), |i: int| frames[i].record);
    if offset < b.len() {
        let (frame, n) = crate::audit::frame::decoded(b.skip(offset as int))->Ok_0;
        lemma_read_whole(b, offset + n, frame.frame_hash, index + 1);
        let rest = crate::audit::verify::chain_from(
            b,
            offset + n,
            frame.frame_hash,
            index + 1,
        )->Ok_0.0;
        assert(records =~= seq![frame.record] + Seq::new(rest.len(), |i: int| rest[i].record));
    } else {
        assert(records =~= Seq::empty());
    }
}

/// A log file that verifies is exported whole: a cursor at its start reads
/// the records of all its frames, in order, and stands at its end.
pub proof fn verified_files_are_read_whole(b: Seq<u8>, path: Seq<char>)
    requires
        crate::audit::verify::verified(b) is Ok,
        crate::audit::header::decoded(b)->Ok_0.1 <= b.len() <= u64::MAX,
        b.len() > 0,
    ensures
        ({
            let frames = crate::audit::verify::verified(b)->Ok_0.frames;
            let cursor = CursorModel { path, offset: 0, header_done: false };
            &&& cursor.new_records(b).0.len() == frames.len()
            &&& forall|i: int|
                0 <= i < frames.len() ==> (#[trigger] cursor.new_records(b).0[i])
                    == frames[i].record
            &&& cursor.new_records(b).1 is None
            &&& cursor.after(b).offset == b.len()
            &&& cursor.after(b).header_done
        }),
{
    let (header, start) = crate::audit::header::decoded(b)->Ok_0;
    lemma_read_whole(b, start, header.prev_hash, 0);
}

/// A cursor loses and repeats nothing while its file grows: what it reads now,
/// and what it then reads of the longer file, is what it would have read of
/// the longer file at once, and it stands at the same place.
pub proof fn cursor_loses_nothing(c: CursorModel, b: Seq<u8>, more: Seq<u8>)
    requires
        c.header_done,
        c.offset <= b.len(),
        b.len() > 0,
        (b + more).len() <= u64::MAX,
        c.new_records(b).1 is None,
    ensures
        c.new_records(b + more).0 == c.new_records(b).0 + c.after(b).new_records(b + more).0,
        c.new_records(b + more).1 == c.after(b).new_records(b + more).1,
        c.new_records(b + more).1 is None ==> c.after(b + more) == c.after(b).after(b + more),
        c.offset <= c.after(b).offset <= b.len(),
        c.after(b).path == c.path,
{
    lemma_tail_end(b, c.offset as nat);
    lemma_tail_starts(b, c.offset as nat);
    tail_in_parts(b, more, c.offset as nat);
}

proof fn lemma_tail_starts(b: Seq<u8>, offset: nat)
    ensures
        offset <= tail(b, offset).1,
    decreases b.len() - offset,
{
    if offset < b.len() {
        if let Ok((frame, n)) = crate::audit::frame::decoded(b.skip(offset as int)) {
            lemma_tail_starts(b, offset + n);
        }
    }
}

/// Starting from no open request, the records of a log give the spans and the
/// open requests that grouping all of them gives.
pub proof fn tailing_is_grouping(records: Seq<RecordModel>)
    ensures
        opened_after(Map::empty(), records) == super::group::grouped(records).0,
        spans_after(Map::empty(), records) == super::group::grouped(records).1,
    decreases records.len(),
{
    if records.len() > 0 {
        tailing_is_grouping(records.drop_last());
    }
}

/// Exactly the names that name a log are kept.
pub proof fn log_names_are_kept(names: Seq<String>, name: String)
    ensures
        log_names(names).contains(name) <==> names.contains(name)
            && crate::audit::naming::log_name_ulid(encode_utf8(name@)) is Some,
    decreases names.len(),
{
    if names.len() > 0 {
        let front = names.drop_last();
        let x = names.last();
        log_names_are_kept(front, name);
        assert(names =~= front.push(x));
        if names.contains(name) && !front.contains(name) {
            let i = choose|i: int| 0 <= i < names.len() && names[i] == name;
            if i < front.len() {
                assert(front[i] == name);
            }
        }
        if front.contains(name) {
            let i = choose|i: int| 0 <= i < front.len() && front[i] == name;
            assert(names[i] == name);
        }
        assert(names[names.len() - 1] == x);
        let kept = log_names(front);
        if kept.contains(name) {
            let i = choose|i: int| 0 <= i < kept.len() && kept[i] == name;
            assert(kept.push(x)[i] == name);
        }
        assert(kept.push(x)[kept.len() as int] == x);
        if kept.push(x).contains(name) && name != x {
            let i = choose|i: int| 0 <= i < kept.push(x).len() && kept.push(x)[i] == name;
            assert(kept[i] == name);
        }
    }
}

/// The file that follows the `i`th is the one behind it; nothing follows the
/// last file, nor one that is not there.
pub proof fn the_next_file_follows(logs: Seq<String>, current: Seq<char>, i: int)
    requires
        0 <= i <= logs.len(),
        forall|j: int| 0 <= j < i ==> (#[trigger] logs[j])@ != current,
        i < logs.len() ==> logs[i]@ == current,
    ensures
        following(logs, current) == if i + 1 < logs.len() {
            Some(logs[i + 1]@)
        } else {
            None
        },
    decreases i,
{
    if i > 0 {
        let rest = logs.skip(1);
        assert forall|j: int| 0 <= j < i - 1 implies (#[trigger] rest[j])@ != current by {
            assert(rest[j] == logs[j + 1]);
        }
        assert(logs[0]@ != current);
        the_next_file_follows(rest, current, i - 1);
    }
}

/// Log files are followed in the order of their names.
pub proof fn logs_are_followed_in_order(logs: Seq<String>, of: Seq<String>)
    requires
        order::is_arrangement(logs, of),
    ensures
        logs.to_multiset() == of.to_multiset(),
        forall|i: int, j: int|
            0 <= i < j < logs.len() ==> (#[trigger] logs[i])@ == (#[trigger] logs[j])@
                || order::before(encode_utf8(logs[i]@), encode_utf8(logs[j]@)),
{
    order::arrangements_ascend(logs, of);
    assert forall|i: int, j: int| 0 <= i < j < logs.len() implies (#[trigger] logs[i])@ == (
    #[trigger] logs[j])@ || order::before(encode_utf8(logs[i]@), encode_utf8(logs[j]@)) by {
        assert(order::Keyed::key(&logs[i]) == order::Keyed::key(&logs[j]) || order::before(
            order::Keyed::key(&logs[i]),
            order::Keyed::key(&logs[j]),
        ));
        encode_utf8_decode_utf8(logs[i]@);
        encode_utf8_decode_utf8(logs[j]@);
    }
}

/// A file that has shrunk is read anew, and nothing is read before its header
/// is whole.
pub proof fn shrunken_files_are_read_anew(c: CursorModel, b: Seq<u8>)
    requires
        b.len() > 0,
    ensures
        c.offset > b.len() ==> c.new_records(b) == (CursorModel {
            offset: 0,
            header_done: false,
            ..c
        }).new_records(b),
        !c.header_done && crate::audit::header::decoded(b) is Err ==> c.new_records(b).0.len() == 0
            && c.new_records(b).1 is None && !c.after(b).header_done && c.after(b).offset
            == c.offset,
        !c.header_done && crate::audit::header::decoded(b) is Ok ==> c.after(b).header_done,
{
}

} // verus!
