//! `audit verify`, `audit dump` and `audit caps`.
use super::{Output, OutputModel};
use crate::audit::caps::decoding;
use crate::audit::caps::decoding::is_numbered;
use crate::audit::frame;
use crate::audit::frame::{decode_frame, Frame};
use crate::audit::hash;
use crate::audit::hash::sha256_32;
use crate::audit::header;
use crate::audit::header::FileHeader;
use crate::audit::json_out;
use crate::audit::json_out::{cbor_to_json, record_to_json};
use crate::audit::naming;
use crate::audit::naming::{caps_rel_path, hex_decode_32, hex_encode};
use crate::audit::verify;
use crate::audit::verify::{
    join_dir, verify_file, DirVerifyReport, ReportModel, VerifyError, VerifyFault,
};
use crate::caps::capability::GrantSet;
use crate::json::{Json, JsonModel};
use crate::path;
use crate::text;
use crate::texts;
use vstd::prelude::*;

verus! {

/// `audit` subcommands.
#[derive(Clone, Debug, PartialEq, Eq)]
pub enum AuditCommand {
    /// Walk the log files in ULID order; verify chains and caps side files.
    Verify { dir: String },
    /// Print records in a log file as JSON lines.
    Dump { file: String },
    /// Print a caps side file as JSON.
    Caps { hash: String, dir: String },
}

/// `audit …`
#[derive(Clone, Debug, PartialEq, Eq)]
pub struct AuditArgs {
    pub command: AuditCommand,
}

/// The line on a file that verified.
pub open spec fn file_line(path: Seq<char>, report: ReportModel) -> Seq<char> {
    "  "@ + path + " frames="@ + text::decimal(report.frames.len()) + " head="@ + naming::hex(
        report.head_hash,
    )
}

/// What `audit verify` prints.
pub open spec fn verify_says(
    dir: Seq<char>,
    r: Result<Seq<(Seq<char>, ReportModel)>, VerifyFault>,
) -> OutputModel {
    match r {
        Ok(files) => OutputModel {
            out: seq![
                "ok: "@ + text::decimal(files.len()) + " file(s) verified under "@ + dir,
            ] + Seq::new(files.len(), |i: int| file_line(files[i].0, files[i].1)),
            err: Seq::empty(),
            code: 0,
        },
        Err(f) => super::fails("verify failed: "@ + f.message(), 1),
    }
}

/// What `audit verify` prints for what verifying a directory gave.
pub fn verify_output(dir: &str, r: &Result<DirVerifyReport, VerifyError>) -> (o: Output)
    ensures
        o@ == verify_says(
            dir@,
            match *r {
                Ok(report) => Ok(verify::dir_models(report.files@)),
                Err(e) => Err(e@),
            },
        ),
{
    match r {
        Err(e) => Output::fail(text::join("verify failed: ", e.first_break_message().as_str()), 1),
        Ok(report) => {
            let files = &report.files;
            let ghost models = verify::dir_models(files@);
            let mut top = text::join3(
                "ok: ",
                text::decimal_string(files.len() as u64).as_str(),
                " file(s) verified under ",
            );
            top.append(dir);
            let ghost first = top@;
            let mut out: Vec<String> = Vec::new();
            out.push(top);
            let ghost lines = Seq::new(models.len(), |i: int| file_line(models[i].0, models[i].1));
            let mut i: usize = 0;
            assert(texts::texts(out@) =~= seq![first] + lines.take(0));
            while i < files.len()
                invariant
                    0 <= i <= files.len(),
                    models == verify::dir_models(files@),
                    lines == Seq::new(
                        models.len(),
                        |i: int| file_line(models[i].0, models[i].1),
                    ),
                    texts::texts(out@) == seq![first] + lines.take(i as int),
                decreases files.len() - i,
            {
                let f = &files[i];
                let ghost held = out@;
                let mut line = text::join3("  ", f.path.as_str(), " frames=");
                text::push_decimal(&mut line, f.report.frames.len() as u64);
                line.append(" head=");
                line.append(hex_encode(f.report.head_hash.as_slice()).as_str());
                assert(models[i as int].1.frames.len() == f.report.frames@.len());
                assert(line@ == lines[i as int]);
                let ghost said = line@;
                out.push(line);
                proof {
                    assert(texts::texts(out@) =~= texts::texts(held).push(said));
                    assert(lines.take(i as int + 1) =~= lines.take(i as int).push(said));
                    assert((seq![first] + lines.take(i as int)).push(said) =~= seq![first]
                        + lines.take(i as int + 1));
                }
                i += 1;
            }
            assert(lines.take(i as int) =~= lines);
            let o = Output { out, err: Vec::new(), code: 0 };
            assert(o@.err =~= Seq::empty());
            o
        },
    }
}

/// What `audit dump` prints: records as JSON lines, and errors.
#[derive(Debug)]
pub struct DumpOutput {
    pub records: Vec<Json>,
    pub err: Vec<String>,
    pub code: i32,
}

/// What a [`DumpOutput`] says.
pub ghost struct DumpModel {
    pub records: Seq<JsonModel>,
    pub err: Seq<Seq<char>>,
    pub code: i32,
}

/// What JSON values say.
pub open spec fn values(v: Seq<Json>) -> Seq<JsonModel> {
    v.map_values(|j: Json| j@)
}

impl View for DumpOutput {
    type V = DumpModel;

    open spec fn view(&self) -> DumpModel {
        DumpModel { records: values(self.records@), err: texts::texts(self.err@), code: self.code }
    }
}

/// The records of frames as JSON.
pub open spec fn records_of(frames: Seq<frame::FrameModel>) -> Seq<JsonModel> {
    Seq::new(frames.len(), |i: int| json_out::record_json(frames[i].record))
}

/// The records that can be read from an offset on, and why reading stopped if
/// it stopped before the end.
pub open spec fn readable(b: Seq<u8>, offset: nat) -> (Seq<JsonModel>, Option<Seq<char>>)
    decreases b.len() - offset,
{
    if offset >= b.len() {
        (Seq::empty(), None)
    } else {
        match frame::decoded(b.skip(offset as int)) {
            Err(f) => (
                Seq::empty(),
                Some(
                    "dump: stopped at offset "@ + text::decimal(offset) + ": "@ + f.message(),
                ),
            ),
            Ok((x, n)) => {
                let rest = readable(b, offset + n);
                (seq![json_out::record_json(x.record)] + rest.0, rest.1)
            },
        }
    }
}

/// What is dumped of a file that does not verify: a warning, and what can be
/// read.
pub open spec fn salvaged(b: Seq<u8>, f: VerifyFault) -> DumpModel {
    let warning = "dump: chain verify warning: "@ + f.message();
    match header::decoded(b) {
        Err(h) => DumpModel {
            records: Seq::empty(),
            err: seq![warning, "dump: header: "@ + h.message()],
            code: 1,
        },
        Ok((_, start)) => match readable(b, start) {
            (records, Some(stop)) => DumpModel { records, err: seq![warning, stop], code: 1 },
            (records, None) => DumpModel { records, err: seq![warning], code: 0 },
        },
    }
}

/// What `audit dump` prints.
pub open spec fn dump_says(file: Seq<char>, read: Result<Seq<u8>, Seq<char>>) -> DumpModel {
    match read {
        Err(m) => DumpModel {
            records: Seq::empty(),
            err: seq!["dump: read "@ + file + ": "@ + m],
            code: 1,
        },
        Ok(b) => match verify::verified(b) {
            Ok(report) => DumpModel {
                records: records_of(report.frames),
                err: Seq::empty(),
                code: 0,
            },
            Err(f) => salvaged(b, f),
        },
    }
}

fn frames_to_json(frames: &Vec<Frame>) -> (r: Vec<Json>)
    ensures
        values(r@) == records_of(verify::frame_models(frames@)),
{
    let ghost models = verify::frame_models(frames@);
    let mut out: Vec<Json> = Vec::new();
    let mut i: usize = 0;
    while i < frames.len()
        invariant
            0 <= i <= frames.len(),
            models == verify::frame_models(frames@),
            out@.len() == i,
            forall|k: int|
                0 <= k < i ==> (#[trigger] out@[k])@ == json_out::record_json(models[k].record),
        decreases frames.len() - i,
    {
        assert(models[i as int] == frames@[i as int]@);
        out.push(record_to_json(&frames[i].record));
        i += 1;
    }
    assert(values(out@) =~= records_of(models));
    out
}

/// Reads what can be read of the frames from an offset on.
fn salvage(bytes: &Vec<u8>, start: usize) -> (r: (Vec<Json>, Option<String>))
    requires
        start <= bytes@.len(),
    ensures
        values(r.0@) == readable(bytes@, start as nat).0,
        match (r.1, readable(bytes@, start as nat).1) {
            (Some(s), Some(m)) => s@ == m,
            (None, None) => true,
            _ => false,
        },
{
    let ghost b = bytes@;
    let ghost whole = readable(b, start as nat);
    let mut out: Vec<Json> = Vec::new();
    let mut offset: usize = start;
    assert(values(out@) + whole.0 =~= whole.0);
    while offset < bytes.len()
        invariant
            offset <= bytes.len(),
            b == bytes@,
            whole == readable(b, start as nat),
            values(out@) + readable(b, offset as nat).0 == whole.0,
            readable(b, offset as nat).1 == whole.1,
        decreases bytes.len() - offset,
    {
        let ghost held = values(out@);
        let tail = vstd::slice::slice_subrange(bytes.as_slice(), offset, bytes.len());
        assert(tail@ =~= b.skip(offset as int));
        match decode_frame(tail) {
            Ok((x, n)) => {
                let ghost rest = readable(b, (offset + n) as nat);
                let value = record_to_json(&x.record);
                let ghost said = value@;
                out.push(value);
                proof {
                    assert(values(out@) =~= held.push(said));
                    assert(held.push(said) + rest.0 =~= held + (seq![said] + rest.0));
                }
                offset += n;
            },
            Err(e) => {
                let mut s = text::join3(
                    "dump: stopped at offset ",
                    text::decimal_string(offset as u64).as_str(),
                    ": ",
                );
                s.append(e.message().as_str());
                assert(values(out@) =~= whole.0);
                return (out, Some(s));
            },
        }
    }
    assert(values(out@) =~= whole.0);
    (out, None)
}

/// What `audit dump` prints for what reading a file gave.
pub fn dump_output(file: &str, read: Result<Vec<u8>, String>) -> (r: DumpOutput)
    ensures
        r@ == dump_says(
            file@,
            match read {
                Ok(b) => Ok(b@),
                Err(m) => Err(m@),
            },
        ),
{
    let mut err: Vec<String> = Vec::new();
    let bytes = match read {
        Ok(b) => b,
        Err(m) => {
            let mut s = text::join3("dump: read ", file, ": ");
            s.append(m.as_str());
            err.push(s);
            let r = DumpOutput { records: Vec::new(), err, code: 1 };
            assert(r@.records =~= Seq::empty());
            assert(r@.err =~= seq![s@]);
            return r;
        },
    };
    match verify_file(bytes.as_slice()) {
        Ok(report) => {
            let records = frames_to_json(&report.frames);
            let r = DumpOutput { records, err, code: 0 };
            assert(r@.err =~= Seq::empty());
            r
        },
        Err(e) => {
            let warning = text::join(
                "dump: chain verify warning: ",
                e.first_break_message().as_str(),
            );
            let ghost w = warning@;
            err.push(warning);
            assert(texts::texts(err@) =~= seq![w]);
            match FileHeader::decode_cbor(bytes.as_slice()) {
                Err(h) => {
                    let line = text::join("dump: header: ", h.message().as_str());
                    let ghost l = line@;
                    err.push(line);
                    let r = DumpOutput { records: Vec::new(), err, code: 1 };
                    assert(r@.records =~= Seq::empty());
                    assert(r@.err =~= seq![w, l]);
                    r
                },
                Ok((_, start)) => {
                    let (records, stop) = salvage(&bytes, start);
                    match stop {
                        Some(line) => {
                            let ghost l = line@;
                            err.push(line);
                            let r = DumpOutput { records, err, code: 1 };
                            assert(r@.err =~= seq![w, l]);
                            r
                        },
                        None => DumpOutput { records, err, code: 0 },
                    }
                },
            }
        },
    }
}

/// The digest that a hash names and the path of its side file, or the line of
/// error.
pub fn caps_path(dir: &str, hash: &str) -> (r: Result<([u8; 32], String), String>)
    ensures
        match (r, naming::hash_of_hex(vstd::utf8::encode_utf8(hash@))) {
            (Ok((d, path)), Ok(m)) => d@ == m && path@ == verify::within_dir(
                dir@,
                naming::caps_name(m),
            ),
            (Err(s), Err(e)) => s@ == "caps: bad hash: "@ + e.spec_message(),
            _ => false,
        },
{
    match hex_decode_32(hash) {
        Ok(d) => {
            let path = join_dir(dir, caps_rel_path(&d).as_str());
            Ok((d, path))
        },
        Err(e) => Err(text::join("caps: bad hash: ", e.message().as_str())),
    }
}

/// The line on a side file that could not be read.
pub fn caps_unread(path: &str, error: &str) -> (r: String)
    ensures
        r@ == "caps: read "@ + path@ + ": "@ + error@,
{
    let mut s = text::join3("caps: read ", path, ": ");
    s.append(error);
    s
}

/// What a side file is shown as: an error unless it hashes to the digest that
/// it is stored under; then its capability set, or its CBOR if it holds none.
pub open spec fn is_view(digest: Seq<u8>, b: Seq<u8>, r: Result<Json, String>) -> bool {
    if hash::sha256(b) != digest {
        r matches Err(s) && s@ == "caps: content hash mismatch: expected "@ + naming::hex(digest)
            + ", file hashes to "@ + naming::hex(hash::sha256(b))
    } else if json_out::no_set(b) {
        match (r, json_out::generic_json(b)) {
            (Ok(v), Ok(w)) => v@ == w,
            (Err(s), Err(f)) => s@ == "caps: decode CBOR: "@ + f.message(),
            _ => false,
        }
    } else {
        r is Ok && exists|g: GrantSet| #[trigger]
            decoding::decoded_as(b, Ok(g)) && r->Ok_0@ == crate::audit::caps::view::set_json(g)
    }
}

/// A side file as JSON, or the line of error: its content must hash to the
/// digest that it is stored under.
pub fn caps_view(digest: &[u8; 32], bytes: &[u8]) -> (r: Result<Json, String>)
    requires
        hash::sha256(bytes@) == digest@ ==> decoding::numbered(bytes@),
    ensures
        is_view(digest@, bytes@, r),
{
    let actual = sha256_32(bytes);
    if !path::bytes_eq(actual.as_slice(), digest.as_slice()) {
        let mut s = text::join3(
            "caps: content hash mismatch: expected ",
            hex_encode(digest.as_slice()).as_str(),
            ", file hashes to ",
        );
        s.append(hex_encode(actual.as_slice()).as_str());
        return Err(s);
    }
    match cbor_to_json(bytes) {
        Ok(v) => Ok(v),
        Err(e) => Err(text::join("caps: decode CBOR: ", e.message().as_str())),
    }
}

/// [`caps_view`], or nothing for a side file of more paths or authorities than
/// 32 bits can number.
pub fn caps_shown(digest: &[u8; 32], bytes: &[u8]) -> (r: Option<Result<Json, String>>)
    ensures
        r is None <==> hash::sha256(bytes@) == digest@ && !decoding::numbered(bytes@),
        r matches Some(v) ==> is_view(digest@, bytes@, v),
{
    let actual = sha256_32(bytes);
    if path::bytes_eq(actual.as_slice(), digest.as_slice()) && !is_numbered(bytes) {
        return None;
    }
    Some(caps_view(digest, bytes))
}

/// A file that verifies is dumped whole and without a complaint.
pub proof fn verified_files_dump_whole(file: Seq<char>, b: Seq<u8>)
    requires
        verify::verified(b) is Ok,
    ensures
        dump_says(file, Ok(b)).code == 0,
        dump_says(file, Ok(b)).err.len() == 0,
        dump_says(file, Ok(b)).records.len() == verify::verified(b)->Ok_0.frames.len(),
{
}

/// `audit verify` succeeds exactly when the directory verifies: it then says
/// how many files did, and shows each with its path, its frames and its head
/// hash; otherwise it shows the fault and nothing else.
pub proof fn verify_succeeds_on_what_verifies(
    dir: Seq<char>,
    r: Result<Seq<(Seq<char>, ReportModel)>, VerifyFault>,
)
    ensures
        verify_says(dir, r).code == 0 <==> r is Ok,
        r matches Ok(files) ==> {
            let o = verify_says(dir, r);
            &&& o.err.len() == 0
            &&& o.out.len() == files.len() + 1
            &&& o.out[0] == "ok: "@ + text::decimal(files.len()) + " file(s) verified under "@ + dir
            &&& forall|i: int|
                0 <= i < files.len() ==> #[trigger] o.out[i + 1] == "  "@ + files[i].0 + " frames="@
                    + text::decimal(files[i].1.frames.len()) + " head="@ + naming::hex(
                    files[i].1.head_hash,
                )
        },
        r matches Err(f) ==> {
            let o = verify_says(dir, r);
            &&& o.out.len() == 0
            &&& o.err == seq!["verify failed: "@ + f.message()]
            &&& o.code == 1
        },
{
}

/// What is dumped of a file is what its frames hold, record by record.
pub proof fn dumps_show_the_records(file: Seq<char>, b: Seq<u8>, i: int)
    requires
        verify::verified(b) is Ok,
        0 <= i < verify::verified(b)->Ok_0.frames.len(),
    ensures
        dump_says(file, Ok(b)).records[i] == json_out::record_json(
            verify::verified(b)->Ok_0.frames[i].record,
        ),
{
}

/// A file that does not verify is dumped as far as it reads, with a warning
/// first; the dump fails if it stopped before the end.
pub proof fn broken_files_are_dumped_with_a_warning(file: Seq<char>, b: Seq<u8>)
    requires
        verify::verified(b) is Err,
    ensures
        ({
            let o = dump_says(file, Ok(b));
            &&& o.err.len() > 0
            &&& o.err[0] == "dump: chain verify warning: "@ + verify::verified(b)->Err_0.message()
            &&& o.code == 0 <==> o.err.len() == 1
            &&& header::decoded(b) is Err ==> o.records.len() == 0 && o.code == 1
            &&& header::decoded(b) is Ok ==> o.records == readable(
                b,
                header::decoded(b)->Ok_0.1,
            ).0 && (o.code == 0 <==> readable(b, header::decoded(b)->Ok_0.1).1 is None)
        }),
{
}

/// What can be read of a file is what the exporter reads of it.
pub proof fn dumps_read_what_exports_read(b: Seq<u8>, offset: nat)
    ensures
        ({
            let (records, end, fault) = crate::audit::export::tail::tail(b, offset);
            let (shown, stop) = readable(b, offset);
            &&& shown.len() == records.len()
            &&& forall|i: int|
                0 <= i < records.len() ==> #[trigger] shown[i] == json_out::record_json(
                    records[i],
                )
            &&& stop is None <==> end >= b.len()
        }),
    decreases b.len() - offset,
{
    if offset < b.len() {
        match frame::decoded(b.skip(offset as int)) {
            Ok((x, n)) => {
                dumps_read_what_exports_read(b, offset + n);
                let records = crate::audit::export::tail::tail(b, offset + n).0;
                let shown = readable(b, offset + n).0;
                let all = seq![json_out::record_json(x.record)] + shown;
                let read = seq![x.record] + records;
                assert forall|i: int| 0 <= i < read.len() implies #[trigger] all[i]
                    == json_out::record_json(read[i]) by {
                    if i > 0 {
                        assert(all[i] == shown[i - 1]);
                    }
                }
            },
            Err(_) => {},
        }
    }
}

/// A side file is shown only if it is what its name says.
pub proof fn tampered_side_files_are_not_shown(digest: Seq<u8>, b: Seq<u8>, r: Result<Json, String>)
    requires
        is_view(digest, b, r),
        hash::sha256(b) != digest,
    ensures
        r is Err,
        r->Err_0@ == "caps: content hash mismatch: expected "@ + naming::hex(digest)
            + ", file hashes to "@ + naming::hex(hash::sha256(b)),
{
}

} // verus!
