//! What a bench run records beside its numbers.
use crate::chars;
use crate::text;
use vstd::prelude::*;

verus! {

/// Version of the result files.
pub const SCHEMA_VERSION: u32 = 1;

/// Hardware fingerprint recorded beside every run.
#[derive(Clone, Debug, PartialEq, Eq)]
pub struct HardwareFingerprint {
    /// Machine class, or `unknown`.
    pub machine: String,
    /// CPU model string when known.
    pub cpu: String,
    /// Logical CPUs observed.
    pub cpus: u32,
    /// Total memory bytes when known.
    pub memory_bytes: u64,
    /// OS / kernel summary.
    pub os: String,
    /// True when this matches the pinned reference host.
    pub is_reference_hardware: bool,
    /// Free-form note.
    pub notes: String,
}

/// Latency percentiles in nanoseconds.
#[derive(Clone, Copy, Debug, PartialEq, Eq)]
pub struct LatencyNs {
    pub p50: u64,
    pub p90: u64,
    pub p99: u64,
    pub max: u64,
}

/// Kilobytes in bytes, as far as they fit.
pub open spec fn kilobytes(kb: u64) -> u64 {
    if kb * 1024 <= u64::MAX {
        (kb * 1024) as u64
    } else {
        u64::MAX
    }
}

/// The number of kilobytes that a text starts with, in bytes.
pub open spec fn amount(s: Seq<char>) -> Option<u64> {
    match chars::first_word(s) {
        Some(w) => match chars::number(w) {
            Some(kb) => Some(kilobytes(kb)),
            None => None,
        },
        None => None,
    }
}

/// What follows a label at the start of a line.
pub open spec fn behind(line: Seq<char>, label: Seq<char>) -> Option<Seq<char>> {
    if chars::has_prefix(line, label) {
        Some(line.skip(label.len() as int))
    } else {
        None
    }
}

/// What follows a label in the first line that starts with it.
pub open spec fn labelled(lines: Seq<Seq<char>>, label: Seq<char>) -> Option<Seq<char>>
    decreases lines.len(),
{
    if lines.len() == 0 {
        None
    } else if behind(lines[0], label) is Some {
        behind(lines[0], label)
    } else {
        labelled(lines.skip(1), label)
    }
}

/// The amount in the first line that starts with a label and gives one.
pub open spec fn labelled_amount(lines: Seq<Seq<char>>, label: Seq<char>) -> Option<u64>
    decreases lines.len(),
{
    if lines.len() == 0 {
        None
    } else {
        match behind(lines[0], label) {
            Some(rest) => match amount(rest) {
                Some(n) => Some(n),
                None => labelled_amount(lines.skip(1), label),
            },
            None => labelled_amount(lines.skip(1), label),
        }
    }
}

fn bytes_of_kilobytes(kb: u64) -> (r: u64)
    ensures
        r == kilobytes(kb),
{
    if kb <= 0xffff_ffff_ffff_ffff / 1024 {
        kb * 1024
    } else {
        0xffff_ffff_ffff_ffff
    }
}

fn amount_of(s: &Vec<char>) -> (r: Option<u64>)
    ensures
        r == amount(s@),
{
    match chars::first_word_of(s) {
        Some(w) => match chars::parse_number(&w) {
            Some(kb) => Some(bytes_of_kilobytes(kb)),
            None => None,
        },
        None => None,
    }
}

fn strip_label(line: &Vec<char>, label: &Vec<char>) -> (r: Option<Vec<char>>)
    ensures
        match (r, behind(line@, label@)) {
            (Some(x), Some(m)) => x@ == m,
            (None, None) => true,
            _ => false,
        },
{
    assert(line@.skip(0) =~= line@);
    if chars::stands_at(line, 0, label) {
        let rest = chars::piece(line, label.len(), line.len());
        assert(rest@ =~= line@.skip(label@.len() as int));
        Some(rest)
    } else {
        None
    }
}

fn find_label(content: &str, label: &str) -> (r: Option<Vec<char>>)
    ensures
        match (r, labelled(chars::lines(content@), label@)) {
            (Some(x), Some(m)) => x@ == m,
            (None, None) => true,
            _ => false,
        },
{
    let lines = chars::lines_of(content);
    let mark = text::chars_of(label);
    let ghost all = chars::lines(content@);
    let mut i: usize = 0;
    assert(all.skip(0) =~= all);
    while i < lines.len()
        invariant
            0 <= i <= lines.len(),
            chars::views(lines@) == all,
            all == chars::lines(content@),
            mark@ == label@,
            labelled(all, label@) == labelled(all.skip(i as int), label@),
        decreases lines.len() - i,
    {
        assert(all.skip(i as int)[0] == lines@[i as int]@);
        assert(all.skip(i as int).skip(1) =~= all.skip(i as int + 1));
        match strip_label(&lines[i], &mark) {
            Some(rest) => {
                return Some(rest);
            },
            None => {},
        }
        i += 1;
    }
    None
}

fn find_amount(content: &str, label: &str) -> (r: Option<u64>)
    ensures
        r == labelled_amount(chars::lines(content@), label@),
{
    let lines = chars::lines_of(content);
    let mark = text::chars_of(label);
    let ghost all = chars::lines(content@);
    let mut i: usize = 0;
    assert(all.skip(0) =~= all);
    while i < lines.len()
        invariant
            0 <= i <= lines.len(),
            chars::views(lines@) == all,
            all == chars::lines(content@),
            mark@ == label@,
            labelled_amount(all, label@) == labelled_amount(all.skip(i as int), label@),
        decreases lines.len() - i,
    {
        assert(all.skip(i as int)[0] == lines@[i as int]@);
        assert(all.skip(i as int).skip(1) =~= all.skip(i as int + 1));
        match strip_label(&lines[i], &mark) {
            Some(rest) => match amount_of(&rest) {
                Some(n) => {
                    return Some(n);
                },
                None => {},
            },
            None => {},
        }
        i += 1;
    }
    None
}

/// The resident memory that `/proc/self/status` tells of.
pub open spec fn resident(status: Seq<char>) -> Option<u64> {
    match labelled(chars::lines(status), "VmRSS:"@) {
        Some(rest) => amount(rest),
        None => None,
    }
}

/// The resident memory that `/proc/self/status` tells of, in bytes.
pub fn parse_rss_bytes(status: &str) -> (r: Option<u64>)
    ensures
        r == resident(status@),
{
    match find_label(status, "VmRSS:") {
        Some(rest) => amount_of(&rest),
        None => None,
    }
}

/// The first line of the kernel's version, or `unknown`.
pub open spec fn os_line(version: Option<Seq<char>>) -> Seq<char> {
    match version {
        Some(s) => if chars::lines(s).len() > 0 {
            chars::lines(s)[0]
        } else {
            "unknown"@
        },
        None => "unknown"@,
    }
}

/// The model that `/proc/cpuinfo` names, or `unknown`.
pub open spec fn cpu_model(cpuinfo: Option<Seq<char>>) -> Seq<char> {
    match cpuinfo {
        Some(s) => match labelled(chars::lines(s), "model name\t: "@) {
            Some(rest) => rest,
            None => "unknown"@,
        },
        None => "unknown"@,
    }
}

/// The memory that `/proc/meminfo` tells of, or zero.
pub open spec fn total_memory(meminfo: Option<Seq<char>>) -> u64 {
    match meminfo {
        Some(s) => match labelled_amount(chars::lines(s), "MemTotal:"@) {
            Some(n) => n,
            None => 0,
        },
        None => 0,
    }
}

/// A text, where there is one.
pub open spec fn given(s: Option<&str>) -> Option<Seq<char>> {
    match s {
        Some(x) => Some(x@),
        None => None,
    }
}

fn os_of(version: Option<&str>) -> (r: String)
    ensures
        r@ == os_line(given(version)),
{
    match version {
        Some(s) => {
            let lines = chars::lines_of(s);
            if lines.len() > 0 {
                assert(chars::views(lines@)[0] == lines@[0]@);
                chars::string_of(&lines[0])
            } else {
                "unknown".to_owned()
            }
        },
        None => "unknown".to_owned(),
    }
}

fn cpu_of(cpuinfo: Option<&str>) -> (r: String)
    ensures
        r@ == cpu_model(given(cpuinfo)),
{
    match cpuinfo {
        Some(s) => match find_label(s, "model name\t: ") {
            Some(rest) => chars::string_of(&rest),
            None => "unknown".to_owned(),
        },
        None => "unknown".to_owned(),
    }
}

fn memory_of(meminfo: Option<&str>) -> (r: u64)
    ensures
        r == total_memory(given(meminfo)),
{
    match meminfo {
        Some(s) => match find_amount(s, "MemTotal:") {
            Some(n) => n,
            None => 0,
        },
        None => 0,
    }
}

/// The fingerprint of a host, from what could be read of it: the number of its
/// CPUs, `/proc/version`, `/proc/cpuinfo`, `/proc/meminfo` and the name of its
/// class.
pub fn fingerprint(
    parallelism: Option<usize>,
    version: Option<&str>,
    cpuinfo: Option<&str>,
    meminfo: Option<&str>,
    machine: Option<&str>,
) -> (r: HardwareFingerprint)
    ensures
        r.machine@ == match machine {
            Some(m) => m@,
            None => "unknown"@,
        },
        r.cpu@ == cpu_model(given(cpuinfo)),
        r.cpus == match parallelism {
            Some(n) => if n <= u32::MAX {
                n as u32
            } else {
                1
            },
            None => 1,
        },
        r.memory_bytes == total_memory(given(meminfo)),
        r.os@ == os_line(given(version)),
        !r.is_reference_hardware,
        r.notes@ == "AX42-1 not provisioned; HLX-7/8 parked; D-5 gate unset (HLX-40)."@,
{
    let cpus: u32 = match parallelism {
        Some(n) => if n <= 0xffff_ffff {
            n as u32
        } else {
            1
        },
        None => 1,
    };
    HardwareFingerprint {
        machine: match machine {
            Some(m) => m.to_owned(),
            None => "unknown".to_owned(),
        },
        cpu: cpu_of(cpuinfo),
        cpus,
        memory_bytes: memory_of(meminfo),
        os: os_of(version),
        is_reference_hardware: false,
        notes: "AX42-1 not provisioned; HLX-7/8 parked; D-5 gate unset (HLX-40).".to_owned(),
    }
}

/// The commit that a run of `git rev-parse HEAD` printed, or `unknown`.
pub fn commit_of(printed: Option<&[u8]>) -> (r: String)
    ensures
        r@ == match printed {
            Some(b) => chars::trimmed(text::lossy_text(b@), chars::Class::Space),
            None => "unknown"@,
        },
{
    match printed {
        Some(b) => chars::trim_text(text::string_from_utf8_lossy(b).as_str()),
        None => "unknown".to_owned(),
    }
}

/// The date that a run of `date -u` printed, or the seconds since 1970.
pub fn date_of(printed: Option<&[u8]>, secs: u64) -> (r: String)
    ensures
        r@ == match printed {
            Some(b) => chars::trimmed(text::lossy_text(b@), chars::Class::Space),
            None => "epoch-"@ + text::decimal(secs as nat),
        },
{
    match printed {
        Some(b) => chars::trim_text(text::string_from_utf8_lossy(b).as_str()),
        None => text::join("epoch-", text::decimal_string(secs).as_str()),
    }
}

/// What the results do not show yet.
pub open spec fn open_points() -> Seq<Seq<char>> {
    seq![
        "AX42-1 / LTD reference hardware does not exist yet (HLX-1/D-2 pinned on paper only)."@,
        "HLX-7 (M0-03 walking skeleton) and HLX-8 (D-5 BENCH-4 gate) are parked."@,
        "Exit criterion 'BENCH-1..5 gated green on reference hardware' is NOT met."@,
        "bench-results/hardware.json fio fdatasync latency and Granted-record size pending AX."@,
        "BENCH-4/5 full gateway+group-commit audit path requires AX host + D-5 pin."@,
    ]
}

/// What the results do not show yet.
pub fn holes() -> (r: Vec<String>)
    ensures
        crate::texts::texts(r@) == open_points(),
{
    let mut out: Vec<String> = Vec::new();
    out.push(
        "AX42-1 / LTD reference hardware does not exist yet (HLX-1/D-2 pinned on paper only).".to_owned(),
    );
    out.push("HLX-7 (M0-03 walking skeleton) and HLX-8 (D-5 BENCH-4 gate) are parked.".to_owned());
    out.push("Exit criterion 'BENCH-1..5 gated green on reference hardware' is NOT met.".to_owned());
    out.push(
        "bench-results/hardware.json fio fdatasync latency and Granted-record size pending AX.".to_owned(),
    );
    out.push(
        "BENCH-4/5 full gateway+group-commit audit path requires AX host + D-5 pin.".to_owned(),
    );
    assert(crate::texts::texts(out@) =~= open_points());
    out
}

/// Kilobytes are 1024 bytes each, as far as a number reaches.
pub proof fn kilobytes_are_1024_bytes(a: u64, b: u64)
    ensures
        a <= 0x3f_ffff_ffff_ffff ==> kilobytes(a) == 1024 * a,
        a > 0x3f_ffff_ffff_ffff ==> kilobytes(a) == 0xffff_ffff_ffff_ffff,
        a <= b ==> kilobytes(a) <= kilobytes(b),
{
}

/// The first line with the label counts, whatever stands in other lines.
pub proof fn the_first_labelled_line_counts(lines: Seq<Seq<char>>, label: Seq<char>, k: int)
    requires
        0 <= k < lines.len(),
        forall|i: int| 0 <= i < k ==> !chars::has_prefix(#[trigger] lines[i], label),
        chars::has_prefix(lines[k], label),
    ensures
        labelled(lines, label) == Some(lines[k].skip(label.len() as int)),
        amount(lines[k].skip(label.len() as int)) is Some ==> labelled_amount(lines, label)
            == amount(lines[k].skip(label.len() as int)),
    decreases k,
{
    if k > 0 {
        let rest = lines.skip(1);
        assert(!chars::has_prefix(lines[0], label));
        assert forall|i: int| 0 <= i < k - 1 implies !chars::has_prefix(
            #[trigger] rest[i],
            label,
        ) by {
            assert(rest[i] == lines[i + 1]);
        }
        assert(rest[k - 1] == lines[k]);
        the_first_labelled_line_counts(rest, label, k - 1);
    }
}

/// Without a line with the label nothing is told.
pub proof fn unlabelled_texts_tell_nothing(lines: Seq<Seq<char>>, label: Seq<char>)
    requires
        forall|i: int| 0 <= i < lines.len() ==> !chars::has_prefix(#[trigger] lines[i], label),
    ensures
        labelled(lines, label) is None,
        labelled_amount(lines, label) is None,
    decreases lines.len(),
{
    if lines.len() > 0 {
        let rest = lines.skip(1);
        assert(!chars::has_prefix(lines[0], label));
        assert forall|i: int| 0 <= i < rest.len() implies !chars::has_prefix(
            #[trigger] rest[i],
            label,
        ) by {
            assert(rest[i] == lines[i + 1]);
        }
        unlabelled_texts_tell_nothing(rest, label);
    }
}

/// A number of kilobytes is read behind white space and before its unit.
pub proof fn amounts_are_read(space: Seq<char>, n: u64, rest: Seq<char>)
    requires
        forall|i: int| 0 <= i < space.len() ==> chars::is_space(#[trigger] space[i]),
        rest.len() == 0 || chars::is_space(rest[0]),
    ensures
        amount(space + text::decimal(n as nat) + rest) == Some(kilobytes(n)),
        amount(space) is None,
{
    let d = text::decimal(n as nat);
    text::lemma_decimal(n as nat);
    assert forall|i: int| 0 <= i < d.len() implies !chars::is_space(#[trigger] d[i]) by {
        assert(text::is_digit(d[i]));
    }
    assert(d.len() > 0);
    chars::the_first_word_is_found(space, d, rest);
    chars::decimals_read_back(n);
}

/// The resident memory is the amount in the line `VmRSS:`, the total memory
/// that in the line `MemTotal:`, and the model what follows `model name`.
pub proof fn memory_and_model_are_labelled(s: Seq<char>, k: int, label: Seq<char>)
    requires
        0 <= k < chars::lines(s).len(),
        forall|i: int|
            0 <= i < k ==> !chars::has_prefix(#[trigger] chars::lines(s)[i], label),
        chars::has_prefix(chars::lines(s)[k], label),
    ensures
        ({
            let rest = chars::lines(s)[k].skip(label.len() as int);
            &&& label == "VmRSS:"@ ==> resident(s) == amount(rest)
            &&& label == "MemTotal:"@ && amount(rest) is Some ==> total_memory(Some(s))
                == amount(rest)->0
            &&& label == "model name\t: "@ ==> cpu_model(Some(s)) == rest
        }),
{
    the_first_labelled_line_counts(chars::lines(s), label, k);
}

/// What cannot be read is unknown, and nothing of memory.
pub proof fn what_is_missing_is_unknown()
    ensures
        os_line(None) == "unknown"@,
        cpu_model(None) == "unknown"@,
        total_memory(None) == 0,
        forall|s: Seq<char>| #[trigger]
            chars::lines(s).len() > 0 ==> os_line(Some(s)) == chars::lines(s)[0],
{
}

} // verus!
