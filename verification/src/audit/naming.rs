//! Log file naming: `helix-<start-ulid>.log` and caps side-file paths.
use crate::caps::ulid_str;
use crate::cbor;
use crate::path;
use crate::text;
use vstd::prelude::*;
use vstd::utf8::*;

verus! {

/// Why a name could not be read.
#[derive(Debug, Clone, Copy, PartialEq, Eq)]
pub enum NamingError {
    /// A ULID text of this many bytes.
    BadUlidLen(usize),
    /// A byte outside the ULID alphabet.
    BadUlidChar,
    /// A hex text of this many bytes.
    BadHexLen(usize),
    /// A byte that is no hex digit.
    BadHexChar,
}

impl NamingError {
    /// The message shown to people.
    pub open spec fn spec_message(self) -> Seq<char> {
        match self {
            NamingError::BadUlidLen(n) => "ULID string length "@ + text::decimal(n as nat)
                + ", expected 26"@,
            NamingError::BadUlidChar => "malformed Crockford base32 ULID"@,
            NamingError::BadHexLen(n) => "hex length "@ + text::decimal(n as nat)
                + ", expected 64"@,
            NamingError::BadHexChar => "malformed hex"@,
        }
    }

    /// The message shown to people.
    pub fn message(&self) -> (r: String)
        ensures
            r@ == self.spec_message(),
    {
        match self {
            NamingError::BadUlidLen(n) => text::join3(
                "ULID string length ",
                text::decimal_string(*n as u64).as_str(),
                ", expected 26",
            ),
            NamingError::BadUlidChar => "malformed Crockford base32 ULID".to_owned(),
            NamingError::BadHexLen(n) => text::join3(
                "hex length ",
                text::decimal_string(*n as u64).as_str(),
                ", expected 64",
            ),
            NamingError::BadHexChar => "malformed hex".to_owned(),
        }
    }
}

/// The number that 16 bytes stand for.
pub open spec fn ulid_number(b: Seq<u8>) -> u128 {
    cbor::un_be(b) as u128
}

/// The 26 characters of a ULID given as 16 bytes.
pub open spec fn ulid_text(b: Seq<u8>) -> Seq<char> {
    ulid_str::ulid_text(ulid_number(b))
}

/// The 16 bytes of a ULID text, or why it is none.
pub open spec fn ulid_bytes(s: Seq<u8>) -> Result<Seq<u8>, NamingError> {
    if s.len() != 26 {
        Err(NamingError::BadUlidLen(s.len() as usize))
    } else {
        match ulid_str::parse(s) {
            Ok(v) => Ok(cbor::be(v as nat, 16)),
            Err(_) => Err(NamingError::BadUlidChar),
        }
    }
}

/// The lowercase hex digit of a number below 16.
pub open spec fn hex_digit(d: nat) -> char {
    if d < 10 {
        ((48 + d) as u8) as char
    } else {
        ((97 + d - 10) as u8) as char
    }
}

/// Bytes in lowercase hex.
pub open spec fn hex(b: Seq<u8>) -> Seq<char> {
    Seq::new(
        2 * b.len(),
        |i: int|
            if i % 2 == 0 {
                hex_digit((b[i / 2] / 16) as nat)
            } else {
                hex_digit((b[i / 2] % 16) as nat)
            },
    )
}

/// The value of a hex digit in either case.
pub open spec fn hex_value(b: u8) -> Option<nat> {
    if 48 <= b <= 57 {
        Some((b - 48) as nat)
    } else if 97 <= b <= 102 {
        Some((b - 97 + 10) as nat)
    } else if 65 <= b <= 70 {
        Some((b - 65 + 10) as nat)
    } else {
        None
    }
}

/// All bytes are hex digits.
pub open spec fn all_hex(s: Seq<u8>) -> bool {
    forall|i: int| 0 <= i < s.len() ==> hex_value(#[trigger] s[i]) is Some
}

/// The bytes that pairs of hex digits stand for.
pub open spec fn unhex(s: Seq<u8>) -> Seq<u8> {
    Seq::new(
        s.len() / 2,
        |i: int| (hex_value(s[2 * i])->0 * 16 + hex_value(s[2 * i + 1])->0) as u8,
    )
}

/// The 32 bytes of a hex text, or why it is none.
pub open spec fn hash_of_hex(s: Seq<u8>) -> Result<Seq<u8>, NamingError> {
    if s.len() != 64 {
        Err(NamingError::BadHexLen(s.len() as usize))
    } else if all_hex(s) {
        Ok(unhex(s))
    } else {
        Err(NamingError::BadHexChar)
    }
}

/// `helix-<ulid>.log`.
pub open spec fn log_name(ulid: Seq<u8>) -> Seq<char> {
    "helix-"@ + ulid_text(ulid) + ".log"@
}

/// `caps/<hex>.cbor`.
pub open spec fn caps_name(hash: Seq<u8>) -> Seq<char> {
    "caps/"@ + hex(hash) + ".cbor"@
}

/// The ULID in a log file name given as bytes.
pub open spec fn log_name_ulid(s: Seq<u8>) -> Option<Seq<u8>> {
    if s.len() == 36 && s.take(6) == encode_utf8("helix-"@) && s.skip(32) == encode_utf8(".log"@) {
        match ulid_bytes(s.subrange(6, 32)) {
            Ok(b) => Some(b),
            Err(_) => None,
        }
    } else {
        None
    }
}

/// Sixteen bytes as an array.
pub fn array16(v: &[u8]) -> (r: [u8; 16])
    requires
        v@.len() == 16,
    ensures
        r@ == v@,
{
    let r = [
        v[0], v[1], v[2], v[3], v[4], v[5], v[6], v[7], v[8], v[9], v[10], v[11], v[12], v[13],
        v[14], v[15],
    ];
    assert(r@ =~= v@);
    r
}

/// Thirty-two bytes as an array.
pub fn array32(v: &[u8]) -> (r: [u8; 32])
    requires
        v@.len() == 32,
    ensures
        r@ == v@,
{
    let r = [
        v[0], v[1], v[2], v[3], v[4], v[5], v[6], v[7], v[8], v[9], v[10], v[11], v[12], v[13],
        v[14], v[15], v[16], v[17], v[18], v[19], v[20], v[21], v[22], v[23], v[24], v[25], v[26],
        v[27], v[28], v[29], v[30], v[31],
    ];
    assert(r@ =~= v@);
    r
}

/// The number of 16 bytes, most significant first.
fn be_number(bytes: &[u8; 16]) -> (r: u128)
    ensures
        r == ulid_number(bytes@),
        r as nat == cbor::un_be(bytes@),
{
    let mut value: u128 = 0;
    let mut i: usize = 0;
    assert(bytes@.take(0) =~= Seq::<u8>::empty());
    while i < 16
        invariant
            0 <= i <= 16,
            bytes@.len() == 16,
            value as nat == cbor::un_be(bytes@.take(i as int)),
        decreases 16 - i,
    {
        proof {
            cbor::lemma_un_be(bytes@.take(i as int + 1));
            lemma_pow256_bound(i as nat + 1);
            assert(bytes@.take(i as int + 1).drop_last() =~= bytes@.take(i as int));
        }
        value = value * 256 + bytes[i] as u128;
        i += 1;
    }
    assert(bytes@.take(16) =~= bytes@);
    value
}

proof fn lemma_pow256_bound(k: nat)
    requires
        k <= 16,
    ensures
        cbor::pow256(k) <= 0x1_0000_0000_0000_0000_0000_0000_0000_0000int,
    decreases k,
{
    reveal_with_fuel(cbor::pow256, 17);
    if k < 16 {
        lemma_pow256_monotone(k, 16);
    }
}

proof fn lemma_pow256_monotone(a: nat, b: nat)
    requires
        a <= b,
    ensures
        cbor::pow256(a) <= cbor::pow256(b),
        cbor::pow256(a) > 0,
    decreases b,
{
    if a < b {
        lemma_pow256_monotone(a, (b - 1) as nat);
    } else if a > 0 {
        lemma_pow256_monotone((a - 1) as nat, (a - 1) as nat);
    }
}

/// A number as bytes, most significant first.
fn be_bytes(value: u128, n: u8) -> (r: Vec<u8>)
    ensures
        r@ == cbor::be(value as nat, n as nat),
    decreases n,
{
    if n == 0 {
        return Vec::new();
    }
    let mut out = be_bytes(value / 256, n - 1);
    out.push((value % 256) as u8);
    out
}

/// Encode 16 raw ULID bytes as a 26-character Crockford base32 string.
#[must_use]
pub fn encode_ulid_bytes(bytes: &[u8; 16]) -> (r: String)
    ensures
        r@ == ulid_text(bytes@),
{
    ulid_str::encode(be_number(bytes))
}

/// Decode a 26-character Crockford base32 ULID into 16 bytes.
pub fn decode_ulid_str(s: &str) -> (r: Result<[u8; 16], NamingError>)
    ensures
        match (r, ulid_bytes(encode_utf8(s@))) {
            (Ok(a), Ok(b)) => a@ == b,
            (Err(e), Err(f)) => e == f,
            _ => false,
        },
{
    decode_ulid_text(s.as_bytes())
}

fn decode_ulid_text(s: &[u8]) -> (r: Result<[u8; 16], NamingError>)
    ensures
        match (r, ulid_bytes(s@)) {
            (Ok(a), Ok(b)) => a@ == b,
            (Err(e), Err(f)) => e == f,
            _ => false,
        },
{
    if s.len() != 26 {
        return Err(NamingError::BadUlidLen(s.len()));
    }
    match ulid_str::decode_bytes(s) {
        Ok(value) => {
            let bytes = be_bytes(value, 16);
            proof {
                cbor::lemma_be(value as nat, 16);
            }
            Ok(array16(bytes.as_slice()))
        },
        Err(_) => Err(NamingError::BadUlidChar),
    }
}

fn hex_char(d: u8) -> (r: u8)
    requires
        d < 16,
    ensures
        r as char == hex_digit(d as nat),
        r < 128,
{
    if d < 10 {
        48 + d
    } else {
        97 + (d - 10)
    }
}

/// Hex-encode bytes (lowercase).
#[must_use]
pub fn hex_encode(bytes: &[u8]) -> (r: String)
    ensures
        r@ == hex(bytes@),
{
    let mut out: Vec<u8> = Vec::new();
    let mut i: usize = 0;
    while i < bytes.len()
        invariant
            0 <= i <= bytes.len(),
            out@.len() == 2 * i,
            text::is_ascii_bytes(out@),
            forall|j: int| 0 <= j < out@.len() ==> (#[trigger] out@[j]) as char == hex(bytes@)[j],
        decreases bytes.len() - i,
    {
        let b: u8 = bytes[i];
        out.push(hex_char(b / 16));
        out.push(hex_char(b % 16));
        i += 1;
    }
    let r = text::ascii_string(out);
    assert(r@ =~= hex(bytes@));
    r
}

/// Hex-decode into a fixed array.
pub fn hex_decode_32(s: &str) -> (r: Result<[u8; 32], NamingError>)
    ensures
        match (r, hash_of_hex(encode_utf8(s@))) {
            (Ok(a), Ok(b)) => a@ == b,
            (Err(e), Err(f)) => e == f,
            _ => false,
        },
{
    let b = s.as_bytes();
    if b.len() != 64 {
        return Err(NamingError::BadHexLen(b.len()));
    }
    let mut out: Vec<u8> = Vec::new();
    let mut i: usize = 0;
    while i < 32
        invariant
            b@.len() == 64,
            0 <= i <= 32,
            out@.len() == i,
            forall|j: int| 0 <= j < 2 * i ==> hex_value(#[trigger] b@[j]) is Some,
            forall|j: int| 0 <= j < i ==> (#[trigger] out@[j]) == unhex(b@)[j],
            b@ == encode_utf8(s@),
        decreases 32 - i,
    {
        let hi: u8 = match hex_nibble(b[2 * i]) {
            Ok(v) => v,
            Err(e) => {
                return Err(e);
            },
        };
        let lo: u8 = match hex_nibble(b[2 * i + 1]) {
            Ok(v) => v,
            Err(e) => {
                return Err(e);
            },
        };
        out.push(hi * 16 + lo);
        i += 1;
    }
    assert(out@ =~= unhex(b@));
    Ok(array32(out.as_slice()))
}

fn hex_nibble(b: u8) -> (r: Result<u8, NamingError>)
    ensures
        match r {
            Ok(v) => hex_value(b) == Some(v as nat) && v < 16,
            Err(e) => hex_value(b) is None && e == NamingError::BadHexChar,
        },
{
    if 48 <= b && b <= 57 {
        Ok(b - 48)
    } else if 97 <= b && b <= 102 {
        Ok(b - 97 + 10)
    } else if 65 <= b && b <= 70 {
        Ok(b - 65 + 10)
    } else {
        Err(NamingError::BadHexChar)
    }
}

/// `helix-<ulid>.log` filename for a file ULID.
#[must_use]
pub fn log_file_name(file_ulid: &[u8; 16]) -> (r: String)
    ensures
        r@ == log_name(file_ulid@),
{
    text::join3("helix-", encode_ulid_bytes(file_ulid).as_str(), ".log")
}

/// Relative caps side-file path: `caps/<hex>.cbor`.
#[must_use]
pub fn caps_rel_path(caps_hash: &[u8; 32]) -> (r: String)
    ensures
        r@ == caps_name(caps_hash@),
{
    text::join3("caps/", hex_encode(caps_hash.as_slice()).as_str(), ".cbor")
}

/// Parse `helix-<ulid>.log` into ULID bytes. `None` if not a log name.
#[must_use]
pub fn parse_log_file_name(name: &str) -> (r: Option<[u8; 16]>)
    ensures
        match (r, log_name_ulid(encode_utf8(name@))) {
            (Some(a), Some(b)) => a@ == b,
            (None, None) => true,
            _ => false,
        },
{
    let b = name.as_bytes();
    if b.len() != 36 {
        return None;
    }
    let start = vstd::slice::slice_subrange(b, 0, 6);
    let end = vstd::slice::slice_subrange(b, 32, 36);
    assert(start@ =~= b@.take(6));
    assert(end@ =~= b@.skip(32));
    if !path::bytes_eq(start, "helix-".as_bytes()) || !path::bytes_eq(end, ".log".as_bytes()) {
        return None;
    }
    match decode_ulid_text(vstd::slice::slice_subrange(b, 6, 32)) {
        Ok(a) => Some(a),
        Err(_) => None,
    }
}

/// A ULID reads back from its text.
pub proof fn ulid_bytes_round_trip(b: Seq<u8>)
    requires
        b.len() == 16,
    ensures
        ulid_text(b).len() == 26,
        encode_utf8(ulid_text(b)).len() == 26,
        ulid_bytes(encode_utf8(ulid_text(b))) == Ok::<Seq<u8>, NamingError>(b),
{
    let v = ulid_number(b);
    cbor::lemma_un_be(b);
    lemma_pow256_bound(16);
    assert(v as nat == cbor::un_be(b));
    ulid_str::ulid_round_trip(v);
}

/// A hash reads back from its hex text.
pub proof fn hex_round_trip(b: Seq<u8>)
    requires
        b.len() == 32,
    ensures
        hash_of_hex(encode_utf8(hex(b))) == Ok::<Seq<u8>, NamingError>(b),
{
    let c = hex(b);
    assert(is_ascii_chars(c));
    is_ascii_chars_encode_utf8(c);
    let s = encode_utf8(c);
    assert forall|i: int| 0 <= i < s.len() implies hex_value(#[trigger] s[i]) == Some(
        if i % 2 == 0 {
            (b[i / 2] / 16) as nat
        } else {
            (b[i / 2] % 16) as nat
        },
    ) by {
        assert(s[i] == c[i] as u8);
    }
    assert(unhex(s) =~= b) by {
        assert forall|i: int| 0 <= i < 32 implies unhex(s)[i] == b[i] by {
            assert(hex_value(s[2 * i]) == Some((b[(2 * i) / 2] / 16) as nat));
            assert(hex_value(s[2 * i + 1]) == Some((b[(2 * i + 1) / 2] % 16) as nat));
        }
    }
}

/// The ULID reads back from its log file name.
pub proof fn log_name_round_trip(b: Seq<u8>)
    requires
        b.len() == 16,
    ensures
        log_name_ulid(encode_utf8(log_name(b))) == Some(b),
{
    ulid_bytes_round_trip(b);
    reveal_strlit("helix-");
    reveal_strlit(".log");
    let a = "helix-"@;
    let m = ulid_text(b);
    let z = ".log"@;
    text::lemma_encode_concat(a + m, z);
    text::lemma_encode_concat(a, m);
    is_ascii_chars_encode_utf8(a);
    is_ascii_chars_encode_utf8(z);
    let s = encode_utf8(log_name(b));
    assert(s.take(6) =~= encode_utf8(a));
    assert(s.skip(32) =~= encode_utf8(z));
    assert(s.subrange(6, 32) =~= encode_utf8(m));
}

/// Hex is lowercase: two digits for each byte, the higher one first, each with
/// the value of its half.
pub proof fn hex_is_lowercase(b: Seq<u8>, i: int)
    requires
        0 <= i < b.len(),
    ensures
        hex(b).len() == 2 * b.len(),
        ('0' <= hex(b)[2 * i] <= '9') || ('a' <= hex(b)[2 * i] <= 'f'),
        ('0' <= hex(b)[2 * i + 1] <= '9') || ('a' <= hex(b)[2 * i + 1] <= 'f'),
        hex_value(hex(b)[2 * i] as u8) == Some((b[i] / 16) as nat),
        hex_value(hex(b)[2 * i + 1] as u8) == Some((b[i] % 16) as nat),
{
}

/// Different bytes have different hex.
pub proof fn hex_tells_bytes_apart(a: Seq<u8>, b: Seq<u8>)
    requires
        hex(a) == hex(b),
    ensures
        a == b,
{
    assert(hex(a).len() == 2 * a.len());
    assert(hex(b).len() == 2 * b.len());
    assert forall|i: int| 0 <= i < a.len() implies a[i] == b[i] by {
        hex_is_lowercase(a, i);
        hex_is_lowercase(b, i);
    }
    assert(a =~= b);
}

/// A hash is read from exactly sixty-four hex digits of either case; the
/// number of bytes of any other text is reported first.
pub proof fn hashes_are_sixty_four_digits(s: Seq<u8>)
    requires
        s.len() <= usize::MAX,
    ensures
        hash_of_hex(s) is Ok <==> s.len() == 64 && forall|i: int|
            0 <= i < 64 ==> {
                let c = #[trigger] s[i] as char;
                ('0' <= c <= '9') || ('a' <= c <= 'f') || ('A' <= c <= 'F')
            },
        s.len() != 64 ==> hash_of_hex(s) == Err::<Seq<u8>, NamingError>(
            NamingError::BadHexLen(s.len() as usize),
        ),
        hash_of_hex(s) matches Ok(h) ==> h.len() == 32,
{
    if s.len() == 64 {
        assert forall|i: int| 0 <= i < 64 implies (hex_value(#[trigger] s[i]) is Some <==> {
            let c = s[i] as char;
            ('0' <= c <= '9') || ('a' <= c <= 'f') || ('A' <= c <= 'F')
        }) by {}
    }
}

/// A log file is named `helix-`, its ULID and `.log`; a name is that of a log
/// file exactly when it has this shape.
pub proof fn log_names_have_this_shape(b: Seq<u8>, name: Seq<u8>)
    requires
        b.len() == 16,
    ensures
        log_name(b).len() == 36,
        log_name(b).take(6) == "helix-"@,
        log_name(b).subrange(6, 32) == ulid_text(b),
        log_name(b).skip(32) == ".log"@,
        log_name_ulid(name) is Some ==> name.len() == 36 && name.take(6) == encode_utf8("helix-"@)
            && name.skip(32) == encode_utf8(".log"@) && ulid_bytes(name.subrange(6, 32)) == Ok::<
            Seq<u8>,
            NamingError,
        >(log_name_ulid(name)->0),
{
    ulid_bytes_round_trip(b);
    reveal_strlit("helix-");
    reveal_strlit(".log");
    assert(log_name(b).take(6) =~= "helix-"@);
    assert(log_name(b).subrange(6, 32) =~= ulid_text(b));
    assert(log_name(b).skip(32) =~= ".log"@);
}

/// A side file is named after its hash, below `caps/`; different hashes have
/// different side files.
pub proof fn side_files_are_named_by_hash(a: Seq<u8>, b: Seq<u8>)
    ensures
        caps_name(a).take(5) == "caps/"@,
        caps_name(a).subrange(5, 5 + 2 * a.len() as int) == hex(a),
        caps_name(a).skip(5 + 2 * a.len() as int) == ".cbor"@,
        caps_name(a) == caps_name(b) ==> a == b,
{
    reveal_strlit("caps/");
    reveal_strlit(".cbor");
    assert(caps_name(a).take(5) =~= "caps/"@);
    assert(caps_name(a).subrange(5, 5 + 2 * a.len() as int) =~= hex(a));
    assert(caps_name(a).skip(5 + 2 * a.len() as int) =~= ".cbor"@);
    if caps_name(a) == caps_name(b) {
        assert(caps_name(a).len() == 10 + 2 * a.len());
        assert(caps_name(b).len() == 10 + 2 * b.len());
        assert(caps_name(b).subrange(5, 5 + 2 * b.len() as int) =~= hex(b));
        hex_tells_bytes_apart(a, b);
    }
}

} // verus!
