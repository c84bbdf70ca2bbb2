//! CBOR items on byte buffers, through `minicbor`.
//!
//! Writing appends one item, in the shortest form, to a buffer. Reading takes
//! a buffer and a position and gives the item with the position behind it.
use vstd::prelude::*;
use vstd::utf8::*;

verus! {

/// `n` as `k` bytes, most significant first.
pub open spec fn be(n: nat, k: nat) -> Seq<u8>
    decreases k,
{
    if k == 0 {
        Seq::empty()
    } else {
        be(n / 256, (k - 1) as nat).push((n % 256) as u8)
    }
}

/// The number that bytes stand for, most significant first.
pub open spec fn un_be(s: Seq<u8>) -> nat
    decreases s.len(),
{
    if s.len() == 0 {
        0
    } else {
        un_be(s.drop_last()) * 256 + s.last() as nat
    }
}

/// An item head: major type and argument in the shortest form.
pub open spec fn head(major: nat, n: nat) -> Seq<u8> {
    let t = major * 32;
    if n < 24 {
        seq![(t + n) as u8]
    } else if n < 0x100 {
        seq![(t + 24) as u8] + be(n, 1)
    } else if n < 0x1_0000 {
        seq![(t + 25) as u8] + be(n, 2)
    } else if n < 0x1_0000_0000 {
        seq![(t + 26) as u8] + be(n, 4)
    } else {
        seq![(t + 27) as u8] + be(n, 8)
    }
}

/// An unsigned integer.
pub open spec fn uint(n: nat) -> Seq<u8> {
    head(0, n)
}

/// A byte string.
pub open spec fn blob(b: Seq<u8>) -> Seq<u8> {
    head(2, b.len()) + b
}

/// A text string.
pub open spec fn text(s: Seq<char>) -> Seq<u8> {
    head(3, encode_utf8(s).len()) + encode_utf8(s)
}

/// The null item.
pub open spec fn null() -> Seq<u8> {
    seq![0xf6u8]
}

/// The argument of the head at the start of `s` and the head's length.
pub open spec fn argument(s: Seq<u8>) -> Option<(nat, nat)> {
    if s.len() == 0 {
        None
    } else {
        let info = s[0] % 32;
        if info < 24 {
            Some((info as nat, 1nat))
        } else if info == 24 && s.len() >= 2 {
            Some((un_be(s.subrange(1, 2)), 2nat))
        } else if info == 25 && s.len() >= 3 {
            Some((un_be(s.subrange(1, 3)), 3nat))
        } else if info == 26 && s.len() >= 5 {
            Some((un_be(s.subrange(1, 5)), 5nat))
        } else if info == 27 && s.len() >= 9 {
            Some((un_be(s.subrange(1, 9)), 9nat))
        } else {
            None
        }
    }
}

/// `s` starts with an item of this major type.
pub open spec fn is_major(s: Seq<u8>, major: nat) -> bool {
    s.len() > 0 && s[0] / 32 == major
}

/// The unsigned integer at the start of `s` and its length.
pub open spec fn take_uint(s: Seq<u8>) -> Option<(nat, nat)> {
    if is_major(s, 0) {
        argument(s)
    } else {
        None
    }
}

/// The integer at the start of `s` and its length.
pub open spec fn take_int(s: Seq<u8>) -> Option<(int, nat)> {
    match argument(s) {
        Some((n, k)) => if is_major(s, 0) {
            Some((n as int, k))
        } else if is_major(s, 1) {
            Some((-1 - n, k))
        } else {
            None
        },
        None => None,
    }
}

/// The string of definite length at the start of `s` and the item's length.
pub open spec fn take_string(s: Seq<u8>, major: nat) -> Option<(Seq<u8>, nat)> {
    match argument(s) {
        Some((n, k)) => if is_major(s, major) && k + n <= s.len() {
            Some((s.subrange(k as int, (k + n) as int), k + n))
        } else {
            None
        },
        None => None,
    }
}

/// The text of definite length at the start of `s` and the item's length.
pub open spec fn take_text(s: Seq<u8>) -> Option<(Seq<char>, nat)> {
    match take_string(s, 3) {
        Some((b, k)) => if valid_utf8(b) {
            Some((decode_utf8(b), k))
        } else {
            None
        },
        None => None,
    }
}

/// The element count at the start of `s`, `None` inside for an indefinite
/// one, and the head's length.
pub open spec fn take_count(s: Seq<u8>, major: nat) -> Option<(Option<nat>, nat)> {
    if !is_major(s, major) {
        None
    } else if s[0] % 32 == 31 {
        Some((None, 1nat))
    } else {
        match argument(s) {
            Some((n, k)) => Some((Some(n), k)),
            None => None,
        }
    }
}

/// The name of the type of the item at the start of `s`.
pub open spec fn kind_name(s: Seq<u8>) -> Option<Seq<char>> {
    if s.len() == 0 {
        None
    } else {
        let b = s[0];
        if 0x38 <= b <= 0x3b && s.len() < 2 {
            None
        } else if b <= 0x18 {
            Some("U8"@)
        } else if b == 0x19 {
            Some("U16"@)
        } else if b == 0x1a {
            Some("U32"@)
        } else if b == 0x1b {
            Some("U64"@)
        } else if (0x20 <= b <= 0x37) || (b == 0x38 && s[1] < 0x80) {
            Some("I8"@)
        } else if b == 0x38 || (b == 0x39 && s[1] < 0x80) {
            Some("I16"@)
        } else if b == 0x39 || (b == 0x3a && s[1] < 0x80) {
            Some("I32"@)
        } else if b == 0x3a || (b == 0x3b && s[1] < 0x80) {
            Some("I64"@)
        } else if b == 0x3b {
            Some("Int"@)
        } else if 0x40 <= b <= 0x5b {
            Some("Bytes"@)
        } else if b == 0x5f {
            Some("BytesIndef"@)
        } else if 0x60 <= b <= 0x7b {
            Some("String"@)
        } else if b == 0x7f {
            Some("StringIndef"@)
        } else if 0x80 <= b <= 0x9b {
            Some("Array"@)
        } else if b == 0x9f {
            Some("ArrayIndef"@)
        } else if 0xa0 <= b <= 0xbb {
            Some("Map"@)
        } else if b == 0xbf {
            Some("MapIndef"@)
        } else if 0xc0 <= b <= 0xdb {
            Some("Tag"@)
        } else if (0xe0 <= b <= 0xf3) || b == 0xf8 {
            Some("Simple"@)
        } else if b == 0xf4 || b == 0xf5 {
            Some("Bool"@)
        } else if b == 0xf6 {
            Some("Null"@)
        } else if b == 0xf7 {
            Some("Undefined"@)
        } else if b == 0xf9 {
            Some("F16"@)
        } else if b == 0xfa {
            Some("F32"@)
        } else if b == 0xfb {
            Some("F64"@)
        } else if b == 0xff {
            Some("Break"@)
        } else {
            Some("Unknown("@ + crate::text::decimal(b as nat) + ")"@)
        }
    }
}

/// The message of `Decoder::u8` on a buffer at a position.
pub uninterp spec fn u8_error(b: Seq<u8>, pos: nat) -> Seq<char>;

/// The message of `Decoder::u64` on a buffer at a position.
pub uninterp spec fn u64_error(b: Seq<u8>, pos: nat) -> Seq<char>;

/// The message of `Decoder::i64` on a buffer at a position.
pub uninterp spec fn i64_error(b: Seq<u8>, pos: nat) -> Seq<char>;

/// The message of `Decoder::bool` on a buffer at a position.
pub uninterp spec fn bool_error(b: Seq<u8>, pos: nat) -> Seq<char>;

/// The message of `Decoder::null` on a buffer at a position.
pub uninterp spec fn null_error(b: Seq<u8>, pos: nat) -> Seq<char>;

/// The message of `Decoder::bytes` on a buffer at a position.
pub uninterp spec fn bytes_error(b: Seq<u8>, pos: nat) -> Seq<char>;

/// The message of `Decoder::str` on a buffer at a position.
pub uninterp spec fn str_error(b: Seq<u8>, pos: nat) -> Seq<char>;

/// The message of `Decoder::array` on a buffer at a position.
pub uninterp spec fn array_error(b: Seq<u8>, pos: nat) -> Seq<char>;

/// The message of `Decoder::map` on a buffer at a position.
pub uninterp spec fn map_error(b: Seq<u8>, pos: nat) -> Seq<char>;

/// The message of `Decoder::tag` on a buffer at a position.
pub uninterp spec fn tag_error(b: Seq<u8>, pos: nat) -> Seq<char>;

/// The message of `Decoder::datatype` on a buffer at a position.
pub uninterp spec fn datatype_error(b: Seq<u8>, pos: nat) -> Seq<char>;

/// What `Decoder::skip` gives on a buffer at a position: the position behind
/// the item, or the message.
pub uninterp spec fn skipped(b: Seq<u8>, pos: nat) -> Result<nat, Seq<char>>;

/// Bytes that `Decoder::skip` steps over to the last: one item.
pub open spec fn is_item(s: Seq<u8>) -> bool {
    skipped(s, 0) == Ok::<nat, Seq<char>>(s.len())
}

/// The item at a position ends here, and no shorter stretch is an item.
pub open spec fn item_ends(b: Seq<u8>, pos: nat, end: nat) -> bool {
    &&& pos <= end <= b.len()
    &&& is_item(b.subrange(pos as int, end as int))
    &&& forall|k: int| pos <= k < end ==> !is_item(#[trigger] b.subrange(pos as int, k))
}

/// What is left of a buffer from a position on.
pub open spec fn from(b: Seq<u8>, pos: nat) -> Seq<u8> {
    if pos <= b.len() {
        b.skip(pos as int)
    } else {
        Seq::empty()
    }
}

/// The unsigned integer of at most a byte at a position, and the position
/// behind it; otherwise the message.
pub open spec fn get_u8(b: Seq<u8>, pos: nat) -> Result<(u8, nat), Seq<char>> {
    match take_uint(from(b, pos)) {
        Some((n, k)) => if n <= 255 {
            Ok((n as u8, pos + k))
        } else {
            Err(u8_error(b, pos))
        },
        None => Err(u8_error(b, pos)),
    }
}

/// The unsigned integer at a position.
pub open spec fn get_u64(b: Seq<u8>, pos: nat) -> Result<(u64, nat), Seq<char>> {
    match take_uint(from(b, pos)) {
        Some((n, k)) => Ok((n as u64, pos + k)),
        None => Err(u64_error(b, pos)),
    }
}

/// The integer of 64 bits at a position.
pub open spec fn get_i64(b: Seq<u8>, pos: nat) -> Result<(i64, nat), Seq<char>> {
    match take_int(from(b, pos)) {
        Some((n, k)) => if i64::MIN <= n <= i64::MAX {
            Ok((n as i64, pos + k))
        } else {
            Err(i64_error(b, pos))
        },
        None => Err(i64_error(b, pos)),
    }
}

/// The truth value at a position.
pub open spec fn get_bool(b: Seq<u8>, pos: nat) -> Result<(bool, nat), Seq<char>> {
    let s = from(b, pos);
    if s.len() > 0 && (s[0] == 0xf4 || s[0] == 0xf5) {
        Ok((s[0] == 0xf5, pos + 1))
    } else {
        Err(bool_error(b, pos))
    }
}

/// The position behind the null at a position.
pub open spec fn get_null(b: Seq<u8>, pos: nat) -> Result<nat, Seq<char>> {
    let s = from(b, pos);
    if s.len() > 0 && s[0] == 0xf6 {
        Ok(pos + 1)
    } else {
        Err(null_error(b, pos))
    }
}

/// The byte string of definite length at a position.
pub open spec fn get_bytes(b: Seq<u8>, pos: nat) -> Result<(Seq<u8>, nat), Seq<char>> {
    match take_string(from(b, pos), 2) {
        Some((v, k)) => Ok((v, pos + k)),
        None => Err(bytes_error(b, pos)),
    }
}

/// The text of definite length at a position.
pub open spec fn get_str(b: Seq<u8>, pos: nat) -> Result<(Seq<char>, nat), Seq<char>> {
    match take_text(from(b, pos)) {
        Some((v, k)) => Ok((v, pos + k)),
        None => Err(str_error(b, pos)),
    }
}

/// The element count of the array at a position, `None` if indefinite.
pub open spec fn get_array(b: Seq<u8>, pos: nat) -> Result<(Option<u64>, nat), Seq<char>> {
    match take_count(from(b, pos), 4) {
        Some((Some(n), k)) => Ok((Some(n as u64), pos + k)),
        Some((None, k)) => Ok((None, pos + k)),
        None => Err(array_error(b, pos)),
    }
}

/// The entry count of the map at a position, `None` if indefinite.
pub open spec fn get_map(b: Seq<u8>, pos: nat) -> Result<(Option<u64>, nat), Seq<char>> {
    match take_count(from(b, pos), 5) {
        Some((Some(n), k)) => Ok((Some(n as u64), pos + k)),
        Some((None, k)) => Ok((None, pos + k)),
        None => Err(map_error(b, pos)),
    }
}

/// The tag at a position.
pub open spec fn get_tag(b: Seq<u8>, pos: nat) -> Result<(u64, nat), Seq<char>> {
    match argument(from(b, pos)) {
        Some((n, k)) => if is_major(from(b, pos), 6) {
            Ok((n as u64, pos + k))
        } else {
            Err(tag_error(b, pos))
        },
        None => Err(tag_error(b, pos)),
    }
}

/// The position behind the item at a position, whatever the item is.
pub open spec fn get_skip(b: Seq<u8>, pos: nat) -> Result<nat, Seq<char>> {
    if exists|end: nat| item_ends(b, pos, end) {
        Ok(choose|end: nat| item_ends(b, pos, end))
    } else {
        Err(skipped(b, pos)->Err_0)
    }
}

/// The name of the type of the item at a position.
pub open spec fn get_kind(b: Seq<u8>, pos: nat) -> Result<Seq<char>, Seq<char>> {
    match kind_name(from(b, pos)) {
        Some(s) => Ok(s),
        None => Err(datatype_error(b, pos)),
    }
}

/// `Encoder::u8` on a vector: appends the shortest form.
#[verifier::external_body]
pub(crate) fn put_u8(out: &mut Vec<u8>, x: u8)
    ensures
        final(out)@ == old(out)@ + uint(x as nat),
{
    let _ = minicbor::Encoder::new(out).u8(x);
}

/// `Encoder::u64` on a vector: appends the shortest form.
#[verifier::external_body]
pub(crate) fn put_u64(out: &mut Vec<u8>, x: u64)
    ensures
        final(out)@ == old(out)@ + uint(x as nat),
{
    let _ = minicbor::Encoder::new(out).u64(x);
}

/// `Encoder::bytes` on a vector: appends the length, then the bytes.
#[verifier::external_body]
pub(crate) fn put_bytes(out: &mut Vec<u8>, x: &[u8])
    ensures
        final(out)@ == old(out)@ + blob(x@),
{
    let _ = minicbor::Encoder::new(out).bytes(x);
}

/// `Encoder::str` on a vector: appends the length in bytes, then the UTF-8.
#[verifier::external_body]
pub(crate) fn put_str(out: &mut Vec<u8>, x: &str)
    ensures
        final(out)@ == old(out)@ + text(x@),
{
    let _ = minicbor::Encoder::new(out).str(x);
}

/// `Encoder::null` on a vector: appends the null item.
#[verifier::external_body]
pub(crate) fn put_null(out: &mut Vec<u8>)
    ensures
        final(out)@ == old(out)@ + null(),
{
    let _ = minicbor::Encoder::new(out).null();
}

/// `Encoder::array` on a vector: appends the head of an array.
#[verifier::external_body]
pub(crate) fn put_array(out: &mut Vec<u8>, n: u64)
    ensures
        final(out)@ == old(out)@ + head(4, n as nat),
{
    let _ = minicbor::Encoder::new(out).array(n);
}

/// `Encoder::map` on a vector: appends the head of a map.
#[verifier::external_body]
pub(crate) fn put_map(out: &mut Vec<u8>, n: u64)
    ensures
        final(out)@ == old(out)@ + head(5, n as nat),
{
    let _ = minicbor::Encoder::new(out).map(n);
}

/// `Decoder::u8`: an unsigned integer, in any length, that fits in a byte.
#[verifier::external_body]
pub(crate) fn read_u8(b: &[u8], pos: usize) -> (r: Result<(u8, usize), String>)
    requires
        pos <= b@.len(),
    ensures
        match (r, get_u8(b@, pos as nat)) {
            (Ok((v, end)), Ok((w, at))) => v == w && end == at && end <= b@.len(),
            (Err(e), Err(_)) => e@ == u8_error(b@, pos as nat),
            _ => false,
        },
{
    let mut d = minicbor::Decoder::new(b);
    d.set_position(pos);
    match d.u8() {
        Ok(v) => Ok((v, d.position())),
        Err(e) => Err(e.to_string()),
    }
}

/// `Decoder::u64`: an unsigned integer, in any length.
#[verifier::external_body]
pub(crate) fn read_u64(b: &[u8], pos: usize) -> (r: Result<(u64, usize), String>)
    requires
        pos <= b@.len(),
    ensures
        match (r, get_u64(b@, pos as nat)) {
            (Ok((v, end)), Ok((w, at))) => v == w && end == at && end <= b@.len(),
            (Err(e), Err(_)) => e@ == u64_error(b@, pos as nat),
            _ => false,
        },
{
    let mut d = minicbor::Decoder::new(b);
    d.set_position(pos);
    match d.u64() {
        Ok(v) => Ok((v, d.position())),
        Err(e) => Err(e.to_string()),
    }
}

/// `Decoder::i64`: an integer, in any length, that fits.
#[verifier::external_body]
pub(crate) fn read_i64(b: &[u8], pos: usize) -> (r: Result<(i64, usize), String>)
    requires
        pos <= b@.len(),
    ensures
        match (r, get_i64(b@, pos as nat)) {
            (Ok((v, end)), Ok((w, at))) => v == w && end == at && end <= b@.len(),
            (Err(e), Err(_)) => e@ == i64_error(b@, pos as nat),
            _ => false,
        },
{
    let mut d = minicbor::Decoder::new(b);
    d.set_position(pos);
    match d.i64() {
        Ok(v) => Ok((v, d.position())),
        Err(e) => Err(e.to_string()),
    }
}

/// `Decoder::bool`: one byte, false or true.
#[verifier::external_body]
pub(crate) fn read_bool(b: &[u8], pos: usize) -> (r: Result<(bool, usize), String>)
    requires
        pos <= b@.len(),
    ensures
        match (r, get_bool(b@, pos as nat)) {
            (Ok((v, end)), Ok((w, at))) => v == w && end == at && end <= b@.len(),
            (Err(e), Err(_)) => e@ == bool_error(b@, pos as nat),
            _ => false,
        },
{
    let mut d = minicbor::Decoder::new(b);
    d.set_position(pos);
    match d.bool() {
        Ok(v) => Ok((v, d.position())),
        Err(e) => Err(e.to_string()),
    }
}

/// `Decoder::null`: one byte.
#[verifier::external_body]
pub(crate) fn read_null(b: &[u8], pos: usize) -> (r: Result<usize, String>)
    requires
        pos <= b@.len(),
    ensures
        match (r, get_null(b@, pos as nat)) {
            (Ok(end), Ok(at)) => end == at && pos < end <= b@.len(),
            (Err(e), Err(_)) => e@ == null_error(b@, pos as nat),
            _ => false,
        },
{
    let mut d = minicbor::Decoder::new(b);
    d.set_position(pos);
    match d.null() {
        Ok(_) => Ok(d.position()),
        Err(e) => Err(e.to_string()),
    }
}

/// `Decoder::bytes`: a byte string of definite length that the buffer holds.
#[verifier::external_body]
pub(crate) fn read_bytes(b: &[u8], pos: usize) -> (r: Result<(Vec<u8>, usize), String>)
    requires
        pos <= b@.len(),
    ensures
        match (r, get_bytes(b@, pos as nat)) {
            (Ok((v, end)), Ok((w, at))) => v@ == w && end == at && end <= b@.len(),
            (Err(e), Err(_)) => e@ == bytes_error(b@, pos as nat),
            _ => false,
        },
{
    let mut d = minicbor::Decoder::new(b);
    d.set_position(pos);
    match d.bytes() {
        Ok(v) => Ok((v.to_vec(), d.position())),
        Err(e) => Err(e.to_string()),
    }
}

/// `Decoder::str`: a text of definite length that the buffer holds, in UTF-8.
#[verifier::external_body]
pub(crate) fn read_str(b: &[u8], pos: usize) -> (r: Result<(String, usize), String>)
    requires
        pos <= b@.len(),
    ensures
        match (r, get_str(b@, pos as nat)) {
            (Ok((v, end)), Ok((w, at))) => v@ == w && end == at && end <= b@.len(),
            (Err(e), Err(_)) => e@ == str_error(b@, pos as nat),
            _ => false,
        },
{
    let mut d = minicbor::Decoder::new(b);
    d.set_position(pos);
    match d.str() {
        Ok(v) => Ok((v.to_owned(), d.position())),
        Err(e) => Err(e.to_string()),
    }
}

/// `Decoder::array`: the head of an array; `None` for an indefinite one.
#[verifier::external_body]
pub(crate) fn read_array(b: &[u8], pos: usize) -> (r: Result<(Option<u64>, usize), String>)
    requires
        pos <= b@.len(),
    ensures
        match (r, get_array(b@, pos as nat)) {
            (Ok((v, end)), Ok((w, at))) => v == w && end == at && end <= b@.len(),
            (Err(e), Err(_)) => e@ == array_error(b@, pos as nat),
            _ => false,
        },
{
    let mut d = minicbor::Decoder::new(b);
    d.set_position(pos);
    match d.array() {
        Ok(v) => Ok((v, d.position())),
        Err(e) => Err(e.to_string()),
    }
}

/// `Decoder::map`: the head of a map; `None` for an indefinite one.
#[verifier::external_body]
pub(crate) fn read_map(b: &[u8], pos: usize) -> (r: Result<(Option<u64>, usize), String>)
    requires
        pos <= b@.len(),
    ensures
        match (r, get_map(b@, pos as nat)) {
            (Ok((v, end)), Ok((w, at))) => v == w && end == at && end <= b@.len(),
            (Err(e), Err(_)) => e@ == map_error(b@, pos as nat),
            _ => false,
        },
{
    let mut d = minicbor::Decoder::new(b);
    d.set_position(pos);
    match d.map() {
        Ok(v) => Ok((v, d.position())),
        Err(e) => Err(e.to_string()),
    }
}

/// `Decoder::tag`: the head of a tag.
#[verifier::external_body]
pub(crate) fn read_tag(b: &[u8], pos: usize) -> (r: Result<(u64, usize), String>)
    requires
        pos <= b@.len(),
    ensures
        match (r, get_tag(b@, pos as nat)) {
            (Ok((v, end)), Ok((w, at))) => v == w && end == at && end <= b@.len(),
            (Err(e), Err(_)) => e@ == tag_error(b@, pos as nat),
            _ => false,
        },
{
    let mut d = minicbor::Decoder::new(b);
    d.set_position(pos);
    match d.tag() {
        Ok(v) => Ok((v.as_u64(), d.position())),
        Err(e) => Err(e.to_string()),
    }
}

/// `Decoder::datatype`: the name of the type of the item, read off its first
/// byte, and for long negative integers the second.
#[verifier::external_body]
pub(crate) fn read_datatype(b: &[u8], pos: usize) -> (r: Result<String, String>)
    requires
        pos <= b@.len(),
    ensures
        match (r, get_kind(b@, pos as nat)) {
            (Ok(v), Ok(w)) => v@ == w,
            (Err(e), Err(_)) => e@ == datatype_error(b@, pos as nat),
            _ => false,
        },
{
    let mut d = minicbor::Decoder::new(b);
    d.set_position(pos);
    match d.datatype() {
        Ok(v) => Ok(format!("{v:?}")),
        Err(e) => Err(e.to_string()),
    }
}

/// `Decoder::skip`: the position behind the item, under the name [`skipped`].
/// An item has at least one byte and lies within the buffer. What stands behind
/// an item is not looked at: the stretch that is stepped over is an item by
/// itself, no shorter one is, and where the step fails there is none. Null and
/// undefined are one byte. A single or double precision number is its first
/// byte and four or eight more.
#[verifier::external_body]
pub(crate) fn skip_item(b: &[u8], pos: usize) -> (r: Result<usize, String>)
    requires
        pos <= b@.len(),
    ensures
        match (r, skipped(b@, pos as nat)) {
            (Ok(end), Ok(at)) => end == at && pos < end <= b@.len(),
            (Err(e), Err(m)) => e@ == m,
            _ => false,
        },
        match r {
            Ok(end) => item_ends(b@, pos as nat, end as nat),
            Err(_) => forall|end: int|
                pos <= end <= b@.len() ==> !is_item(#[trigger] b@.subrange(pos as int, end)),
        },
        pos < b@.len() && b@[pos as int] == 0xf6 ==> (r is Ok && r->Ok_0 == pos + 1),
        pos < b@.len() && b@[pos as int] == 0xf7 ==> (r is Ok && r->Ok_0 == pos + 1),
        pos < b@.len() && b@[pos as int] == 0xfa ==> ((r is Ok <==> pos + 5 <= b@.len()) && (
        r matches Ok(end) ==> end == pos + 5)),
        pos < b@.len() && b@[pos as int] == 0xfb ==> ((r is Ok <==> pos + 9 <= b@.len()) && (
        r matches Ok(end) ==> end == pos + 9)),
{
    let mut d = minicbor::Decoder::new(b);
    d.set_position(pos);
    match d.skip() {
        Ok(_) => Ok(d.position()),
        Err(e) => Err(e.to_string()),
    }
}

/// Steps over the item at a position.
pub(crate) fn step_over(b: &[u8], pos: usize) -> (r: Result<usize, String>)
    requires
        pos <= b@.len(),
    ensures
        match (r, get_skip(b@, pos as nat)) {
            (Ok(end), Ok(at)) => end == at && pos < end <= b@.len(),
            (Err(e), Err(m)) => e@ == m,
            _ => false,
        },
{
    let r = skip_item(b, pos);
    proof {
        match r {
            Ok(end) => {
                lemma_item_end(b@, pos as nat, end as nat);
            },
            Err(_) => {
                assert forall|end: nat| !item_ends(b@, pos as nat, end) by {
                    if item_ends(b@, pos as nat, end) {
                        assert(is_item(b@.subrange(pos as int, end as int)));
                    }
                }
            },
        }
    }
    r
}

/// An item ends in one place.
proof fn lemma_item_end(b: Seq<u8>, pos: nat, end: nat)
    requires
        item_ends(b, pos, end),
    ensures
        get_skip(b, pos) == Ok::<nat, Seq<char>>(end),
{
    let other = choose|end: nat| item_ends(b, pos, end);
    assert(item_ends(b, pos, other));
    if other < end {
        assert(!is_item(b.subrange(pos as int, other as int)));
    } else if end < other {
        assert(!is_item(b.subrange(pos as int, end as int)));
    }
}

/// Two buffers hold the same bytes up to here.
pub open spec fn agree(b: Seq<u8>, c: Seq<u8>, end: nat) -> bool {
    end <= b.len() && end <= c.len() && b.take(end as int) == c.take(end as int)
}

proof fn lemma_agree(b: Seq<u8>, c: Seq<u8>, end: nat, x: nat, y: nat)
    requires
        agree(b, c, end),
        x <= y <= end,
    ensures
        b.subrange(x as int, y as int) == c.subrange(x as int, y as int),
{
    assert(b.subrange(x as int, y as int) =~= b.take(end as int).subrange(x as int, y as int));
    assert(c.subrange(x as int, y as int) =~= c.take(end as int).subrange(x as int, y as int));
}

proof fn lemma_argument_local(s: Seq<u8>, t: Seq<u8>)
    requires
        argument(s) is Some,
        (argument(s)->0).1 <= t.len(),
        s.take((argument(s)->0).1 as int) == t.take((argument(s)->0).1 as int),
    ensures
        argument(t) == argument(s),
        1 <= (argument(s)->0).1 <= s.len(),
        s[0] == t[0],
{
    let k = (argument(s)->0).1 as int;
    assert(1 <= k <= s.len());
    assert(s.take(k)[0] == s[0] && t.take(k)[0] == t[0]);
    if k > 1 {
        assert(s.subrange(1, k) =~= s.take(k).subrange(1, k));
        assert(t.subrange(1, k) =~= t.take(k).subrange(1, k));
    }
}

/// Reading depends on nothing behind what is read.
pub proof fn lemma_head_local(b: Seq<u8>, c: Seq<u8>, pos: nat, end: nat)
    requires
        pos <= end,
        agree(b, c, end),
    ensures
        get_u8(b, pos) matches Ok((_, at)) ==> pos < at && (at <= end ==> get_u8(c, pos) == get_u8(
            b,
            pos,
        )),
        get_map(b, pos) matches Ok((_, at)) ==> pos < at && (at <= end ==> get_map(c, pos)
            == get_map(b, pos)),
{
    let s = from(b, pos);
    let t = from(c, pos);
    if argument(s) is Some && pos + (argument(s)->0).1 <= end {
        let k = (argument(s)->0).1;
        lemma_agree(b, c, end, pos, pos + k);
        assert(s.take(k as int) =~= b.subrange(pos as int, (pos + k) as int));
        assert(t.take(k as int) =~= c.subrange(pos as int, (pos + k) as int));
        lemma_argument_local(s, t);
    }
    if s.len() > 0 && pos + 1 <= end {
        lemma_agree(b, c, end, pos, pos + 1);
        assert(s[0] == b.subrange(pos as int, pos as int + 1)[0]);
        assert(t[0] == c.subrange(pos as int, pos as int + 1)[0]);
    }
}

/// Reading depends on nothing behind what is read.
pub proof fn lemma_string_local(b: Seq<u8>, c: Seq<u8>, pos: nat, end: nat)
    requires
        pos <= end,
        agree(b, c, end),
    ensures
        get_bytes(b, pos) matches Ok((_, at)) ==> pos < at && (at <= end ==> get_bytes(c, pos)
            == get_bytes(b, pos)),
        get_str(b, pos) matches Ok((_, at)) ==> pos < at && (at <= end ==> get_str(c, pos)
            == get_str(b, pos)),
{
    let s = from(b, pos);
    let t = from(c, pos);
    if argument(s) is Some {
        let (n, k) = argument(s)->0;
        assert(k >= 1);
        if pos + k + n <= end {
            lemma_agree(b, c, end, pos, pos + k);
            assert(s.take(k as int) =~= b.subrange(pos as int, (pos + k) as int));
            assert(t.take(k as int) =~= c.subrange(pos as int, (pos + k) as int));
            lemma_argument_local(s, t);
            lemma_agree(b, c, end, pos + k, pos + k + n);
            assert(s.subrange(k as int, (k + n) as int) =~= b.subrange(
                (pos + k) as int,
                (pos + k + n) as int,
            ));
            assert(t.subrange(k as int, (k + n) as int) =~= c.subrange(
                (pos + k) as int,
                (pos + k + n) as int,
            ));
        }
    }
}

/// Stepping over an item depends on nothing behind it.
pub proof fn lemma_skip_local(b: Seq<u8>, c: Seq<u8>, pos: nat, end: nat)
    requires
        agree(b, c, end),
    ensures
        get_skip(b, pos) matches Ok(at) ==> pos <= at && (at <= end ==> get_skip(c, pos) == get_skip(
            b,
            pos,
        )),
{
    if let Ok(at) = get_skip(b, pos) {
        assert(item_ends(b, pos, at));
        if at <= end {
            lemma_agree(b, c, end, pos, at);
            assert forall|k: int| pos <= k < at implies !is_item(
                #[trigger] c.subrange(pos as int, k),
            ) by {
                lemma_agree(b, c, end, pos, k as nat);
                assert(!is_item(b.subrange(pos as int, k)));
            }
            lemma_item_end(c, pos, at);
        }
    }
}

/// Big-endian bytes give the number back.
pub proof fn lemma_be(n: nat, k: nat)
    ensures
        be(n, k).len() == k,
        n < pow256(k) ==> un_be(be(n, k)) == n,
    decreases k,
{
    if k > 0 {
        lemma_be(n / 256, (k - 1) as nat);
        assert(be(n, k).drop_last() =~= be(n / 256, (k - 1) as nat));
        if n < pow256(k) {
            assert(n / 256 < pow256((k - 1) as nat));
        }
    }
}

/// Bytes are the big-endian form of the number they stand for.
pub proof fn lemma_un_be(s: Seq<u8>)
    ensures
        be(un_be(s), s.len()) == s,
        un_be(s) < pow256(s.len()),
    decreases s.len(),
{
    if s.len() > 0 {
        lemma_un_be(s.drop_last());
        let n = un_be(s);
        assert(n / 256 == un_be(s.drop_last()));
        assert(n % 256 == s.last() as nat);
        assert(be(n, s.len()) =~= s);
    } else {
        assert(be(un_be(s), s.len()) =~= s);
    }
}

/// 256 to the power of `k`.
pub open spec fn pow256(k: nat) -> nat
    decreases k,
{
    if k == 0 {
        1
    } else {
        256 * pow256((k - 1) as nat)
    }
}

/// A head reads back, whatever follows it.
pub proof fn lemma_head(major: nat, n: nat, rest: Seq<u8>)
    requires
        major < 8,
        n <= u64::MAX,
    ensures
        head(major, n).len() > 0,
        argument(head(major, n) + rest) == Some((n, head(major, n).len())),
        is_major(head(major, n) + rest, major),
        (head(major, n) + rest)[0] % 32 < 28,
{
    let s = head(major, n) + rest;
    let k: nat = if n < 24 {
        0
    } else if n < 0x100 {
        1
    } else if n < 0x1_0000 {
        2
    } else if n < 0x1_0000_0000 {
        4
    } else {
        8
    };
    reveal_with_fuel(pow256, 9);
    lemma_be(n, k);
    if k > 0 {
        assert(s.subrange(1, 1 + k as int) =~= be(n, k));
    }
}

/// An unsigned integer reads back.
pub proof fn lemma_uint(n: nat, rest: Seq<u8>)
    requires
        n <= u64::MAX,
    ensures
        take_uint(uint(n) + rest) == Some((n, uint(n).len())),
        uint(n).len() > 0,
        (uint(n) + rest).skip(uint(n).len() as int) == rest,
{
    lemma_head(0, n, rest);
    assert((uint(n) + rest).skip(uint(n).len() as int) =~= rest);
}

/// A byte string reads back.
pub proof fn lemma_blob(b: Seq<u8>, rest: Seq<u8>)
    requires
        b.len() <= u64::MAX,
    ensures
        take_string(blob(b) + rest, 2) == Some((b, blob(b).len())),
        blob(b).len() > 0,
        (blob(b) + rest).skip(blob(b).len() as int) == rest,
        kind_name(blob(b) + rest) == Some("Bytes"@),
{
    lemma_head(2, b.len(), b + rest);
    assert(blob(b) + rest =~= head(2, b.len()) + (b + rest));
    let k = head(2, b.len()).len() as int;
    assert((blob(b) + rest).subrange(k, k + b.len()) =~= b);
    assert((blob(b) + rest).skip(blob(b).len() as int) =~= rest);
}

/// A text reads back.
pub proof fn lemma_text(t: Seq<char>, rest: Seq<u8>)
    requires
        encode_utf8(t).len() <= u64::MAX,
    ensures
        take_text(text(t) + rest) == Some((t, text(t).len())),
        text(t).len() > 0,
        (text(t) + rest).skip(text(t).len() as int) == rest,
{
    let b = encode_utf8(t);
    lemma_head(3, b.len(), b + rest);
    assert(text(t) + rest =~= head(3, b.len()) + (b + rest));
    let k = head(3, b.len()).len() as int;
    assert((text(t) + rest).subrange(k, k + b.len()) =~= b);
    assert((text(t) + rest).skip(text(t).len() as int) =~= rest);
    encode_utf8_valid_utf8(t);
    encode_utf8_decode_utf8(t);
}

/// The head of an array or map reads back.
pub proof fn lemma_count(major: nat, n: nat, rest: Seq<u8>)
    requires
        major < 8,
        n <= u64::MAX,
    ensures
        take_count(head(major, n) + rest, major) == Some((Some(n), head(major, n).len())),
        head(major, n).len() > 0,
        (head(major, n) + rest).skip(head(major, n).len() as int) == rest,
{
    lemma_head(major, n, rest);
    assert((head(major, n) + rest).skip(head(major, n).len() as int) =~= rest);
}

/// What follows an item is what follows its bytes.
proof fn lemma_from(b: Seq<u8>, pos: nat, item: Seq<u8>, rest: Seq<u8>)
    requires
        pos <= b.len(),
        from(b, pos) == item + rest,
    ensures
        pos + item.len() <= b.len(),
        from(b, pos + item.len()) == rest,
{
    let s = b.skip(pos as int);
    assert(s.len() == item.len() + rest.len());
    assert(b.skip((pos + item.len()) as int) =~= rest) by {
        assert forall|i: int| 0 <= i < rest.len() implies b.skip((pos + item.len()) as int)[i]
            == rest[i] by {
            assert(s[item.len() + i] == rest[i]);
        }
    }
}

/// An unsigned integer at a position is read back.
pub proof fn lemma_get_uint(b: Seq<u8>, pos: nat, n: nat, rest: Seq<u8>)
    requires
        pos <= b.len(),
        n <= u64::MAX,
        from(b, pos) == uint(n) + rest,
    ensures
        n <= 255 ==> get_u8(b, pos) == Ok::<(u8, nat), Seq<char>>((n as u8, pos + uint(n).len())),
        get_u64(b, pos) == Ok::<(u64, nat), Seq<char>>((n as u64, pos + uint(n).len())),
        pos + uint(n).len() <= b.len(),
        from(b, pos + uint(n).len()) == rest,
{
    lemma_uint(n, rest);
    lemma_from(b, pos, uint(n), rest);
}

/// A byte string at a position is read back.
pub proof fn lemma_get_bytes(b: Seq<u8>, pos: nat, v: Seq<u8>, rest: Seq<u8>)
    requires
        pos <= b.len(),
        v.len() <= u64::MAX,
        from(b, pos) == blob(v) + rest,
    ensures
        get_bytes(b, pos) == Ok::<(Seq<u8>, nat), Seq<char>>((v, pos + blob(v).len())),
        get_kind(b, pos) == Ok::<Seq<char>, Seq<char>>("Bytes"@),
        pos + blob(v).len() <= b.len(),
        from(b, pos + blob(v).len()) == rest,
{
    lemma_blob(v, rest);
    lemma_from(b, pos, blob(v), rest);
}

/// A text at a position is read back.
pub proof fn lemma_get_str(b: Seq<u8>, pos: nat, t: Seq<char>, rest: Seq<u8>)
    requires
        pos <= b.len(),
        encode_utf8(t).len() <= u64::MAX,
        from(b, pos) == text(t) + rest,
    ensures
        get_str(b, pos) == Ok::<(Seq<char>, nat), Seq<char>>((t, pos + text(t).len())),
        pos + text(t).len() <= b.len(),
        from(b, pos + text(t).len()) == rest,
{
    lemma_text(t, rest);
    lemma_from(b, pos, text(t), rest);
}

/// The head of an array at a position is read back.
pub proof fn lemma_get_array(b: Seq<u8>, pos: nat, n: nat, rest: Seq<u8>)
    requires
        pos <= b.len(),
        n <= u64::MAX,
        from(b, pos) == head(4, n) + rest,
    ensures
        get_array(b, pos) == Ok::<(Option<u64>, nat), Seq<char>>(
            (Some(n as u64), pos + head(4, n).len()),
        ),
        get_kind(b, pos) == Ok::<Seq<char>, Seq<char>>("Array"@),
        pos + head(4, n).len() <= b.len(),
        from(b, pos + head(4, n).len()) == rest,
{
    lemma_count(4, n, rest);
    lemma_head(4, n, rest);
    lemma_from(b, pos, head(4, n), rest);
}

/// The head of a map at a position is read back.
pub proof fn lemma_get_map(b: Seq<u8>, pos: nat, n: nat, rest: Seq<u8>)
    requires
        pos <= b.len(),
        n <= u64::MAX,
        from(b, pos) == head(5, n) + rest,
    ensures
        get_map(b, pos) == Ok::<(Option<u64>, nat), Seq<char>>(
            (Some(n as u64), pos + head(5, n).len()),
        ),
        pos + head(5, n).len() <= b.len(),
        from(b, pos + head(5, n).len()) == rest,
{
    lemma_count(5, n, rest);
    lemma_from(b, pos, head(5, n), rest);
}

/// A null at a position is read back.
pub proof fn lemma_get_null(b: Seq<u8>, pos: nat, rest: Seq<u8>)
    requires
        pos <= b.len(),
        from(b, pos) == null() + rest,
    ensures
        get_null(b, pos) == Ok::<nat, Seq<char>>(pos + 1),
        get_kind(b, pos) == Ok::<Seq<char>, Seq<char>>("Null"@),
        pos + 1 <= b.len(),
        from(b, pos + 1) == rest,
{
    lemma_from(b, pos, null(), rest);
    assert(from(b, pos)[0] == 0xf6);
}

/// Concatenation is associative.
pub proof fn lemma_assoc(a: Seq<u8>, b: Seq<u8>, c: Seq<u8>)
    ensures
        (a + b) + c == a + (b + c),
{
    assert((a + b) + c =~= a + (b + c));
}

} // verus!
