//! Crockford base32 ULID text.
use crate::text;
use vstd::prelude::*;

verus! {

/// The alphabet's character for a value below 32.
pub open spec fn symbol(d: nat) -> u8 {
    if d < 10 {
        (48 + d) as u8
    } else if d < 18 {
        (65 + d - 10) as u8
    } else if d < 20 {
        (74 + d - 18) as u8
    } else if d < 22 {
        (77 + d - 20) as u8
    } else if d < 27 {
        (80 + d - 22) as u8
    } else {
        (86 + d - 27) as u8
    }
}

/// The value of an ASCII byte, in either case; `None` outside the alphabet.
pub open spec fn symbol_value(b: u8) -> Option<nat> {
    let u = if 97 <= b <= 122 {
        b - 32
    } else {
        b as int
    };
    if 48 <= u <= 57 {
        Some((u - 48) as nat)
    } else if 65 <= u <= 72 {
        Some((u - 65 + 10) as nat)
    } else if 74 <= u <= 75 {
        Some((u - 74 + 18) as nat)
    } else if 77 <= u <= 78 {
        Some((u - 77 + 20) as nat)
    } else if 80 <= u <= 84 {
        Some((u - 80 + 22) as nat)
    } else if 86 <= u <= 90 {
        Some((u - 86 + 27) as nat)
    } else {
        None
    }
}

/// The last `n` base32 digits of `v`, most significant first.
pub open spec fn digits(v: nat, n: nat) -> Seq<u8>
    decreases n,
{
    if n == 0 {
        Seq::empty()
    } else {
        digits(v / 32, (n - 1) as nat).push(symbol(v % 32))
    }
}

/// The number that base32 text stands for; `None` with a byte outside the
/// alphabet.
pub open spec fn number(s: Seq<u8>) -> Option<nat>
    decreases s.len(),
{
    if s.len() == 0 {
        Some(0)
    } else {
        match (number(s.drop_last()), symbol_value(s.last())) {
            (Some(v), Some(d)) => Some(v * 32 + d),
            _ => None,
        }
    }
}

/// The 26 characters of a ULID.
pub open spec fn ulid_text(v: u128) -> Seq<char> {
    text::ascii_chars(digits(v as nat, 26))
}

/// 2 to the power of 128.
pub open spec fn modulus() -> nat {
    0x1_0000_0000_0000_0000_0000_0000_0000_0000nat
}

/// What reading a ULID gives: the number modulo 2 to the power of 128.
pub open spec fn parse(s: Seq<u8>) -> Result<u128, Seq<char>> {
    if s.len() != 26 {
        Err("ULID must be exactly 26 characters"@)
    } else {
        match number(s) {
            Some(v) => Ok((v % modulus()) as u128),
            None => Err("malformed Crockford base32 ULID"@),
        }
    }
}

proof fn lemma_symbol(d: nat)
    requires
        d < 32,
    ensures
        symbol_value(symbol(d)) == Some(d),
        symbol(d) < 128,
{
}

spec fn pow32(n: nat) -> nat
    decreases n,
{
    if n == 0 {
        1
    } else {
        32 * pow32((n - 1) as nat)
    }
}

proof fn lemma_digits(v: nat, n: nat)
    ensures
        digits(v, n).len() == n,
        text::is_ascii_bytes(digits(v, n)),
        v < pow32(n) ==> number(digits(v, n)) == Some(v),
    decreases n,
{
    if n > 0 {
        lemma_digits(v / 32, (n - 1) as nat);
        lemma_symbol(v % 32);
        let d = digits(v, n);
        assert(d.drop_last() =~= digits(v / 32, (n - 1) as nat));
        if v < pow32(n) {
            assert(v / 32 < pow32((n - 1) as nat));
        }
    }
}

/// Reading back the text of a ULID gives the ULID.
pub proof fn ulid_round_trip(v: u128)
    ensures
        ulid_text(v).len() == 26,
        parse(vstd::utf8::encode_utf8(ulid_text(v))) == Ok::<u128, Seq<char>>(v),
{
    lemma_digits(v as nat, 26);
    text::lemma_ascii_utf8(digits(v as nat, 26));
    assert(v < pow32(26)) by {
        reveal_with_fuel(pow32, 27);
    }
}

/// Encode a `u128` as a 26-character Crockford base32 ULID.
#[must_use]
pub fn encode(value: u128) -> (r: String)
    ensures
        r@ == ulid_text(value),
{
    let buf = encode_digits(value, 26);
    proof {
        lemma_digits(value as nat, 26);
    }
    text::ascii_string(buf)
}

fn encode_digits(value: u128, n: u8) -> (r: Vec<u8>)
    ensures
        r@ == digits(value as nat, n as nat),
    decreases n,
{
    if n == 0 {
        return Vec::new();
    }
    let mut out = encode_digits(value / 32, n - 1);
    let d: u8 = (value % 32) as u8;
    let c: u8 = if d < 10 {
        48 + d
    } else if d < 18 {
        65 + (d - 10)
    } else if d < 20 {
        74 + (d - 18)
    } else if d < 22 {
        77 + (d - 20)
    } else if d < 27 {
        80 + (d - 22)
    } else {
        86 + (d - 27)
    };
    out.push(c);
    out
}

/// Decode a 26-character Crockford base32 ULID into a `u128`.
pub fn decode(s: &str) -> (r: Result<u128, &'static str>)
    ensures
        match (r, parse(vstd::utf8::encode_utf8(s@))) {
            (Ok(v), Ok(w)) => v == w,
            (Err(e), Err(f)) => e@ == f,
            _ => false,
        },
{
    decode_bytes(s.as_bytes())
}

/// Decode the bytes of a ULID text.
pub fn decode_bytes(b: &[u8]) -> (r: Result<u128, &'static str>)
    ensures
        match (r, parse(b@)) {
            (Ok(v), Ok(w)) => v == w,
            (Err(e), Err(f)) => e@ == f,
            _ => false,
        },
{
    if b.len() != 26 {
        return Err("ULID must be exactly 26 characters");
    }
    let mut value: u128 = 0;
    let mut i: usize = 0;
    proof {
        assert(b@.take(0) =~= Seq::<u8>::empty());
    }
    while i < b.len()
        invariant
            b@.len() == 26,
            0 <= i <= b.len(),
            number(b@.take(i as int)) is Some,
            value as nat == number(b@.take(i as int))->0 % modulus(),
        decreases b.len() - i,
    {
        let c = b[i];
        let u: u8 = if 97 <= c && c <= 122 {
            c - 32
        } else {
            c
        };
        let idx: u8 = if 48 <= u && u <= 57 {
            u - 48
        } else if 65 <= u && u <= 72 {
            u - 65 + 10
        } else if 74 <= u && u <= 75 {
            u - 74 + 18
        } else if 77 <= u && u <= 78 {
            u - 77 + 20
        } else if 80 <= u && u <= 84 {
            u - 80 + 22
        } else if 86 <= u && u <= 90 {
            u - 86 + 27
        } else {
            proof {
                assert(symbol_value(c) is None);
                lemma_number_prefix(b@, i as int);
            }
            return Err("malformed Crockford base32 ULID");
        };
        proof {
            assert(b@.take(i as int + 1).drop_last() =~= b@.take(i as int));
            assert(b@.take(i as int + 1).last() == c);
            lemma_shift(number(b@.take(i as int))->0, idx as nat);
        }
        value = (value % 0x0800_0000_0000_0000_0000_0000_0000_0000) * 32 + idx as u128;
        i += 1;
    }
    assert(b@.take(26) =~= b@);
    Ok(value)
}

/// A byte outside the alphabet spoils the whole text.
proof fn lemma_number_prefix(s: Seq<u8>, i: int)
    requires
        0 <= i < s.len(),
        symbol_value(s[i]) is None,
    ensures
        number(s) is None,
    decreases s.len(),
{
    if i < s.len() - 1 {
        lemma_number_prefix(s.drop_last(), i);
    }
}

proof fn lemma_shift(v: nat, d: nat)
    requires
        d < 32,
    ensures
        (((v % modulus()) % 0x0800_0000_0000_0000_0000_0000_0000_0000nat) * 32 + d) == (v * 32 + d)
            % modulus(),
{
    let h: int = 0x0800_0000_0000_0000_0000_0000_0000_0000int;
    let m = modulus() as int;
    let vi = v as int;
    assert(m == 32 * h);
    let q = vi / h;
    let r = vi % h;
    assert(vi == h * q + r) by {
        vstd::arithmetic::div_mod::lemma_fundamental_div_mod(vi, h);
    }
    assert((vi % m) % h == vi % h) by {
        vstd::arithmetic::div_mod::lemma_mod_mod(vi, h, 32);
    }
    assert(vi * 32 + d == m * q + (r * 32 + d)) by (nonlinear_arith)
        requires
            vi == h * q + r,
            m == 32 * h,
    ;
    vstd::arithmetic::div_mod::lemma_fundamental_div_mod_converse(
        vi * 32 + d,
        m,
        q,
        r * 32 + d,
    );
}

/// The alphabet: the digits, then the letters without I, L, O and U, in
/// ascending order; lowercase letters read as their capitals.
pub proof fn alphabet_is_crockford(b: u8)
    ensures
        symbol_value(b) is Some <==> {
            let c = b as char;
            ('0' <= c <= '9') || (('A' <= c <= 'Z') && c != 'I' && c != 'L' && c != 'O' && c != 'U')
                || (('a' <= c <= 'z') && c != 'i' && c != 'l' && c != 'o' && c != 'u')
        },
        'A' <= b as char <= 'Z' ==> symbol_value(b) == symbol_value((b + 32) as u8),
        symbol(10) == 'A' as u8,
        symbol(31) == 'Z' as u8,
        forall|d: nat, e: nat| d < e < 32 ==> #[trigger] symbol(d) < #[trigger] symbol(e),
{
}

/// The texts of ULIDs stand in the order of their numbers: at the first place
/// where two differ, the smaller number has the smaller character.
pub proof fn ulid_texts_ascend(v: u128, w: u128) -> (k: int)
    requires
        v < w,
    ensures
        0 <= k < 26,
        forall|i: int| 0 <= i < k ==> #[trigger] ulid_text(v)[i] == ulid_text(w)[i],
        ulid_text(v)[k] < ulid_text(w)[k],
{
    reveal_with_fuel(pow32, 27);
    lemma_digits(v as nat, 26);
    lemma_digits(w as nat, 26);
    let k = lemma_digits_ascend(v as nat, w as nat, 26);
    let (a, b) = (digits(v as nat, 26), digits(w as nat, 26));
    assert(ulid_text(v)[k] == a[k] as char);
    assert(ulid_text(w)[k] == b[k] as char);
    assert(a[k] < 128 && b[k] < 128);
    k
}

proof fn lemma_digits_ascend(v: nat, w: nat, n: nat) -> (k: int)
    requires
        v < w,
        w < pow32(n),
    ensures
        0 <= k < n,
        forall|i: int| 0 <= i < k ==> #[trigger] digits(v, n)[i] == digits(w, n)[i],
        digits(v, n)[k] < digits(w, n)[k],
    decreases n,
{
    let m = (n - 1) as nat;
    lemma_digits(v / 32, m);
    lemma_digits(w / 32, m);
    if v / 32 < w / 32 {
        let k = lemma_digits_ascend(v / 32, w / 32, m);
        assert forall|i: int| 0 <= i < k implies #[trigger] digits(v, n)[i] == digits(w, n)[i] by {
            assert(digits(v, n)[i] == digits(v / 32, m)[i]);
            assert(digits(w, n)[i] == digits(w / 32, m)[i]);
        }
        k
    } else {
        assert(v / 32 == w / 32);
        alphabet_is_crockford(0);
        m as int
    }
}

/// A ULID is read from exactly twenty-six characters of the alphabet.
pub proof fn ulids_are_twenty_six_characters(s: Seq<u8>)
    ensures
        parse(s) is Ok <==> s.len() == 26 && forall|i: int|
            0 <= i < s.len() ==> symbol_value(#[trigger] s[i]) is Some,
        s.len() != 26 ==> parse(s) == Err::<u128, Seq<char>>(
            "ULID must be exactly 26 characters"@,
        ),
{
    lemma_number_reads(s);
}

proof fn lemma_number_reads(s: Seq<u8>)
    ensures
        number(s) is Some <==> forall|i: int|
            0 <= i < s.len() ==> symbol_value(#[trigger] s[i]) is Some,
    decreases s.len(),
{
    if s.len() > 0 {
        let d = s.drop_last();
        lemma_number_reads(d);
        if number(s) is Some {
            assert forall|i: int| 0 <= i < s.len() implies symbol_value(
                #[trigger] s[i],
            ) is Some by {
                if i < d.len() {
                    assert(d[i] == s[i]);
                }
            }
        }
        if forall|i: int| 0 <= i < s.len() ==> symbol_value(#[trigger] s[i]) is Some {
            assert forall|i: int| 0 <= i < d.len() implies symbol_value(
                #[trigger] d[i],
            ) is Some by {
                assert(s[i] == d[i]);
            }
            assert(symbol_value(s[s.len() - 1]) is Some);
        }
    }
}

} // verus!
