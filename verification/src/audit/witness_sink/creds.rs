//! Sink credentials.
use super::{SinkError, SinkFault};
use crate::chars;
use crate::chars::Class;
use crate::text;
use vstd::prelude::*;

verus! {

/// `SigV4` credentials.
///
/// Accepted lines (any order, `#` comments, `KEY=VALUE` or `key = value`):
/// `access_key_id`, `secret_access_key`, optional `session_token`, optional
/// `region` (default `us-east-1`), optional `service` (default `s3`).
#[derive(Clone, Debug, PartialEq, Eq)]
pub struct SigV4Creds {
    pub access_key_id: String,
    pub secret_access_key: String,
    pub session_token: Option<String>,
    pub region: String,
    pub service: String,
}

/// What [`SigV4Creds`] say.
pub ghost struct CredsModel {
    pub access_key_id: Seq<char>,
    pub secret_access_key: Seq<char>,
    pub session_token: Option<Seq<char>>,
    pub region: Seq<char>,
    pub service: Seq<char>,
}

/// An optional text.
pub open spec fn opt_text(s: Option<String>) -> Option<Seq<char>> {
    match s {
        Some(x) => Some(x@),
        None => None,
    }
}

impl View for SigV4Creds {
    type V = CredsModel;

    open spec fn view(&self) -> CredsModel {
        CredsModel {
            access_key_id: self.access_key_id@,
            secret_access_key: self.secret_access_key@,
            session_token: opt_text(self.session_token),
            region: self.region@,
            service: self.service@,
        }
    }
}

/// The settings read so far.
pub ghost struct Settings {
    pub access_key_id: Option<Seq<char>>,
    pub secret_access_key: Option<Seq<char>>,
    pub session_token: Option<Seq<char>>,
    pub region: Option<Seq<char>>,
    pub service: Option<Seq<char>>,
}

/// A character in lower case, if it is an ASCII letter, with `_` for `-`.
pub open spec fn key_char(c: char) -> char {
    if 'A' <= c <= 'Z' {
        ((c as u8) + 32) as char
    } else if c == '-' {
        '_'
    } else {
        c
    }
}

/// A key as it is compared.
pub open spec fn plain_key(s: Seq<char>) -> Seq<char> {
    let t = chars::trimmed(s, Class::Space);
    Seq::new(t.len(), |i: int| key_char(t[i]))
}

/// A value without the spaces and quotes around it.
pub open spec fn plain_value(s: Seq<char>) -> Seq<char> {
    chars::trimmed(chars::trimmed(s, Class::Space), Class::Only('"'))
}

/// The settings after one more line. A line that is empty, a comment, a
/// section or without `=` says nothing; unknown keys are ignored.
pub open spec fn with_line(m: Settings, raw: Seq<char>) -> Settings {
    let line = chars::trimmed(raw, Class::Space);
    if line.len() == 0 || line[0] == '#' || line[0] == '[' {
        m
    } else {
        match chars::first_of(line, '=') {
            None => m,
            Some(i) => {
                let k = plain_key(line.take(i as int));
                let v = Some(plain_value(line.skip(i as int + 1)));
                if k == "access_key_id"@ || k == "aws_access_key_id"@ {
                    Settings { access_key_id: v, ..m }
                } else if k == "secret_access_key"@ || k == "aws_secret_access_key"@ {
                    Settings { secret_access_key: v, ..m }
                } else if k == "session_token"@ || k == "aws_session_token"@ {
                    Settings { session_token: v, ..m }
                } else if k == "region"@ || k == "aws_region"@ {
                    Settings { region: v, ..m }
                } else if k == "service"@ {
                    Settings { service: v, ..m }
                } else {
                    m
                }
            },
        }
    }
}

/// The settings after lines.
pub open spec fn with_lines(lines: Seq<Seq<char>>) -> Settings
    decreases lines.len(),
{
    if lines.len() == 0 {
        Settings {
            access_key_id: None,
            secret_access_key: None,
            session_token: None,
            region: None,
            service: None,
        }
    } else {
        with_line(with_lines(lines.drop_last()), lines.last())
    }
}

/// A text, or what stands for it.
pub open spec fn or(s: Option<Seq<char>>, other: Seq<char>) -> Seq<char> {
    match s {
        Some(x) => x,
        None => other,
    }
}

/// The credentials in a text, or what is missing.
pub open spec fn parsed(s: Seq<char>) -> Result<CredsModel, SinkFault> {
    let m = with_lines(chars::split(s, '\n'));
    if m.access_key_id is None {
        Err(SinkFault::Creds("missing access_key_id"@))
    } else if m.secret_access_key is None {
        Err(SinkFault::Creds("missing secret_access_key"@))
    } else {
        Ok(
            CredsModel {
                access_key_id: m.access_key_id->0,
                secret_access_key: m.secret_access_key->0,
                session_token: m.session_token,
                region: or(m.region, "us-east-1"@),
                service: or(m.service, "s3"@),
            },
        )
    }
}

struct Fields {
    access_key_id: Option<String>,
    secret_access_key: Option<String>,
    session_token: Option<String>,
    region: Option<String>,
    service: Option<String>,
}

impl View for Fields {
    type V = Settings;

    closed spec fn view(&self) -> Settings {
        Settings {
            access_key_id: opt_text(self.access_key_id),
            secret_access_key: opt_text(self.secret_access_key),
            session_token: opt_text(self.session_token),
            region: opt_text(self.region),
            service: opt_text(self.service),
        }
    }
}

fn key_text(s: &Vec<char>) -> (r: String)
    ensures
        r@ == plain_key(s@),
{
    let t = chars::trim(s, Class::Space);
    let mut out: Vec<char> = Vec::new();
    let mut i: usize = 0;
    while i < t.len()
        invariant
            0 <= i <= t.len(),
            t@ == chars::trimmed(s@, Class::Space),
            out@.len() == i,
            forall|j: int| 0 <= j < i ==> out@[j] == key_char(t@[j]),
        decreases t.len() - i,
    {
        let c = t[i];
        if 'A' <= c && c <= 'Z' {
            out.push(((c as u8) + 32) as char);
        } else if c == '-' {
            out.push('_');
        } else {
            out.push(c);
        }
        i += 1;
    }
    assert(out@ =~= plain_key(s@));
    chars::string_of(&out)
}

fn read_line(fields: &mut Fields, raw: &Vec<char>)
    ensures
        final(fields)@ == with_line(old(fields)@, raw@),
{
    let line = chars::trim(raw, Class::Space);
    if line.len() == 0 || line[0] == '#' || line[0] == '[' {
        return;
    }
    let at: usize = match chars::find_char(&line, '=') {
        Some(i) => i,
        None => {
            return;
        },
    };
    let left = chars::piece(&line, 0, at);
    let right = chars::piece(&line, at + 1, line.len());
    assert(left@ =~= line@.take(at as int));
    assert(right@ =~= line@.skip(at + 1));
    let key = key_text(&left);
    let unspaced = chars::trim(&right, Class::Space);
    let value = Some(chars::string_of(&chars::trim(&unspaced, Class::Only('"'))));
    let k = key.as_str();
    if text::str_eq(k, "access_key_id") || text::str_eq(k, "aws_access_key_id") {
        fields.access_key_id = value;
    } else if text::str_eq(k, "secret_access_key") || text::str_eq(k, "aws_secret_access_key") {
        fields.secret_access_key = value;
    } else if text::str_eq(k, "session_token") || text::str_eq(k, "aws_session_token") {
        fields.session_token = value;
    } else if text::str_eq(k, "region") || text::str_eq(k, "aws_region") {
        fields.region = value;
    } else if text::str_eq(k, "service") {
        fields.service = value;
    }
}

impl SigV4Creds {
    /// The credentials in the text of a credential file.
    pub fn parse(content: &str) -> (r: Result<SigV4Creds, SinkError>)
        ensures
            match (r, parsed(content@)) {
                (Ok(c), Ok(m)) => c@ == m,
                (Err(e), Err(f)) => e@ == f,
                _ => false,
            },
    {
        let cs = text::chars_of(content);
        let lines = chars::split_at(&cs, '\n');
        let ghost all = chars::split(content@, '\n');
        let mut fields = Fields {
            access_key_id: None,
            secret_access_key: None,
            session_token: None,
            region: None,
            service: None,
        };
        let mut i: usize = 0;
        assert(all.take(0) =~= Seq::empty());
        while i < lines.len()
            invariant
                0 <= i <= lines.len(),
                chars::views(lines@) == all,
                fields@ == with_lines(all.take(i as int)),
            decreases lines.len() - i,
        {
            assert(all.take(i as int + 1).drop_last() =~= all.take(i as int));
            assert(all[i as int] == lines@[i as int]@);
            read_line(&mut fields, &lines[i]);
            i += 1;
        }
        assert(all.take(i as int) =~= all);
        let access_key_id = match fields.access_key_id {
            Some(s) => s,
            None => {
                return Err(SinkError::Creds("missing access_key_id".to_owned()));
            },
        };
        let secret_access_key = match fields.secret_access_key {
            Some(s) => s,
            None => {
                return Err(SinkError::Creds("missing secret_access_key".to_owned()));
            },
        };
        let region = match fields.region {
            Some(s) => s,
            None => "us-east-1".to_owned(),
        };
        let service = match fields.service {
            Some(s) => s,
            None => "s3".to_owned(),
        };
        Ok(
            SigV4Creds {
                access_key_id,
                secret_access_key,
                session_token: fields.session_token,
                region,
                service,
            },
        )
    }
}

/// A number below 512 in octal, padded to three digits.
pub open spec fn octal3(n: nat) -> Seq<char> {
    seq![
        text::digit_char(n / 64),
        text::digit_char(n / 8 % 8),
        text::digit_char(n % 8),
    ]
}

fn octal3_string(n: u32) -> (r: String)
    requires
        n < 512,
    ensures
        r@ == octal3(n as nat),
{
    let mut s = text::decimal_string((n / 64) as u64);
    text::push_decimal(&mut s, (n / 8 % 8) as u64);
    text::push_decimal(&mut s, (n % 8) as u64);
    assert(s@ =~= octal3(n as nat));
    s
}

/// Refuses a credential file that group or others may use; `mode` holds the
/// file's permission bits.
pub fn check_mode_0600(path: &str, mode: u32) -> (r: Result<(), SinkError>)
    ensures
        match r {
            Ok(_) => mode % 64 == 0,
            Err(e) => mode % 64 != 0 && e@ == SinkFault::Creds(
                "credential file "@ + path@ + " mode "@ + octal3((mode % 512) as nat)
                    + " is not 0600 (group/other bits set)"@,
            ),
        },
{
    if mode % 64 != 0 {
        let mut s = text::join3("credential file ", path, " mode ");
        s.append(octal3_string(mode % 512).as_str());
        s.append(" is not 0600 (group/other bits set)");
        return Err(SinkError::Creds(s));
    }
    Ok(())
}

/// Where the ends of a text are of no class, nothing is trimmed.
proof fn lemma_untrimmed(s: Seq<char>, k: Class)
    requires
        s.len() == 0 || (!k.has(s[0]) && !k.has(s.last())),
    ensures
        chars::trimmed(s, k) == s,
{
    let (a, b) = chars::trimming_takes_the_ends(s, k);
    if s.len() > 0 {
        if a > 0 {
            assert(k.has(s[0]));
        }
        if b < s.len() {
            assert(k.has(s[s.len() - 1]));
        }
    }
    assert(s.subrange(a, b) =~= s);
}

/// A line `key=value` sets what its key names, with or without `aws_` before
/// it, and nothing else; a key that names nothing sets nothing.
pub proof fn lines_set_what_they_name(m: Settings, key: Seq<char>, value: Seq<char>)
    requires
        key.len() > 0,
        forall|i: int| 0 <= i < key.len() ==> ('a' <= #[trigger] key[i] <= 'z') || key[i] == '_',
        value.len() > 0 ==> !chars::is_space(value[0]) && !chars::is_space(value.last()) && value[0]
            != '"' && value.last() != '"',
    ensures
        ({
            let r = with_line(m, key + seq!['='] + value);
            let v = Some(value);
            let access = key == "access_key_id"@ || key == "aws_access_key_id"@;
            let secret = key == "secret_access_key"@ || key == "aws_secret_access_key"@;
            let token = key == "session_token"@ || key == "aws_session_token"@;
            let region = key == "region"@ || key == "aws_region"@;
            let service = key == "service"@;
            &&& access ==> r == (Settings { access_key_id: v, ..m })
            &&& secret ==> r == (Settings { secret_access_key: v, ..m })
            &&& token ==> r == (Settings { session_token: v, ..m })
            &&& region ==> r == (Settings { region: v, ..m })
            &&& service ==> r == (Settings { service: v, ..m })
            &&& !access && !secret && !token && !region && !service ==> r == m
        }),
{
    let line = key + seq!['='] + value;
    let n = key.len() as int;
    assert(line[0] == key[0]);
    assert(line[n] == '=');
    if value.len() > 0 {
        assert(line.last() == value.last());
    } else {
        assert(line.last() == '=');
    }
    lemma_untrimmed(line, Class::Space);
    chars::first_of_is_first(line, '=');
    let i = chars::first_of(line, '=')->0 as int;
    if i < n {
        assert(line[i] == key[i]);
    }
    assert(i == n);
    assert(line.take(n) =~= key);
    assert(line.skip(n + 1) =~= value);
    assert(key[key.len() - 1] == key.last());
    lemma_untrimmed(key, Class::Space);
    assert(plain_key(key) =~= key);
    lemma_untrimmed(value, Class::Space);
    lemma_untrimmed(value, Class::Only('"'));
    reveal_strlit("access_key_id");
    reveal_strlit("aws_access_key_id");
    reveal_strlit("secret_access_key");
    reveal_strlit("aws_secret_access_key");
    reveal_strlit("session_token");
    reveal_strlit("aws_session_token");
    reveal_strlit("region");
    reveal_strlit("aws_region");
    reveal_strlit("service");
    assert("access_key_id"@.len() == 13 && "access_key_id"@[0] == 'a');
    assert("session_token"@.len() == 13 && "session_token"@[0] == 's');
    assert("aws_access_key_id"@.len() == 17 && "aws_access_key_id"@[0] == 'a'
        && "aws_access_key_id"@[4] == 'a');
    assert("secret_access_key"@.len() == 17 && "secret_access_key"@[0] == 's');
    assert("aws_session_token"@.len() == 17 && "aws_session_token"@[0] == 'a'
        && "aws_session_token"@[4] == 's');
    assert("aws_secret_access_key"@.len() == 21);
    assert("region"@.len() == 6);
    assert("aws_region"@.len() == 10);
    assert("service"@.len() == 7);
}

/// Comments and sections set nothing.
pub proof fn comments_set_nothing(m: Settings, rest: Seq<char>)
    ensures
        with_line(m, seq!['#'] + rest) == m,
        with_line(m, seq!['['] + rest) == m,
        with_line(m, Seq::empty()) == m,
{
    let a = seq!['#'] + rest;
    let b = seq!['['] + rest;
    let (i, j) = chars::trimming_takes_the_ends(a, Class::Space);
    if i > 0 {
        assert(Class::Space.has(a[0]));
    }
    if j == 0 {
        assert(Class::Space.has(a[0]));
    }
    assert(chars::trimmed(a, Class::Space)[0] == a[0]);
    let (k, l) = chars::trimming_takes_the_ends(b, Class::Space);
    if k > 0 {
        assert(Class::Space.has(b[0]));
    }
    if l == 0 {
        assert(Class::Space.has(b[0]));
    }
    assert(chars::trimmed(b, Class::Space)[0] == b[0]);
    lemma_untrimmed(Seq::empty(), Class::Space);
}

/// Lines are read one after another, so that the last word on a setting counts.
pub proof fn later_lines_count(lines: Seq<Seq<char>>, line: Seq<char>)
    ensures
        with_lines(lines.push(line)) == with_line(with_lines(lines), line),
{
    assert(lines.push(line).drop_last() =~= lines);
}

/// Credentials need both keys; the region is `us-east-1` and the service `s3`
/// unless they are set. The missing access key is reported first.
pub proof fn credentials_need_both_keys(s: Seq<char>)
    ensures
        ({
            let m = with_lines(chars::split(s, '\n'));
            &&& parsed(s) is Ok <==> m.access_key_id is Some && m.secret_access_key is Some
            &&& m.access_key_id is None ==> parsed(s) == Err::<CredsModel, SinkFault>(
                SinkFault::Creds("missing access_key_id"@),
            )
            &&& m.access_key_id is Some && m.secret_access_key is None ==> parsed(s) == Err::<
                CredsModel,
                SinkFault,
            >(SinkFault::Creds("missing secret_access_key"@))
            &&& parsed(s) matches Ok(c) ==> {
                &&& Some(c.access_key_id) == m.access_key_id
                &&& Some(c.secret_access_key) == m.secret_access_key
                &&& c.session_token == m.session_token
                &&& m.region is Some ==> Some(c.region) == m.region
                &&& m.region is None ==> c.region == "us-east-1"@
                &&& m.service is Some ==> Some(c.service) == m.service
                &&& m.service is None ==> c.service == "s3"@
            }
        }),
{
}

/// Keys are compared in lower case with underscores for hyphens; values lose
/// the white space around them, and then the quotes.
pub proof fn keys_are_compared_in_lower_case(c: char, s: Seq<char>)
    ensures
        'A' <= c <= 'Z' ==> key_char(c) as u32 == c as u32 + 32,
        c == '-' ==> key_char(c) == '_',
        !('A' <= c <= 'Z') && c != '-' ==> key_char(c) == c,
        plain_key(s).len() == chars::trimmed(s, Class::Space).len(),
        forall|i: int|
            0 <= i < plain_key(s).len() ==> #[trigger] plain_key(s)[i] == key_char(
                chars::trimmed(s, Class::Space)[i],
            ),
        plain_value(s) == chars::trimmed(chars::trimmed(s, Class::Space), Class::Only('"')),
{
}

/// A mode is shown by its three octal digits.
pub proof fn modes_are_octal(n: nat)
    requires
        n < 512,
    ensures
        octal3(n).len() == 3,
        64 * text::digits_value(octal3(n).subrange(0, 1)) + 8 * text::digits_value(
            octal3(n).subrange(1, 2),
        ) + text::digits_value(octal3(n).subrange(2, 3)) == n,
{
    lemma_one_digit(n / 64);
    lemma_one_digit(n / 8 % 8);
    lemma_one_digit(n % 8);
    assert(octal3(n).subrange(0, 1) =~= text::decimal(n / 64));
    assert(octal3(n).subrange(1, 2) =~= text::decimal(n / 8 % 8));
    assert(octal3(n).subrange(2, 3) =~= text::decimal(n % 8));
}

proof fn lemma_one_digit(d: nat)
    requires
        d < 10,
    ensures
        text::decimal(d) == seq![text::digit_char(d)],
        text::digits_value(text::decimal(d)) == d,
{
    text::lemma_decimal(d);
}

} // verus!
