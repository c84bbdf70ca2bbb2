//! Addresses, headers and answers of the requests to a sink.
use super::calendar;
use super::calendar::{utc_basic, UtcTime};
use super::creds;
use super::creds::{CredsModel, SigV4Creds};
use super::sigv4;
use super::sigv4::{sign_at, RequestModel};
use super::{SinkError, SinkFault, WitnessAuth};
use crate::chars;
use crate::chars::Class;
use crate::text;
use vstd::prelude::*;
use vstd::utf8::*;

verus! {

/// Bytes that stand for themselves in a query.
pub open spec fn is_plain(b: u8) -> bool {
    0x41 <= b <= 0x5a || 0x61 <= b <= 0x7a || 0x30 <= b <= 0x39 || b == 0x2d || b == 0x5f || b
        == 0x2e || b == 0x7e || b == 0x2f
}

/// An upper case hex digit.
pub open spec fn upper_hex(d: nat) -> char {
    if d < 10 {
        (0x30 + d) as u8 as char
    } else {
        (0x37 + d) as u8 as char
    }
}

/// A byte in a query.
pub open spec fn escaped(b: u8) -> Seq<char> {
    if is_plain(b) {
        seq![b as char]
    } else {
        seq!['%', upper_hex((b / 16) as nat), upper_hex((b % 16) as nat)]
    }
}

/// Bytes in a query.
pub open spec fn percent(b: Seq<u8>) -> Seq<char>
    decreases b.len(),
{
    if b.len() == 0 {
        Seq::empty()
    } else {
        percent(b.drop_last()) + escaped(b.last())
    }
}

fn upper_hex_digit(d: u8) -> (r: char)
    requires
        d < 16,
    ensures
        r == upper_hex(d as nat),
{
    if d < 10 {
        (0x30 + d) as char
    } else {
        (0x37 + d) as char
    }
}

/// A text with everything but letters, digits and `-_.~/` escaped.
pub fn urlencoding_lite(s: &str) -> (r: String)
    ensures
        r@ == percent(encode_utf8(s@)),
{
    let bytes = s.as_bytes();
    let ghost all = bytes@;
    let mut out: Vec<char> = Vec::new();
    let mut i: usize = 0;
    assert(all.take(0) =~= Seq::empty());
    while i < bytes.len()
        invariant
            0 <= i <= bytes.len(),
            all == bytes@,
            out@ == percent(all.take(i as int)),
        decreases bytes.len() - i,
    {
        let b: u8 = bytes[i];
        let ghost before = out@;
        assert(all.take(i as int + 1).drop_last() =~= all.take(i as int));
        if (0x41 <= b && b <= 0x5a) || (0x61 <= b && b <= 0x7a) || (0x30 <= b && b <= 0x39) || b
            == 0x2d || b == 0x5f || b == 0x2e || b == 0x7e || b == 0x2f {
            out.push(b as char);
        } else {
            out.push('%');
            out.push(upper_hex_digit(b / 16));
            out.push(upper_hex_digit(b % 16));
        }
        assert(out@ =~= before + escaped(b));
        i += 1;
    }
    assert(all.take(i as int) =~= all);
    chars::string_of(&out)
}

/// Where a sink is.
#[derive(Clone, Debug, PartialEq, Eq)]
pub struct SinkAddress {
    base: String,
}

impl View for SinkAddress {
    type V = Seq<char>;

    closed spec fn view(&self) -> Seq<char> {
        self.base@
    }
}

/// The address of an object.
pub open spec fn object_url(base: Seq<char>, key: Seq<char>) -> Seq<char> {
    base + "/"@ + chars::trimmed_start(key, Class::Only('/'))
}

/// The prefix under which keys are listed.
pub open spec fn list_prefix(prefix: Seq<char>) -> Seq<char> {
    chars::trimmed_start(prefix, Class::Only('/'))
}

/// The address that lists the keys under a prefix.
pub open spec fn directory_url(base: Seq<char>, prefix: Seq<char>) -> Seq<char> {
    if list_prefix(prefix).len() == 0 {
        base + "/"@
    } else {
        base + "/"@ + chars::trimmed_end(list_prefix(prefix), Class::Only('/')) + "/"@
    }
}

/// The S3 query that lists the keys under a prefix.
pub open spec fn query_url(base: Seq<char>, prefix: Seq<char>) -> Seq<char> {
    base + "?list-type=2&prefix="@ + percent(encode_utf8(prefix))
}

impl SinkAddress {
    /// A sink under a base address.
    pub fn new(base: &str) -> (r: SinkAddress)
        ensures
            r@ == chars::trimmed_end(base@, Class::Only('/')),
    {
        let cs = text::chars_of(base);
        let cut = chars::trim_end(&cs, Class::Only('/'));
        SinkAddress { base: chars::string_of(&cut) }
    }

    /// The address of an object.
    pub fn url_for(&self, key: &str) -> (r: String)
        ensures
            r@ == object_url(self@, key@),
    {
        let cs = text::chars_of(key);
        let cut = chars::trim_start(&cs, Class::Only('/'));
        text::join3(self.base.as_str(), "/", chars::string_of(&cut).as_str())
    }

    /// The prefix under which keys are listed.
    pub fn prefix_for(prefix: &str) -> (r: String)
        ensures
            r@ == list_prefix(prefix@),
    {
        let cs = text::chars_of(prefix);
        chars::string_of(&chars::trim_start(&cs, Class::Only('/')))
    }

    /// The address that lists the keys under a prefix.
    pub fn list_url(&self, prefix: &str) -> (r: String)
        ensures
            r@ == directory_url(self@, prefix@),
    {
        let cs = text::chars_of(prefix);
        let cut = chars::trim_start(&cs, Class::Only('/'));
        if cut.len() == 0 {
            return text::join(self.base.as_str(), "/");
        }
        let inner = chars::string_of(&chars::trim_end(&cut, Class::Only('/')));
        let mut s = text::join3(self.base.as_str(), "/", inner.as_str());
        s.append("/");
        s
    }

    /// The S3 query that lists the keys under a prefix.
    pub fn list_query_url(&self, prefix: &str) -> (r: String)
        ensures
            r@ == query_url(self@, prefix@),
    {
        text::join3(
            self.base.as_str(),
            "?list-type=2&prefix=",
            urlencoding_lite(prefix).as_str(),
        )
    }
}

/// What `url` finds in an address: host, path and query; or why it is none.
pub uninterp spec fn url_parts(s: Seq<char>) -> Result<
    (Option<Seq<char>>, Seq<char>, Option<Seq<char>>),
    Seq<char>,
>;

/// Host, path and query of an address.
#[derive(Clone, Debug, PartialEq, Eq)]
pub struct UrlParts {
    pub host: Option<String>,
    pub path: String,
    pub query: Option<String>,
}

/// What the parts say.
pub open spec fn parts_say(r: Result<UrlParts, String>) -> Result<
    (Option<Seq<char>>, Seq<char>, Option<Seq<char>>),
    Seq<char>,
> {
    match r {
        Ok(p) => Ok((creds::opt_text(p.host), p.path@, creds::opt_text(p.query))),
        Err(m) => Err(m@),
    }
}

/// `url::Url::parse`, with `host_str`, `path` and `query` of what it gives, or
/// the text of its error, under the name [`url_parts`].
#[verifier::external_body]
fn parse_url(s: &str) -> (r: Result<UrlParts, String>)
    ensures
        parts_say(r) == url_parts(s@),
{
    match url::Url::parse(s) {
        Ok(u) => Ok(
            UrlParts {
                host: u.host_str().map(|h| h.to_owned()),
                path: u.path().to_owned(),
                query: u.query().map(|q| q.to_owned()),
            },
        ),
        Err(e) => Err(e.to_string()),
    }
}

/// The request to sign for an address, or why there is none.
pub open spec fn request_for(
    url: Seq<char>,
    parts: Result<(Option<Seq<char>>, Seq<char>, Option<Seq<char>>), Seq<char>>,
    method: Seq<char>,
    body: Seq<u8>,
) -> Result<RequestModel, SinkFault> {
    match parts {
        Err(m) => Err(SinkFault::Http("bad url "@ + url + ": "@ + m)),
        Ok((None, _, _)) => Err(SinkFault::Http("missing host"@)),
        Ok((Some(host), path, query)) => Ok(
            RequestModel {
                method,
                host,
                path: if path.len() == 0 {
                    "/"@
                } else {
                    path
                },
                query: creds::or(query, ""@),
                body,
            },
        ),
    }
}

/// The headers that sign a request to an address with credentials.
pub open spec fn sigv4_headers(
    c: CredsModel,
    url: Seq<char>,
    parts: Result<(Option<Seq<char>>, Seq<char>, Option<Seq<char>>), Seq<char>>,
    method: Seq<char>,
    body: Seq<u8>,
    datetime: Seq<char>,
) -> Result<Seq<(Seq<char>, Seq<char>)>, SinkFault> {
    match request_for(url, parts, method, body) {
        Ok(q) => Ok(sigv4::signed_headers(c, q, datetime)),
        Err(f) => Err(f),
    }
}

/// The headers that authorize a request, given what the token or credential
/// file holds.
pub open spec fn authorized(
    auth: WitnessAuth,
    secret: Seq<char>,
    url: Seq<char>,
    parts: Result<(Option<Seq<char>>, Seq<char>, Option<Seq<char>>), Seq<char>>,
    method: Seq<char>,
    body: Seq<u8>,
    datetime: Seq<char>,
) -> Result<Seq<(Seq<char>, Seq<char>)>, SinkFault> {
    match auth {
        WitnessAuth::Bearer { .. } => Ok(
            seq![("authorization"@, "Bearer "@ + chars::trimmed(secret, Class::Space))],
        ),
        WitnessAuth::SigV4 { .. } => match creds::parsed(secret) {
            Ok(c) => sigv4_headers(c, url, parts, method, body, datetime),
            Err(f) => Err(f),
        },
    }
}

/// What headers or a fault say.
pub open spec fn headers_or_fault(r: Result<Vec<(String, String)>, SinkError>) -> Result<
    Seq<(Seq<char>, Seq<char>)>,
    SinkFault,
> {
    match r {
        Ok(v) => Ok(sigv4::headers_say(v@)),
        Err(e) => Err(e@),
    }
}

/// Signs a request to an address whose parts are known.
pub fn sign_request(
    creds: &SigV4Creds,
    url: &str,
    parts: Result<UrlParts, String>,
    method: &str,
    body: &[u8],
    datetime: &str,
) -> (r: Result<Vec<(String, String)>, SinkError>)
    requires
        datetime@.len() >= 8,
    ensures
        headers_or_fault(r) == sigv4_headers(
            creds@,
            url@,
            parts_say(parts),
            method@,
            body@,
            datetime@,
        ),
{
    match parts {
        Err(m) => {
            let mut s = text::join3("bad url ", url, ": ");
            s.append(m.as_str());
            Err(SinkError::Http(s))
        },
        Ok(p) => match p.host {
            None => Err(SinkError::Http("missing host".to_owned())),
            Some(host) => {
                let given = text::chars_of(p.path.as_str());
                let path = if given.len() == 0 {
                    "/".to_owned()
                } else {
                    p.path
                };
                let query = match p.query {
                    Some(q) => q,
                    None => "".to_owned(),
                };
                sign_at(
                    creds,
                    method,
                    host.as_str(),
                    path.as_str(),
                    query.as_str(),
                    body,
                    datetime,
                )
            },
        },
    }
}

/// The headers that authorize a request for an object at a time given as
/// `YYYYMMDDTHHMMSSZ`; `secret` is what the token or credential file holds.
pub fn authorize_at(
    address: &SinkAddress,
    auth: &WitnessAuth,
    secret: &str,
    method: &str,
    key: &str,
    body: &[u8],
    datetime: &str,
) -> (r: Result<Vec<(String, String)>, SinkError>)
    requires
        datetime@.len() >= 8,
    ensures
        headers_or_fault(r) == authorized(
            *auth,
            secret@,
            object_url(address@, key@),
            url_parts(object_url(address@, key@)),
            method@,
            body@,
            datetime@,
        ),
{
    match auth {
        WitnessAuth::Bearer { .. } => {
            let value = text::join("Bearer ", chars::trim_text(secret).as_str());
            let mut out: Vec<(String, String)> = Vec::new();
            out.push(("authorization".to_owned(), value));
            assert(sigv4::headers_say(out@) =~= seq![
                ("authorization"@, "Bearer "@ + chars::trimmed(secret@, Class::Space)),
            ]);
            Ok(out)
        },
        WitnessAuth::SigV4 { .. } => match SigV4Creds::parse(secret) {
            Err(e) => Err(e),
            Ok(c) => {
                let url = address.url_for(key);
                let parts = parse_url(url.as_str());
                sign_request(&c, url.as_str(), parts, method, body, datetime)
            },
        },
    }
}

/// The headers that authorize a request for an object `secs` seconds after the
/// start of 1970; `secret` is what the token or credential file holds.
pub fn authorize(
    address: &SinkAddress,
    auth: &WitnessAuth,
    secret: &str,
    method: &str,
    key: &str,
    body: &[u8],
    secs: u64,
) -> (r: Result<Vec<(String, String)>, SinkError>)
    ensures
        exists|t: UtcTime| #[trigger]
            t.is_at(secs) && headers_or_fault(r) == authorized(
                *auth,
                secret@,
                object_url(address@, key@),
                url_parts(object_url(address@, key@)),
                method@,
                body@,
                t.basic(),
            ),
{
    let datetime = utc_basic(secs);
    proof {
        let t = choose|t: UtcTime| #[trigger] t.is_at(secs) && datetime@ == t.basic();
        calendar::lemma_basic_len(t);
    }
    authorize_at(address, auth, secret, method, key, body, datetime.as_str())
}

/// The token in the text of a token file.
pub fn bearer_token(content: &str) -> (r: String)
    ensures
        r@ == chars::trimmed(content@, Class::Space),
{
    chars::trim_text(content)
}

/// The headers of an upload that must not replace an object.
pub fn exclusive_headers() -> (r: Vec<(String, String)>)
    ensures
        sigv4::headers_say(r@) == seq![
            ("if-none-match"@, "*"@),
            ("content-type"@, "application/cbor"@),
        ],
{
    let mut out: Vec<(String, String)> = Vec::new();
    out.push(("if-none-match".to_owned(), "*".to_owned()));
    out.push(("content-type".to_owned(), "application/cbor".to_owned()));
    assert(sigv4::headers_say(out@) =~= seq![
        ("if-none-match"@, "*"@),
        ("content-type"@, "application/cbor"@),
    ]);
    out
}

/// An answer that says the request was carried out.
pub open spec fn is_success(status: u16) -> bool {
    200 <= status <= 299
}

/// What the answer to an upload means. `shown` is the status as it is shown to
/// people, and `answer` the text of the answer.
pub fn put_outcome(status: u16, url: &str, shown: &str, answer: &str) -> (r: Result<(), SinkError>)
    ensures
        match r {
            Ok(_) => is_success(status),
            Err(e) => !is_success(status) && e@ == if status == 412 {
                SinkFault::Conflict
            } else {
                SinkFault::Http("PUT "@ + url@ + " -> "@ + shown@ + ": "@ + answer@)
            },
        },
{
    if status == 412 {
        return Err(SinkError::Conflict);
    }
    if status < 200 || status > 299 {
        let mut s = text::join3("PUT ", url, " -> ");
        s.append(shown);
        s.append(": ");
        s.append(answer);
        return Err(SinkError::Http(s));
    }
    Ok(())
}

/// What the answer to a download means.
pub fn get_outcome(status: u16, url: &str, shown: &str) -> (r: Result<(), SinkError>)
    ensures
        match r {
            Ok(_) => is_success(status),
            Err(e) => !is_success(status) && e@ == SinkFault::Http(
                "GET "@ + url@ + " -> "@ + shown@,
            ),
        },
{
    if status < 200 || status > 299 {
        let mut s = text::join3("GET ", url, " -> ");
        s.append(shown);
        return Err(SinkError::Http(s));
    }
    Ok(())
}

/// Whether an answer to a listing by directory holds the listing; otherwise the
/// query is to be tried.
pub fn holds_listing(status: u16) -> (r: bool)
    ensures
        r == is_success(status),
{
    200 <= status && status <= 299
}

/// What the answer to a listing by query means.
pub fn list_outcome(status: u16, url: &str, shown: &str) -> (r: Result<(), SinkError>)
    ensures
        match r {
            Ok(_) => is_success(status),
            Err(e) => !is_success(status) && e@ == SinkFault::Http(
                "LIST "@ + url@ + " -> "@ + shown@,
            ),
        },
{
    if status < 200 || status > 299 {
        let mut s = text::join3("LIST ", url, " -> ");
        s.append(shown);
        return Err(SinkError::Http(s));
    }
    Ok(())
}

/// An answer is a success when its status starts with a two.
pub proof fn successes_are_two_hundreds(status: u16)
    ensures
        is_success(status) <==> status / 100 == 2,
{
}

/// Escaping goes byte by byte.
pub proof fn escaping_goes_byte_by_byte(a: Seq<u8>, b: Seq<u8>)
    ensures
        percent(a + b) == percent(a) + percent(b),
    decreases b.len(),
{
    if b.len() == 0 {
        assert(a + b =~= a);
        assert(percent(a) + percent(b) =~= percent(a));
    } else {
        escaping_goes_byte_by_byte(a, b.drop_last());
        assert((a + b).drop_last() =~= a + b.drop_last());
        assert(percent(a) + percent(b) =~= percent(a) + percent(b.drop_last()) + escaped(
            b.last(),
        ));
    }
}

/// Letters, digits and `-_.~/` stand for themselves; any other byte is a
/// percent sign and its number in two upper case hex digits.
pub proof fn escapes_are_hex(b: u8)
    ensures
        ({
            let e = percent(seq![b]);
            let c = b as char;
            let plain = ('A' <= c <= 'Z') || ('a' <= c <= 'z') || ('0' <= c <= '9') || c == '-' || c
                == '_' || c == '.' || c == '~' || c == '/';
            &&& plain ==> e == seq![c]
            &&& !plain ==> e.len() == 3 && e[0] == '%' && ('0' <= e[1] <= '9' || 'A' <= e[1]
                <= 'F') && ('0' <= e[2] <= '9' || 'A' <= e[2] <= 'F')
            &&& !plain ==> crate::audit::naming::unhex(seq![e[1] as u8, e[2] as u8]) == seq![b]
        }),
{
    let s = seq![b];
    assert(s.drop_last() =~= Seq::<u8>::empty());
    assert(percent(Seq::<u8>::empty()) =~= Seq::<char>::empty());
    let e = percent(s);
    assert(e =~= escaped(b));
    if !is_plain(b) {
        let u = crate::audit::naming::unhex(seq![e[1] as u8, e[2] as u8]);
        assert(u =~= seq![b]);
    }
}

/// An object is found under the base address and its key, with one slash
/// between them however many the key starts with.
pub proof fn objects_are_below_the_base(base: Seq<char>, key: Seq<char>)
    ensures
        key.len() == 0 || key[0] != '/' ==> object_url(base, key) == base + "/"@ + key,
        object_url(base, "/"@ + key) == object_url(base, key),
{
    reveal_strlit("/");
    let k = "/"@ + key;
    assert(k[0] == '/');
    assert(k.skip(1) =~= key);
}

/// A listing by directory asks for the prefix as a directory below the base,
/// and for the base itself where there is no prefix.
pub proof fn listings_end_in_a_slash(base: Seq<char>, prefix: Seq<char>)
    ensures
        prefix.len() == 0 ==> directory_url(base, prefix) == base + "/"@,
        prefix.len() > 0 && prefix[0] != '/' && prefix.last() != '/' ==> directory_url(base, prefix)
            == base + "/"@ + prefix + "/"@,
        directory_url(base, "/"@ + prefix) == directory_url(base, prefix),
        list_prefix("/"@ + prefix) == list_prefix(prefix),
        prefix.len() == 0 || prefix[0] != '/' ==> list_prefix(prefix) == prefix,
{
    reveal_strlit("/");
    let k = "/"@ + prefix;
    assert(k[0] == '/');
    assert(k.skip(1) =~= prefix);
}

/// A listing by query asks for keys of the second kind of listing under the
/// escaped prefix.
pub proof fn queries_carry_the_prefix(base: Seq<char>, prefix: Seq<char>)
    ensures
        query_url(base, prefix).take(base.len() as int) == base,
        query_url(base, prefix).skip(base.len() as int) == "?list-type=2&prefix="@ + percent(
            encode_utf8(prefix),
        ),
{
    assert(query_url(base, prefix).take(base.len() as int) =~= base);
    assert(query_url(base, prefix).skip(base.len() as int) =~= "?list-type=2&prefix="@ + percent(
        encode_utf8(prefix),
    ));
}

/// What is signed is the request that is made: its method, its body, and the
/// host, path and query of its address. An empty path is signed as `/`, and no
/// query as an empty one. Without a host nothing is signed.
pub proof fn the_request_made_is_signed(
    url: Seq<char>,
    host: Seq<char>,
    path: Seq<char>,
    query: Option<Seq<char>>,
    method: Seq<char>,
    body: Seq<u8>,
)
    ensures
        request_for(url, Ok((Some(host), path, query)), method, body) matches Ok(q) && q.method
            == method && q.body == body && q.host == host && (path.len() > 0 ==> q.path == path) && (
        path.len() == 0 ==> q.path == "/"@) && (query matches Some(s) ==> q.query == s) && (
        query is None ==> q.query == ""@),
        request_for(url, Ok((None, path, query)), method, body) == Err::<RequestModel, SinkFault>(
            SinkFault::Http("missing host"@),
        ),
        forall|m: Seq<char>| #[trigger]
            request_for(url, Err(m), method, body) == Err::<RequestModel, SinkFault>(
                SinkFault::Http("bad url "@ + url + ": "@ + m),
            ),
{
}

/// A token is sent as it is in its file, without the white space around it;
/// credentials sign the request.
pub proof fn secrets_authorize(
    auth: WitnessAuth,
    secret: Seq<char>,
    url: Seq<char>,
    parts: Result<(Option<Seq<char>>, Seq<char>, Option<Seq<char>>), Seq<char>>,
    method: Seq<char>,
    body: Seq<u8>,
    datetime: Seq<char>,
)
    ensures
        auth is Bearer ==> authorized(auth, secret, url, parts, method, body, datetime) == Ok::<
            Seq<(Seq<char>, Seq<char>)>,
            SinkFault,
        >(seq![("authorization"@, "Bearer "@ + chars::trimmed(secret, Class::Space))]),
        auth is SigV4 && creds::parsed(secret) is Err ==> authorized(
            auth,
            secret,
            url,
            parts,
            method,
            body,
            datetime,
        ) == Err::<Seq<(Seq<char>, Seq<char>)>, SinkFault>(creds::parsed(secret)->Err_0),
        auth is SigV4 && creds::parsed(secret) is Ok && request_for(url, parts, method, body) is Ok
            ==> authorized(auth, secret, url, parts, method, body, datetime) == Ok::<
            Seq<(Seq<char>, Seq<char>)>,
            SinkFault,
        >(
            sigv4::signed_headers(
                creds::parsed(secret)->Ok_0,
                request_for(url, parts, method, body)->Ok_0,
                datetime,
            ),
        ),
        auth is SigV4 && creds::parsed(secret) is Ok && request_for(url, parts, method, body) is Err
            ==> authorized(auth, secret, url, parts, method, body, datetime) == Err::<
            Seq<(Seq<char>, Seq<char>)>,
            SinkFault,
        >(request_for(url, parts, method, body)->Err_0),
{
}

} // verus!
