//! AWS Signature Version 4 request headers.
use super::calendar;
use super::calendar::{utc_basic, UtcTime};
use super::creds::{CredsModel, SigV4Creds};
use super::SinkError;
use crate::audit::hash;
use crate::audit::hash::sha256_32;
use crate::audit::naming::hex_encode;
use crate::chars;
use crate::text;
use vstd::prelude::*;
use vstd::utf8::*;

verus! {

/// What HMAC-SHA-256 gives for a key and data.
pub uninterp spec fn mac_of(key: Seq<u8>, data: Seq<u8>) -> [u8; 32];

/// `hmac::Hmac<Sha256>`: takes a key of any length and the data, and gives the
/// 32 bytes of the code, under the name [`mac_of`].
#[verifier::external_body]
fn hmac_sha256(key: &[u8], data: &[u8]) -> (r: Result<[u8; 32], String>)
    ensures
        r is Ok,
        r->Ok_0 == mac_of(key@, data@),
{
    match <hmac::Hmac<sha2::Sha256> as hmac::Mac>::new_from_slice(key) {
        Ok(mut mac) => {
            hmac::Mac::update(&mut mac, data);
            Ok(hmac::Mac::finalize(mac).into_bytes().into())
        },
        Err(e) => Err(e.to_string()),
    }
}

fn hmac_raw(key: &[u8], data: &[u8]) -> (r: Result<[u8; 32], SinkError>)
    ensures
        r matches Ok(x) && x@ == mac_of(key@, data@)@,
{
    match hmac_sha256(key, data) {
        Ok(x) => Ok(x),
        Err(m) => Err(SinkError::Http(text::join("hmac: ", m.as_str()))),
    }
}

/// The signing key of a day, region and service.
pub open spec fn signing_key(
    secret: Seq<char>,
    date: Seq<char>,
    region: Seq<char>,
    service: Seq<char>,
) -> Seq<u8> {
    let k_date = mac_of(encode_utf8("AWS4"@ + secret), encode_utf8(date))@;
    let k_region = mac_of(k_date, encode_utf8(region))@;
    let k_service = mac_of(k_region, encode_utf8(service))@;
    mac_of(k_service, encode_utf8("aws4_request"@))@
}

fn aws4_signing_key(secret: &str, date: &str, region: &str, service: &str) -> (r: Result<
    [u8; 32],
    SinkError,
>)
    ensures
        r matches Ok(k) && k@ == signing_key(secret@, date@, region@, service@),
{
    let seed = text::join("AWS4", secret);
    let k_date = match hmac_raw(seed.as_str().as_bytes(), date.as_bytes()) {
        Ok(k) => k,
        Err(e) => {
            return Err(e);
        },
    };
    let k_region = match hmac_raw(k_date.as_slice(), region.as_bytes()) {
        Ok(k) => k,
        Err(e) => {
            return Err(e);
        },
    };
    let k_service = match hmac_raw(k_region.as_slice(), service.as_bytes()) {
        Ok(k) => k,
        Err(e) => {
            return Err(e);
        },
    };
    hmac_raw(k_service.as_slice(), "aws4_request".as_bytes())
}

/// A request to sign.
pub ghost struct RequestModel {
    pub method: Seq<char>,
    pub host: Seq<char>,
    pub path: Seq<char>,
    pub query: Seq<char>,
    pub body: Seq<u8>,
}

impl RequestModel {
    /// The hash of the body, in hex.
    pub open spec fn payload_hash(self) -> Seq<char> {
        crate::audit::naming::hex(hash::sha256(self.body))
    }

    /// The request in canonical form.
    pub open spec fn canonical(self, datetime: Seq<char>) -> Seq<char> {
        self.method + "\n"@ + self.path + "\n"@ + self.query + "\nhost:"@ + self.host
            + "\nx-amz-content-sha256:"@ + self.payload_hash() + "\nx-amz-date:"@ + datetime
            + "\n\nhost;x-amz-content-sha256;x-amz-date\n"@ + self.payload_hash()
    }
}

/// `<date>/<region>/<service>/aws4_request`.
pub open spec fn scope(c: CredsModel, date: Seq<char>) -> Seq<char> {
    date + "/"@ + c.region + "/"@ + c.service + "/aws4_request"@
}

/// What is signed.
pub open spec fn string_to_sign(c: CredsModel, q: RequestModel, datetime: Seq<char>) -> Seq<char> {
    "AWS4-HMAC-SHA256\n"@ + datetime + "\n"@ + scope(c, datetime.take(8)) + "\n"@
        + crate::audit::naming::hex(hash::sha256(encode_utf8(q.canonical(datetime))))
}

/// The signature, in hex.
pub open spec fn signature(c: CredsModel, q: RequestModel, datetime: Seq<char>) -> Seq<char> {
    crate::audit::naming::hex(
        mac_of(
            signing_key(c.secret_access_key, datetime.take(8), c.region, c.service),
            encode_utf8(string_to_sign(c, q, datetime)),
        )@,
    )
}

/// The headers of a signed request, in order.
pub open spec fn signed_headers(c: CredsModel, q: RequestModel, datetime: Seq<char>) -> Seq<
    (Seq<char>, Seq<char>),
> {
    let base = seq![
        ("x-amz-content-sha256"@, q.payload_hash()),
        ("x-amz-date"@, datetime),
        (
            "authorization"@,
            "AWS4-HMAC-SHA256 Credential="@ + c.access_key_id + "/"@ + scope(c, datetime.take(8))
                + ", SignedHeaders=host;x-amz-content-sha256;x-amz-date, Signature="@ + signature(
                c,
                q,
                datetime,
            ),
        ),
    ];
    match c.session_token {
        Some(t) => base.push(("x-amz-security-token"@, t)),
        None => base,
    }
}

/// What headers say, in order.
pub open spec fn headers_say(v: Seq<(String, String)>) -> Seq<(Seq<char>, Seq<char>)> {
    Seq::new(v.len(), |i: int| (v[i].0@, v[i].1@))
}

/// The first eight characters of a timestamp.
fn date_of(datetime: &str) -> (r: String)
    requires
        datetime@.len() >= 8,
    ensures
        r@ == datetime@.take(8),
{
    let cs = text::chars_of(datetime);
    let d = chars::piece(&cs, 0, 8);
    assert(d@ =~= datetime@.take(8));
    chars::string_of(&d)
}

/// The headers that sign a request at a time given as `YYYYMMDDTHHMMSSZ`.
pub fn sign_at(
    creds: &SigV4Creds,
    method: &str,
    host: &str,
    path: &str,
    query: &str,
    body: &[u8],
    datetime: &str,
) -> (r: Result<Vec<(String, String)>, SinkError>)
    requires
        datetime@.len() >= 8,
    ensures
        r matches Ok(v) && headers_say(v@) == signed_headers(
            creds@,
            RequestModel { method: method@, host: host@, path: path@, query: query@, body: body@ },
            datetime@,
        ),
{
    let ghost c = creds@;
    let ghost q = RequestModel {
        method: method@,
        host: host@,
        path: path@,
        query: query@,
        body: body@,
    };
    let date = date_of(datetime);
    let payload_hash = hex_encode(sha256_32(body).as_slice());
    let mut canonical = String::from_str(method);
    canonical.append("\n");
    canonical.append(path);
    canonical.append("\n");
    canonical.append(query);
    canonical.append("\nhost:");
    canonical.append(host);
    canonical.append("\nx-amz-content-sha256:");
    canonical.append(payload_hash.as_str());
    canonical.append("\nx-amz-date:");
    canonical.append(datetime);
    canonical.append("\n\nhost;x-amz-content-sha256;x-amz-date\n");
    canonical.append(payload_hash.as_str());
    assert(canonical@ == q.canonical(datetime@));
    let canonical_hash = hex_encode(sha256_32(canonical.as_str().as_bytes()).as_slice());
    let mut scope_text = String::from_str(date.as_str());
    scope_text.append("/");
    scope_text.append(creds.region.as_str());
    scope_text.append("/");
    scope_text.append(creds.service.as_str());
    scope_text.append("/aws4_request");
    assert(scope_text@ == scope(c, datetime@.take(8)));
    let mut to_sign = String::from_str("AWS4-HMAC-SHA256\n");
    to_sign.append(datetime);
    to_sign.append("\n");
    to_sign.append(scope_text.as_str());
    to_sign.append("\n");
    to_sign.append(canonical_hash.as_str());
    assert(to_sign@ == string_to_sign(c, q, datetime@));
    let key = match aws4_signing_key(
        creds.secret_access_key.as_str(),
        date.as_str(),
        creds.region.as_str(),
        creds.service.as_str(),
    ) {
        Ok(k) => k,
        Err(e) => {
            return Err(e);
        },
    };
    let mac = match hmac_raw(key.as_slice(), to_sign.as_str().as_bytes()) {
        Ok(m) => m,
        Err(e) => {
            return Err(e);
        },
    };
    let signature_text = hex_encode(mac.as_slice());
    let mut authorization = String::from_str("AWS4-HMAC-SHA256 Credential=");
    authorization.append(creds.access_key_id.as_str());
    authorization.append("/");
    authorization.append(scope_text.as_str());
    authorization.append(", SignedHeaders=host;x-amz-content-sha256;x-amz-date, Signature=");
    authorization.append(signature_text.as_str());
    let mut out: Vec<(String, String)> = Vec::new();
    out.push(("x-amz-content-sha256".to_owned(), payload_hash));
    out.push(("x-amz-date".to_owned(), datetime.to_owned()));
    out.push(("authorization".to_owned(), authorization));
    match &creds.session_token {
        Some(t) => {
            out.push(("x-amz-security-token".to_owned(), t.clone()));
        },
        None => {},
    }
    assert(headers_say(out@) =~= signed_headers(c, q, datetime@));
    Ok(out)
}

/// The headers that sign a request `secs` seconds after the start of 1970.
pub fn sign_sigv4(
    creds: &SigV4Creds,
    method: &str,
    host: &str,
    path: &str,
    query: &str,
    body: &[u8],
    secs: u64,
) -> (r: Result<Vec<(String, String)>, SinkError>)
    ensures
        r is Ok,
        exists|t: UtcTime| #[trigger]
            t.is_at(secs) && headers_say(r->Ok_0@) == signed_headers(
                creds@,
                RequestModel {
                    method: method@,
                    host: host@,
                    path: path@,
                    query: query@,
                    body: body@,
                },
                t.basic(),
            ),
{
    let datetime = utc_basic(secs);
    proof {
        let t = choose|t: UtcTime| #[trigger] t.is_at(secs) && datetime@ == t.basic();
        calendar::lemma_basic_len(t);
    }
    sign_at(creds, method, host, path, query, body, datetime.as_str())
}

proof fn lemma_with_between(parts: Seq<Seq<char>>, sep: char, last: Seq<char>)
    requires
        parts.len() > 0,
    ensures
        chars::with_between(parts.push(last), sep) == chars::with_between(parts, sep) + seq![sep] + last,
{
    assert(parts.push(last).drop_last() =~= parts);
}

/// The nine lines of a canonical request: method, path, query, the three
/// header lines, an empty line, the names of the signed headers and the hash
/// of the body.
pub open spec fn canonical_lines(
    method: Seq<char>,
    path: Seq<char>,
    query: Seq<char>,
    host: Seq<char>,
    payload_hash: Seq<char>,
    datetime: Seq<char>,
) -> Seq<Seq<char>> {
    seq![
        method,
        path,
        query,
        "host:"@ + host,
        "x-amz-content-sha256:"@ + payload_hash,
        "x-amz-date:"@ + datetime,
        Seq::empty(),
        "host;x-amz-content-sha256;x-amz-date"@,
        payload_hash,
    ]
}

proof fn lemma_literals()
    ensures
        "\n"@ == seq!['\n'],
        "/"@ == seq!['/'],
        "\nhost:"@ == seq!['\n'] + "host:"@,
        "\nx-amz-content-sha256:"@ == seq!['\n'] + "x-amz-content-sha256:"@,
        "\nx-amz-date:"@ == seq!['\n'] + "x-amz-date:"@,
        "\n\nhost;x-amz-content-sha256;x-amz-date\n"@ == seq!['\n'] + Seq::<char>::empty()
            + seq!['\n'] + "host;x-amz-content-sha256;x-amz-date"@ + seq!['\n'],
        "/aws4_request"@ == seq!['/'] + "aws4_request"@,
        "AWS4-HMAC-SHA256\n"@ == "AWS4-HMAC-SHA256"@ + seq!['\n'],
{
    reveal_strlit("\n");
    reveal_strlit("/");
    reveal_strlit("\nhost:");
    reveal_strlit("host:");
    reveal_strlit("\nx-amz-content-sha256:");
    reveal_strlit("x-amz-content-sha256:");
    reveal_strlit("\nx-amz-date:");
    reveal_strlit("x-amz-date:");
    reveal_strlit("\n\nhost;x-amz-content-sha256;x-amz-date\n");
    reveal_strlit("host;x-amz-content-sha256;x-amz-date");
    reveal_strlit("/aws4_request");
    reveal_strlit("aws4_request");
    reveal_strlit("AWS4-HMAC-SHA256\n");
    reveal_strlit("AWS4-HMAC-SHA256");
    assert("\n"@ =~= seq!['\n']);
    assert("/"@ =~= seq!['/']);
    assert("\nhost:"@ =~= seq!['\n'] + "host:"@);
    assert("\nx-amz-content-sha256:"@ =~= seq!['\n'] + "x-amz-content-sha256:"@);
    assert("\nx-amz-date:"@ =~= seq!['\n'] + "x-amz-date:"@);
    assert("\n\nhost;x-amz-content-sha256;x-amz-date\n"@ =~= seq!['\n'] + Seq::<char>::empty()
        + seq!['\n'] + "host;x-amz-content-sha256;x-amz-date"@ + seq!['\n']);
    assert("/aws4_request"@ =~= seq!['/'] + "aws4_request"@);
    assert("AWS4-HMAC-SHA256\n"@ =~= "AWS4-HMAC-SHA256"@ + seq!['\n']);
}

/// The text that is hashed and signed is method, path, query, the header
/// lines, the names of the signed headers and the hash of the body, joined by
/// newlines.
pub proof fn canonical_request_has_nine_lines(q: RequestModel, datetime: Seq<char>)
    ensures
        q.canonical(datetime) == chars::with_between(
            canonical_lines(
                q.method,
                q.path,
                q.query,
                q.host,
                crate::audit::naming::hex(hash::sha256(q.body)),
                datetime,
            ),
            '\n',
        ),
{
    lemma_literals();
    let p = q.payload_hash();
    let nl = seq!['\n'];
    let l = canonical_lines(q.method, q.path, q.query, q.host, p, datetime);
    let t1 = q.method;
    let t2 = t1 + nl + q.path;
    let t3 = t2 + nl + q.query;
    let t4 = t3 + nl + l[3];
    let t5 = t4 + nl + l[4];
    let t6 = t5 + nl + l[5];
    let t7 = t6 + nl + l[6];
    let t8 = t7 + nl + l[7];
    let t9 = t8 + nl + p;
    assert(chars::with_between(l.take(1), '\n') == t1);
    lemma_with_between(l.take(1), '\n', l[1]);
    assert(l.take(2) =~= l.take(1).push(l[1]));
    lemma_with_between(l.take(2), '\n', l[2]);
    assert(l.take(3) =~= l.take(2).push(l[2]));
    lemma_with_between(l.take(3), '\n', l[3]);
    assert(l.take(4) =~= l.take(3).push(l[3]));
    lemma_with_between(l.take(4), '\n', l[4]);
    assert(l.take(5) =~= l.take(4).push(l[4]));
    lemma_with_between(l.take(5), '\n', l[5]);
    assert(l.take(6) =~= l.take(5).push(l[5]));
    lemma_with_between(l.take(6), '\n', l[6]);
    assert(l.take(7) =~= l.take(6).push(l[6]));
    lemma_with_between(l.take(7), '\n', l[7]);
    assert(l.take(8) =~= l.take(7).push(l[7]));
    lemma_with_between(l.take(8), '\n', l[8]);
    assert(l =~= l.take(8).push(l[8]));
    assert(t3 + "\nhost:"@ + q.host =~= t4);
    assert(t4 + "\nx-amz-content-sha256:"@ + p =~= t5);
    assert(t5 + "\nx-amz-date:"@ + datetime =~= t6);
    assert(t6 + "\n\nhost;x-amz-content-sha256;x-amz-date\n"@ + p =~= t9);
}

/// A text on one line.
pub open spec fn on_one_line(s: Seq<char>) -> bool {
    !s.contains('\n')
}

/// Where two texts agree, their first lines agree, and what is behind them.
proof fn lemma_first_line(x: Seq<char>, r: Seq<char>, y: Seq<char>, s: Seq<char>)
    requires
        on_one_line(x),
        on_one_line(y),
        x + seq!['\n'] + r == y + seq!['\n'] + s,
    ensures
        x == y,
        r == s,
{
    let a = x + seq!['\n'] + r;
    let b = y + seq!['\n'] + s;
    assert(a[x.len() as int] == '\n');
    assert(b[y.len() as int] == '\n');
    if x.len() < y.len() {
        assert(y[x.len() as int] == b[x.len() as int]);
        assert(y.contains('\n'));
    } else if y.len() < x.len() {
        assert(x[y.len() as int] == a[y.len() as int]);
        assert(x.contains('\n'));
    }
    assert(x =~= a.take(x.len() as int));
    assert(y =~= b.take(y.len() as int));
    assert(r =~= a.skip(x.len() as int + 1));
    assert(s =~= b.skip(y.len() as int + 1));
}

/// The canonical text behind the line of the method, behind that of the path,
/// and so on.
spec fn behind_query(q: RequestModel, datetime: Seq<char>) -> Seq<char> {
    "host:"@ + q.host + seq!['\n'] + ("x-amz-content-sha256:"@ + q.payload_hash() + seq!['\n'] + (
    "x-amz-date:"@ + datetime + seq!['\n'] + (Seq::<char>::empty() + seq!['\n']
        + "host;x-amz-content-sha256;x-amz-date"@ + seq!['\n'] + q.payload_hash())))
}

proof fn lemma_lines_apart(q: RequestModel, datetime: Seq<char>)
    ensures
        q.canonical(datetime) == q.method + seq!['\n'] + (q.path + seq!['\n'] + (q.query
            + seq!['\n'] + behind_query(q, datetime))),
{
    lemma_literals();
    let p = q.payload_hash();
    let nl = seq!['\n'];
    let last = "\n\nhost;x-amz-content-sha256;x-amz-date\n"@ + p;
    let tail = "\nx-amz-date:"@ + datetime + last;
    let more = "\nx-amz-content-sha256:"@ + p + tail;
    let rest = "\nhost:"@ + q.host + more;
    assert(last =~= nl + (Seq::<char>::empty() + nl + "host;x-amz-content-sha256;x-amz-date"@ + nl
        + p));
    assert(rest =~= nl + behind_query(q, datetime));
    let start = q.method + nl + q.path + nl + q.query;
    assert(q.canonical(datetime) =~= start + rest);
    assert(start + rest =~= q.method + nl + (q.path + nl + (q.query + nl + behind_query(
        q,
        datetime,
    ))));
}

/// Requests that differ in method, path, query, host, body hash or time sign
/// different texts, as long as none of these runs over a line.
pub proof fn canonical_requests_are_told_apart(
    a: RequestModel,
    at: Seq<char>,
    b: RequestModel,
    bt: Seq<char>,
)
    requires
        on_one_line(a.method),
        on_one_line(b.method),
        on_one_line(a.path),
        on_one_line(b.path),
        on_one_line(a.query),
        on_one_line(b.query),
        on_one_line(a.host),
        on_one_line(b.host),
        on_one_line(at),
        on_one_line(bt),
        a.canonical(at) == b.canonical(bt),
    ensures
        a.method == b.method,
        a.path == b.path,
        a.query == b.query,
        a.host == b.host,
        hash::sha256(a.body) == hash::sha256(b.body),
        at == bt,
{
    lemma_lines_apart(a, at);
    lemma_lines_apart(b, bt);
    let nl = seq!['\n'];
    lemma_first_line(
        a.method,
        a.path + nl + (a.query + nl + behind_query(a, at)),
        b.method,
        b.path + nl + (b.query + nl + behind_query(b, bt)),
    );
    lemma_first_line(
        a.path,
        a.query + nl + behind_query(a, at),
        b.path,
        b.query + nl + behind_query(b, bt),
    );
    lemma_first_line(a.query, behind_query(a, at), b.query, behind_query(b, bt));
    let (p, r) = (a.payload_hash(), b.payload_hash());
    let names = Seq::<char>::empty() + nl + "host;x-amz-content-sha256;x-amz-date"@ + nl;
    reveal_strlit("host:");
    reveal_strlit("x-amz-content-sha256:");
    reveal_strlit("x-amz-date:");
    lemma_hex_on_one_line(hash::sha256(a.body));
    lemma_hex_on_one_line(hash::sha256(b.body));
    lemma_prefixed_line("host:"@, a.host);
    lemma_prefixed_line("host:"@, b.host);
    lemma_prefixed_line("x-amz-content-sha256:"@, p);
    lemma_prefixed_line("x-amz-content-sha256:"@, r);
    lemma_prefixed_line("x-amz-date:"@, at);
    lemma_prefixed_line("x-amz-date:"@, bt);
    lemma_first_line(
        "host:"@ + a.host,
        "x-amz-content-sha256:"@ + p + nl + ("x-amz-date:"@ + at + nl + (names + p)),
        "host:"@ + b.host,
        "x-amz-content-sha256:"@ + r + nl + ("x-amz-date:"@ + bt + nl + (names + r)),
    );
    lemma_first_line(
        "x-amz-content-sha256:"@ + p,
        "x-amz-date:"@ + at + nl + (names + p),
        "x-amz-content-sha256:"@ + r,
        "x-amz-date:"@ + bt + nl + (names + r),
    );
    lemma_first_line("x-amz-date:"@ + at, names + p, "x-amz-date:"@ + bt, names + r);
    lemma_same_behind("host:"@, a.host, b.host);
    lemma_same_behind("x-amz-content-sha256:"@, p, r);
    lemma_same_behind("x-amz-date:"@, at, bt);
    crate::audit::naming::hex_round_trip(hash::sha256(a.body));
    crate::audit::naming::hex_round_trip(hash::sha256(b.body));
}

proof fn lemma_hex_on_one_line(b: Seq<u8>)
    ensures
        on_one_line(crate::audit::naming::hex(b)),
{
    let t = crate::audit::naming::hex(b);
    assert forall|i: int| 0 <= i < t.len() implies #[trigger] t[i] != '\n' by {}
}

proof fn lemma_same_behind(p: Seq<char>, x: Seq<char>, y: Seq<char>)
    requires
        p + x == p + y,
    ensures
        x == y,
{
    assert((p + x).skip(p.len() as int) =~= x);
    assert((p + y).skip(p.len() as int) =~= y);
}

proof fn lemma_prefixed_line(p: Seq<char>, x: Seq<char>)
    requires
        on_one_line(p),
        on_one_line(x),
    ensures
        on_one_line(p + x),
{
    if (p + x).contains('\n') {
        let i = choose|i: int| 0 <= i < (p + x).len() && (p + x)[i] == '\n';
        if i < p.len() {
            assert(p[i] == '\n');
        } else {
            assert(x[i - p.len()] == '\n');
        }
    }
}

/// A signed request carries the hash of its body, its time and the
/// authorization, and the session token exactly when there is one. The
/// signature is over the algorithm, the time, the scope and the hash of the
/// nine canonical lines, a line each; its key is derived from the secret by
/// date, region, service and `aws4_request`, in that order; the scope is the
/// same four between slashes.
pub proof fn signature_covers_the_whole_request(c: CredsModel, q: RequestModel, datetime: Seq<char>)
    requires
        datetime.len() >= 8,
    ensures
        ({
            let v = signed_headers(c, q, datetime);
            let date = datetime.take(8);
            let body_hash = crate::audit::naming::hex(hash::sha256(q.body));
            let in_scope = chars::with_between(seq![date, c.region, c.service, "aws4_request"@], '/');
            let lines = canonical_lines(q.method, q.path, q.query, q.host, body_hash, datetime);
            let text = chars::with_between(
                seq![
                    "AWS4-HMAC-SHA256"@,
                    datetime,
                    in_scope,
                    crate::audit::naming::hex(
                        hash::sha256(encode_utf8(chars::with_between(lines, '\n'))),
                    ),
                ],
                '\n',
            );
            let k1 = mac_of(encode_utf8("AWS4"@ + c.secret_access_key), encode_utf8(date))@;
            let k2 = mac_of(k1, encode_utf8(c.region))@;
            let k3 = mac_of(k2, encode_utf8(c.service))@;
            let k4 = mac_of(k3, encode_utf8("aws4_request"@))@;
            &&& v.len() == if c.session_token is Some {
                4nat
            } else {
                3nat
            }
            &&& v[0] == ("x-amz-content-sha256"@, body_hash)
            &&& v[1] == ("x-amz-date"@, datetime)
            &&& v[2] == (
                "authorization"@,
                "AWS4-HMAC-SHA256 Credential="@ + c.access_key_id + "/"@ + in_scope
                    + ", SignedHeaders=host;x-amz-content-sha256;x-amz-date, Signature="@
                    + crate::audit::naming::hex(mac_of(k4, encode_utf8(text))@),
            )
            &&& c.session_token matches Some(t) ==> v[3] == ("x-amz-security-token"@, t)
        }),
{
    canonical_request_has_nine_lines(q, datetime);
    lemma_literals();
    let date = datetime.take(8);
    let four = seq![date, c.region, c.service, "aws4_request"@];
    lemma_four(four, '/');
    let s = scope(c, date);
    assert(s =~= chars::with_between(four, '/'));
    let hashed = crate::audit::naming::hex(hash::sha256(encode_utf8(q.canonical(datetime))));
    let lines = seq!["AWS4-HMAC-SHA256"@, datetime, s, hashed];
    lemma_four(lines, '\n');
    assert(string_to_sign(c, q, datetime) =~= chars::with_between(lines, '\n'));
}

proof fn lemma_four(v: Seq<Seq<char>>, sep: char)
    requires
        v.len() == 4,
    ensures
        chars::with_between(v, sep) == v[0] + seq![sep] + v[1] + seq![sep] + v[2] + seq![sep] + v[3],
{
    assert(chars::with_between(v.take(1), sep) == v[0]);
    lemma_with_between(v.take(1), sep, v[1]);
    assert(v.take(2) =~= v.take(1).push(v[1]));
    lemma_with_between(v.take(2), sep, v[2]);
    assert(v.take(3) =~= v.take(2).push(v[2]));
    lemma_with_between(v.take(3), sep, v[3]);
    assert(v =~= v.take(3).push(v[3]));
}

} // verus!
