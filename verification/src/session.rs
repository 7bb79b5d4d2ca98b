//! Getting into a `dsh web` the shell did not start: the launch token a log
//! may still hold, and the browser-session cookie minted from the signing
//! secret in the shared harness home.
use vstd::prelude::*;
use vstd::utf8::encode_utf8;
use crate::crypto::{
    base64_url, base64_url_decode, base64url, base64url_decoded, hmac_sha256, hmac_sha256_tag,
    is_base64url_char, sha256, sha256_digest,
};
use crate::announce::{announce_marker, announced_url};
use crate::text::{
    all_digits, find_from, first_word, is_digit, is_token_char, is_ws, trim_start,
    hits, idec, lemma_encode_utf8_len, lemma_idec_len, lemma_lead_is, lemma_port_dec_len, push_idec,
    split_dots, starts_with,
    chars_of, dec, lead, lead_in, lemma_lead_bound, lemma_rfind_from, lines, occurs_at, push_dec,
    rfind, rfind_in, span_eq, span_string, strip_cr, trim, trim_span, utf8_len, utf8_len_span, Pat,
};

verus! {

// ---------------------------------------------------------------------------
// The launch token a log recorded

/// Files in the harness home a supervised `dsh web` leaves its startup line
/// in, nearest first: `dsh-web.log` is what a `tee` on a manual launch
/// writes, and `dsh-web-launchd.log` is where a LaunchAgent's stdout lands.
pub const ANNOUNCEMENT_LOGS: [&'static str; 2] = ["dsh-web.log", "dsh-web-launchd.log"];

/// The credentials file in the harness home that holds the signing secret.
pub const CREDENTIALS_FILE: &'static str = ".credentials.yaml";

/// What precedes the token in the harness's announcement for `port`.
pub open spec fn token_needle(port: u16) -> Seq<char> {
    "http://127.0.0.1:"@ + dec(port as nat) + "/?token="@
}

/// The token of the last announcement for `port` in one log: the run of
/// ASCII letters, digits, `-` and `_` right after the last needle, when that
/// run is not empty.
pub open spec fn token_in(text: Seq<char>, port: u16) -> Option<Seq<char>> {
    match rfind(text, token_needle(port)) {
        None => None,
        Some(i) => {
            let rest = text.skip(i + token_needle(port).len());
            let token = rest.take(lead(rest, Pat::Token) as int);
            if token.len() > 0 {
                Some(token)
            } else {
                None
            }
        },
    }
}

/// The token found in the first of `logs` (`None` standing for a log that
/// could not be read) that holds one.
pub open spec fn discovered_token(logs: Seq<Option<String>>, port: u16) -> Option<Seq<char>>
    decreases logs.len(),
{
    if logs.len() == 0 {
        None
    } else {
        let here = match logs[0] {
            Some(text) => token_in(text@, port),
            None => None,
        };
        match here {
            Some(token) => Some(token),
            None => discovered_token(logs.drop_first(), port),
        }
    }
}

/// The URL to load for a server on `port`, with the token when there is one.
pub open spec fn attach_url_for(port: u16, token: Option<Seq<char>>) -> Seq<char> {
    match token {
        Some(t) => "http://127.0.0.1:"@ + dec(port as nat) + "/?token="@ + t,
        None => "http://127.0.0.1:"@ + dec(port as nat) + "/"@,
    }
}

/// The loopback origin of `port` followed by `tail`.
fn loopback_url(port: u16, tail: &str) -> (r: String)
    ensures
        r@ == "http://127.0.0.1:"@ + dec(port as nat) + tail@,
{
    let mut url = String::new();
    url.append("http://127.0.0.1:");
    push_dec(&mut url, port as u64);
    url.append(tail);
    assert(url@ =~= "http://127.0.0.1:"@ + dec(port as nat) + tail@);
    url
}

/// The token of the last announcement for `port` in `text`.
fn token_in_log(text: &str, port: u16) -> (r: Option<String>)
    ensures
        r matches Some(t) ==> token_in(text@, port) == Some(t@),
        r is None ==> token_in(text@, port) is None,
{
    let needle_text = loopback_url(port, "/?token=");
    let needle = chars_of(needle_text.as_str());
    let v = chars_of(text);
    let found = rfind_in(&v, &needle);
    let f = match found {
        None => {
            return None;
        },
        Some(f) => f,
    };
    proof {
        lemma_rfind_from(v@, needle@, v@.len() - needle@.len());
        assert(occurs_at(v@, needle@, f as int));
    }
    assert(f + needle.len() <= v.len());
    let start = f + needle.len();
    let k = lead_in(&v, start, v.len(), Pat::Token);
    proof {
        let rest = text@.skip(start as int);
        assert(rest =~= v@.subrange(start as int, v.len() as int));
        assert(rest.take(k as int) =~= v@.subrange(start as int, start + k));
    }
    if k == 0 {
        return None;
    }
    Some(span_string(text, &v, start, start + k))
}

/// Recover the launch token a server on this port announced earlier.
///
/// `logs` are the contents of the files a supervised `dsh web` leaves its
/// startup line in, nearest first, with `None` for one that could not be read.
/// Reading the *last* announcement for the port in a log matters: every
/// restart mints a fresh token and invalidates the one before it.
pub fn discover_token(port: u16, logs: &Vec<Option<String>>) -> (r: Option<String>)
    ensures
        r matches Some(t) ==> discovered_token(logs@, port) == Some(t@),
        r is None ==> discovered_token(logs@, port) is None,
{
    let mut i: usize = 0;
    assert(logs@.skip(0) =~= logs@);
    while i < logs.len()
        invariant
            i <= logs.len(),
            discovered_token(logs@, port) == discovered_token(logs@.skip(i as int), port),
        decreases logs.len() - i,
    {
        assert(logs@.skip(i as int).drop_first() =~= logs@.skip(i + 1));
        assert(logs@.skip(i as int)[0] == logs@[i as int]);
        match &logs[i] {
            Some(text) => {
                let found = token_in_log(text.as_str(), port);
                if found.is_some() {
                    return found;
                }
            },
            None => {},
        }
        i = i + 1;
    }
    None
}

/// The URL to load for a server this shell did not start.
///
/// With a recoverable token the load authenticates outright and mints the
/// session cookie. Without one the bare URL still works whenever that cookie is
/// already in the webview: it is signed with the secret kept in the shared
/// harness home, so it is not invalidated by restarting the server.
pub fn attach_url(port: u16, logs: &Vec<Option<String>>) -> (r: String)
    ensures
        r@ == attach_url_for(port, discovered_token(logs@, port)),
{
    match discover_token(port, logs) {
        Some(token) => {
            let mut url = loopback_url(port, "/?token=");
            url.append(token.as_str());
            url
        },
        None => loopback_url(port, "/"),
    }
}

/// Every digit of a decimal rendering is an ASCII digit.
pub proof fn lemma_dec_digits(n: nat)
    ensures
        all_digits(dec(n)),
    decreases n,
{
    if n >= 10 {
        lemma_dec_digits(n / 10);
        let d = dec(n / 10);
        assert forall|i: int| 0 <= i < dec(n).len() implies is_digit(#[trigger] dec(n)[i]) by {
            if i < d.len() {
                assert(dec(n)[i] == d[i]);
            }
        }
    }
}

/// A token read from a log is made of token characters only.
pub proof fn lemma_discovered_token_shape(logs: Seq<Option<String>>, port: u16)
    ensures
        discovered_token(logs, port) matches Some(t) ==> t.len() > 0 && forall|k: int|
            0 <= k < t.len() ==> is_token_char(#[trigger] t[k]),
    decreases logs.len(),
{
    if logs.len() > 0 {
        lemma_discovered_token_shape(logs.drop_first(), port);
        if let Some(text) = logs[0] {
            if let Some(i) = rfind(text@, token_needle(port)) {
                let rest = text@.skip(i + token_needle(port).len());
                lemma_lead_bound(rest, Pat::Token);
                let token = rest.take(lead(rest, Pat::Token) as int);
                assert forall|k: int| 0 <= k < token.len() implies is_token_char(#[trigger] token[k]) by {
                    assert(token[k] == rest[k]);
                    assert(hits(Pat::Token, rest[k]));
                }
            }
        }
    }
}

/// The URL for a server on `port`, with any token of token characters, is a
/// loopback URL without whitespace, and an announcement carrying it is read
/// back as that same URL.
pub proof fn lemma_attach_url_is_announceable(port: u16, token: Option<Seq<char>>)
    requires
        token matches Some(t) ==> forall|k: int| 0 <= k < t.len() ==> is_token_char(#[trigger] t[k]),
    ensures
        ({
            let url = attach_url_for(port, token);
            &&& starts_with(url, "http://127.0.0.1:"@ + dec(port as nat) + "/"@)
            &&& forall|k: int| 0 <= k < url.len() ==> !is_ws(#[trigger] url[k])
            &&& announced_url(announce_marker() + url) == Some(url)
        }),
{
    reveal_strlit("http://127.0.0.1:");
    reveal_strlit("/?token=");
    reveal_strlit("/");
    reveal_strlit("http://");
    reveal_strlit("dsh web: ");
    let origin = "http://127.0.0.1:"@ + dec(port as nat);
    let url = attach_url_for(port, token);
    let tail = match token {
        Some(t) => "/?token="@ + t,
        None => "/"@,
    };
    assert(url =~= origin + tail);
    lemma_dec_digits(port as nat);
    lemma_port_dec_len(port);
    let d = dec(port as nat);
    assert forall|k: int| 0 <= k < url.len() implies !is_ws(#[trigger] url[k]) by {
        if k < 17 {
            assert(url[k] == "http://127.0.0.1:"@[k]);
        } else if k < 17 + d.len() {
            assert(url[k] == d[k - 17]);
            assert(is_digit(d[k - 17]));
        } else {
            let j = k - 17 - d.len();
            assert(url[k] == tail[j]);
            if let Some(t) = token {
                if j >= 8 {
                    assert(tail[j] == t[j - 8]);
                    assert(is_token_char(t[j - 8]));
                }
            }
        }
    }
    assert(url.take(18 + d.len() as int) =~= "http://127.0.0.1:"@ + dec(port as nat) + "/"@);
    let marker = announce_marker();
    let line = marker + url;
    assert(occurs_at(line, marker, 0)) by {
        assert(line.subrange(0, marker.len() as int) =~= marker);
    }
    assert(find_from(line, marker, 0) == Some(0int));
    let after = line.skip(marker.len() as int);
    assert(after =~= url);
    lemma_lead_is(url, Pat::Space, 0);
    assert(trim_start(url, Pat::Space) =~= url);
    assert forall|k: int| 0 <= k < url.len() implies hits(Pat::NonSpace, #[trigger] url[k]) by {
        assert(!is_ws(url[k]));
    }
    lemma_lead_is(url, Pat::NonSpace, url.len() as int);
    assert(url.take(url.len() as int) =~= url);
    assert(first_word(after) == Some(url));
    assert(url.take(7) =~= "http://"@);
}

/// The URL attached to on a server this shell did not start is on the
/// loopback origin of `port` (never `localhost`, so it matches the authority a
/// minted cookie is bound to), holds no whitespace, and reads back unchanged
/// from an announcement line.
pub proof fn lemma_attach_url_round_trips(port: u16, logs: Seq<Option<String>>)
    ensures
        ({
            let url = attach_url_for(port, discovered_token(logs, port));
            &&& starts_with(url, "http://127.0.0.1:"@ + dec(port as nat) + "/"@)
            &&& forall|k: int| 0 <= k < url.len() ==> !is_ws(#[trigger] url[k])
            &&& announced_url(announce_marker() + url) == Some(url)
        }),
{
    lemma_discovered_token_shape(logs, port);
    lemma_attach_url_is_announceable(port, discovered_token(logs, port));
}

// ---------------------------------------------------------------------------
// The signing secret in the credentials file

/// The record holding the browser-session signing secret.
pub open spec fn session_record() -> Seq<char> {
    "client-connection/browser-session"@
}

pub open spec fn secret_field() -> Seq<char> {
    "secret"@
}

/// A YAML scalar with surrounding whitespace, then double quotes, then single
/// quotes trimmed off.
pub open spec fn unquote(s: Seq<char>) -> Seq<char> {
    trim(trim(trim(s, Pat::Space), Pat::Is('"')), Pat::Is('\''))
}

/// The key of a trimmed line: what comes before its first `:`.
pub open spec fn key_of(t: Seq<char>) -> Seq<char> {
    unquote(t.take(lead(t, Pat::IsNot(':')) as int))
}

/// The value of a trimmed line: what comes after its first `:`, or nothing
/// when it has none.
pub open spec fn value_of(t: Seq<char>) -> Seq<char> {
    let k = lead(t, Pat::IsNot(':'));
    unquote(
        if k < t.len() {
            t.skip(k as int + 1)
        } else {
            seq![]
        },
    )
}

/// The indent of a line, in bytes, as `str::len` counts them.
pub open spec fn indent_of(line: Seq<char>) -> nat {
    utf8_len(line.take(lead(line, Pat::Space) as int))
}

/// What one line does to the scan: it either yields the secret, or gives
/// whether the scan is inside the session record afterwards and the indent
/// that record was opened at.
pub open spec fn scan_line(line: Seq<char>, inside: bool, record_indent: int) -> (
    Option<Seq<char>>,
    bool,
    int,
) {
    let indent = indent_of(line) as int;
    let t = trim(line, Pat::Space);
    if t.len() == 0 {
        (None, inside, record_indent)
    } else if key_of(t) == session_record() {
        (None, true, indent)
    } else if !inside {
        (None, inside, record_indent)
    } else if indent <= record_indent && key_of(t).len() > 0 {
        // A key at or above the record's own indent starts the next record.
        (None, false, record_indent)
    } else if key_of(t) == secret_field() && value_of(t).len() > 0 {
        (Some(value_of(t)), inside, record_indent)
    } else {
        (None, inside, record_indent)
    }
}

pub open spec fn scan_secret(ls: Seq<Seq<char>>, inside: bool, record_indent: int) -> Option<
    Seq<char>,
>
    decreases ls.len(),
{
    if ls.len() == 0 {
        None
    } else {
        let (found, now_inside, now_indent) = scan_line(ls[0], inside, record_indent);
        match found {
            Some(value) => Some(value),
            None => scan_secret(ls.drop_first(), now_inside, now_indent),
        }
    }
}

/// The browser-session signing secret stored in credentials text: the first
/// non-empty `secret` value inside the `client-connection/browser-session`
/// record.
pub open spec fn stored_secret(text: Seq<char>) -> Option<Seq<char>> {
    scan_secret(lines(text), false, 0)
}

/// The span of `v[lo..hi]` with `unquote` applied.
fn unquote_span(v: &Vec<char>, lo: usize, hi: usize) -> (r: (usize, usize))
    requires
        lo <= hi <= v.len(),
    ensures
        lo <= r.0 <= r.1 <= hi,
        v@.subrange(r.0 as int, r.1 as int) == unquote(v@.subrange(lo as int, hi as int)),
{
    let (a, b) = trim_span(v, lo, hi, Pat::Space);
    let (c, d) = trim_span(v, a, b, Pat::Is('"'));
    trim_span(v, c, d, Pat::Is('\''))
}

/// One line `v[lo..hi]` of the scan.
fn scan_line_span(
    v: &Vec<char>,
    lo: usize,
    hi: usize,
    inside: bool,
    record_indent: u128,
    record: &Vec<char>,
    field: &Vec<char>,
) -> (r: (Option<(usize, usize)>, bool, u128))
    requires
        lo <= hi <= v.len(),
        record@ == session_record(),
        field@ == secret_field(),
    ensures
        ({
            let (found, now_inside, now_indent) = scan_line(
                v@.subrange(lo as int, hi as int),
                inside,
                record_indent as int,
            );
            &&& r.1 == now_inside
            &&& r.2 == now_indent
            &&& r.0 matches Some((a, b)) ==> lo <= a <= b <= hi && found == Some(
                v@.subrange(a as int, b as int),
            )
            &&& r.0 is None ==> found is None
        }),
{
    let ghost line = v@.subrange(lo as int, hi as int);
    let a = lead_in(v, lo, hi, Pat::Space);
    let indent = utf8_len_span(v, lo, lo + a);
    assert(line.take(a as int) =~= v@.subrange(lo as int, lo + a));
    let (tlo, thi) = trim_span(v, lo, hi, Pat::Space);
    if tlo == thi {
        return (None, inside, record_indent);
    }
    let ghost t = v@.subrange(tlo as int, thi as int);
    let k = lead_in(v, tlo, thi, Pat::IsNot(':'));
    proof {
        lemma_lead_bound(t, Pat::IsNot(':'));
    }
    assert(t.take(k as int) =~= v@.subrange(tlo as int, tlo + k));
    let (klo, khi) = unquote_span(v, tlo, tlo + k);
    if span_eq(v, klo, khi, record) {
        return (None, true, indent);
    }
    if !inside {
        return (None, inside, record_indent);
    }
    if indent <= record_indent && klo < khi {
        return (None, false, record_indent);
    }
    if span_eq(v, klo, khi, field) {
        let (vlo, vhi) = if tlo + k < thi {
            assert(t.skip(k as int + 1) =~= v@.subrange(tlo + k + 1, thi as int));
            unquote_span(v, tlo + k + 1, thi)
        } else {
            assert(v@.subrange(thi as int, thi as int) =~= Seq::<char>::empty());
            unquote_span(v, thi, thi)
        };
        if vlo < vhi {
            return (Some((vlo, vhi)), inside, record_indent);
        }
    }
    (None, inside, record_indent)
}

/// Read the browser-session signing secret out of the credentials text.
///
/// The credentials file is plain YAML and this key is the only `secret` under
/// the `client-connection/browser-session` record, so an anchored line scan is
/// enough.
pub fn cookie_secret(text: &str) -> (r: Option<String>)
    ensures
        r matches Some(s) ==> stored_secret(text@) == Some(s@),
        r is None ==> stored_secret(text@) is None,
{
    let v = chars_of(text);
    let n = v.len();
    let record = chars_of("client-connection/browser-session");
    let field = chars_of("secret");
    let mut inside = false;
    let mut record_indent: u128 = 0;
    let mut pos: usize = 0;
    assert(v@.subrange(0, n as int) =~= text@);
    while pos < n
        invariant
            pos <= n == v.len(),
            v@ == text@,
            record@ == session_record(),
            field@ == secret_field(),
            stored_secret(text@) == scan_secret(
                lines(v@.subrange(pos as int, n as int)),
                inside,
                record_indent as int,
            ),
        decreases n - pos,
    {
        let ghost rest = v@.subrange(pos as int, n as int);
        let k = lead_in(&v, pos, n, Pat::IsNot('\n'));
        proof {
            lemma_lead_bound(rest, Pat::IsNot('\n'));
        }
        let end = pos + k;
        let line_hi = if end < n && end > pos && v[end - 1] == '\r' {
            end - 1
        } else {
            end
        };
        proof {
            let ls = lines(rest);
            if end < n {
                assert(rest.take(k as int) =~= v@.subrange(pos as int, end as int));
                assert(strip_cr(rest.take(k as int)) =~= v@.subrange(pos as int, line_hi as int));
                assert(rest.skip(k as int + 1) =~= v@.subrange(end + 1, n as int));
                assert(ls[0] == v@.subrange(pos as int, line_hi as int));
                assert(ls.drop_first() =~= lines(v@.subrange(end + 1, n as int)));
            } else {
                assert(ls[0] == v@.subrange(pos as int, line_hi as int));
                assert(ls.drop_first() =~= Seq::<Seq<char>>::empty());
            }
        }
        let (found, now_inside, now_indent) = scan_line_span(
            &v,
            pos,
            line_hi,
            inside,
            record_indent,
            &record,
            &field,
        );
        if let Some((a, b)) = found {
            return Some(span_string(text, &v, a, b));
        }
        inside = now_inside;
        record_indent = now_indent;
        if end == n {
            assert(lines(v@.subrange(n as int, n as int)) =~= Seq::<Seq<char>>::empty());
            pos = n;
        } else {
            pos = end + 1;
        }
    }
    assert(v@.subrange(n as int, n as int) =~= Seq::<char>::empty());
    None
}

// ---------------------------------------------------------------------------
// Minting the browser-session cookie

/// Cookie lifetime for a minted session: 29 days, in milliseconds.
///
/// The harness rejects a payload whose lifetime exceeds its own
/// `cookieMaxAgeDays` (default 30), and a window left open must outlive its
/// cookie; 29 days sits just under the default.
pub const COOKIE_LIFETIME_MILLIS: i64 = 29 * 24 * 60 * 60 * 1000;

/// The lifetime of the second cookie minted when the server refuses the
/// first one, in case its profile lowered `cookieMaxAgeDays`: one day.
pub const SHORT_COOKIE_LIFETIME_MILLIS: i64 = 24 * 60 * 60 * 1000;

/// The `host:port` a cookie is bound to.
pub open spec fn authority_of(port: u16) -> Seq<char> {
    "127.0.0.1:"@ + dec(port as nat)
}

/// The JSON payload the harness signs.
pub open spec fn payload_of(authority: Seq<char>, issued_at: int, expires_at: int) -> Seq<char> {
    "{\"version\":1,\"authority\":\""@ + authority + "\",\"issuedAt\":"@ + idec(issued_at)
        + ",\"expiresAt\":"@ + idec(expires_at) + "}"@
}

/// The cookie's name: a prefix and the hash of the authority.
pub open spec fn cookie_name_of(authority: Seq<char>) -> Seq<char> {
    "dsh-auth-"@ + base64url(sha256(encode_utf8(authority)))
}

/// The cookie's value: `v1.<body>.<signature>`.
pub open spec fn cookie_value_of(body: Seq<char>, signature: Seq<char>) -> Seq<char> {
    "v1."@ + body + "."@ + signature
}

/// The cookie minted for `port` under `key` at `issued_at`, valid for
/// `lifetime` milliseconds, as a `(name, value)` pair: the body is the
/// base64url payload, and the signature is the base64url HMAC-SHA256 of the
/// body under the key.
pub open spec fn minted_cookie(port: u16, key: Seq<u8>, issued_at: i64, lifetime: i64) -> (
    Seq<char>,
    Seq<char>,
) {
    let authority = authority_of(port);
    let body = base64url(encode_utf8(payload_of(authority, issued_at as int, issued_at + lifetime)));
    (
        cookie_name_of(authority),
        cookie_value_of(body, base64url(hmac_sha256(key, encode_utf8(body)))),
    )
}

/// The cookie minted from credentials text at a clock reading, or `None` when
/// the text is missing, holds no signing secret, the secret is not base64url,
/// or the clock could not be read.
pub open spec fn minted(
    port: u16,
    credentials: Option<Seq<char>>,
    issued_at: Option<i64>,
    lifetime: i64,
) -> Option<(Seq<char>, Seq<char>)> {
    match credentials {
        None => None,
        Some(text) => match stored_secret(text) {
            None => None,
            Some(secret) => match base64url_decoded(encode_utf8(secret)) {
                None => None,
                Some(key) => match issued_at {
                    None => None,
                    Some(t) => Some(minted_cookie(port, key, t, lifetime)),
                },
            },
        },
    }
}

pub open spec fn str_view(s: Option<&str>) -> Option<Seq<char>> {
    match s {
        Some(t) => Some(t@),
        None => None,
    }
}

/// The `host:port` a cookie for `port` is bound to.
pub fn authority(port: u16) -> (r: String)
    ensures
        r@ == authority_of(port),
{
    let mut a = String::new();
    a.append("127.0.0.1:");
    push_dec(&mut a, port as u64);
    assert(a@ =~= authority_of(port));
    a
}

/// The JSON payload the harness signs for a cookie.
pub fn cookie_payload(authority: &str, issued_at: i64, expires_at: i64) -> (r: String)
    ensures
        r@ == payload_of(authority@, issued_at as int, expires_at as int),
{
    let mut p = String::new();
    p.append("{\"version\":1,\"authority\":\"");
    p.append(authority);
    p.append("\",\"issuedAt\":");
    push_idec(&mut p, issued_at);
    p.append(",\"expiresAt\":");
    push_idec(&mut p, expires_at);
    p.append("}");
    assert(p@ =~= payload_of(authority@, issued_at as int, expires_at as int));
    p
}

/// The cookie value `v1.<body>.<signature>`.
pub fn cookie_value(body: &str, signature: &str) -> (r: String)
    ensures
        r@ == cookie_value_of(body@, signature@),
{
    let mut v = String::new();
    v.append("v1.");
    v.append(body);
    v.append(".");
    v.append(signature);
    assert(v@ =~= cookie_value_of(body@, signature@));
    v
}

/// The cookie name for an authority.
pub fn cookie_name(authority: &str) -> (r: String)
    ensures
        r@ == cookie_name_of(authority@),
{
    let digest = sha256_digest(authority.as_bytes());
    let mut name = String::new();
    name.append("dsh-auth-");
    name.append(base64_url(digest.as_slice()).as_str());
    assert(name@ =~= cookie_name_of(authority@));
    name
}

/// Mint the browser-session cookie the harness would have issued itself.
///
/// `credentials` is the text of the credentials file in the shared harness
/// home (`None` when it could not be read) and `issued_at` the current time in
/// milliseconds since the Unix epoch (`None` when the clock reads before it).
/// The cookie is not bound to any launch token, only to the secret in the
/// shared harness home, so minting the same cookie authenticates without a
/// token, without a log, and without anything for the user to do.
///
/// Returns the cookie name and value. The value has the harness's format,
/// `v1.<base64url(payload)>.<base64url(HMAC-SHA256(secret, body))>`, and so
/// always consists of exactly three dot-separated pieces.
pub fn mint_session_cookie(port: u16, credentials: Option<&str>, issued_at: Option<i64>) -> (r:
    Option<(String, String)>)
    requires
        issued_at matches Some(t) ==> t <= i64::MAX - COOKIE_LIFETIME_MILLIS,
    ensures
        r matches Some((name, value)) ==> issued_at is Some && cookie_bound_to(
            name@,
            value@,
            "127.0.0.1:"@ + dec(port as nat),
            issued_at->0 as int,
            issued_at->0 + COOKIE_LIFETIME_MILLIS,
        ),
        r is Some <==> minted(port, str_view(credentials), issued_at, COOKIE_LIFETIME_MILLIS) is Some,
        r matches Some((name, value)) ==> minted(
            port,
            str_view(credentials),
            issued_at,
            COOKIE_LIFETIME_MILLIS,
        ) == Some((name@, value@)),
        r matches Some((name, value)) ==> {
            &&& starts_with(name@, "dsh-auth-"@)
            &&& starts_with(value@, "v1."@)
            &&& split_dots(value@).len() == 3
        },
{
    mint_cookie_for(port, credentials, issued_at, COOKIE_LIFETIME_MILLIS)
}

/// Mint the browser-session cookie for `port` with a given lifetime in
/// milliseconds; see [`mint_session_cookie`].
pub fn mint_cookie_for(port: u16, credentials: Option<&str>, issued_at: Option<i64>, lifetime: i64) -> (r:
    Option<(String, String)>)
    requires
        issued_at matches Some(t) ==> i64::MIN <= t + lifetime <= i64::MAX,
    ensures
        r matches Some((name, value)) ==> issued_at is Some && cookie_bound_to(
            name@,
            value@,
            "127.0.0.1:"@ + dec(port as nat),
            issued_at->0 as int,
            issued_at->0 + lifetime,
        ),
        r is Some <==> minted(port, str_view(credentials), issued_at, lifetime) is Some,
        r matches Some((name, value)) ==> minted(port, str_view(credentials), issued_at, lifetime)
            == Some((name@, value@)),
        r matches Some((name, value)) ==> {
            &&& starts_with(name@, "dsh-auth-"@)
            &&& starts_with(value@, "v1."@)
            &&& split_dots(value@).len() == 3
        },
{
    let text = match credentials {
        Some(text) => text,
        None => {
            return None;
        },
    };
    let stored = match cookie_secret(text) {
        Some(secret) => secret,
        None => {
            return None;
        },
    };
    // The stored value is base64url text; the harness decodes it to raw key
    // bytes before signing, so those same bytes have to be the HMAC key here.
    let key = match base64_url_decode(stored.as_str().as_bytes()) {
        Ok(key) => key,
        Err(_) => {
            return None;
        },
    };
    let issued = match issued_at {
        Some(t) => t,
        None => {
            return None;
        },
    };
    let expires = issued + lifetime;
    let authority = authority(port);
    let payload = cookie_payload(authority.as_str(), issued, expires);
    proof {
        reveal_strlit("127.0.0.1:");
        reveal_strlit("{\"version\":1,\"authority\":\"");
        reveal_strlit("\",\"issuedAt\":");
        reveal_strlit(",\"expiresAt\":");
        reveal_strlit("}");
        lemma_port_dec_len(port);
        lemma_idec_len(issued as int);
        lemma_idec_len(expires as int);
        lemma_encode_utf8_len(payload@);
    }
    let body = base64_url(payload.as_str().as_bytes());
    let signature = match hmac_sha256_tag(key.as_slice(), body.as_str().as_bytes()) {
        Ok(tag) => tag,
        Err(_) => {
            return None;
        },
    };
    let name = cookie_name(authority.as_str());
    let value = cookie_value(body.as_str(), base64_url(signature.as_slice()).as_str());
    proof {
        lemma_cookie_shape(body@, base64url(hmac_sha256(key@, encode_utf8(body@))));
        lemma_starts_with_prefix("dsh-auth-"@, base64url(sha256(encode_utf8(authority@))));
        lemma_minted_cookie_binds_port(port, key@, issued, lifetime);
    }
    Some((name, value))
}

/// Whether a cookie `(name, value)` is the harness's cookie for `authority`:
/// its name is the hash of that authority, and its value signs a payload that
/// names the same authority, issued at `issued_at` and expiring at
/// `expires_at`.
pub open spec fn cookie_bound_to(
    name: Seq<char>,
    value: Seq<char>,
    authority: Seq<char>,
    issued_at: int,
    expires_at: int,
) -> bool {
    let payload = payload_of(authority, issued_at, expires_at);
    &&& name == "dsh-auth-"@ + base64url(sha256(encode_utf8(authority)))
    &&& starts_with(
        payload,
        "{\"version\":1,\"authority\":\""@ + authority + "\",\"issuedAt\":"@ + idec(issued_at),
    )
    &&& starts_with(value, "v1."@ + base64url(encode_utf8(payload)) + "."@)
}

/// A cookie minted for `port` is bound to `127.0.0.1:<port>` throughout: the
/// name hashes that authority, and the signed payload names the same one,
/// with the clock reading as its issue time and that plus the lifetime as its
/// expiry. So a server on another port never accepts it, and a server on
/// this port never refuses it for its authority.
pub proof fn lemma_minted_cookie_binds_port(port: u16, key: Seq<u8>, issued_at: i64, lifetime: i64)
    ensures
        cookie_bound_to(
            minted_cookie(port, key, issued_at, lifetime).0,
            minted_cookie(port, key, issued_at, lifetime).1,
            "127.0.0.1:"@ + dec(port as nat),
            issued_at as int,
            issued_at + lifetime,
        ),
{
    let authority = "127.0.0.1:"@ + dec(port as nat);
    let payload = payload_of(authority, issued_at as int, issued_at + lifetime);
    let head = "{\"version\":1,\"authority\":\""@ + authority + "\",\"issuedAt\":"@ + idec(
        issued_at as int,
    );
    assert(payload =~= head + (",\"expiresAt\":"@ + idec(issued_at + lifetime) + "}"@));
    assert(payload.take(head.len() as int) =~= head);
    let body = base64url(encode_utf8(payload));
    let signature = base64url(hmac_sha256(key, encode_utf8(body)));
    let value = minted_cookie(port, key, issued_at, lifetime).1;
    let prefix = "v1."@ + body + "."@;
    assert(value =~= prefix + signature);
    assert(value.take(prefix.len() as int) =~= prefix);
}

/// A minted cookie's lifetime stays under the harness's default
/// `cookieMaxAgeDays` of 30 days, and the second try is shorter still.
pub proof fn lemma_lifetime_under_thirty_days()
    ensures
        0 < SHORT_COOKIE_LIFETIME_MILLIS < COOKIE_LIFETIME_MILLIS < 30 * 24 * 60 * 60 * 1000,
{
}

/// The cookie's name depends on the port alone: the secret and the time only
/// go into its value.
pub proof fn lemma_cookie_name_depends_on_port_only(
    port: u16,
    k1: Seq<u8>,
    k2: Seq<u8>,
    t1: i64,
    t2: i64,
    l1: i64,
    l2: i64,
)
    ensures
        minted_cookie(port, k1, t1, l1).0 == minted_cookie(port, k2, t2, l2).0,
{
}

pub proof fn lemma_starts_with_prefix(p: Seq<char>, rest: Seq<char>)
    ensures
        starts_with(p + rest, p),
{
    assert((p + rest).take(p.len() as int) =~= p);
}

/// A dot-free piece followed by a dot splits off as the first piece.
pub proof fn lemma_split_piece(piece: Seq<char>, rest: Seq<char>)
    requires
        forall|i: int| 0 <= i < piece.len() ==> #[trigger] piece[i] != '.',
    ensures
        split_dots(piece + seq!['.'] + rest) == seq![piece].add(split_dots(rest)),
{
    let s = piece + seq!['.'] + rest;
    assert forall|k: int| 0 <= k < piece.len() implies hits(Pat::IsNot('.'), #[trigger] s[k]) by {
        assert(s[k] == piece[k]);
    }
    assert(s[piece.len() as int] == '.');
    lemma_lead_is(s, Pat::IsNot('.'), piece.len() as int);
    assert(s.take(piece.len() as int) =~= piece);
    assert(s.skip(piece.len() as int + 1) =~= rest);
}

/// A dot-free text is a single piece.
pub proof fn lemma_split_last(piece: Seq<char>)
    requires
        forall|i: int| 0 <= i < piece.len() ==> #[trigger] piece[i] != '.',
    ensures
        split_dots(piece) == seq![piece],
{
    if piece.len() > 0 {
        assert forall|k: int| 0 <= k < piece.len() implies hits(
            Pat::IsNot('.'),
            #[trigger] piece[k],
        ) by {}
        lemma_lead_is(piece, Pat::IsNot('.'), piece.len() as int);
    }
}

/// A minted cookie's value splits at its dots into exactly the version tag,
/// the body and the signature, because base64url text holds no dot.
pub proof fn lemma_cookie_shape(body: Seq<char>, signature: Seq<char>)
    requires
        forall|i: int| 0 <= i < body.len() ==> is_base64url_char(#[trigger] body[i]),
        forall|i: int| 0 <= i < signature.len() ==> is_base64url_char(#[trigger] signature[i]),
    ensures
        split_dots(cookie_value_of(body, signature)) == seq![seq!['v', '1'], body, signature],
        starts_with(cookie_value_of(body, signature), "v1."@),
{
    reveal_strlit("v1.");
    reveal_strlit(".");
    assert forall|i: int| 0 <= i < body.len() implies #[trigger] body[i] != '.' by {
        assert(is_base64url_char(body[i]));
    }
    assert forall|i: int| 0 <= i < signature.len() implies #[trigger] signature[i] != '.' by {
        assert(is_base64url_char(signature[i]));
    }
    let v = cookie_value_of(body, signature);
    let tail = body + seq!['.'] + signature;
    assert(v =~= seq!['v', '1'] + seq!['.'] + tail);
    lemma_split_piece(seq!['v', '1'], tail);
    lemma_split_piece(body, signature);
    lemma_split_last(signature);
    assert(split_dots(v) =~= seq![seq!['v', '1'], body, signature]);
    lemma_starts_with_prefix("v1."@, body + "."@ + signature);
    assert(v =~= "v1."@ + (body + "."@ + signature));
}

} // verus!
