//! Booting the harness: the command line it is started with, what is kept of
//! its output, and what the boot screen is told when something fails.
use vstd::prelude::*;
use crate::crypto::{json_string, to_json_string};
use crate::session::{
    attach_url, attach_url_for, discovered_token, COOKIE_LIFETIME_MILLIS,
    SHORT_COOKIE_LIFETIME_MILLIS,
};
use crate::text::{
    chars_of, dec, find_from, find_in, first_word, lemma_dec_parses, is_digit, lead, lead_in, parse_span, parse_uint, push_dec,
    span_starts_with, starts_with, texts, trim_start, Pat,
};

verus! {

/// How many stderr lines to retain for a failure report.
pub const LOG_TAIL: usize = 40;

/// The arguments the harness is started with, after its own command: the
/// `web` subcommand on `profile` and `port`, with the browser left closed.
pub open spec fn harness_args_of(profile: Seq<char>, port: u16) -> Seq<Seq<char>> {
    seq!["web"@, "--profile"@, profile, "--no-open"@, "--port"@, dec(port as nat)]
}

/// The arguments that make the harness run `dsh web --profile <profile>
/// --no-open --port <port>`.
pub fn harness_args(profile: &str, port: u16) -> (r: Vec<String>)
    ensures
        texts(r@) == harness_args_of(profile@, port),
        r@.len() == 6,
        r@[0]@ == "web"@,
        r@[2]@ == profile@,
        r@[4]@ == "--port"@,
        parse_uint(r@[5]@, 65535) == Some(port as nat),
{
    proof {
        lemma_harness_args_name_the_port(profile@, port);
    }
    let mut port_text = String::new();
    push_dec(&mut port_text, port as u64);
    assert(port_text@ =~= dec(port as nat));
    let mut args: Vec<String> = Vec::new();
    args.push(String::from_str("web"));
    args.push(String::from_str("--profile"));
    args.push(String::from_str(profile));
    args.push(String::from_str("--no-open"));
    args.push(String::from_str("--port"));
    args.push(port_text);
    assert(texts(args@) =~= harness_args_of(profile@, port));
    args
}

/// The harness is asked to serve the `web` subcommand on `profile`, and the
/// argument after `--port` reads back as exactly the port it was given.
pub proof fn lemma_harness_args_name_the_port(profile: Seq<char>, port: u16)
    ensures
        harness_args_of(profile, port).len() == 6,
        harness_args_of(profile, port)[0] == "web"@,
        harness_args_of(profile, port)[2] == profile,
        harness_args_of(profile, port)[4] == "--port"@,
        parse_uint(harness_args_of(profile, port)[5], 65535) == Some(port as nat),
{
    lemma_dec_parses(port as nat, 65535);
}

/// The last `n` of `lines` (all of them when there are fewer).
pub open spec fn last_lines(lines: Seq<Seq<char>>, n: nat) -> Seq<Seq<char>> {
    if lines.len() <= n {
        lines
    } else {
        lines.skip(lines.len() - n)
    }
}

/// The most recent lines the harness wrote to stderr, at most `LOG_TAIL`.
pub struct LogTail {
    lines: Vec<String>,
}

impl View for LogTail {
    type V = Seq<Seq<char>>;

    closed spec fn view(&self) -> Seq<Seq<char>> {
        texts(self.lines@)
    }
}

impl LogTail {
    /// At most `LOG_TAIL` lines are kept.
    #[verifier::type_invariant]
    spec fn bounded(self) -> bool {
        self.lines@.len() <= LOG_TAIL
    }

    /// An empty tail.
    pub fn new() -> (t: LogTail)
        ensures
            t@ == Seq::<Seq<char>>::empty(),
    {
        let t = LogTail { lines: Vec::new() };
        assert(t@ =~= Seq::<Seq<char>>::empty());
        t
    }

    /// Record one more line, dropping the oldest when the tail is full.
    pub fn push(&mut self, line: String)
        ensures
            final(self)@ == last_lines(old(self)@.push(line@), LOG_TAIL as nat),
            final(self)@.len() <= LOG_TAIL,
    {
        proof {
            use_type_invariant(&*self);
        }
        let ghost before = self@;
        let mut lines: Vec<String> = Vec::new();
        std::mem::swap(&mut lines, &mut self.lines);
        assert(texts(lines@) == before);
        if lines.len() >= LOG_TAIL {
            lines.remove(0);
            assert(texts(lines@) =~= before.drop_first());
        }
        lines.push(line);
        proof {
            let all = before.push(line@);
            if before.len() >= LOG_TAIL {
                assert(texts(lines@) =~= all.skip(all.len() - LOG_TAIL));
            } else {
                assert(texts(lines@) =~= all);
            }
        }
        self.lines = lines;
    }

    /// The kept lines, oldest first, joined by newlines.
    pub fn joined(&self) -> (r: String)
        ensures
            r@ == newline_joined(self@),
    {
        let mut out = String::new();
        let mut i: usize = 0;
        while i < self.lines.len()
            invariant
                i <= self.lines.len(),
                out@ == newline_joined(self@.take(i as int)),
            decreases self.lines.len() - i,
        {
            if i > 0 {
                proof {
                    reveal_strlit("\n");
                }
                out.append("\n");
            }
            out.append(self.lines[i].as_str());
            assert(self@.take(i + 1).drop_last() =~= self@.take(i as int));
            assert(self@[i as int] == self.lines@[i as int]@);
            if i == 0 {
                assert(out@ =~= newline_joined(self@.take(1)));
            } else {
                assert(out@ =~= newline_joined(self@.take(i + 1)));
            }
            i = i + 1;
        }
        assert(self@.take(i as int) =~= self@);
        out
    }
}

/// A tail of a longer record keeps only the newest `n` lines of it, however
/// many lines came before.
pub proof fn lemma_tail_keeps_newest(lines: Seq<Seq<char>>, line: Seq<char>, n: nat)
    requires
        n > 0,
    ensures
        last_lines(last_lines(lines, n).push(line), n) == last_lines(lines.push(line), n),
{
    let all = lines.push(line);
    let kept = last_lines(lines, n);
    if lines.len() <= n {
        assert(kept == lines);
    } else {
        assert(kept.push(line) =~= all.skip(all.len() - (n + 1)));
        assert(last_lines(kept.push(line), n) =~= all.skip(all.len() - n));
    }
}

/// Lines joined by `\n`.
pub open spec fn newline_joined(lines: Seq<Seq<char>>) -> Seq<char>
    decreases lines.len(),
{
    if lines.len() == 0 {
        seq![]
    } else if lines.len() == 1 {
        lines[0]
    } else {
        newline_joined(lines.drop_last()) + seq!['\n'] + lines.last()
    }
}

/// What is reported when the harness did not announce its URL in time:
/// the command, the timeout in seconds, and its last output when it left any.
pub open spec fn silent_boot_report(command: Seq<char>, timeout_secs: u64, tail: Seq<char>) -> Seq<
    char,
> {
    if tail.len() == 0 {
        "`"@ + command + "` did not announce a URL within "@ + dec(timeout_secs as nat) + "s"@
    } else {
        "`"@ + command + "` did not announce a URL within "@ + dec(timeout_secs as nat)
            + "s. Last output:\n"@ + tail
    }
}

/// The failure report for a harness that did not announce its URL within
/// `timeout_secs`, quoting the last lines it wrote to stderr.
pub fn silent_boot(command: &str, timeout_secs: u64, tail: &str) -> (r: String)
    ensures
        r@ == silent_boot_report(command@, timeout_secs, tail@),
{
    let mut m = String::from_str("`");
    m.append(command);
    m.append("` did not announce a URL within ");
    push_dec(&mut m, timeout_secs);
    if tail.is_empty() {
        m.append("s");
    } else {
        m.append("s. Last output:\n");
        m.append(tail);
    }
    m
}

/// What the window opens on a server it attaches to: with a minted cookie
/// the bare loopback URL (the cookie goes in before the request is
/// re-issued), and otherwise the URL with a logged launch token, when there
/// is one.
pub open spec fn attach_target_of(
    port: u16,
    cookie: Option<(Seq<char>, Seq<char>)>,
    logs: Seq<Option<String>>,
) -> (Seq<char>, Option<(Seq<char>, Seq<char>)>) {
    match cookie {
        Some(c) => ("http://127.0.0.1:"@ + dec(port as nat) + "/"@, Some(c)),
        None => (attach_url_for(port, discovered_token(logs, port)), None),
    }
}

pub open spec fn cookie_view(c: Option<(String, String)>) -> Option<(Seq<char>, Seq<char>)> {
    match c {
        Some((name, value)) => Some((name@, value@)),
        None => None,
    }
}

/// The URL to open, and the cookie to install first, for a server on `port`
/// that this shell did not start. `cookie` is the session cookie minted for
/// the port, when one could be minted.
pub fn attach_target(port: u16, cookie: Option<(String, String)>, logs: &Vec<Option<String>>) -> (r: (
    String,
    Option<(String, String)>,
))
    ensures
        (r.0@, cookie_view(r.1)) == attach_target_of(port, cookie_view(cookie), logs@),
{
    match cookie {
        Some(c) => {
            let mut url = String::from_str("http://127.0.0.1:");
            push_dec(&mut url, port as u64);
            url.append("/");
            (url, Some(c))
        },
        None => (attach_url(port, logs), None),
    }
}

/// The script that shows `message` on the boot screen.
pub open spec fn failure_script_of(message: Seq<char>) -> Seq<char> {
    "window.__dshFailed && window.__dshFailed("@ + json_string(message) + ")"@
}

/// The script that shows a failure on the boot screen, with the message
/// passed as the JSON string `serde_json` writes for it.
pub fn failure_script(message: &str) -> (r: String)
    ensures
        r@ == failure_script_of(message@),
{
    let payload = match to_json_string(message) {
        Ok(json) => json,
        Err(_) => String::from_str("\"unprintable error\""),
    };
    let mut script = String::from_str("window.__dshFailed && window.__dshFailed(");
    script.append(payload.as_str());
    script.append(")");
    script
}

// ---------------------------------------------------------------------------
// Checking a minted cookie before the window is given it

/// How a server answered a request made with a minted cookie.
#[derive(Clone, Copy, Debug, PartialEq, Eq, Structural)]
pub enum CookieVerdict {
    /// A 2xx answer: the cookie lets the window in.
    Accepted,
    /// The harness's unauthenticated answer, 401: the cookie was refused.
    Rejected,
    /// No answer, or one that says neither.
    Unknown,
}

/// The three-digit status code of an HTTP status line such as
/// `HTTP/1.1 401 Unauthorized`.
pub open spec fn status_code_of(line: Seq<char>) -> Option<nat> {
    let t = trim_start(line, Pat::Space);
    let n = lead(t, Pat::NonSpace);
    let version = t.take(n as int);
    if !starts_with(version, "HTTP/"@) {
        None
    } else {
        match first_word(t.skip(n as int)) {
            Some(code) => if code.len() == 3 && is_digit(code[0]) {
                parse_uint(code, 999)
            } else {
                None
            },
            None => None,
        }
    }
}

pub open spec fn verdict_of(status_line: Option<Seq<char>>) -> CookieVerdict {
    match status_line {
        None => CookieVerdict::Unknown,
        Some(line) => match status_code_of(line) {
            Some(code) => if code == 401 {
                CookieVerdict::Rejected
            } else if 200 <= code < 300 {
                CookieVerdict::Accepted
            } else {
                CookieVerdict::Unknown
            },
            None => CookieVerdict::Unknown,
        },
    }
}

/// Read the verdict off the status line a request with the cookie got back
/// (`None` when no answer could be read).
pub fn cookie_verdict(status_line: Option<&str>) -> (r: CookieVerdict)
    ensures
        r == verdict_of(
            match status_line {
                Some(l) => Some(l@),
                None => None,
            },
        ),
{
    let line = match status_line {
        Some(line) => line,
        None => {
            return CookieVerdict::Unknown;
        },
    };
    let v = chars_of(line);
    let n = v.len();
    let lo = lead_in(&v, 0, n, Pat::Space);
    let w = lead_in(&v, lo, n, Pat::NonSpace);
    let ghost t = trim_start(line@, Pat::Space);
    proof {
        assert(v@.subrange(0, n as int) =~= line@);
        assert(t =~= v@.subrange(lo as int, n as int));
        assert(t.take(w as int) =~= v@.subrange(lo as int, lo + w));
        assert(t.skip(w as int) =~= v@.subrange(lo + w, n as int));
        reveal_strlit("HTTP/");
    }
    let http = chars_of("HTTP/");
    if !span_starts_with(&v, lo, lo + w, &http) {
        return CookieVerdict::Unknown;
    }
    let start = lo + w;
    let a = lead_in(&v, start, n, Pat::Space);
    let ghost rest = v@.subrange(start as int, n as int);
    assert(trim_start(rest, Pat::Space) =~= v@.subrange(start + a, n as int));
    if start + a == n {
        return CookieVerdict::Unknown;
    }
    let b = lead_in(&v, start + a, n, Pat::NonSpace);
    let code_lo = start + a;
    let code_hi = code_lo + b;
    assert(first_word(rest) == Some(v@.subrange(code_lo as int, code_hi as int)));
    if b != 3 {
        return CookieVerdict::Unknown;
    }
    let first = v[code_lo] as u32;
    assert(v@.subrange(code_lo as int, code_hi as int)[0] == v@[code_lo as int]);
    if first < 48 || first > 57 {
        return CookieVerdict::Unknown;
    }
    match parse_span(&v, code_lo, code_hi, 999) {
        Some(code) => if code == 401 {
            CookieVerdict::Rejected
        } else if 200 <= code && code < 300 {
            CookieVerdict::Accepted
        } else {
            CookieVerdict::Unknown
        },
        None => CookieVerdict::Unknown,
    }
}

/// What to do after checking a minted cookie.
#[derive(Clone, Copy, Debug, PartialEq, Eq, Structural)]
pub enum CookieStep {
    /// Give the window the cookie and open it.
    Open,
    /// Mint again with the shorter lifetime and check that one.
    RetryShorter,
    /// Explain on the boot screen why the window cannot get in, and stop.
    Refuse,
}

/// A refused cookie is retried once with a shorter lifetime, and a second
/// refusal is explained instead of leaving the window on a 401 page. A
/// cookie that could not be checked is given the benefit of the doubt.
pub open spec fn step_after(first_try: bool, verdict: CookieVerdict) -> CookieStep {
    match verdict {
        CookieVerdict::Rejected => if first_try {
            CookieStep::RetryShorter
        } else {
            CookieStep::Refuse
        },
        _ => CookieStep::Open,
    }
}

/// What to do after checking a minted cookie, on the first try or on the
/// retry.
pub fn next_cookie_step(first_try: bool, verdict: CookieVerdict) -> (r: CookieStep)
    ensures
        r == step_after(first_try, verdict),
        verdict == CookieVerdict::Rejected ==> r != CookieStep::Open,
{
    match verdict {
        CookieVerdict::Rejected => if first_try {
            CookieStep::RetryShorter
        } else {
            CookieStep::Refuse
        },
        _ => CookieStep::Open,
    }
}

/// The request that checks a cookie against the server on `port`.
pub open spec fn cookie_check_request_of(port: u16, name: Seq<char>, value: Seq<char>) -> Seq<char> {
    "GET / HTTP/1.1\r\nHost: 127.0.0.1:"@ + dec(port as nat) + "\r\nCookie: "@ + name + "="@ + value
        + "\r\nConnection: close\r\n\r\n"@
}

/// The request that checks a cookie against the server on `port`.
pub fn cookie_check_request(port: u16, name: &str, value: &str) -> (r: String)
    ensures
        r@ == cookie_check_request_of(port, name@, value@),
{
    let mut request = String::from_str("GET / HTTP/1.1\r\nHost: 127.0.0.1:");
    push_dec(&mut request, port as u64);
    request.append("\r\nCookie: ");
    request.append(name);
    request.append("=");
    request.append(value);
    request.append("\r\nConnection: close\r\n\r\n");
    request
}

/// What the boot screen says when the server on `port` refused both minted
/// cookies.
pub open spec fn cookie_refused_report_of(port: u16) -> Seq<char> {
    "the harness on 127.0.0.1:"@ + dec(port as nat)
        + " refused the session cookie signed with this machine's harness secret, even with a one-day lifetime; it most likely runs with a different DSH_HOME. Press Cmd+Shift+R to retry."@
}

/// What the boot screen says when the server on `port` refused both minted
/// cookies.
pub fn cookie_refused_report(port: u16) -> (r: String)
    ensures
        r@ == cookie_refused_report_of(port),
{
    let mut m = String::from_str("the harness on 127.0.0.1:");
    push_dec(&mut m, port as u64);
    m.append(
        " refused the session cookie signed with this machine's harness secret, even with a one-day lifetime; it most likely runs with a different DSH_HOME. Press Cmd+Shift+R to retry.",
    );
    m
}

/// How long the minted cookie is made to last on the first try and on the
/// retry: a harness configured with a shorter `cookieMaxAgeDays` refuses the
/// longer one, and trying is one format dependency less than reading its
/// configuration.
pub fn cookie_lifetime(first_try: bool) -> (r: i64)
    ensures
        r == if first_try {
            COOKIE_LIFETIME_MILLIS
        } else {
            SHORT_COOKIE_LIFETIME_MILLIS
        },
{
    if first_try {
        COOKIE_LIFETIME_MILLIS
    } else {
        SHORT_COOKIE_LIFETIME_MILLIS
    }
}

// ---------------------------------------------------------------------------
// Who serves the shared port

/// What the harness says, with a 401, to a request that carries no
/// credentials.
pub const UNAUTHENTICATED_MARKER: &'static str = "dsh web authentication required";

/// What holds the shared loopback port.
#[derive(Clone, Copy, Debug, PartialEq, Eq, Structural)]
pub enum PortOccupant {
    /// Nothing accepted a connection: the shell may start a server there.
    Free,
    /// A `dsh web` answered: the window attaches to it.
    Harness,
    /// Something else listens there: attaching would load a stranger's page
    /// into the window, and starting would collide with it.
    Foreign,
}

/// Who holds the port, from the answer to a request without credentials
/// (`None` when no connection could be made). A single connection cannot tell
/// a harness from anything else listening on a common port; the harness's own
/// unauthenticated answer can: a 401 that carries [`UNAUTHENTICATED_MARKER`].
pub open spec fn occupant_of(reply: Option<Seq<char>>) -> PortOccupant {
    match reply {
        None => PortOccupant::Free,
        Some(text) => if status_code_of(text) == Some(401nat) && find_from(
            text,
            UNAUTHENTICATED_MARKER@,
            0,
        ) is Some {
            PortOccupant::Harness
        } else {
            PortOccupant::Foreign
        },
    }
}

/// Tell who holds the port from the answer to [`port_probe_request`], or
/// `None` when nothing accepted the connection.
pub fn port_occupant(reply: Option<&str>) -> (r: PortOccupant)
    ensures
        r == occupant_of(
            match reply {
                Some(t) => Some(t@),
                None => None,
            },
        ),
{
    let text = match reply {
        Some(text) => text,
        None => {
            return PortOccupant::Free;
        },
    };
    let verdict = cookie_verdict(Some(text));
    if verdict != CookieVerdict::Rejected {
        return PortOccupant::Foreign;
    }
    let v = chars_of(text);
    let marker = chars_of(UNAUTHENTICATED_MARKER);
    match find_in(&v, &marker, 0) {
        Some(_) => PortOccupant::Harness,
        None => PortOccupant::Foreign,
    }
}

/// The request, without credentials, that tells who holds `port`.
pub open spec fn port_probe_request_of(port: u16) -> Seq<char> {
    "GET / HTTP/1.1\r\nHost: 127.0.0.1:"@ + dec(port as nat) + "\r\nConnection: close\r\n\r\n"@
}

/// The request, without credentials, that tells who holds `port`.
pub fn port_probe_request(port: u16) -> (r: String)
    ensures
        r@ == port_probe_request_of(port),
{
    let mut request = String::from_str("GET / HTTP/1.1\r\nHost: 127.0.0.1:");
    push_dec(&mut request, port as u64);
    request.append("\r\nConnection: close\r\n\r\n");
    request
}

/// What the boot screen says when something other than the harness holds
/// `port`.
pub open spec fn foreign_port_report_of(port: u16) -> Seq<char> {
    "127.0.0.1:"@ + dec(port as nat)
        + " is held by a program that is not dsh web; the window will neither load it nor start a second server over it. Free the port or set DSH_DESKTOP_PORT, then press Cmd+Shift+R."@
}

/// What the boot screen says when something other than the harness holds
/// `port`.
pub fn foreign_port_report(port: u16) -> (r: String)
    ensures
        r@ == foreign_port_report_of(port),
{
    let mut m = String::from_str("127.0.0.1:");
    push_dec(&mut m, port as u64);
    m.append(
        " is held by a program that is not dsh web; the window will neither load it nor start a second server over it. Free the port or set DSH_DESKTOP_PORT, then press Cmd+Shift+R.",
    );
    m
}

// ---------------------------------------------------------------------------
// Watching the server the window shows

/// Consecutive failed probes before the server counts as gone, so a single
/// hiccup is not taken for a death.
pub const WATCH_MISSES: u8 = 2;

/// Restarts tried in a row before the watchdog gives up and leaves the window
/// on the error page instead of restarting forever.
pub const WATCH_RETRIES: u8 = 3;

/// How often the watchdog probes the port.
pub const WATCH_INTERVAL_MILLIS: u64 = 2000;

/// What the watchdog remembers between probes.
#[derive(Clone, Copy, Debug, PartialEq, Eq, Structural)]
pub struct Watch {
    /// Failed probes in a row.
    pub misses: u8,
    /// Restarts still allowed before giving up.
    pub retries_left: u8,
    /// Whether it has given up.
    pub given_up: bool,
}

/// What the watchdog does after a probe.
#[derive(Clone, Copy, Debug, PartialEq, Eq, Structural)]
pub enum WatchAction {
    /// Nothing.
    Keep,
    /// Run the boot sequence again; the port is free by now, so the shell
    /// takes the address over, on the same harness home.
    Reboot,
    /// Stop watching and leave the window as it is.
    GiveUp,
}

/// The watchdog's step after a probe that found the server `serving` or not,
/// while a boot is or is not in progress.
///
/// A boot in progress is never interfered with; a server seen serving resets
/// the count of misses and of restarts; the second miss in a row restarts,
/// while restarts are left, and gives up once they are not.
pub open spec fn watch_next(w: Watch, booting: bool, serving: bool) -> (Watch, WatchAction) {
    if w.given_up {
        (w, WatchAction::Keep)
    } else if booting {
        (Watch { misses: 0, ..w }, WatchAction::Keep)
    } else if serving {
        (Watch { misses: 0, retries_left: WATCH_RETRIES, given_up: false }, WatchAction::Keep)
    } else if w.misses + 1 < WATCH_MISSES {
        (Watch { misses: (w.misses + 1) as u8, ..w }, WatchAction::Keep)
    } else if w.retries_left > 0 {
        (
            Watch { misses: 0, retries_left: (w.retries_left - 1) as u8, given_up: false },
            WatchAction::Reboot,
        )
    } else {
        (Watch { misses: 0, retries_left: 0, given_up: true }, WatchAction::GiveUp)
    }
}

impl Watch {
    /// A watchdog that has seen nothing yet, with every restart available.
    pub fn new() -> (w: Watch)
        ensures
            w == (Watch { misses: 0, retries_left: WATCH_RETRIES, given_up: false }),
    {
        Watch { misses: 0, retries_left: WATCH_RETRIES, given_up: false }
    }

    /// Take in one probe: whether the server was `serving`, and whether a
    /// boot was `booting` at the time.
    pub fn step(&mut self, booting: bool, serving: bool) -> (r: WatchAction)
        ensures
            (*final(self), r) == watch_next(*old(self), booting, serving),
    {
        let w = *self;
        let (next, action) = if w.given_up {
            (w, WatchAction::Keep)
        } else if booting {
            (Watch { misses: 0, ..w }, WatchAction::Keep)
        } else if serving {
            (Watch { misses: 0, retries_left: WATCH_RETRIES, given_up: false }, WatchAction::Keep)
        } else if w.misses < WATCH_MISSES - 1 {
            (Watch { misses: w.misses + 1, ..w }, WatchAction::Keep)
        } else if w.retries_left > 0 {
            (
                Watch { misses: 0, retries_left: w.retries_left - 1, given_up: false },
                WatchAction::Reboot,
            )
        } else {
            (Watch { misses: 0, retries_left: 0, given_up: true }, WatchAction::GiveUp)
        };
        *self = next;
        action
    }
}

/// The restarts the watchdog asks for over a run of probes, each a pair of
/// whether a boot was in progress and whether the server was serving.
pub open spec fn restarts(w: Watch, probes: Seq<(bool, bool)>) -> nat
    decreases probes.len(),
{
    if probes.len() == 0 {
        0
    } else {
        let (next, action) = watch_next(w, probes[0].0, probes[0].1);
        restarts(next, probes.drop_first()) + if action == WatchAction::Reboot {
            1nat
        } else {
            0nat
        }
    }
}

/// One failed probe after a good one never restarts anything, and neither
/// does any probe taken while a boot is in progress.
pub proof fn lemma_watchdog_is_patient(w: Watch, serving: bool)
    ensures
        w.misses == 0 ==> watch_next(w, false, false).1 == WatchAction::Keep,
        watch_next(w, true, serving).1 == WatchAction::Keep,
{
}

/// While the server is never seen serving again, the watchdog restarts it
/// at most as often as it has restarts left: it does not restart forever.
pub proof fn lemma_watchdog_restarts_are_bounded(w: Watch, probes: Seq<(bool, bool)>)
    requires
        forall|i: int| 0 <= i < probes.len() ==> !(#[trigger] probes[i]).1,
    ensures
        restarts(w, probes) <= w.retries_left,
    decreases probes.len(),
{
    if probes.len() > 0 {
        let (next, action) = watch_next(w, probes[0].0, probes[0].1);
        let rest = probes.drop_first();
        assert forall|i: int| 0 <= i < rest.len() implies !(#[trigger] rest[i]).1 by {
            assert(rest[i] == probes[i + 1]);
        }
        assert(!probes[0].1);
        lemma_watchdog_restarts_are_bounded(next, rest);
    }
}

// ---------------------------------------------------------------------------
// Tearing down a server the shell started

/// How many times to look for the server's exit after the polite signal
/// before escalating.
pub const TEARDOWN_POLLS: u32 = 30;

/// The pause between two looks.
pub const TEARDOWN_POLL_MILLIS: u64 = 100;

/// What to do next while tearing down the server's process group.
#[derive(Clone, Copy, Debug, PartialEq, Eq, Structural)]
pub enum TeardownAction {
    /// It has exited: reap it and stop.
    Done,
    /// Wait one pause and look again.
    Poll,
    /// It ignored the request: kill the whole group.
    Kill,
}

/// The next teardown step after `polls` looks, the last of which found the
/// server `exited` or not: the polite request is given `TEARDOWN_POLLS`
/// pauses before it is enforced.
pub fn teardown_step(polls: u32, exited: bool) -> (r: TeardownAction)
    ensures
        r == if exited {
            TeardownAction::Done
        } else if polls < TEARDOWN_POLLS {
            TeardownAction::Poll
        } else {
            TeardownAction::Kill
        },
{
    if exited {
        TeardownAction::Done
    } else if polls < TEARDOWN_POLLS {
        TeardownAction::Poll
    } else {
        TeardownAction::Kill
    }
}

} // verus!
