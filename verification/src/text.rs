//! Character-level text model shared by every parser in the crate.
//!
//! Strings are reasoned about through their `Seq<char>` views. A piece of a
//! larger text is carried as a half-open span `[lo, hi)` of character indices
//! into a `Vec<char>` holding the whole text, so parsing never copies.
use vstd::prelude::*;
use vstd::utf8::{encode_scalar, encode_utf8};

verus! {

/// The texts of a list of strings.
pub open spec fn texts(v: Seq<String>) -> Seq<Seq<char>> {
    v.map_values(|s: String| s@)
}

/// Unicode `White_Space`, which is what `char::is_whitespace` tests.
pub open spec fn is_ws(c: char) -> bool {
    let u = c as u32;
    ||| 0x09 <= u <= 0x0d
    ||| u == 0x20
    ||| u == 0x85
    ||| u == 0xa0
    ||| u == 0x1680
    ||| 0x2000 <= u <= 0x200a
    ||| u == 0x2028
    ||| u == 0x2029
    ||| u == 0x202f
    ||| u == 0x205f
    ||| u == 0x3000
}

/// The character classes the parsers skip over or stop at.
#[derive(Clone, Copy)]
pub enum Pat {
    /// Whitespace.
    Space,
    /// Anything but whitespace.
    NonSpace,
    /// Exactly this character.
    Is(char),
    /// Anything but this character.
    IsNot(char),
    /// An ASCII letter or digit, `-` or `_`.
    Token,
}

pub open spec fn hits(p: Pat, c: char) -> bool {
    match p {
        Pat::Space => is_ws(c),
        Pat::NonSpace => !is_ws(c),
        Pat::Is(d) => c == d,
        Pat::IsNot(d) => c != d,
        Pat::Token => is_token_char(c),
    }
}

pub open spec fn is_token_char(c: char) -> bool {
    let u = c as u32;
    ||| 48 <= u <= 57
    ||| 65 <= u <= 90
    ||| 97 <= u <= 122
    ||| c == '-'
    ||| c == '_'
}

/// How many leading characters of `s` match `p`.
pub open spec fn lead(s: Seq<char>, p: Pat) -> nat
    decreases s.len(),
{
    if s.len() > 0 && hits(p, s[0]) {
        1 + lead(s.drop_first(), p)
    } else {
        0
    }
}

/// How many trailing characters of `s` match `p`.
pub open spec fn trail(s: Seq<char>, p: Pat) -> nat
    decreases s.len(),
{
    if s.len() > 0 && hits(p, s.last()) {
        1 + trail(s.drop_last(), p)
    } else {
        0
    }
}

/// `s` without its leading run of `p` (`trim_start_matches`).
pub open spec fn trim_start(s: Seq<char>, p: Pat) -> Seq<char> {
    s.skip(lead(s, p) as int)
}

/// `s` without its trailing run of `p` (`trim_end_matches`).
pub open spec fn trim_end(s: Seq<char>, p: Pat) -> Seq<char> {
    s.take(s.len() - trail(s, p))
}

/// `s` without a run of `p` at either end (`trim_matches`; `trim` for
/// whitespace).
pub open spec fn trim(s: Seq<char>, p: Pat) -> Seq<char> {
    trim_end(trim_start(s, p), p)
}

/// Whether `pat` occurs in `s` starting at index `i`.
pub open spec fn occurs_at(s: Seq<char>, pat: Seq<char>, i: int) -> bool {
    0 <= i && i + pat.len() <= s.len() && s.subrange(i, i + pat.len()) == pat
}

/// The first index at or after `i` where `pat` occurs (`str::find`).
pub open spec fn find_from(s: Seq<char>, pat: Seq<char>, i: int) -> Option<int>
    decreases s.len() + 1 - i,
{
    if i + pat.len() > s.len() {
        None
    } else if occurs_at(s, pat, i) {
        Some(i)
    } else {
        find_from(s, pat, i + 1)
    }
}

/// The last index at or before `i` where `pat` occurs (`str::rfind`).
pub open spec fn rfind_from(s: Seq<char>, pat: Seq<char>, i: int) -> Option<int>
    decreases i + 1,
{
    if i < 0 {
        None
    } else if occurs_at(s, pat, i) {
        Some(i)
    } else {
        rfind_from(s, pat, i - 1)
    }
}

pub open spec fn rfind(s: Seq<char>, pat: Seq<char>) -> Option<int> {
    rfind_from(s, pat, s.len() - pat.len())
}

pub open spec fn starts_with(s: Seq<char>, pat: Seq<char>) -> bool {
    pat.len() <= s.len() && s.take(pat.len() as int) == pat
}

/// The pieces of `s` between dots (`str::split('.')`): there is always at
/// least one piece, and empty pieces are kept.
pub open spec fn split_dots(s: Seq<char>) -> Seq<Seq<char>>
    decreases s.len(),
{
    if s.len() == 0 {
        seq![s]
    } else {
        let k = lead(s, Pat::IsNot('.'));
        if k >= s.len() {
            seq![s]
        } else {
            seq![s.take(k as int)].add(split_dots(s.skip(k as int + 1)))
        }
    }
}

/// The first whitespace-separated word of `s` (`split_whitespace().next()`).
pub open spec fn first_word(s: Seq<char>) -> Option<Seq<char>> {
    let t = trim_start(s, Pat::Space);
    if t.len() == 0 {
        None
    } else {
        Some(t.take(lead(t, Pat::NonSpace) as int))
    }
}

/// A line without the `\r` of a `\r\n` ending.
pub open spec fn strip_cr(line: Seq<char>) -> Seq<char> {
    if line.len() > 0 && line.last() == '\r' {
        line.drop_last()
    } else {
        line
    }
}

/// The lines of `s` (`str::lines`): split after each `\n`, with the line
/// terminator (`\n` or `\r\n`) removed. A final line without a terminator is
/// kept as it is, and a text ending in `\n` has no empty last line.
pub open spec fn lines(s: Seq<char>) -> Seq<Seq<char>>
    decreases s.len(),
{
    if s.len() == 0 {
        seq![]
    } else {
        let k = lead(s, Pat::IsNot('\n'));
        if k >= s.len() {
            seq![s]
        } else {
            seq![strip_cr(s.take(k as int))].add(lines(s.skip(k as int + 1)))
        }
    }
}

pub open spec fn is_digit(c: char) -> bool {
    48 <= (c as u32) <= 57
}

pub open spec fn digit_value(c: char) -> nat {
    ((c as u32) - 48) as nat
}

pub open spec fn all_digits(s: Seq<char>) -> bool {
    forall|i: int| 0 <= i < s.len() ==> is_digit(#[trigger] s[i])
}

/// The number a string of decimal digits denotes.
pub open spec fn digits_value(s: Seq<char>) -> nat
    decreases s.len(),
{
    if s.len() == 0 {
        0
    } else {
        digits_value(s.drop_last()) * 10 + digit_value(s.last())
    }
}

/// Unsigned integer parsing as `str::parse` does it for a type whose largest
/// value is `max`: an optional `+`, then one or more ASCII digits, with a value
/// no greater than `max`.
pub open spec fn parse_uint(s: Seq<char>, max: nat) -> Option<nat> {
    let d = if s.len() > 0 && s[0] == '+' {
        s.drop_first()
    } else {
        s
    };
    if d.len() > 0 && all_digits(d) && digits_value(d) <= max {
        Some(digits_value(d))
    } else {
        None
    }
}

pub open spec fn digit_char(d: nat) -> char {
    if d == 0 {
        '0'
    } else if d == 1 {
        '1'
    } else if d == 2 {
        '2'
    } else if d == 3 {
        '3'
    } else if d == 4 {
        '4'
    } else if d == 5 {
        '5'
    } else if d == 6 {
        '6'
    } else if d == 7 {
        '7'
    } else if d == 8 {
        '8'
    } else {
        '9'
    }
}

/// Decimal rendering of a natural number, as `Display` writes it.
pub open spec fn dec(n: nat) -> Seq<char>
    decreases n,
{
    if n < 10 {
        seq![digit_char(n)]
    } else {
        dec(n / 10).push(digit_char(n % 10))
    }
}

/// Decimal rendering of an integer, with a leading `-` when negative.
pub open spec fn idec(n: int) -> Seq<char> {
    if n < 0 {
        seq!['-'].add(dec((-n) as nat))
    } else {
        dec(n as nat)
    }
}

/// Bytes one character takes in UTF-8.
pub open spec fn utf8_width(c: char) -> nat {
    let u = c as u32;
    if u < 0x80 {
        1
    } else if u < 0x800 {
        2
    } else if u < 0x10000 {
        3
    } else {
        4
    }
}

/// Bytes a character sequence takes in UTF-8 (`str::len`).
pub open spec fn utf8_len(s: Seq<char>) -> nat
    decreases s.len(),
{
    if s.len() == 0 {
        0
    } else {
        utf8_len(s.drop_last()) + utf8_width(s.last())
    }
}

// ---------------------------------------------------------------------------
// Lemmas

pub proof fn lemma_lead_bound(s: Seq<char>, p: Pat)
    ensures
        lead(s, p) <= s.len(),
        forall|k: int| 0 <= k < lead(s, p) ==> hits(p, #[trigger] s[k]),
        lead(s, p) < s.len() ==> !hits(p, s[lead(s, p) as int]),
    decreases s.len(),
{
    if s.len() > 0 && hits(p, s[0]) {
        lemma_lead_bound(s.drop_first(), p);
        assert forall|k: int| 0 <= k < lead(s, p) implies hits(p, #[trigger] s[k]) by {
            if k > 0 {
                assert(s[k] == s.drop_first()[k - 1]);
            }
        }
    }
}

/// `lead` is the length of the longest prefix of matching characters.
pub proof fn lemma_lead_is(s: Seq<char>, p: Pat, n: int)
    requires
        0 <= n <= s.len(),
        forall|k: int| 0 <= k < n ==> hits(p, #[trigger] s[k]),
        n < s.len() ==> !hits(p, s[n]),
    ensures
        lead(s, p) == n,
    decreases s.len(),
{
    if n > 0 {
        assert(hits(p, s[0]));
        assert forall|k: int| 0 <= k < n - 1 implies hits(p, #[trigger] s.drop_first()[k]) by {
            assert(s.drop_first()[k] == s[k + 1]);
        }
        if n - 1 < s.len() - 1 {
            assert(s.drop_first()[n - 1] == s[n]);
        }
        lemma_lead_is(s.drop_first(), p, n - 1);
    }
}

pub proof fn lemma_trail_bound(s: Seq<char>, p: Pat)
    ensures
        trail(s, p) <= s.len(),
        forall|k: int| s.len() - trail(s, p) <= k < s.len() ==> hits(p, #[trigger] s[k]),
        trail(s, p) < s.len() ==> !hits(p, s[s.len() - trail(s, p) - 1]),
    decreases s.len(),
{
    if s.len() > 0 && hits(p, s.last()) {
        lemma_trail_bound(s.drop_last(), p);
        assert forall|k: int| s.len() - trail(s, p) <= k < s.len() implies hits(
            p,
            #[trigger] s[k],
        ) by {
            if k < s.len() - 1 {
                assert(s[k] == s.drop_last()[k]);
            }
        }
        if trail(s, p) < s.len() {
            assert(s[s.len() - trail(s, p) - 1] == s.drop_last()[s.drop_last().len() - trail(
                s.drop_last(),
                p,
            ) - 1]);
        }
    }
}

/// `trail` is the length of the longest suffix of matching characters.
pub proof fn lemma_trail_is(s: Seq<char>, p: Pat, n: int)
    requires
        0 <= n <= s.len(),
        forall|k: int| s.len() - n <= k < s.len() ==> hits(p, #[trigger] s[k]),
        n < s.len() ==> !hits(p, s[s.len() - n - 1]),
    ensures
        trail(s, p) == n,
    decreases s.len(),
{
    if n > 0 {
        assert(hits(p, s[s.len() - 1]));
        let t = s.drop_last();
        assert forall|k: int| t.len() - (n - 1) <= k < t.len() implies hits(p, #[trigger] t[k]) by {
            assert(t[k] == s[k]);
        }
        if n - 1 < t.len() {
            assert(t[t.len() - (n - 1) - 1] == s[s.len() - n - 1]);
        }
        lemma_trail_is(t, p, n - 1);
    }
}

pub proof fn lemma_find_from(s: Seq<char>, pat: Seq<char>, i: int)
    ensures
        find_from(s, pat, i) matches Some(k) ==> i <= k && occurs_at(s, pat, k) && forall|j: int|
            i <= j < k ==> !occurs_at(s, pat, j),
        find_from(s, pat, i) is None ==> forall|j: int| i <= j ==> !occurs_at(s, pat, j),
    decreases s.len() + 1 - i,
{
    if i + pat.len() > s.len() {
    } else if occurs_at(s, pat, i) {
    } else {
        lemma_find_from(s, pat, i + 1);
    }
}

pub proof fn lemma_rfind_from(s: Seq<char>, pat: Seq<char>, i: int)
    ensures
        rfind_from(s, pat, i) matches Some(k) ==> k <= i && occurs_at(s, pat, k),
    decreases i + 1,
{
    if i >= 0 && !occurs_at(s, pat, i) {
        lemma_rfind_from(s, pat, i - 1);
    }
}

pub open spec fn pow10(k: nat) -> nat
    decreases k,
{
    if k == 0 {
        1
    } else {
        10 * pow10((k - 1) as nat)
    }
}

/// A number below `10^k` takes at most `k` digits.
pub proof fn lemma_dec_len(n: nat, k: nat)
    requires
        1 <= k,
        n < pow10(k),
    ensures
        dec(n).len() <= k,
    decreases k,
{
    if n >= 10 {
        let p = pow10((k - 1) as nat);
        if k == 1 {
            assert(pow10(1) == 10 * pow10(0));
        }
        assert(k >= 2);
        assert(n / 10 < p) by (nonlinear_arith)
            requires
                n < 10 * p,
        ;
        lemma_dec_len(n / 10, (k - 1) as nat);
    }
}

pub proof fn lemma_idec_len(n: int)
    requires
        -0x8000_0000_0000_0000 <= n < 0x8000_0000_0000_0000,
    ensures
        idec(n).len() <= 20,
{
    assert(pow10(19) == 10_000_000_000_000_000_000) by {
        reveal_with_fuel(pow10, 20);
    }
    if n < 0 {
        lemma_dec_len((-n) as nat, 19);
    } else {
        lemma_dec_len(n as nat, 19);
    }
}

pub proof fn lemma_port_dec_len(n: u16)
    ensures
        dec(n as nat).len() <= 5,
{
    assert(pow10(5) == 100000) by {
        reveal_with_fuel(pow10, 6);
    }
    lemma_dec_len(n as nat, 5);
}

/// The decimal rendering of `n` is a nonempty run of ASCII digits that reads
/// back as `n`.
pub proof fn lemma_dec_reads_back(n: nat)
    ensures
        dec(n).len() > 0,
        all_digits(dec(n)),
        digits_value(dec(n)) == n,
    decreases n,
{
    let d = n % 10;
    assert(is_digit(digit_char(d)) && digit_value(digit_char(d)) == d) by {
        assert(d < 10);
    }
    if n >= 10 {
        lemma_dec_reads_back(n / 10);
        let s = dec(n / 10);
        assert(dec(n) == s.push(digit_char(d)));
        assert(dec(n).drop_last() =~= s);
        assert(dec(n).last() == digit_char(d));
        assert forall|i: int| 0 <= i < dec(n).len() implies is_digit(#[trigger] dec(n)[i]) by {
            if i < s.len() {
                assert(dec(n)[i] == s[i]);
            }
        }
        assert((n / 10) * 10 + n % 10 == n) by (nonlinear_arith);
        assert(digits_value(dec(n)) == digits_value(s) * 10 + digit_value(digit_char(d)));
    } else {
        assert(n % 10 == n);
        assert(dec(n).drop_last() =~= Seq::<char>::empty());
        assert(digits_value(Seq::<char>::empty()) == 0);
        assert(dec(n).last() == digit_char(d));
        assert(digits_value(dec(n)) == digits_value(dec(n).drop_last()) * 10 + digit_value(
            digit_char(d),
        ));
    }
}

/// Parsing the decimal rendering of a number gives the number back.
pub proof fn lemma_dec_parses(n: nat, max: nat)
    requires
        n <= max,
    ensures
        parse_uint(dec(n), max) == Some(n),
{
    lemma_dec_reads_back(n);
    assert(is_digit(dec(n)[0]));
}

/// UTF-8 takes at most four bytes per character.
pub proof fn lemma_encode_utf8_len(s: Seq<char>)
    ensures
        encode_utf8(s).len() <= 4 * s.len(),
    decreases s.len(),
{
    if s.len() > 0 {
        lemma_encode_utf8_len(s.drop_first());
        assert(encode_scalar(s[0] as u32).len() <= 4);
    }
}

// ---------------------------------------------------------------------------
// Executable helpers

/// The characters of `s`, in order.
pub fn chars_of(s: &str) -> (v: Vec<char>)
    ensures
        v@ == s@,
{
    let mut v: Vec<char> = Vec::new();
    for c in it: s.chars()
        invariant
            v@ == it.seq().take(it.index() as int),
    {
        v.push(c);
    }
    v
}

/// `char::is_whitespace`.
pub fn is_space(c: char) -> (b: bool)
    ensures
        b == is_ws(c),
{
    let u = c as u32;
    (0x09 <= u && u <= 0x0d) || u == 0x20 || u == 0x85 || u == 0xa0 || u == 0x1680 || (0x2000 <= u
        && u <= 0x200a) || u == 0x2028 || u == 0x2029 || u == 0x202f || u == 0x205f || u == 0x3000
}

pub fn hits_exec(p: Pat, c: char) -> (b: bool)
    ensures
        b == hits(p, c),
{
    match p {
        Pat::Space => is_space(c),
        Pat::NonSpace => !is_space(c),
        Pat::Is(d) => c == d,
        Pat::IsNot(d) => c != d,
        Pat::Token => {
            let u = c as u32;
            (48 <= u && u <= 57) || (65 <= u && u <= 90) || (97 <= u && u <= 122) || c == '-' || c
                == '_'
        },
    }
}

/// Length of the leading run of `p` in `v[lo..hi]`.
pub fn lead_in(v: &Vec<char>, lo: usize, hi: usize, p: Pat) -> (n: usize)
    requires
        lo <= hi <= v.len(),
    ensures
        n == lead(v@.subrange(lo as int, hi as int), p),
        lo + n <= hi,
{
    let ghost s = v@.subrange(lo as int, hi as int);
    let mut i = lo;
    while i < hi && hits_exec(p, v[i])
        invariant
            lo <= i <= hi <= v.len(),
            s == v@.subrange(lo as int, hi as int),
            forall|k: int| lo <= k < i ==> hits(p, #[trigger] v@[k]),
        decreases hi - i,
    {
        i = i + 1;
    }
    proof {
        assert forall|k: int| 0 <= k < i - lo implies hits(p, #[trigger] s[k]) by {
            assert(s[k] == v@[lo + k]);
        }
        if i < hi {
            assert(s[i - lo] == v@[i as int]);
        }
        lemma_lead_is(s, p, i - lo);
    }
    i - lo
}

/// Length of the trailing run of `p` in `v[lo..hi]`.
pub fn trail_in(v: &Vec<char>, lo: usize, hi: usize, p: Pat) -> (n: usize)
    requires
        lo <= hi <= v.len(),
    ensures
        n == trail(v@.subrange(lo as int, hi as int), p),
        lo + n <= hi,
{
    let ghost s = v@.subrange(lo as int, hi as int);
    let mut i = hi;
    while i > lo && hits_exec(p, v[i - 1])
        invariant
            lo <= i <= hi <= v.len(),
            s == v@.subrange(lo as int, hi as int),
            forall|k: int| i <= k < hi ==> hits(p, #[trigger] v@[k]),
        decreases i - lo,
    {
        i = i - 1;
    }
    proof {
        let n = hi - i;
        assert forall|k: int| s.len() - n <= k < s.len() implies hits(p, #[trigger] s[k]) by {
            assert(s[k] == v@[lo + k]);
        }
        if n < s.len() {
            assert(s[s.len() - n - 1] == v@[i - 1]);
        }
        lemma_trail_is(s, p, n as int);
    }
    hi - i
}

/// The span of `v[lo..hi]` left after trimming `p` from both ends.
pub fn trim_span(v: &Vec<char>, lo: usize, hi: usize, p: Pat) -> (r: (usize, usize))
    requires
        lo <= hi <= v.len(),
    ensures
        lo <= r.0 <= r.1 <= hi,
        v@.subrange(r.0 as int, r.1 as int) == trim(v@.subrange(lo as int, hi as int), p),
{
    let a = lead_in(v, lo, hi, p);
    let b = trail_in(v, lo + a, hi, p);
    proof {
        let s = v@.subrange(lo as int, hi as int);
        assert(trim_start(s, p) =~= v@.subrange(lo + a, hi as int));
        assert(v@.subrange(lo + a, hi - b) =~= v@.subrange(lo + a, hi as int).take(
            (hi - (lo + a)) - b,
        ));
    }
    (lo + a, hi - b)
}

/// Whether `v[lo..hi]` equals `pat`.
pub fn span_eq(v: &Vec<char>, lo: usize, hi: usize, pat: &Vec<char>) -> (b: bool)
    requires
        lo <= hi <= v.len(),
    ensures
        b == (v@.subrange(lo as int, hi as int) == pat@),
{
    if hi - lo != pat.len() {
        return false;
    }
    let mut k: usize = 0;
    while k < pat.len()
        invariant
            lo <= hi <= v.len(),
            hi - lo == pat.len(),
            k <= pat.len(),
            forall|j: int| 0 <= j < k ==> v@[lo + j] == pat@[j],
        decreases pat.len() - k,
    {
        if v[lo + k] != pat[k] {
            assert(v@.subrange(lo as int, hi as int)[k as int] != pat@[k as int]);
            return false;
        }
        k = k + 1;
    }
    assert(v@.subrange(lo as int, hi as int) =~= pat@);
    true
}

/// Whether `pat` occurs in `v` at index `i`.
pub fn occurs_in(v: &Vec<char>, pat: &Vec<char>, i: usize) -> (b: bool)
    ensures
        b == occurs_at(v@, pat@, i as int),
{
    if i > v.len() || v.len() - i < pat.len() {
        return false;
    }
    span_eq(v, i, i + pat.len(), pat)
}

/// The first index at or after `from` where `pat` occurs in `v`.
pub fn find_in(v: &Vec<char>, pat: &Vec<char>, from: usize) -> (r: Option<usize>)
    ensures
        r matches Some(i) ==> find_from(v@, pat@, from as int) == Some(i as int),
        r is None ==> find_from(v@, pat@, from as int) is None,
{
    let mut i = from;
    loop
        invariant
            from <= i,
            find_from(v@, pat@, from as int) == find_from(v@, pat@, i as int),
        decreases v.len() + 1 - i,
    {
        if i > v.len() || v.len() - i < pat.len() {
            return None;
        }
        if occurs_in(v, pat, i) {
            return Some(i);
        }
        if pat.len() == 0 {
            assert(v@.subrange(i as int, i as int) =~= pat@);
        }
        i = i + 1;
    }
}

/// The last index at or before `from` where `pat` occurs in `v`.
pub fn rfind_in(v: &Vec<char>, pat: &Vec<char>) -> (r: Option<usize>)
    ensures
        r matches Some(i) ==> rfind(v@, pat@) == Some(i as int),
        r is None ==> rfind(v@, pat@) is None,
{
    if pat.len() > v.len() {
        return None;
    }
    let mut i = v.len() - pat.len();
    loop
        invariant
            i + pat.len() <= v.len(),
            rfind(v@, pat@) == rfind_from(v@, pat@, i as int),
        decreases i,
    {
        if occurs_in(v, pat, i) {
            return Some(i);
        }
        if i == 0 {
            assert(rfind_from(v@, pat@, -1) is None);
            return None;
        }
        i = i - 1;
    }
}

/// A string holding exactly the characters `v[lo..hi]`, cut out of `s`.
pub fn span_string(s: &str, v: &Vec<char>, lo: usize, hi: usize) -> (r: String)
    requires
        v@ == s@,
        lo <= hi <= v.len(),
    ensures
        r@ == v@.subrange(lo as int, hi as int),
{
    let piece = s.substring_char(lo, hi);
    String::from_str(piece)
}

/// The literal spelling of one decimal digit.
pub fn digit_str(d: u64) -> (r: &'static str)
    requires
        d < 10,
    ensures
        r@ == seq![digit_char(d as nat)],
{
    proof {
        reveal_strlit("0");
        reveal_strlit("1");
        reveal_strlit("2");
        reveal_strlit("3");
        reveal_strlit("4");
        reveal_strlit("5");
        reveal_strlit("6");
        reveal_strlit("7");
        reveal_strlit("8");
        reveal_strlit("9");
    }
    let r = if d == 0 {
        "0"
    } else if d == 1 {
        "1"
    } else if d == 2 {
        "2"
    } else if d == 3 {
        "3"
    } else if d == 4 {
        "4"
    } else if d == 5 {
        "5"
    } else if d == 6 {
        "6"
    } else if d == 7 {
        "7"
    } else if d == 8 {
        "8"
    } else {
        "9"
    };
    assert(r@ =~= seq![digit_char(d as nat)]);
    r
}

/// Append the decimal rendering of `n` to `out`.
pub fn push_dec(out: &mut String, n: u64)
    ensures
        final(out)@ == old(out)@ + dec(n as nat),
    decreases n,
{
    if n >= 10 {
        push_dec(out, n / 10);
    }
    out.append(digit_str(n % 10));
    proof {
        if n >= 10 {
            assert(dec(n as nat) == dec((n / 10) as nat).push(digit_char((n % 10) as nat)));
        }
    }
    assert(final(out)@ =~= old(out)@ + dec(n as nat));
}

/// Append the decimal rendering of `n` (with a `-` when negative) to `out`.
pub fn push_idec(out: &mut String, n: i64)
    ensures
        final(out)@ == old(out)@ + idec(n as int),
{
    if n < 0 {
        proof {
            reveal_strlit("-");
        }
        out.append("-");
        let m: u64 = if n == i64::MIN {
            0x8000_0000_0000_0000u64
        } else {
            (-n) as u64
        };
        push_dec(out, m);
        assert(final(out)@ =~= old(out)@ + idec(n as int));
    } else {
        push_dec(out, n as u64);
    }
}

/// Whether `v[lo..hi]` starts with `pat`.
pub fn span_starts_with(v: &Vec<char>, lo: usize, hi: usize, pat: &Vec<char>) -> (b: bool)
    requires
        lo <= hi <= v.len(),
    ensures
        b == starts_with(v@.subrange(lo as int, hi as int), pat@),
{
    if hi - lo < pat.len() {
        return false;
    }
    let r = span_eq(v, lo, lo + pat.len(), pat);
    assert(v@.subrange(lo as int, hi as int).take(pat.len() as int) =~= v@.subrange(
        lo as int,
        lo + pat.len(),
    ));
    r
}

pub proof fn lemma_digits_prefix(s: Seq<char>, n: int)
    requires
        all_digits(s),
        0 <= n <= s.len(),
    ensures
        digits_value(s.take(n)) <= digits_value(s),
    decreases s.len(),
{
    if n < s.len() {
        let t = s.drop_last();
        assert(s.take(n) =~= t.take(n));
        assert(all_digits(t)) by {
            assert forall|i: int| 0 <= i < t.len() implies is_digit(#[trigger] t[i]) by {
                assert(t[i] == s[i]);
            }
        }
        lemma_digits_prefix(t, n);
    } else {
        assert(s.take(n) =~= s);
    }
}

/// `str::parse` for an unsigned integer type whose largest value is `max`,
/// applied to `v[lo..hi]`.
pub fn parse_span(v: &Vec<char>, lo: usize, hi: usize, max: u64) -> (r: Option<u64>)
    requires
        lo <= hi <= v.len(),
    ensures
        r matches Some(n) ==> parse_uint(v@.subrange(lo as int, hi as int), max as nat) == Some(
            n as nat,
        ),
        r is None ==> parse_uint(v@.subrange(lo as int, hi as int), max as nat) is None,
{
    let ghost s = v@.subrange(lo as int, hi as int);
    let mut i = lo;
    if i < hi && v[i] == '+' {
        i = i + 1;
    }
    let ghost d = v@.subrange(i as int, hi as int);
    assert(d =~= (if s.len() > 0 && s[0] == '+' {
        s.drop_first()
    } else {
        s
    }));
    if i == hi {
        return None;
    }
    let mut val: u64 = 0;
    let mut j = i;
    while j < hi
        invariant
            lo <= i <= j <= hi <= v.len(),
            d == v@.subrange(i as int, hi as int),
            d.take(j - i) == v@.subrange(i as int, j as int),
            all_digits(v@.subrange(i as int, j as int)),
            val as nat == digits_value(v@.subrange(i as int, j as int)),
            val <= max,
            parse_uint(v@.subrange(lo as int, hi as int), max as nat) == (if d.len() > 0 && all_digits(d)
                && digits_value(d) <= max {
                Some(digits_value(d))
            } else {
                None
            }),
        decreases hi - j,
    {
        let u = v[j] as u32;
        if u < 48 || u > 57 {
            assert(!is_digit(d[j - i]));
            return None;
        }
        let dig = (u - 48) as u64;
        let ghost pre = v@.subrange(i as int, j as int);
        let ghost nxt = v@.subrange(i as int, j + 1);
        assert(nxt.drop_last() =~= pre);
        assert(all_digits(nxt)) by {
            assert forall|k: int| 0 <= k < nxt.len() implies is_digit(#[trigger] nxt[k]) by {
                if k < pre.len() {
                    assert(nxt[k] == pre[k]);
                }
            }
        }
        assert(digits_value(nxt) == digits_value(pre) * 10 + dig);
        if (val as u128) * 10 + (dig as u128) > max as u128 {
            proof {
                if all_digits(d) {
                    assert(d.take(j + 1 - i) =~= nxt);
                    lemma_digits_prefix(d, j + 1 - i);
                }
            }
            return None;
        }
        val = (val as u128 * 10 + dig as u128) as u64;
        j = j + 1;
        assert(d.take(j - i) =~= v@.subrange(i as int, j as int));
    }
    assert(d =~= v@.subrange(i as int, j as int));
    Some(val)
}

/// Bytes `v[lo..hi]` takes in UTF-8.
pub fn utf8_len_span(v: &Vec<char>, lo: usize, hi: usize) -> (n: u128)
    requires
        lo <= hi <= v.len(),
    ensures
        n == utf8_len(v@.subrange(lo as int, hi as int)),
{
    let mut total: u128 = 0;
    let mut i = lo;
    while i < hi
        invariant
            lo <= i <= hi <= v.len(),
            total == utf8_len(v@.subrange(lo as int, i as int)),
            total <= 4 * (i - lo),
        decreases hi - i,
    {
        let u = v[i] as u32;
        let w: u128 = if u < 0x80 {
            1
        } else if u < 0x800 {
            2
        } else if u < 0x10000 {
            3
        } else {
            4
        };
        assert(v@.subrange(lo as int, i + 1).drop_last() =~= v@.subrange(lo as int, i as int));
        total = total + w;
        i = i + 1;
    }
    total
}

} // verus!
