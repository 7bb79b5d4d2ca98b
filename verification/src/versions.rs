//! Node release numbers: ordering version directories newest first, reading
//! what `node --version` prints, and the releases the harness can run on.
use vstd::prelude::*;
use crate::text::{
    chars_of, dec, hits, is_digit, lead, lead_in, lemma_dec_parses, lemma_dec_reads_back,
    lemma_lead_bound, lemma_lead_is, parse_span, parse_uint, split_dots, trim, trim_span,
    trim_start, Pat,
};

verus! {

/// The number one dot-separated piece of a version stands for: its value
/// when it parses as a `u64`, and 0 otherwise.
pub open spec fn piece_key(piece: Seq<char>) -> u64 {
    match parse_uint(piece, u64::MAX as nat) {
        Some(n) => n as u64,
        None => 0,
    }
}

pub open spec fn piece_keys(pieces: Seq<Seq<char>>) -> Seq<u64>
    decreases pieces.len(),
{
    if pieces.len() == 0 {
        seq![]
    } else {
        seq![piece_key(pieces[0])].add(piece_keys(pieces.drop_first()))
    }
}

/// The sort key of a version directory name such as `v24.11.1`: leading `v`s
/// dropped, split at every dot, each piece read as a number (0 when it is
/// not one).
pub open spec fn version_key_of(name: Seq<char>) -> Seq<u64> {
    piece_keys(split_dots(trim_start(name, Pat::Is('v'))))
}

/// Lexicographic order on keys, the order `Vec<u64>` compares by: the first
/// differing element decides, and a proper prefix comes first.
pub open spec fn lex_lt(a: Seq<u64>, b: Seq<u64>) -> bool
    decreases a.len(),
{
    if a.len() == 0 {
        b.len() > 0
    } else if b.len() == 0 {
        false
    } else if a[0] != b[0] {
        a[0] < b[0]
    } else {
        lex_lt(a.drop_first(), b.drop_first())
    }
}

pub proof fn lemma_lex_irreflexive(a: Seq<u64>)
    ensures
        !lex_lt(a, a),
    decreases a.len(),
{
    if a.len() > 0 {
        lemma_lex_irreflexive(a.drop_first());
    }
}

pub proof fn lemma_lex_total(a: Seq<u64>, b: Seq<u64>)
    ensures
        a == b || lex_lt(a, b) || lex_lt(b, a),
    decreases a.len(),
{
    if a.len() == 0 {
        if b.len() == 0 {
            assert(a =~= b);
        }
    } else if b.len() == 0 {
    } else if a[0] != b[0] {
    } else {
        lemma_lex_total(a.drop_first(), b.drop_first());
        if a.drop_first() == b.drop_first() {
            assert(a =~= seq![a[0]].add(a.drop_first()));
            assert(b =~= seq![b[0]].add(b.drop_first()));
        }
    }
}

pub proof fn lemma_lex_asymmetric(a: Seq<u64>, b: Seq<u64>)
    ensures
        lex_lt(a, b) ==> !lex_lt(b, a),
    decreases a.len(),
{
    if a.len() > 0 && b.len() > 0 && a[0] == b[0] {
        lemma_lex_asymmetric(a.drop_first(), b.drop_first());
    }
}

pub proof fn lemma_lex_transitive(a: Seq<u64>, b: Seq<u64>, c: Seq<u64>)
    ensures
        lex_lt(a, b) && lex_lt(b, c) ==> lex_lt(a, c),
    decreases a.len(),
{
    if a.len() > 0 && b.len() > 0 && c.len() > 0 && a[0] == b[0] && b[0] == c[0] {
        lemma_lex_transitive(a.drop_first(), b.drop_first(), c.drop_first());
    }
}

/// A run of digits followed by a dot splits off as the first piece.
proof fn lemma_split_after_number(x: nat, rest: Seq<char>)
    ensures
        split_dots(dec(x) + seq!['.'] + rest) == seq![dec(x)].add(split_dots(rest)),
{
    let d = dec(x);
    let s = d + seq!['.'] + rest;
    lemma_dec_reads_back(x);
    assert forall|k: int| 0 <= k < d.len() implies hits(Pat::IsNot('.'), #[trigger] s[k]) by {
        assert(s[k] == d[k]);
        assert(is_digit(d[k]));
    }
    assert(s[d.len() as int] == '.');
    lemma_lead_is(s, Pat::IsNot('.'), d.len() as int);
    lemma_split_first(s);
    assert(s.take(d.len() as int) =~= d);
    assert(s.skip(d.len() as int + 1) =~= rest);
    assert(split_dots(s) =~= seq![split_dots(s)[0]].add(split_dots(s).drop_first()));
}

/// A run of digits alone is a single piece.
proof fn lemma_split_number(x: nat)
    ensures
        split_dots(dec(x)) == seq![dec(x)],
{
    let d = dec(x);
    lemma_dec_reads_back(x);
    assert forall|k: int| 0 <= k < d.len() implies hits(Pat::IsNot('.'), #[trigger] d[k]) by {
        assert(is_digit(d[k]));
    }
    lemma_lead_is(d, Pat::IsNot('.'), d.len() as int);
    lemma_split_first(d);
    assert(d.take(d.len() as int) =~= d);
    assert(split_dots(d) =~= seq![split_dots(d)[0]]);
}

/// A piece that is a decimal number stands for that number.
proof fn lemma_number_piece(x: u64)
    ensures
        piece_key(dec(x as nat)) == x,
{
    lemma_dec_parses(x as nat, u64::MAX as nat);
}

/// The key of a release directory `v<major>.<minor>.<patch>` is the three
/// numbers in that order, so comparing keys compares the major numbers
/// first, then the minor ones, then the patches.
pub proof fn lemma_version_key_reads_numbers(major: u64, minor: u64, patch: u64)
    ensures
        version_key_of(
            seq!['v'] + dec(major as nat) + seq!['.'] + dec(minor as nat) + seq!['.'] + dec(
                patch as nat,
            ),
        ) == seq![major, minor, patch],
{
    let a = dec(major as nat);
    let b = dec(minor as nat);
    let c = dec(patch as nat);
    let tail = b + seq!['.'] + c;
    let body = a + seq!['.'] + tail;
    let name = seq!['v'] + a + seq!['.'] + b + seq!['.'] + c;
    assert(name =~= seq!['v'] + body);
    lemma_dec_reads_back(major as nat);
    assert(is_digit(name[1]));
    lemma_lead_is(name, Pat::Is('v'), 1);
    assert(trim_start(name, Pat::Is('v')) =~= body);
    lemma_split_after_number(major as nat, tail);
    lemma_split_after_number(minor as nat, c);
    lemma_split_number(patch as nat);
    let pieces = seq![a].add(seq![b].add(seq![c]));
    assert(split_dots(body) =~= pieces);
    lemma_number_piece(major);
    lemma_number_piece(minor);
    lemma_number_piece(patch);
    assert(pieces.drop_first() =~= seq![b].add(seq![c]));
    assert(pieces.drop_first().drop_first() =~= seq![c]);
    assert(seq![c].drop_first() =~= Seq::<Seq<char>>::empty());
    assert(piece_keys(Seq::<Seq<char>>::empty()) == Seq::<u64>::empty());
    assert(seq![c][0] == c);
    assert(piece_keys(seq![c]) == seq![piece_key(c)].add(piece_keys(seq![c].drop_first())));
    assert(piece_keys(seq![c]) =~= seq![patch]);
    assert(piece_keys(seq![b].add(seq![c])) =~= seq![minor, patch]);
    assert(piece_keys(pieces) =~= seq![major, minor, patch]);
}

/// Sort key for a version directory name such as `v24.11.1`.
pub fn version_key(name: &str) -> (key: Vec<u64>)
    ensures
        key@ == version_key_of(name@),
{
    let v = chars_of(name);
    let n = v.len();
    let start = lead_in(&v, 0, n, Pat::Is('v'));
    assert(v@.subrange(0, n as int) =~= name@);
    assert(trim_start(name@, Pat::Is('v')) =~= v@.subrange(start as int, n as int));
    let mut key: Vec<u64> = Vec::new();
    let mut pos = start;
    loop
        invariant
            start <= pos <= n == v.len(),
            version_key_of(name@) == key@.add(
                piece_keys(split_dots(v@.subrange(pos as int, n as int))),
            ),
        decreases n - pos,
    {
        let ghost rest = v@.subrange(pos as int, n as int);
        let k = lead_in(&v, pos, n, Pat::IsNot('.'));
        proof {
            lemma_lead_bound(rest, Pat::IsNot('.'));
        }
        let piece = match parse_span(&v, pos, pos + k, u64::MAX) {
            Some(value) => value,
            None => 0,
        };
        assert(rest.take(k as int) =~= v@.subrange(pos as int, pos + k));
        assert(piece == piece_key(rest.take(k as int)));
        if pos + k == n {
            proof {
                assert(rest.take(k as int) =~= rest);
                assert(split_dots(rest) =~= seq![rest]);
                assert(piece_keys(seq![rest]) =~= seq![piece_key(rest)].add(
                    piece_keys(seq![rest].drop_first()),
                ));
                assert(seq![rest].drop_first() =~= Seq::<Seq<char>>::empty());
            }
            key.push(piece);
            assert(version_key_of(name@) =~= key@);
            return key;
        }
        proof {
            let tail = v@.subrange(pos + k + 1, n as int);
            assert(rest.skip(k as int + 1) =~= tail);
            let parts = split_dots(rest);
            assert(parts == seq![rest.take(k as int)].add(split_dots(tail)));
            assert(parts.drop_first() =~= split_dots(tail));
            assert(piece_keys(parts) == seq![piece].add(piece_keys(split_dots(tail))));
        }
        key.push(piece);
        pos = pos + k + 1;
        assert(version_key_of(name@) =~= key@.add(
            piece_keys(split_dots(v@.subrange(pos as int, n as int))),
        ));
    }
}

/// Whether key `a` sorts strictly before key `b`.
pub fn key_less(a: &Vec<u64>, b: &Vec<u64>) -> (r: bool)
    ensures
        r == lex_lt(a@, b@),
{
    let mut i: usize = 0;
    assert(a@.skip(0) =~= a@);
    assert(b@.skip(0) =~= b@);
    loop
        invariant
            i <= a.len(),
            i <= b.len(),
            lex_lt(a@, b@) == lex_lt(a@.skip(i as int), b@.skip(i as int)),
        decreases a.len() - i,
    {
        if i == a.len() {
            return i < b.len();
        }
        if i == b.len() {
            return false;
        }
        if a[i] != b[i] {
            return a[i] < b[i];
        }
        assert(a@.skip(i as int).drop_first() =~= a@.skip(i + 1));
        assert(b@.skip(i as int).drop_first() =~= b@.skip(i + 1));
        i = i + 1;
    }
}

/// `order` lists positions of `keys` newest first, and positions with equal
/// keys keep their original relative order.
pub open spec fn newest_first_by(order: Seq<usize>, keys: Seq<Seq<u64>>) -> bool {
    &&& forall|i: int, j: int|
        #![trigger order[i], order[j]]
        0 <= i < j < order.len() ==> !lex_lt(keys[order[i] as int], keys[order[j] as int])
    &&& forall|i: int, j: int|
        #![trigger order[i], order[j]]
        0 <= i < j < order.len() && keys[order[i] as int] == keys[order[j] as int] ==> order[i]
            < order[j]
}

/// `order` holds every position below `n` exactly once.
pub open spec fn is_permutation(order: Seq<usize>, n: nat) -> bool {
    &&& order.len() == n
    &&& order.no_duplicates()
    &&& forall|i: int| 0 <= i < order.len() ==> #[trigger] order[i] < n
}

pub open spec fn name_keys(names: Seq<String>) -> Seq<Seq<u64>> {
    Seq::new(names.len(), |i: int| version_key_of(names[i]@))
}

/// Positions of `names`, newest version first.
///
/// This is the order version directories are searched in, so that the most
/// recent install wins. The sort is stable: names whose keys tie keep the order
/// they were listed in.
pub fn newest_first(names: &Vec<String>) -> (order: Vec<usize>)
    ensures
        is_permutation(order@, names.len() as nat),
        newest_first_by(order@, name_keys(names@)),
        forall|i: int, j: int|
            #![trigger order@[i], order@[j]]
            0 <= i < j < order@.len() ==> !lex_lt(
                version_key_of(names@[order@[i] as int]@),
                version_key_of(names@[order@[j] as int]@),
            ),
{
    let n = names.len();
    let ghost ks = name_keys(names@);
    let mut keys: Vec<Vec<u64>> = Vec::new();
    for i in 0..n
        invariant
            n == names.len(),
            ks == name_keys(names@),
            keys.len() == i,
            forall|j: int| 0 <= j < i ==> (#[trigger] keys@[j])@ == ks[j],
    {
        keys.push(version_key(names[i].as_str()));
    }
    let mut order: Vec<usize> = Vec::new();
    for m in 0..n
        invariant
            n == names.len() == keys.len(),
            forall|j: int| 0 <= j < n ==> (#[trigger] keys@[j])@ == ks[j],
            ks.len() == n,
            order.len() == m,
            order@.no_duplicates(),
            forall|i: int| 0 <= i < order.len() ==> #[trigger] order@[i] < m,
            newest_first_by(order@, ks),
    {
        let mut p: usize = 0;
        while p < order.len() && !key_less(&keys[order[p]], &keys[m])
            invariant
                n == keys.len(),
                m < n,
                forall|j: int| 0 <= j < n ==> (#[trigger] keys@[j])@ == ks[j],
                p <= order.len(),
                forall|i: int| 0 <= i < order.len() ==> #[trigger] order@[i] < m,
                forall|q: int| 0 <= q < p ==> !lex_lt(ks[order@[q] as int], ks[m as int]),
            decreases order.len() - p,
        {
            p = p + 1;
        }
        let ghost old_order = order@;
        proof {
            if p < old_order.len() {
                assert(lex_lt(ks[old_order[p as int] as int], ks[m as int]));
            }
        }
        order.insert(p, m);
        proof {
            let o = order@;
            assert(o == old_order.insert(p as int, m));
            assert forall|i: int| 0 <= i < o.len() implies #[trigger] o[i] < m + 1 by {
                if i < p {
                    assert(o[i] == old_order[i]);
                } else if i > p {
                    assert(o[i] == old_order[i - 1]);
                }
            }
            assert forall|i: int, j: int| 0 <= i < j < o.len() implies o[i] != o[j] by {
                if i < p && j < p {
                    assert(o[i] == old_order[i] && o[j] == old_order[j]);
                } else if i < p && j == p {
                    assert(o[i] == old_order[i]);
                } else if i < p {
                    assert(o[i] == old_order[i] && o[j] == old_order[j - 1]);
                } else if i == p {
                    assert(o[j] == old_order[j - 1]);
                } else {
                    assert(o[i] == old_order[i - 1] && o[j] == old_order[j - 1]);
                }
            }
            assert forall|i: int, j: int|
                #![trigger o[i], o[j]]
                0 <= i < j < o.len() implies !lex_lt(ks[o[i] as int], ks[o[j] as int]) && (
                ks[o[i] as int] == ks[o[j] as int] ==> o[i] < o[j]) by {
                if i < p && j < p {
                    assert(o[i] == old_order[i] && o[j] == old_order[j]);
                } else if i < p && j == p {
                    assert(o[i] == old_order[i]);
                } else if i < p {
                    assert(o[i] == old_order[i] && o[j] == old_order[j - 1]);
                } else if i == p {
                    let x = old_order[j - 1];
                    let y = old_order[p as int];
                    assert(o[j] == x);
                    if j - 1 > p {
                        assert(!lex_lt(ks[y as int], ks[x as int]));
                    }
                    lemma_lex_total(ks[x as int], ks[y as int]);
                    lemma_lex_transitive(ks[x as int], ks[y as int], ks[m as int]);
                    lemma_lex_asymmetric(ks[x as int], ks[m as int]);
                    lemma_lex_irreflexive(ks[m as int]);
                } else {
                    assert(o[i] == old_order[i - 1] && o[j] == old_order[j - 1]);
                }
            }
        }
    }
    order
}

/// The Node releases the harness can actually run on: 22.15 and later on
/// the 22 line, 23.8 and later on the 23 line, and every release from 24 on.
pub open spec fn supported(major: u64, minor: u64) -> bool {
    ||| major == 22 && minor >= 15
    ||| major == 23 && minor >= 8
    ||| major >= 24
}

/// No release before 22 can run the harness, whatever its minor number; on
/// the 22 line it takes 22.15, on the 23 line 23.8, and every release from
/// 24 on can.
pub proof fn lemma_supported_releases(major: u64, minor: u64)
    ensures
        major < 22 ==> !supported(major, minor),
        major == 22 ==> (supported(major, minor) <==> minor >= 15),
        major == 23 ==> (supported(major, minor) <==> minor >= 8),
        major >= 24 ==> supported(major, minor),
{
}

/// The Node releases the harness can actually run on.
///
/// Two upstream floors, and both are raised by top-level ESM imports rather
/// than by anything optional: `node:zlib` only grew its Zstd codecs in 22.15
/// (23.8 on the odd-numbered line), and a core plugin imports them by name at
/// module scope, so a runtime without them cannot even load it. `parseEnv`
/// (20.12) is the lower of the two floors.
pub fn node_is_supported(major: u64, minor: u64) -> (r: bool)
    ensures
        r == supported(major, minor),
        major < 22 ==> !r,
        major == 22 ==> (r <==> minor >= 15),
        major == 23 ==> (r <==> minor >= 8),
        major >= 24 ==> r,
{
    proof {
        lemma_supported_releases(major, minor);
    }
    if major == 22 {
        minor >= 15
    } else if major == 23 {
        minor >= 8
    } else {
        major >= 24
    }
}

/// The `(major, minor)` release `node --version` reported in `text`:
/// whitespace trimmed, leading `v`s dropped, then the first two dot-separated
/// pieces, both of which must parse as numbers.
pub open spec fn reported_version(text: Seq<char>) -> Option<(u64, u64)> {
    let pieces = split_dots(trim_start(trim(text, Pat::Space), Pat::Is('v')));
    if pieces.len() < 2 {
        None
    } else {
        match (parse_uint(pieces[0], u64::MAX as nat), parse_uint(pieces[1], u64::MAX as nat)) {
            (Some(major), Some(minor)) => Some((major as u64, minor as u64)),
            _ => None,
        }
    }
}

/// The first piece of `s` is everything before its first dot, and the rest
/// of the pieces are those of what follows that dot.
pub proof fn lemma_split_first(s: Seq<char>)
    ensures
        split_dots(s).len() >= 1,
        split_dots(s)[0] == s.take(lead(s, Pat::IsNot('.')) as int),
        lead(s, Pat::IsNot('.')) < s.len() ==> split_dots(s).drop_first() == split_dots(
            s.skip(lead(s, Pat::IsNot('.')) as int + 1),
        ),
        lead(s, Pat::IsNot('.')) >= s.len() ==> split_dots(s).len() == 1,
{
    lemma_lead_bound(s, Pat::IsNot('.'));
    let k = lead(s, Pat::IsNot('.'));
    if s.len() == 0 || k >= s.len() {
        assert(s.take(k as int) =~= s);
    } else {
        assert(split_dots(s).drop_first() =~= split_dots(s.skip(k as int + 1)));
    }
}

/// Read the release out of what `node --version` printed.
pub fn parse_node_version(text: &str) -> (r: Option<(u64, u64)>)
    ensures
        r == reported_version(text@),
{
    let v = chars_of(text);
    let (lo, hi) = trim_span(&v, 0, v.len(), Pat::Space);
    let a = lead_in(&v, lo, hi, Pat::Is('v'));
    let start = lo + a;
    let ghost s = v@.subrange(start as int, hi as int);
    proof {
        assert(v@.subrange(0, v.len() as int) =~= text@);
        assert(trim_start(trim(text@, Pat::Space), Pat::Is('v')) =~= s);
        lemma_split_first(s);
    }
    let k = lead_in(&v, start, hi, Pat::IsNot('.'));
    if start + k == hi {
        return None;
    }
    let ghost tail = v@.subrange(start + k + 1, hi as int);
    let k2 = lead_in(&v, start + k + 1, hi, Pat::IsNot('.'));
    proof {
        assert(s.skip(k as int + 1) =~= tail);
        assert(s.take(k as int) =~= v@.subrange(start as int, start + k));
        lemma_split_first(tail);
        assert(tail.take(k2 as int) =~= v@.subrange(start + k + 1, start + k + 1 + k2));
        assert(split_dots(s)[1] == split_dots(s).drop_first()[0]);
    }
    let major = parse_span(&v, start, start + k, u64::MAX);
    let minor = parse_span(&v, start + k + 1, start + k + 1 + k2, u64::MAX);
    match (major, minor) {
        (Some(x), Some(y)) => Some((x, y)),
        _ => None,
    }
}

/// Whether an interpreter may be used, given what probing it reported.
///
/// A probe that fails is *not* a rejection: a wrapper or an unusual build that
/// does not answer `--version` still gets the benefit of the doubt, and the
/// harness will report whatever it thinks. Only a version actually read and
/// known to be too old is refused.
pub fn node_is_usable(probe: Option<(u64, u64)>) -> (r: bool)
    ensures
        r == match probe {
            Some((major, minor)) => supported(major, minor),
            None => true,
        },
{
    match probe {
        Some((major, minor)) => node_is_supported(major, minor),
        None => true,
    }
}

} // verus!
