//! Reading the authenticated URL a booting harness announces.
use vstd::prelude::*;
use crate::text::{
    chars_of, find_from, find_in, first_word, lead_in, lemma_find_from, occurs_at, span_starts_with,
    span_string, starts_with, trim_start, Pat,
};

verus! {

/// What the harness prints in front of its authenticated URL.
pub open spec fn announce_marker() -> Seq<char> {
    "dsh web: "@
}

/// The URL a harness announcement line carries: the first word after the
/// first `dsh web: `, provided it is an `http://` or `https://` URL.
pub open spec fn announced_url(line: Seq<char>) -> Option<Seq<char>> {
    match find_from(line, announce_marker(), 0) {
        None => None,
        Some(i) => match first_word(line.skip(i + announce_marker().len())) {
            None => None,
            Some(w) => if starts_with(w, "http://"@) || starts_with(w, "https://"@) {
                Some(w)
            } else {
                None
            },
        },
    }
}

/// Extract the authenticated URL from a harness announcement line such as
/// `dsh web: http://127.0.0.1:64875/?token=... (LAN: http://10.0.0.5:64875/?token=...)`.
pub fn parse_announced(line: &str) -> (r: Option<String>)
    ensures
        r matches Some(u) ==> announced_url(line@) == Some(u@),
        r is None ==> announced_url(line@) is None,
        r matches Some(u) ==> starts_with(u@, "http://"@) || starts_with(u@, "https://"@),
{
    let v = chars_of(line);
    let marker = chars_of("dsh web: ");
    let found = find_in(&v, &marker, 0);
    let i = match found {
        None => {
            return None;
        },
        Some(i) => i,
    };
    proof {
        lemma_find_from(v@, marker@, 0);
        assert(find_from(v@, marker@, 0) == Some(i as int));
        assert(occurs_at(v@, marker@, i as int));
        assert(i + marker@.len() <= v@.len());
    }
    assert(i + marker.len() <= v.len());
    let start = i + marker.len();
    let a = lead_in(&v, start, v.len(), Pat::Space);
    let ws = start + a;
    let ghost rest = line@.skip(start as int);
    assert(rest =~= v@.subrange(start as int, v.len() as int));
    assert(trim_start(rest, Pat::Space) =~= v@.subrange(ws as int, v.len() as int));
    if ws == v.len() {
        return None;
    }
    let b = lead_in(&v, ws, v.len(), Pat::NonSpace);
    let end = ws + b;
    assert(first_word(rest) == Some(v@.subrange(ws as int, end as int)));
    let http = chars_of("http://");
    let https = chars_of("https://");
    if span_starts_with(&v, ws, end, &http) || span_starts_with(&v, ws, end, &https) {
        Some(span_string(line, &v, ws, end))
    } else {
        None
    }
}

} // verus!
