//! Where Node installations live, and the directories searched for `node`
//! and `dsh`.
//!
//! Paths are Unix paths held as text. Joining follows `Path::join`, and two
//! paths are the same when `Path`'s `==` says so: equal components, so
//! repeated and trailing separators and `.` components do not matter.
use vstd::prelude::*;
use crate::text::{chars_of, lemma_trail_bound, span_eq, texts, trail, trail_in, Pat};

verus! {

/// CLI entry point inside a Node installation root.
pub const CLI_ENTRY_REL: &'static str = "lib/node_modules/@deepseek-ai/dsh/lib/bin.js";

/// `base.join(rel)`: an absolute `rel` replaces `base`; otherwise a separator
/// is put between them unless `base` is empty or already ends in one.
pub open spec fn joined(base: Seq<char>, rel: Seq<char>) -> Seq<char> {
    if rel.len() > 0 && rel[0] == '/' {
        rel
    } else if base.len() > 0 && base.last() != '/' {
        base + seq!['/'] + rel
    } else {
        base + rel
    }
}

/// `base.join(rel)`.
pub fn join_path(base: &str, rel: &str) -> (r: String)
    ensures
        r@ == joined(base@, rel@),
{
    let b = chars_of(base);
    let r = chars_of(rel);
    if r.len() > 0 && r[0] == '/' {
        return String::from_str(rel);
    }
    let mut out = String::from_str(base);
    if b.len() > 0 && b[b.len() - 1] != '/' {
        proof {
            reveal_strlit("/");
        }
        out.append("/");
    }
    out.append(rel);
    assert(out@ =~= joined(base@, rel@));
    out
}

/// The home directory: `$HOME`, or `/` when it is unset.
pub open spec fn home_of(home: Option<Seq<char>>) -> Seq<char> {
    match home {
        Some(h) => h,
        None => "/"@,
    }
}

/// The harness data root: `$DSH_HOME` when it is set, and `.dsh` under the
/// home directory otherwise.
pub open spec fn harness_home_of(dsh_home: Option<Seq<char>>, home: Option<Seq<char>>) -> Seq<char> {
    match dsh_home {
        Some(d) => d,
        None => joined(home_of(home), ".dsh"@),
    }
}

pub open spec fn opt_text(s: Option<&str>) -> Option<Seq<char>> {
    match s {
        Some(t) => Some(t@),
        None => None,
    }
}

/// The home directory, from the value of `HOME`.
pub fn home_dir(home: Option<&str>) -> (r: String)
    ensures
        r@ == home_of(opt_text(home)),
{
    match home {
        Some(h) => String::from_str(h),
        None => String::from_str("/"),
    }
}

/// The harness data root, from the values of `DSH_HOME` and `HOME`.
pub fn harness_home(dsh_home: Option<&str>, home: Option<&str>) -> (r: String)
    ensures
        r@ == harness_home_of(opt_text(dsh_home), opt_text(home)),
{
    match dsh_home {
        Some(d) => String::from_str(d),
        None => join_path(home_dir(home).as_str(), ".dsh"),
    }
}

/// Whether a file with these permission bits can be executed: it is a
/// regular file with some execute bit set.
pub fn executable_mode(is_file: bool, mode: u32) -> (r: bool)
    ensures
        r == (is_file && mode & 0o111 != 0),
{
    is_file && mode & 0o111 != 0
}

/// The Unix components of a path: whether it is rooted, whether it starts
/// with a `.` component (only kept in front of a relative path), and its
/// normal components, from first to last.
pub open spec fn has_root(s: Seq<char>) -> bool {
    s.len() > 0 && s[0] == '/'
}

pub open spec fn leading_cur_dir(s: Seq<char>) -> bool {
    s.len() > 0 && s[0] == '.' && (s.len() == 1 || s[1] == '/')
}

/// The normal components: the pieces between separators that are neither
/// empty nor `.`.
pub open spec fn normal_parts(s: Seq<char>) -> Seq<Seq<char>>
    decreases s.len(),
{
    let k = trail(s, Pat::IsNot('/'));
    let seg = s.skip(s.len() - k);
    let before = if k >= s.len() {
        seq![]
    } else {
        normal_parts(s.take(s.len() - k - 1))
    };
    if seg.len() == 0 || seg == seq!['.'] {
        before
    } else {
        before.push(seg)
    }
}

/// Whether two paths are equal as `Path`s.
pub open spec fn same_path(a: Seq<char>, b: Seq<char>) -> bool {
    &&& has_root(a) == has_root(b)
    &&& leading_cur_dir(a) == leading_cur_dir(b)
    &&& normal_parts(a) == normal_parts(b)
}

/// The spans of the normal components of `v`.
fn normal_spans(v: &Vec<char>) -> (r: Vec<(usize, usize)>)
    ensures
        r@.len() == normal_parts(v@).len(),
        forall|i: int|
            0 <= i < r@.len() ==> {
                let (a, b) = #[trigger] r@[i];
                &&& a <= b <= v.len()
                &&& v@.subrange(a as int, b as int) == normal_parts(v@)[i]
            },
{
    let dot = chars_of(".");
    proof {
        reveal_strlit(".");
        assert(dot@ =~= seq!['.']);
    }
    let mut acc: Vec<(usize, usize)> = Vec::new();
    let mut h = v.len();
    assert(v@.subrange(0, h as int) =~= v@);
    loop
        invariant
            h <= v.len(),
            dot@ == seq!['.'],
            normal_parts(v@) == normal_parts(v@.subrange(0, h as int)) + acc@.map_values(
                |p: (usize, usize)| v@.subrange(p.0 as int, p.1 as int),
            ),
            forall|i: int| 0 <= i < acc@.len() ==> #[trigger] acc@[i].0 <= acc@[i].1 <= v.len(),
        decreases h,
    {
        let ghost s = v@.subrange(0, h as int);
        let k = trail_in(v, 0, h, Pat::IsNot('/'));
        proof {
            lemma_trail_bound(s, Pat::IsNot('/'));
            assert(s.skip(s.len() - k) =~= v@.subrange(h - k, h as int));
            if k < h {
                assert(s.take(s.len() - k - 1) =~= v@.subrange(0, h - k - 1));
            }
        }
        let a = h - k;
        let ghost old_acc = acc@;
        let keep = !(a == h || span_eq(v, a, h, &dot));
        if keep {
            acc.insert(0, (a, h));
        }
        proof {
            let f = |p: (usize, usize)| v@.subrange(p.0 as int, p.1 as int);
            if keep {
                assert(acc@ == seq![(a, h)] + old_acc);
                assert(acc@.map_values(f) =~= seq![v@.subrange(a as int, h as int)]
                    + old_acc.map_values(f));
            } else {
                assert(acc@ == old_acc);
            }
        }
        if k == h {
            proof {
                let f = |p: (usize, usize)| v@.subrange(p.0 as int, p.1 as int);
                assert(normal_parts(v@) =~= acc@.map_values(f));
                assert forall|i: int| 0 <= i < acc@.len() implies {
                    let (x, y) = #[trigger] acc@[i];
                    &&& x <= y <= v.len()
                    &&& v@.subrange(x as int, y as int) == normal_parts(v@)[i]
                } by {
                    assert(acc@.map_values(f)[i] == f(acc@[i]));
                }
            }
            return acc;
        }
        h = a - 1;
        assert(v@.subrange(0, h as int) == s.take(s.len() - k - 1));
    }
}

/// Whether `a[alo..ahi]` and `b[blo..bhi]` hold the same characters.
fn spans_equal(a: &Vec<char>, alo: usize, ahi: usize, b: &Vec<char>, blo: usize, bhi: usize) -> (r:
    bool)
    requires
        alo <= ahi <= a.len(),
        blo <= bhi <= b.len(),
    ensures
        r == (a@.subrange(alo as int, ahi as int) == b@.subrange(blo as int, bhi as int)),
{
    if ahi - alo != bhi - blo {
        assert(a@.subrange(alo as int, ahi as int).len() != b@.subrange(blo as int, bhi as int).len());
        return false;
    }
    let ghost sa = a@.subrange(alo as int, ahi as int);
    let ghost sb = b@.subrange(blo as int, bhi as int);
    let mut k: usize = 0;
    while k < ahi - alo
        invariant
            alo <= ahi <= a.len(),
            blo <= bhi <= b.len(),
            ahi - alo == bhi - blo,
            sa == a@.subrange(alo as int, ahi as int),
            sb == b@.subrange(blo as int, bhi as int),
            k <= ahi - alo,
            forall|j: int| 0 <= j < k ==> #[trigger] sa[j] == sb[j],
        decreases ahi - alo - k,
    {
        assert(sa[k as int] == a@[alo + k]);
        assert(sb[k as int] == b@[blo + k]);
        if a[alo + k] != b[blo + k] {
            return false;
        }
        k = k + 1;
    }
    assert(sa =~= sb);
    true
}

/// Whether two paths are equal as `Path`s.
pub fn paths_equal(a: &str, b: &str) -> (r: bool)
    ensures
        r == same_path(a@, b@),
{
    let va = chars_of(a);
    let vb = chars_of(b);
    let root_a = va.len() > 0 && va[0] == '/';
    let root_b = vb.len() > 0 && vb[0] == '/';
    let cur_a = va.len() > 0 && va[0] == '.' && (va.len() == 1 || va[1] == '/');
    let cur_b = vb.len() > 0 && vb[0] == '.' && (vb.len() == 1 || vb[1] == '/');
    if root_a != root_b || cur_a != cur_b {
        return false;
    }
    let pa = normal_spans(&va);
    let pb = normal_spans(&vb);
    if pa.len() != pb.len() {
        assert(normal_parts(va@).len() != normal_parts(vb@).len());
        return false;
    }
    let mut i: usize = 0;
    while i < pa.len()
        invariant
            va@ == a@,
            vb@ == b@,
            pa@.len() == pb@.len() == normal_parts(va@).len() == normal_parts(vb@).len(),
            i <= pa.len(),
            forall|j: int| 0 <= j < i ==> normal_parts(va@)[j] == normal_parts(vb@)[j],
            forall|j: int|
                0 <= j < pa@.len() ==> {
                    let (x, y) = #[trigger] pa@[j];
                    &&& x <= y <= va.len()
                    &&& va@.subrange(x as int, y as int) == normal_parts(va@)[j]
                },
            forall|j: int|
                0 <= j < pb@.len() ==> {
                    let (x, y) = #[trigger] pb@[j];
                    &&& x <= y <= vb.len()
                    &&& vb@.subrange(x as int, y as int) == normal_parts(vb@)[j]
                },
        decreases pa.len() - i,
    {
        let (x1, y1) = pa[i];
        let (x2, y2) = pb[i];
        if !spans_equal(&va, x1, y1, &vb, x2, y2) {
            assert(pa@[i as int] == (x1, y1) && pb@[i as int] == (x2, y2));
            assert(normal_parts(va@)[i as int] != normal_parts(vb@)[i as int]);
            return false;
        }
        i = i + 1;
    }
    assert(normal_parts(va@) =~= normal_parts(vb@));
    true
}

/// Each of `dirs` joined with `rel`.
pub open spec fn each_joined(dirs: Seq<Seq<char>>, rel: Seq<char>) -> Seq<Seq<char>> {
    dirs.map_values(|d: Seq<char>| joined(d, rel))
}

/// `dirs` without its empty entries.
pub open spec fn without_empty(dirs: Seq<Seq<char>>) -> Seq<Seq<char>>
    decreases dirs.len(),
{
    if dirs.len() == 0 {
        seq![]
    } else if dirs.last().len() == 0 {
        without_empty(dirs.drop_last())
    } else {
        without_empty(dirs.drop_last()).push(dirs.last())
    }
}

/// Where fnm keeps one directory per Node version.
pub open spec fn fnm_versions_dir_of(home: Seq<char>) -> Seq<char> {
    joined(home, ".local/share/fnm/node-versions"@)
}

/// Where nvm keeps one directory per Node version.
pub open spec fn nvm_versions_dir_of(home: Seq<char>) -> Seq<char> {
    joined(home, ".nvm/versions/node"@)
}

/// The directory fnm keeps its Node versions in, under `home`.
pub fn fnm_versions_dir(home: &str) -> (r: String)
    ensures
        r@ == fnm_versions_dir_of(home@),
{
    join_path(home, ".local/share/fnm/node-versions")
}

/// The directory nvm keeps its Node versions in, under `home`.
pub fn nvm_versions_dir(home: &str) -> (r: String)
    ensures
        r@ == nvm_versions_dir_of(home@),
{
    join_path(home, ".nvm/versions/node")
}

/// Every Node installation root that could hold a global `@deepseek-ai/dsh`,
/// in the order they are searched: the fnm and nvm versions (each list
/// already newest first), then Homebrew, `/usr/local`, and the npm, `~/.local`
/// and pnpm global prefixes under `home`.
pub open spec fn install_roots_of(home: Seq<char>, fnm: Seq<Seq<char>>, nvm: Seq<Seq<char>>) -> Seq<
    Seq<char>,
> {
    each_joined(fnm, "installation"@) + nvm + seq![
        "/opt/homebrew"@,
        "/usr/local"@,
        joined(home, ".npm-global"@),
        joined(home, ".local"@),
        joined(home, "Library/pnpm/global"@),
    ]
}

/// Append each of `dirs` joined with `rel`.
fn push_joined(out: &mut Vec<String>, dirs: &Vec<String>, rel: &str)
    ensures
        texts(final(out)@) == texts(old(out)@) + each_joined(texts(dirs@), rel@),
{
    let mut i: usize = 0;
    while i < dirs.len()
        invariant
            i <= dirs.len(),
            texts(out@) == texts(old(out)@) + each_joined(texts(dirs@.take(i as int)), rel@),
        decreases dirs.len() - i,
    {
        let ghost before = out@;
        out.push(join_path(dirs[i].as_str(), rel));
        proof {
            assert(texts(out@) =~= texts(before).push(joined(dirs@[i as int]@, rel@)));
            assert(texts(dirs@.take(i + 1)) =~= texts(dirs@.take(i as int)).push(dirs@[i as int]@));
            assert(each_joined(texts(dirs@.take(i + 1)), rel@) =~= each_joined(
                texts(dirs@.take(i as int)),
                rel@,
            ).push(joined(dirs@[i as int]@, rel@)));
        }
        i = i + 1;
    }
    assert(dirs@.take(i as int) =~= dirs@);
    assert(texts(final(out)@) =~= texts(old(out)@) + each_joined(texts(dirs@), rel@));
}

/// Append a copy of each of `dirs`.
fn push_all(out: &mut Vec<String>, dirs: &Vec<String>)
    ensures
        texts(final(out)@) == texts(old(out)@) + texts(dirs@),
{
    let mut i: usize = 0;
    while i < dirs.len()
        invariant
            i <= dirs.len(),
            texts(out@) == texts(old(out)@) + texts(dirs@.take(i as int)),
        decreases dirs.len() - i,
    {
        let ghost before = out@;
        out.push(String::from_str(dirs[i].as_str()));
        proof {
            assert(texts(out@) =~= texts(before).push(dirs@[i as int]@));
            assert(texts(dirs@.take(i + 1)) =~= texts(dirs@.take(i as int)).push(dirs@[i as int]@));
        }
        i = i + 1;
    }
    assert(dirs@.take(i as int) =~= dirs@);
    assert(texts(final(out)@) =~= texts(old(out)@) + texts(dirs@));
}

/// Append one path.
fn push_text(out: &mut Vec<String>, path: String)
    ensures
        texts(final(out)@) == texts(old(out)@).push(path@),
{
    out.push(path);
    assert(texts(final(out)@) =~= texts(old(out)@).push(path@));
}

/// Every Node installation root that could hold a global `@deepseek-ai/dsh`,
/// newest first so the most recent install wins. `fnm` and `nvm` are the
/// version directories of those two managers, each newest first.
pub fn install_roots(home: &str, fnm: &Vec<String>, nvm: &Vec<String>) -> (r: Vec<String>)
    ensures
        texts(r@) == install_roots_of(home@, texts(fnm@), texts(nvm@)),
{
    let mut roots: Vec<String> = Vec::new();
    push_joined(&mut roots, fnm, "installation");
    push_all(&mut roots, nvm);
    push_text(&mut roots, String::from_str("/opt/homebrew"));
    push_text(&mut roots, String::from_str("/usr/local"));
    push_text(&mut roots, join_path(home, ".npm-global"));
    push_text(&mut roots, join_path(home, ".local"));
    push_text(&mut roots, join_path(home, "Library/pnpm/global"));
    assert(texts(roots@) =~= install_roots_of(home@, texts(fnm@), texts(nvm@)));
    roots
}

/// Directories that may hold a `node` (or `dsh`) executable, in search
/// order, without empty entries: the search path, then the Homebrew,
/// MacPorts, Volta, asdf, `~/.local` and pnpm locations, then each fnm and nvm
/// version's `bin`. A GUI app launched from Finder inherits launchd's minimal
/// search path, so these locations are enumerated explicitly.
pub open spec fn binary_dirs_of(
    search_path: Seq<Seq<char>>,
    home: Seq<char>,
    fnm: Seq<Seq<char>>,
    nvm: Seq<Seq<char>>,
) -> Seq<Seq<char>> {
    without_empty(search_path_all(search_path, home, fnm, nvm))
}

/// `dirs` without its empty entries.
fn drop_empty(dirs: Vec<String>) -> (r: Vec<String>)
    ensures
        texts(r@) == without_empty(texts(dirs@)),
{
    let mut kept: Vec<String> = Vec::new();
    let mut i: usize = 0;
    while i < dirs.len()
        invariant
            i <= dirs.len(),
            texts(kept@) == without_empty(texts(dirs@.take(i as int))),
        decreases dirs.len() - i,
    {
        let ghost before = kept@;
        assert(texts(dirs@.take(i + 1)).drop_last() =~= texts(dirs@.take(i as int)));
        assert(texts(dirs@.take(i + 1)).last() == dirs@[i as int]@);
        if !dirs[i].as_str().is_empty() {
            kept.push(String::from_str(dirs[i].as_str()));
            assert(texts(kept@) =~= texts(before).push(dirs@[i as int]@));
        }
        i = i + 1;
    }
    assert(dirs@.take(i as int) =~= dirs@);
    kept
}

/// Directories that may hold a `node` (or `dsh`) executable. `search_path`
/// is the `PATH` split into its entries; `fnm` and `nvm` are those managers'
/// version directories, newest first.
pub fn binary_dirs(search_path: &Vec<String>, home: &str, fnm: &Vec<String>, nvm: &Vec<String>) -> (r:
    Vec<String>)
    ensures
        texts(r@) == binary_dirs_of(texts(search_path@), home@, texts(fnm@), texts(nvm@)),
{
    let mut dirs: Vec<String> = Vec::new();
    push_all(&mut dirs, search_path);
    push_text(&mut dirs, String::from_str("/opt/homebrew/bin"));
    push_text(&mut dirs, String::from_str("/usr/local/bin"));
    push_text(&mut dirs, String::from_str("/opt/local/bin"));
    push_text(&mut dirs, join_path(home, ".volta/bin"));
    push_text(&mut dirs, join_path(home, ".asdf/shims"));
    push_text(&mut dirs, join_path(home, ".local/bin"));
    push_text(&mut dirs, join_path(home, "Library/pnpm"));
    push_joined(&mut dirs, fnm, "installation/bin");
    push_joined(&mut dirs, nvm, "bin");
    assert(texts(dirs@) =~= search_path_all(texts(search_path@), home@, texts(fnm@), texts(nvm@)));
    drop_empty(dirs)
}

pub open spec fn search_path_all(
    search_path: Seq<Seq<char>>,
    home: Seq<char>,
    fnm: Seq<Seq<char>>,
    nvm: Seq<Seq<char>>,
) -> Seq<Seq<char>> {
    search_path + seq![
        "/opt/homebrew/bin"@,
        "/usr/local/bin"@,
        "/opt/local/bin"@,
        joined(home, ".volta/bin"@),
        joined(home, ".asdf/shims"@),
        joined(home, ".local/bin"@),
        joined(home, "Library/pnpm"@),
    ] + each_joined(fnm, "installation/bin"@) + each_joined(nvm, "bin"@)
}

/// The CLI entry point under an installation root.
pub fn cli_entry(root: &str) -> (r: String)
    ensures
        r@ == joined(root@, CLI_ENTRY_REL@),
{
    join_path(root, CLI_ENTRY_REL)
}

/// The `node` shipped beside an installation root.
pub fn sibling_node(root: &str) -> (r: String)
    ensures
        r@ == joined(root@, "bin/node"@),
{
    join_path(root, "bin/node")
}

/// The first of `paths` whose flag is set.
pub open spec fn first_flagged(paths: Seq<Seq<char>>, flags: Seq<bool>) -> Option<Seq<char>>
    decreases paths.len(),
{
    if paths.len() == 0 || flags.len() == 0 {
        None
    } else if flags[0] {
        Some(paths[0])
    } else {
        first_flagged(paths.drop_first(), flags.drop_first())
    }
}

/// First `name` found on the search path, given as a full path.
/// `executable[i]` tells whether `dirs[i]` joined with `name` is an executable
/// file; a directory without a flag is not searched.
pub fn find_on_dirs(name: &str, dirs: &Vec<String>, executable: &Vec<bool>) -> (r: Option<String>)
    ensures
        r matches Some(p) ==> first_flagged(each_joined(texts(dirs@), name@), executable@) == Some(
            p@,
        ),
        r is None ==> first_flagged(each_joined(texts(dirs@), name@), executable@) is None,
{
    let mut i: usize = 0;
    proof {
        assert(each_joined(texts(dirs@), name@).skip(0) =~= each_joined(texts(dirs@), name@));
        assert(executable@.skip(0) =~= executable@);
    }
    while i < dirs.len() && i < executable.len()
        invariant
            i <= dirs.len(),
            i <= executable.len(),
            first_flagged(each_joined(texts(dirs@), name@), executable@) == first_flagged(
                each_joined(texts(dirs@), name@).skip(i as int),
                executable@.skip(i as int),
            ),
        decreases dirs.len() - i,
    {
        let ghost ps = each_joined(texts(dirs@), name@);
        assert(ps.skip(i as int).drop_first() =~= ps.skip(i + 1));
        assert(executable@.skip(i as int).drop_first() =~= executable@.skip(i + 1));
        assert(ps.skip(i as int)[0] == joined(dirs@[i as int]@, name@));
        if executable[i] {
            return Some(join_path(dirs[i].as_str(), name));
        }
        i = i + 1;
    }
    None
}

/// Whether `p` is the same path as one of `seen`.
pub open spec fn seen_before(seen: Seq<Seq<char>>, p: Seq<char>) -> bool {
    exists|i: int| 0 <= i < seen.len() && same_path(#[trigger] seen[i], p)
}

/// The identities of the picked candidates.
pub open spec fn pick_ids(picks: Seq<int>, identities: Seq<Seq<char>>) -> Seq<Seq<char>> {
    picks.map_values(|j: int| identities[j])
}

/// The `node` paths of the picked candidates.
pub open spec fn pick_nodes(picks: Seq<int>, dirs: Seq<Seq<char>>) -> Seq<Seq<char>> {
    picks.map_values(|j: int| joined(dirs[j], "node"@))
}

/// Which of the first `n` directories give a `node` candidate: those whose
/// `node` is executable and whose resolved identity is not the same path as
/// that of an earlier candidate.
pub open spec fn node_picks(executable: Seq<bool>, identities: Seq<Seq<char>>, n: int) -> Seq<int>
    decreases n,
{
    if n <= 0 {
        seq![]
    } else {
        let before = node_picks(executable, identities, n - 1);
        if executable[n - 1] && !seen_before(pick_ids(before, identities), identities[n - 1]) {
            before.push(n - 1)
        } else {
            before
        }
    }
}

/// Whether `p` is the same path as one of `seen`.
fn is_seen(seen: &Vec<String>, p: &str) -> (r: bool)
    ensures
        r == seen_before(texts(seen@), p@),
{
    let mut i: usize = 0;
    while i < seen.len()
        invariant
            i <= seen.len(),
            forall|j: int| 0 <= j < i ==> !same_path(#[trigger] texts(seen@)[j], p@),
        decreases seen.len() - i,
    {
        if paths_equal(seen[i].as_str(), p) {
            assert(same_path(texts(seen@)[i as int], p@));
            return true;
        }
        i = i + 1;
    }
    false
}

/// The least of three lengths.
pub open spec fn shortest(a: usize, b: usize, c: usize) -> int {
    if a <= b && a <= c {
        a as int
    } else if b <= c {
        b as int
    } else {
        c as int
    }
}

/// Every distinct `node` on the search path, in preference order.
///
/// `executable[i]` tells whether `dirs[i]` joined with `node` is an executable
/// file, and `identities[i]` what that candidate resolves to; only the
/// directories that have both are looked at. Version-manager shims and
/// symlinks all point at one interpreter, so a candidate whose identity was
/// already seen is skipped.
pub fn node_candidates(dirs: &Vec<String>, executable: &Vec<bool>, identities: &Vec<String>) -> (r:
    Vec<String>)
    ensures
        texts(r@) == pick_nodes(
            node_picks(executable@, texts(identities@), shortest(dirs.len(), executable.len(), identities.len())),
            texts(dirs@),
        ),
{
    let ghost ids = texts(identities@);
    let ghost ds = texts(dirs@);
    let mut seen: Vec<String> = Vec::new();
    let mut out: Vec<String> = Vec::new();
    let mut n = dirs.len();
    if executable.len() < n {
        n = executable.len();
    }
    if identities.len() < n {
        n = identities.len();
    }
    let mut i: usize = 0;
    while i < n
        invariant
            n == shortest(dirs.len(), executable.len(), identities.len()),
            i <= n <= dirs.len(),
            n <= executable.len(),
            n <= identities.len(),
            ids == texts(identities@),
            ds == texts(dirs@),
            texts(seen@) == pick_ids(node_picks(executable@, ids, i as int), ids),
            texts(out@) == pick_nodes(node_picks(executable@, ids, i as int), ds),
            forall|k: int| 0 <= k < node_picks(executable@, ids, i as int).len() ==> 0 <= #[trigger] node_picks(executable@, ids, i as int)[k] < i,
        decreases n - i,
    {
        let ghost before = node_picks(executable@, ids, i as int);
        let ghost old_seen = seen@;
        let ghost old_out = out@;
        assert(ids[i as int] == identities@[i as int]@);
        if executable[i] && !is_seen(&seen, identities[i].as_str()) {
            seen.push(String::from_str(identities[i].as_str()));
            out.push(join_path(dirs[i].as_str(), "node"));
            proof {
                let now = node_picks(executable@, ids, i + 1);
                assert(now == before.push(i as int));
                assert(texts(seen@) =~= texts(old_seen).push(ids[i as int]));
                assert(pick_ids(now, ids) =~= pick_ids(before, ids).push(ids[i as int]));
                assert(texts(out@) =~= texts(old_out).push(joined(ds[i as int], "node"@)));
                assert(pick_nodes(now, ds) =~= pick_nodes(before, ds).push(
                    joined(ds[i as int], "node"@),
                ));
            }
        } else {
            assert(node_picks(executable@, ids, i + 1) == before);
        }
        i = i + 1;
    }
    out
}

/// `dirs` with every path that is the same as an earlier kept one dropped.
pub open spec fn distinct_paths(dirs: Seq<Seq<char>>) -> Seq<Seq<char>>
    decreases dirs.len(),
{
    if dirs.len() == 0 {
        seq![]
    } else {
        let kept = distinct_paths(dirs.drop_last());
        if seen_before(kept, dirs.last()) {
            kept
        } else {
            kept.push(dirs.last())
        }
    }
}

/// Paths joined with `:` (`env::join_paths` on Unix).
pub open spec fn colon_joined(dirs: Seq<Seq<char>>) -> Seq<char>
    decreases dirs.len(),
{
    if dirs.len() == 0 {
        seq![]
    } else if dirs.len() == 1 {
        dirs[0]
    } else {
        colon_joined(dirs.drop_last()) + seq![':'] + dirs.last()
    }
}

/// The `PATH` for the child: every directory once, in order, joined with
/// `:`; empty when a directory holds a `:` itself, as `env::join_paths`
/// refuses such a list.
pub open spec fn child_path_of(dirs: Seq<Seq<char>>) -> Seq<char> {
    let kept = distinct_paths(dirs);
    if exists|i: int, j: int| 0 <= i < kept.len() && 0 <= j < kept[i].len() && #[trigger] kept[i][j]
        == ':' {
        seq![]
    } else {
        colon_joined(kept)
    }
}

/// Whether `s` holds a `:`.
fn has_colon(s: &str) -> (r: bool)
    ensures
        r == exists|j: int| 0 <= j < s@.len() && #[trigger] s@[j] == ':',
{
    let v = chars_of(s);
    let mut j: usize = 0;
    while j < v.len()
        invariant
            j <= v.len(),
            v@ == s@,
            forall|k: int| 0 <= k < j ==> v@[k] != ':',
        decreases v.len() - j,
    {
        if v[j] == ':' {
            return true;
        }
        j = j + 1;
    }
    false
}

/// A search path for the child that includes every directory we know how to
/// search, so the shell and file tools the agent spawns resolve the same way.
pub fn child_path(dirs: &Vec<String>) -> (r: String)
    ensures
        r@ == child_path_of(texts(dirs@)),
{
    let ghost ds = texts(dirs@);
    let mut kept: Vec<String> = Vec::new();
    let mut i: usize = 0;
    while i < dirs.len()
        invariant
            i <= dirs.len(),
            ds == texts(dirs@),
            texts(kept@) == distinct_paths(ds.take(i as int)),
        decreases dirs.len() - i,
    {
        assert(ds.take(i + 1).drop_last() =~= ds.take(i as int));
        assert(ds.take(i + 1).last() == dirs@[i as int]@);
        if !is_seen(&kept, dirs[i].as_str()) {
            let ghost before = kept@;
            kept.push(String::from_str(dirs[i].as_str()));
            assert(texts(kept@) =~= texts(before).push(dirs@[i as int]@));
        }
        i = i + 1;
    }
    assert(ds.take(i as int) =~= ds);
    let ghost ks = texts(kept@);
    let mut out = String::new();
    let mut k: usize = 0;
    while k < kept.len()
        invariant
            k <= kept.len(),
            ks == texts(kept@),
            ds == texts(dirs@),
            ks == distinct_paths(ds),
            out@ == colon_joined(ks.take(k as int)),
            forall|a: int, b: int| 0 <= a < k && 0 <= b < ks[a].len() ==> #[trigger] ks[a][b] != ':',
        decreases kept.len() - k,
    {
        if has_colon(kept[k].as_str()) {
            proof {
                assert(ks[k as int] == kept@[k as int]@);
                let j = choose|j: int| 0 <= j < ks[k as int].len() && #[trigger] ks[k as int][j] == ':';
                assert(distinct_paths(ds)[k as int][j] == ':');
            }
            return String::new();
        }
        if k > 0 {
            proof {
                reveal_strlit(":");
            }
            out.append(":");
        }
        out.append(kept[k].as_str());
        assert(ks.take(k + 1).drop_last() =~= ks.take(k as int));
        assert(ks[k as int] == kept@[k as int]@);
        if k == 0 {
            assert(out@ =~= colon_joined(ks.take(1)));
        } else {
            assert(out@ =~= colon_joined(ks.take(k + 1)));
        }
        k = k + 1;
    }
    assert(ks.take(k as int) =~= ks);
    out
}

/// The directories of `dirs` that hold a `node`: `has_node[i]` tells
/// whether `dirs[i]` does.
pub open spec fn node_dirs_of(dirs: Seq<Seq<char>>, has_node: Seq<bool>) -> Seq<Seq<char>>
    decreases dirs.len(),
{
    if dirs.len() == 0 {
        seq![]
    } else {
        let before = node_dirs_of(dirs.drop_last(), has_node);
        let i = dirs.len() - 1;
        if i < has_node.len() && has_node[i] {
            before.push(dirs.last())
        } else {
            before
        }
    }
}

/// The directories the child searches, before repeats are dropped: those in
/// which a `node` was found first, then every directory searched for `node`
/// (the inherited search path followed by the enumerated locations), then the
/// inherited search path again, with any empty entries it has.
pub open spec fn child_dirs_of(
    search_path: Seq<Seq<char>>,
    home: Seq<char>,
    fnm: Seq<Seq<char>>,
    nvm: Seq<Seq<char>>,
    has_node: Seq<bool>,
) -> Seq<Seq<char>> {
    node_dirs_of(binary_dirs_of(search_path, home, fnm, nvm), has_node) + binary_dirs_of(
        search_path,
        home,
        fnm,
        nvm,
    ) + search_path
}

/// The `PATH` for the harness. `has_node[i]` tells whether the `i`th of
/// [`binary_dirs`] holds an executable `node`; those directories are put in
/// front, so the tools the agent spawns resolve the interpreter the harness
/// runs on; the rest keep the order of the search for `node`.
pub fn child_search_path(
    search_path: &Vec<String>,
    home: &str,
    fnm: &Vec<String>,
    nvm: &Vec<String>,
    has_node: &Vec<bool>,
) -> (r: String)
    ensures
        r@ == child_path_of(
            child_dirs_of(texts(search_path@), home@, texts(fnm@), texts(nvm@), has_node@),
        ),
{
    let binary = binary_dirs(search_path, home, fnm, nvm);
    let ghost bs = texts(binary@);
    let mut dirs: Vec<String> = Vec::new();
    let mut i: usize = 0;
    while i < binary.len()
        invariant
            i <= binary.len(),
            bs == texts(binary@),
            texts(dirs@) == node_dirs_of(bs.take(i as int), has_node@),
        decreases binary.len() - i,
    {
        assert(bs.take(i + 1).drop_last() =~= bs.take(i as int));
        assert(bs.take(i + 1).last() == binary@[i as int]@);
        if i < has_node.len() && has_node[i] {
            push_text(&mut dirs, String::from_str(binary[i].as_str()));
        }
        i = i + 1;
    }
    assert(bs.take(i as int) =~= bs);
    push_all(&mut dirs, &binary);
    push_all(&mut dirs, search_path);
    child_path(&dirs)
}

/// Dropping repeats keeps the order of first appearance: the kept
/// directories of `a` lead those of `a + b`.
pub proof fn lemma_distinct_paths_prefix(a: Seq<Seq<char>>, b: Seq<Seq<char>>)
    ensures
        distinct_paths(a + b).len() >= distinct_paths(a).len(),
        distinct_paths(a + b).take(distinct_paths(a).len() as int) == distinct_paths(a),
    decreases b.len(),
{
    if b.len() == 0 {
        assert(a + b =~= a);
        assert(distinct_paths(a).take(distinct_paths(a).len() as int) =~= distinct_paths(a));
    } else {
        let shorter = b.drop_last();
        lemma_distinct_paths_prefix(a, shorter);
        assert((a + b).drop_last() =~= a + shorter);
        let kept = distinct_paths(a + shorter);
        let n = distinct_paths(a).len() as int;
        if !seen_before(kept, (a + b).last()) {
            assert(kept.push((a + b).last()).take(n) =~= kept.take(n));
        }
    }
}

/// In the child's search path, the directories holding a `node` come first,
/// then the rest of the directories searched for `node`, in that search's
/// order: each of these groups, with its repeats dropped, is a prefix of what
/// is kept.
pub proof fn lemma_child_path_order(
    search_path: Seq<Seq<char>>,
    home: Seq<char>,
    fnm: Seq<Seq<char>>,
    nvm: Seq<Seq<char>>,
    has_node: Seq<bool>,
)
    ensures
        ({
            let nodes = node_dirs_of(binary_dirs_of(search_path, home, fnm, nvm), has_node);
            let known = nodes + binary_dirs_of(search_path, home, fnm, nvm);
            let kept = distinct_paths(child_dirs_of(search_path, home, fnm, nvm, has_node));
            &&& kept.take(distinct_paths(nodes).len() as int) == distinct_paths(nodes)
            &&& kept.take(distinct_paths(known).len() as int) == distinct_paths(known)
        }),
{
    let nodes = node_dirs_of(binary_dirs_of(search_path, home, fnm, nvm), has_node);
    let enumerated = binary_dirs_of(search_path, home, fnm, nvm);
    let known = nodes + enumerated;
    let all = child_dirs_of(search_path, home, fnm, nvm, has_node);
    assert(all == known + search_path);
    assert(nodes + (enumerated + search_path) =~= all);
    lemma_distinct_paths_prefix(nodes, enumerated + search_path);
    lemma_distinct_paths_prefix(known, search_path);
}

/// Path equality is an equivalence.
pub proof fn lemma_same_path_equivalence(a: Seq<char>, b: Seq<char>, c: Seq<char>)
    ensures
        same_path(a, a),
        same_path(a, b) ==> same_path(b, a),
        same_path(a, b) && same_path(b, c) ==> same_path(a, c),
{
}

/// The kept directories are pairwise different paths, each is one of the
/// inputs, and every input is the same path as one of them.
pub proof fn lemma_distinct_paths(dirs: Seq<Seq<char>>)
    ensures
        forall|i: int, j: int|
            0 <= i < j < distinct_paths(dirs).len() ==> !same_path(
                #[trigger] distinct_paths(dirs)[i],
                #[trigger] distinct_paths(dirs)[j],
            ),
        forall|i: int| 0 <= i < distinct_paths(dirs).len() ==> dirs.contains(#[trigger] distinct_paths(dirs)[i]),
        forall|i: int| 0 <= i < dirs.len() ==> seen_before(distinct_paths(dirs), #[trigger] dirs[i]),
    decreases dirs.len(),
{
    if dirs.len() > 0 {
        let rest = dirs.drop_last();
        lemma_distinct_paths(rest);
        let kept = distinct_paths(rest);
        let x = dirs.last();
        assert forall|i: int| 0 <= i < kept.len() implies dirs.contains(#[trigger] kept[i]) by {
            let k = choose|k: int| 0 <= k < rest.len() && rest[k] == kept[i];
            assert(dirs[k] == rest[k]);
        }
        if seen_before(kept, x) {
            assert forall|i: int| 0 <= i < dirs.len() implies seen_before(kept, #[trigger] dirs[i]) by {
                if i < dirs.len() - 1 {
                    assert(dirs[i] == rest[i]);
                }
            }
        } else {
            let now = kept.push(x);
            assert forall|i: int, j: int|
                0 <= i < j < now.len() implies !same_path(#[trigger] now[i], #[trigger] now[j]) by {
                if j == now.len() - 1 {
                    if same_path(now[i], x) {
                        assert(same_path(kept[i], x));
                    }
                } else {
                    assert(now[i] == kept[i] && now[j] == kept[j]);
                }
            }
            assert forall|i: int| 0 <= i < now.len() implies dirs.contains(#[trigger] now[i]) by {
                if i == now.len() - 1 {
                    assert(dirs[dirs.len() - 1] == x);
                } else {
                    assert(now[i] == kept[i]);
                }
            }
            assert forall|i: int| 0 <= i < dirs.len() implies seen_before(now, #[trigger] dirs[i]) by {
                if i < dirs.len() - 1 {
                    assert(dirs[i] == rest[i]);
                    let k = choose|k: int| 0 <= k < kept.len() && same_path(#[trigger] kept[k], rest[i]);
                    assert(now[k] == kept[k]);
                } else {
                    assert(now[now.len() - 1] == x);
                    assert(same_path(now[now.len() - 1], x));
                }
            }
        }
    }
}

/// The `node` candidates come from executable entries, in search order, and
/// no two of them resolve to the same interpreter; every executable entry
/// resolves to the same interpreter as one of them.
pub proof fn lemma_node_picks(executable: Seq<bool>, identities: Seq<Seq<char>>, n: int)
    requires
        0 <= n <= executable.len(),
        n <= identities.len(),
    ensures
        forall|k: int|
            0 <= k < node_picks(executable, identities, n).len() ==> {
                let j = #[trigger] node_picks(executable, identities, n)[k];
                0 <= j < n && executable[j]
            },
        forall|a: int, b: int|
            0 <= a < b < node_picks(executable, identities, n).len() ==> {
                let x = #[trigger] node_picks(executable, identities, n)[a];
                let y = #[trigger] node_picks(executable, identities, n)[b];
                x < y && !same_path(identities[x], identities[y])
            },
        forall|i: int|
            0 <= i < n && #[trigger] executable[i] ==> seen_before(
                pick_ids(node_picks(executable, identities, n), identities),
                identities[i],
            ),
    decreases n,
{
    if n > 0 {
        lemma_node_picks(executable, identities, n - 1);
        let before = node_picks(executable, identities, n - 1);
        let ids = pick_ids(before, identities);
        let now = node_picks(executable, identities, n);
        if executable[n - 1] && !seen_before(ids, identities[n - 1]) {
            assert(now == before.push(n - 1));
            let now_ids = pick_ids(now, identities);
            assert(now_ids =~= ids.push(identities[n - 1]));
            assert forall|a: int, b: int| 0 <= a < b < now.len() implies {
                let x = #[trigger] now[a];
                let y = #[trigger] now[b];
                x < y && !same_path(identities[x], identities[y])
            } by {
                if b == now.len() - 1 {
                    assert(now[a] == before[a]);
                    assert(ids[a] == identities[before[a]]);
                    if same_path(identities[now[a]], identities[n - 1]) {
                        assert(same_path(ids[a], identities[n - 1]));
                    }
                } else {
                    assert(now[a] == before[a] && now[b] == before[b]);
                }
            }
            assert forall|i: int| 0 <= i < n && #[trigger] executable[i] implies seen_before(
                now_ids,
                identities[i],
            ) by {
                if i < n - 1 {
                    let k = choose|k: int| 0 <= k < ids.len() && same_path(#[trigger] ids[k], identities[i]);
                    assert(now_ids[k] == ids[k]);
                } else {
                    assert(now_ids[now_ids.len() - 1] == identities[n - 1]);
                    assert(same_path(now_ids[now_ids.len() - 1], identities[i]));
                }
            }
        } else {
            assert forall|i: int| 0 <= i < n && #[trigger] executable[i] implies seen_before(
                ids,
                identities[i],
            ) by {}
        }
    }
}

} // verus!
