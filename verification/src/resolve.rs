//! Choosing how to start the harness: which `dsh`, and which Node runs it.
//!
//! Everything here decides from facts the caller gathered about the machine
//! (which files exist, which are executable, what each `node --version`
//! reported), so the decisions are the same whatever machine they run on.
use vstd::prelude::*;
use crate::text::{
    chars_of, dec, lemma_trail_bound, push_dec, span_eq, span_string, texts, trail, trail_in, trim,
    trim_span, Pat,
};
use crate::versions::{node_is_supported, node_is_usable, supported};
use crate::paths::{
    cli_entry, each_joined, find_on_dirs, first_flagged, joined, sibling_node, CLI_ENTRY_REL,
};

verus! {

/// A resolved way to start the harness.
pub enum BackendCmd {
    /// Run a JS entry point through a specific Node binary.
    Node { node: String, entry: String },
    /// Run a `dsh` executable directly.
    Exec(String),
}

/// How a [`BackendCmd`] starts the harness, as text.
pub enum Launch {
    Node(Seq<char>, Seq<char>),
    Exec(Seq<char>),
}

impl View for BackendCmd {
    type V = Launch;

    open spec fn view(&self) -> Launch {
        match self {
            BackendCmd::Node { node, entry } => Launch::Node(node@, entry@),
            BackendCmd::Exec(path) => Launch::Exec(path@),
        }
    }
}

pub open spec fn describe_launch(l: Launch) -> Seq<char> {
    match l {
        Launch::Node(node, entry) => node + " "@ + entry,
        Launch::Exec(path) => path,
    }
}

impl BackendCmd {
    /// Human-readable description for diagnostics and error messages.
    pub fn describe(&self) -> (r: String)
        ensures
            r@ == describe_launch(self@),
    {
        match self {
            BackendCmd::Node { node, entry } => {
                let mut d = String::from_str(node.as_str());
                d.append(" ");
                d.append(entry.as_str());
                d
            },
            BackendCmd::Exec(path) => String::from_str(path.as_str()),
        }
    }
}

/// A `node` found on the search path, with what `node --version` reported
/// (`None` when it would not report one).
pub struct NodeProbe {
    pub path: String,
    pub version: Option<(u64, u64)>,
}

/// The interpreter named by `DSH_DESKTOP_NODE`.
pub struct ExplicitNode {
    pub path: String,
    pub is_file: bool,
    pub version: Option<(u64, u64)>,
}

pub open spec fn usable(version: Option<(u64, u64)>) -> bool {
    match version {
        Some((major, minor)) => supported(major, minor),
        None => true,
    }
}

pub open spec fn version_text(major: u64, minor: u64) -> Seq<char> {
    "v"@ + dec(major as nat) + "."@ + dec(minor as nat)
}

/// One candidate, as a failure report describes it.
pub open spec fn describe_probe(p: NodeProbe) -> Seq<char> {
    match p.version {
        Some((major, minor)) => p.path@ + " ("@ + version_text(major, minor) + ")"@,
        None => p.path@ + " (would not report a version)"@,
    }
}

pub open spec fn join_probes(ps: Seq<NodeProbe>) -> Seq<char>
    decreases ps.len(),
{
    if ps.len() <= 1 {
        if ps.len() == 1 {
            describe_probe(ps[0])
        } else {
            seq![]
        }
    } else {
        join_probes(ps.drop_last()) + ", "@ + describe_probe(ps.last())
    }
}

/// Every Node found, for a failure report.
pub open spec fn nodes_report(ps: Seq<NodeProbe>) -> Seq<char> {
    if ps.len() == 0 {
        "none found"@
    } else {
        join_probes(ps)
    }
}

/// The first candidate that is usable.
pub open spec fn first_usable(ps: Seq<NodeProbe>) -> Option<Seq<char>>
    decreases ps.len(),
{
    if ps.len() == 0 {
        None
    } else if usable(ps[0].version) {
        Some(ps[0].path@)
    } else {
        first_usable(ps.drop_first())
    }
}

pub open spec fn node_floor_error(path: Seq<char>, major: u64, minor: u64) -> Seq<char> {
    "DSH_DESKTOP_NODE points at "@ + path + " — that is "@ + version_text(major, minor)
        + ", and the harness needs Node 22.15 or newer (23.8+ on the 23 line): a core plugin imports `node:zlib`'s Zstd codecs by name at module scope, so a runtime without them cannot even load it"@
}

pub open spec fn no_usable_node_error(ps: Seq<NodeProbe>) -> Seq<char> {
    "the harness needs Node 22.15 or newer (a core plugin imports `node:zlib`'s Zstd codecs at module scope, so a runtime without them cannot load it), and no usable node was found. Candidates: "@
        + nodes_report(ps)
}

/// The interpreter to run the CLI with.
///
/// A named interpreter wins outright: it is an error if it is not a file or
/// reports a release the harness cannot run on, and it is never swapped for
/// another one. Otherwise it is the first candidate the harness can run on.
pub open spec fn chosen_node(explicit: Option<ExplicitNode>, candidates: Seq<NodeProbe>) -> Result<
    Seq<char>,
    Seq<char>,
> {
    match explicit {
        Some(e) => if !e.is_file {
            Err("DSH_DESKTOP_NODE points at "@ + e.path@ + ", which is not a file"@)
        } else {
            match e.version {
                Some((major, minor)) => if !supported(major, minor) {
                    Err(node_floor_error(e.path@, major, minor))
                } else {
                    Ok(e.path@)
                },
                None => Ok(e.path@),
            }
        },
        None => match first_usable(candidates) {
            Some(path) => Ok(path),
            None => Err(no_usable_node_error(candidates)),
        },
    }
}

/// A named interpreter is a decision, not a hint: whatever the candidates,
/// the outcome is that interpreter or an error, and it is an error exactly
/// when the path is not a file or reports a release the harness cannot run
/// on.
pub proof fn lemma_named_interpreter_is_a_decision(e: ExplicitNode, candidates: Seq<NodeProbe>)
    ensures
        chosen_node(Some(e), candidates) is Ok <==> e.is_file && usable(e.version),
        chosen_node(Some(e), candidates) matches Ok(p) ==> p == e.path@,
{
}

/// The interpreter picked from the search path is one the harness can run
/// on, and every candidate before it is one the harness cannot run on; when
/// none is picked, no candidate is usable.
pub proof fn lemma_picked_interpreter_is_first_usable(candidates: Seq<NodeProbe>)
    ensures
        first_usable(candidates) matches Some(p) ==> exists|i: int|
            0 <= i < candidates.len() && (#[trigger] candidates[i]).path@ == p && usable(
                candidates[i].version,
            ) && forall|j: int| 0 <= j < i ==> !usable(#[trigger] candidates[j].version),
        first_usable(candidates) is None ==> forall|i: int|
            0 <= i < candidates.len() ==> !usable(#[trigger] candidates[i].version),
    decreases candidates.len(),
{
    if candidates.len() > 0 {
        let rest = candidates.drop_first();
        lemma_picked_interpreter_is_first_usable(rest);
        if usable(candidates[0].version) {
            assert(candidates[0].path@ == first_usable(candidates)->Some_0);
        } else {
            if first_usable(rest) is Some {
                let i = choose|i: int|
                    0 <= i < rest.len() && (#[trigger] rest[i]).path@ == first_usable(rest)->Some_0
                        && usable(rest[i].version) && forall|j: int|
                        0 <= j < i ==> !usable(#[trigger] rest[j].version);
                assert(candidates[i + 1] == rest[i]);
                assert forall|j: int| 0 <= j < i + 1 implies !usable(
                    #[trigger] candidates[j].version,
                ) by {
                    if j > 0 {
                        assert(candidates[j] == rest[j - 1]);
                    }
                }
            } else {
                assert forall|i: int| 0 <= i < candidates.len() implies !usable(
                    #[trigger] candidates[i].version,
                ) by {
                    if i > 0 {
                        assert(candidates[i] == rest[i - 1]);
                    }
                }
            }
        }
    }
}

/// Append `(vMAJOR.MINOR)` or the no-version note for one candidate.
fn push_probe(out: &mut String, p: &NodeProbe)
    ensures
        final(out)@ == old(out)@ + describe_probe(*p),
{
    out.append(p.path.as_str());
    match p.version {
        Some((major, minor)) => {
            out.append(" (v");
            push_dec(out, major);
            out.append(".");
            push_dec(out, minor);
            out.append(")");
            proof {
                reveal_strlit(" (v");
                reveal_strlit(" (");
                reveal_strlit("v");
            }
            assert(final(out)@ =~= old(out)@ + describe_probe(*p));
        },
        None => {
            out.append(" (would not report a version)");
        },
    }
}

/// Describe every Node found, for a failure report.
pub fn describe_nodes(candidates: &Vec<NodeProbe>) -> (r: String)
    ensures
        r@ == nodes_report(candidates@),
{
    if candidates.len() == 0 {
        return String::from_str("none found");
    }
    let mut out = String::new();
    push_probe(&mut out, &candidates[0]);
    assert(candidates@.take(1).drop_last() =~= Seq::<NodeProbe>::empty());
    assert(out@ =~= join_probes(candidates@.take(1)));
    let mut i: usize = 1;
    while i < candidates.len()
        invariant
            1 <= i <= candidates.len(),
            out@ == join_probes(candidates@.take(i as int)),
        decreases candidates.len() - i,
    {
        out.append(", ");
        push_probe(&mut out, &candidates[i]);
        assert(candidates@.take(i + 1).drop_last() =~= candidates@.take(i as int));
        i = i + 1;
    }
    assert(candidates@.take(i as int) =~= candidates@);
    out
}

/// The interpreter to run the CLI with.
///
/// `explicit` is what `DSH_DESKTOP_NODE` names, and `candidates` every distinct
/// `node` on the search path in preference order, each with its probe. This
/// returns the first candidate the harness can actually run on, scanning
/// rather than taking the first hit, because an old Node earlier on the search
/// path must not shadow a suitable one further down the list.
pub fn resolve_node(explicit: &Option<ExplicitNode>, candidates: &Vec<NodeProbe>) -> (r: Result<
    String,
    String,
>)
    ensures
        r matches Ok(p) ==> chosen_node(*explicit, candidates@) == Ok::<Seq<char>, Seq<char>>(p@),
        r matches Err(m) ==> chosen_node(*explicit, candidates@) == Err::<Seq<char>, Seq<char>>(
            m@,
        ),
{
    if let Some(e) = explicit {
        if !e.is_file {
            let mut m = String::from_str("DSH_DESKTOP_NODE points at ");
            m.append(e.path.as_str());
            m.append(", which is not a file");
            return Err(m);
        }
        if let Some((major, minor)) = e.version {
            if !node_is_supported(major, minor) {
                let mut m = String::from_str("DSH_DESKTOP_NODE points at ");
                m.append(e.path.as_str());
                m.append(" — that is v");
                push_dec(&mut m, major);
                m.append(".");
                push_dec(&mut m, minor);
                m.append(
                    ", and the harness needs Node 22.15 or newer (23.8+ on the 23 line): a core plugin imports `node:zlib`'s Zstd codecs by name at module scope, so a runtime without them cannot even load it",
                );
                proof {
                    reveal_strlit(" — that is v");
                    reveal_strlit(" — that is ");
                    reveal_strlit("v");
                }
                assert(m@ =~= node_floor_error(e.path@, major, minor));
                return Err(m);
            }
        }
        return Ok(String::from_str(e.path.as_str()));
    }
    let mut i: usize = 0;
    assert(candidates@.skip(0) =~= candidates@);
    while i < candidates.len()
        invariant
            i <= candidates.len(),
            explicit is None,
            first_usable(candidates@) == first_usable(candidates@.skip(i as int)),
        decreases candidates.len() - i,
    {
        assert(candidates@.skip(i as int)[0] == candidates@[i as int]);
        assert(candidates@.skip(i as int).drop_first() =~= candidates@.skip(i + 1));
        if node_is_usable(candidates[i].version) {
            return Ok(String::from_str(candidates[i].path.as_str()));
        }
        i = i + 1;
    }
    let mut m = String::from_str(
        "the harness needs Node 22.15 or newer (a core plugin imports `node:zlib`'s Zstd codecs at module scope, so a runtime without them cannot load it), and no usable node was found. Candidates: ",
    );
    m.append(describe_nodes(candidates).as_str());
    Err(m)
}

// ---------------------------------------------------------------------------
// Which harness to start

/// The file name of a Unix path (`Path::file_name`): its last component
/// that is not empty and not `.`, or `None` when there is none or it is `..`.
pub open spec fn file_name_of(s: Seq<char>) -> Option<Seq<char>>
    decreases s.len(),
{
    let k = trail(s, Pat::IsNot('/'));
    let seg = s.skip(s.len() - k);
    if seg.len() == 0 || seg == seq!['.'] {
        if k >= s.len() {
            None
        } else {
            file_name_of(s.take(s.len() - k - 1))
        }
    } else if seg == seq!['.', '.'] {
        None
    } else {
        Some(seg)
    }
}

/// The extension of a file name (`Path::extension`): what follows its last
/// dot, unless it has none or its only dot leads the name.
pub open spec fn extension_of(name: Seq<char>) -> Option<Seq<char>> {
    let t = trail(name, Pat::IsNot('.'));
    if t >= name.len() || t + 1 == name.len() {
        None
    } else {
        Some(name.skip(name.len() - t))
    }
}

/// The code point of `c` after `char::to_ascii_lowercase`.
pub open spec fn lower_code(c: char) -> u32 {
    let u = c as u32;
    if 65 <= u <= 90 {
        (u + 32) as u32
    } else {
        u
    }
}

/// Whether `s.to_ascii_lowercase()` equals `pat`.
pub open spec fn lowered_eq(s: Seq<char>, pat: Seq<char>) -> bool {
    &&& s.len() == pat.len()
    &&& forall|i: int| 0 <= i < s.len() ==> lower_code(#[trigger] s[i]) == pat[i] as u32
}

/// Whether a path names a JS entry point: a `.js`, `.mjs` or `.cjs`
/// extension, in any letter case.
pub open spec fn is_script(path: Seq<char>) -> bool {
    match file_name_of(path) {
        Some(name) => match extension_of(name) {
            Some(ext) => lowered_eq(ext, "js"@) || lowered_eq(ext, "mjs"@) || lowered_eq(ext, "cjs"@),
            None => false,
        },
        None => false,
    }
}

/// The span of the file name of `v[lo..hi]`.
fn file_name_span(v: &Vec<char>, lo: usize, hi: usize) -> (r: Option<(usize, usize)>)
    requires
        lo <= hi <= v.len(),
    ensures
        r matches Some((a, b)) ==> lo <= a <= b <= hi && file_name_of(v@.subrange(lo as int, hi as int))
            == Some(v@.subrange(a as int, b as int)),
        r is None ==> file_name_of(v@.subrange(lo as int, hi as int)) is None,
{
    let dot = chars_of(".");
    let dots = chars_of("..");
    proof {
        reveal_strlit(".");
        reveal_strlit("..");
        assert(dot@ =~= seq!['.']);
        assert(dots@ =~= seq!['.', '.']);
    }
    let mut h = hi;
    loop
        invariant
            lo <= h <= hi <= v.len(),
            dot@ == seq!['.'],
            dots@ == seq!['.', '.'],
            file_name_of(v@.subrange(lo as int, hi as int)) == file_name_of(
                v@.subrange(lo as int, h as int),
            ),
        decreases h - lo,
    {
        let ghost s = v@.subrange(lo as int, h as int);
        let k = trail_in(v, lo, h, Pat::IsNot('/'));
        proof {
            lemma_trail_bound(s, Pat::IsNot('/'));
            assert(s.skip(s.len() - k) =~= v@.subrange(h - k, h as int));
        }
        let a = h - k;
        if a == h || span_eq(v, a, h, &dot) {
            if a == lo {
                return None;
            }
            proof {
                assert(s.take(s.len() - k - 1) =~= v@.subrange(lo as int, a - 1));
            }
            h = a - 1;
        } else if span_eq(v, a, h, &dots) {
            return None;
        } else {
            return Some((a, h));
        }
    }
}

/// Whether `v[lo..hi]`, lowercased, equals `pat`.
fn span_eq_lowered(v: &Vec<char>, lo: usize, hi: usize, pat: &Vec<char>) -> (b: bool)
    requires
        lo <= hi <= v.len(),
    ensures
        b == lowered_eq(v@.subrange(lo as int, hi as int), pat@),
{
    let ghost s = v@.subrange(lo as int, hi as int);
    if hi - lo != pat.len() {
        return false;
    }
    let mut k: usize = 0;
    while k < pat.len()
        invariant
            lo <= hi <= v.len(),
            s == v@.subrange(lo as int, hi as int),
            hi - lo == pat.len(),
            k <= pat.len(),
            forall|j: int| 0 <= j < k ==> lower_code(#[trigger] s[j]) == pat@[j] as u32,
        decreases pat.len() - k,
    {
        let u = v[lo + k] as u32;
        let l = if 65 <= u && u <= 90 {
            u + 32
        } else {
            u
        };
        assert(s[k as int] == v@[lo + k]);
        if l != pat[k] as u32 {
            return false;
        }
        k = k + 1;
    }
    true
}

/// Whether `path` names a JS entry point.
pub fn is_script_path(path: &str) -> (r: bool)
    ensures
        r == is_script(path@),
{
    let v = chars_of(path);
    assert(v@.subrange(0, v.len() as int) =~= path@);
    let (a, b) = match file_name_span(&v, 0, v.len()) {
        Some(span) => span,
        None => {
            return false;
        },
    };
    let ghost name = v@.subrange(a as int, b as int);
    let t = trail_in(&v, a, b, Pat::IsNot('.'));
    if t >= b - a || t + 1 == b - a {
        return false;
    }
    assert(name.skip(name.len() - t) =~= v@.subrange(b - t, b as int));
    let js = chars_of("js");
    let mjs = chars_of("mjs");
    let cjs = chars_of("cjs");
    span_eq_lowered(&v, b - t, b, &js) || span_eq_lowered(&v, b - t, b, &mjs) || span_eq_lowered(
        &v,
        b - t,
        b,
        &cjs,
    )
}

/// The `DSH_DESKTOP_BACKEND` setting with whitespace trimmed, unless that
/// leaves nothing.
pub open spec fn backend_path_of(setting: Option<String>) -> Option<Seq<char>> {
    match setting {
        Some(s) => if trim(s@, Pat::Space).len() > 0 {
            Some(trim(s@, Pat::Space))
        } else {
            None
        },
        None => None,
    }
}

/// The path `DSH_DESKTOP_BACKEND` names, if it names one.
pub fn backend_path(setting: &Option<String>) -> (r: Option<String>)
    ensures
        r matches Some(p) ==> backend_path_of(*setting) == Some(p@),
        r is None ==> backend_path_of(*setting) is None,
{
    match setting {
        Some(s) => {
            let v = chars_of(s.as_str());
            assert(v@.subrange(0, v.len() as int) =~= s@);
            let (lo, hi) = trim_span(&v, 0, v.len(), Pat::Space);
            if lo < hi {
                Some(span_string(s.as_str(), &v, lo, hi))
            } else {
                None
            }
        },
        None => None,
    }
}

/// A Node installation root that may hold a global `@deepseek-ai/dsh`, with
/// what was found under it.
pub struct Install {
    /// The root itself, one of [`install_roots`](crate::paths::install_roots).
    pub root: String,
    /// Whether the CLI entry point under the root ([`cli_entry`]) is a file.
    pub entry_is_file: bool,
    /// Whether the `node` shipped beside it ([`sibling_node`]) is an
    /// executable file.
    pub sibling_executable: bool,
    /// What the sibling reported for `--version`, when it was probed.
    pub sibling_version: Option<(u64, u64)>,
}

/// What resolving the harness depends on.
pub struct Machine {
    /// `DSH_DESKTOP_BACKEND`, when set.
    pub backend_setting: Option<String>,
    /// Whether the path it names is a file.
    pub backend_is_file: bool,
    /// Whether the path it names is an executable file.
    pub backend_is_executable: bool,
    /// Whether `DSH_DESKTOP_NODE` is set.
    pub node_setting: bool,
    /// The outcome of [`resolve_node`].
    pub interpreter: Result<String, String>,
    /// The installation roots, in the order they are searched.
    pub installs: Vec<Install>,
    /// The directories searched for a `dsh` executable, in order.
    pub search_dirs: Vec<String>,
    /// Whether each of `search_dirs` holds an executable `dsh`.
    pub dsh_here: Vec<bool>,
}

/// The CLI entry point under an installation root.
pub open spec fn entry_of(inst: Install) -> Seq<char> {
    joined(inst.root@, CLI_ENTRY_REL@)
}

/// The `node` shipped beside an installation root.
pub open spec fn sibling_of(inst: Install) -> Seq<char> {
    joined(inst.root@, "bin/node"@)
}

/// The first `dsh` on the search directories.
pub open spec fn dsh_on_path(m: Machine) -> Option<Seq<char>> {
    first_flagged(each_joined(texts(m.search_dirs@), "dsh"@), m.dsh_here@)
}

pub open spec fn text_result(r: Result<String, String>) -> Result<Seq<char>, Seq<char>> {
    match r {
        Ok(s) => Ok(s@),
        Err(s) => Err(s@),
    }
}

/// The first installation whose entry point exists and for which there is an
/// interpreter, together with the last entry point seen when there is none.
pub open spec fn install_choice(
    installs: Seq<Install>,
    node_setting: bool,
    interpreter: Result<Seq<char>, Seq<char>>,
    found: Option<Seq<char>>,
) -> (Option<Launch>, Option<Seq<char>>)
    decreases installs.len(),
{
    if installs.len() == 0 {
        (None, found)
    } else {
        let inst = installs[0];
        if !inst.entry_is_file {
            install_choice(installs.drop_first(), node_setting, interpreter, found)
        } else {
            // The interpreter shipped beside the install is the natural
            // pairing, but any interpreter that can run the harness will do.
            let node = if !node_setting && inst.sibling_executable && usable(inst.sibling_version) {
                Some(sibling_of(inst))
            } else {
                match interpreter {
                    Ok(n) => Some(n),
                    Err(_) => None,
                }
            };
            match node {
                Some(n) => (Some(Launch::Node(n, entry_of(inst))), Some(entry_of(inst))),
                None => install_choice(
                    installs.drop_first(),
                    node_setting,
                    interpreter,
                    Some(entry_of(inst)),
                ),
            }
        }
    }
}

pub open spec fn setting_prefix(path: Seq<char>) -> Seq<char> {
    "DSH_DESKTOP_BACKEND is set to "@ + path + ", but "@
}

pub open spec fn not_found_error(found: Option<Seq<char>>, interpreter: Result<Seq<char>, Seq<char>>) -> Seq<char> {
    match found {
        Some(entry) => "found the harness at "@ + entry + " but no interpreter that can run it: "@
            + match interpreter {
            Err(why) => why,
            Ok(_) => "set DSH_DESKTOP_NODE to name one"@,
        },
        None => "no dsh installation found. Install it with `npm i -g @deepseek-ai/dsh`, or point DSH_DESKTOP_BACKEND at its lib/bin.js. "@
            + match interpreter {
            Err(why) => why,
            Ok(_) => seq![],
        },
    }
}

/// How to start the harness, in priority order: the `DSH_DESKTOP_BACKEND`
/// setting; a global install under a known Node installation root; `dsh` on
/// the search path.
pub open spec fn resolution(m: Machine) -> Result<Launch, Seq<char>> {
    let interpreter = text_result(m.interpreter);
    match backend_path_of(m.backend_setting) {
        Some(path) => if is_script(path) {
            if !m.backend_is_file {
                Err(setting_prefix(path) + "that file does not exist"@)
            } else {
                match interpreter {
                    Ok(node) => Ok(Launch::Node(node, path)),
                    Err(why) => Err(setting_prefix(path) + why),
                }
            }
        } else if !m.backend_is_executable {
            Err(setting_prefix(path) + "that is not an executable file"@)
        } else {
            Ok(Launch::Exec(path))
        },
        None => if m.node_setting && interpreter is Err {
            // A named interpreter is a decision, not a hint.
            Err(interpreter->Err_0)
        } else {
            match install_choice(m.installs@, m.node_setting, interpreter, None) {
                (Some(launch), _) => Ok(launch),
                (None, found) => match dsh_on_path(m) {
                    Some(dsh) => Ok(Launch::Exec(dsh)),
                    None => Err(not_found_error(found, interpreter)),
                },
            }
        },
    }
}

/// Resolve how to start the harness, in priority order:
///
/// 1. `DSH_DESKTOP_BACKEND` — an explicit entry point or `dsh` executable.
/// 2. A global install under any known Node version-manager or Homebrew root.
/// 3. `dsh` on the search path.
pub fn resolve(m: &Machine) -> (r: Result<BackendCmd, String>)
    ensures
        r matches Ok(cmd) ==> resolution(*m) == Ok::<Launch, Seq<char>>(cmd@),
        r matches Err(e) ==> resolution(*m) == Err::<Launch, Seq<char>>(e@),
        backend_path_of(m.backend_setting) is None && !(m.node_setting && m.interpreter is Err) ==> (
        install_choice(m.installs@, m.node_setting, text_result(m.interpreter), None).0 matches Some(
            l,
        ) ==> r matches Ok(cmd) && cmd@ == l),
{
    let ghost interpreter = text_result(m.interpreter);
    if let Some(path) = backend_path(&m.backend_setting) {
        if is_script_path(path.as_str()) {
            if !m.backend_is_file {
                let mut e = String::from_str("DSH_DESKTOP_BACKEND is set to ");
                e.append(path.as_str());
                e.append(", but that file does not exist");
                proof {
                    reveal_strlit(", but that file does not exist");
                    reveal_strlit(", but ");
                    reveal_strlit("that file does not exist");
                }
                assert(e@ =~= setting_prefix(path@) + "that file does not exist"@);
                return Err(e);
            }
            return match &m.interpreter {
                Ok(node) => Ok(BackendCmd::Node { node: String::from_str(node.as_str()), entry: path }),
                Err(why) => {
                    let mut e = String::from_str("DSH_DESKTOP_BACKEND is set to ");
                    e.append(path.as_str());
                    e.append(", but ");
                    e.append(why.as_str());
                    assert(e@ =~= setting_prefix(path@) + why@);
                    Err(e)
                },
            };
        }
        if !m.backend_is_executable {
            let mut e = String::from_str("DSH_DESKTOP_BACKEND is set to ");
            e.append(path.as_str());
            e.append(", but that is not an executable file");
            proof {
                reveal_strlit(", but that is not an executable file");
                reveal_strlit(", but ");
                reveal_strlit("that is not an executable file");
            }
            assert(e@ =~= setting_prefix(path@) + "that is not an executable file"@);
            return Err(e);
        }
        return Ok(BackendCmd::Exec(path));
    }
    if m.node_setting {
        if let Err(why) = &m.interpreter {
            return Err(String::from_str(why.as_str()));
        }
    }
    let mut found: Option<String> = None;
    let mut i: usize = 0;
    assert(m.installs@.skip(0) =~= m.installs@);
    while i < m.installs.len()
        invariant
            i <= m.installs.len(),
            interpreter == text_result(m.interpreter),
            backend_path_of(m.backend_setting) is None,
            !(m.node_setting && interpreter is Err),
            install_choice(m.installs@, m.node_setting, interpreter, None) == install_choice(
                m.installs@.skip(i as int),
                m.node_setting,
                interpreter,
                match found {
                    Some(f) => Some(f@),
                    None => None,
                },
            ),
        decreases m.installs.len() - i,
    {
        let inst = &m.installs[i];
        assert(m.installs@.skip(i as int)[0] == m.installs@[i as int]);
        assert(m.installs@.skip(i as int).drop_first() =~= m.installs@.skip(i + 1));
        if inst.entry_is_file {
            let entry = cli_entry(inst.root.as_str());
            found = Some(String::from_str(entry.as_str()));
            let node = if !m.node_setting && inst.sibling_executable && node_is_usable(
                inst.sibling_version,
            ) {
                Some(sibling_node(inst.root.as_str()))
            } else {
                match &m.interpreter {
                    Ok(n) => Some(String::from_str(n.as_str())),
                    Err(_) => None,
                }
            };
            if let Some(node) = node {
                return Ok(BackendCmd::Node { node, entry });
            }
        }
        i = i + 1;
    }
    assert(m.installs@.skip(i as int) =~= Seq::<Install>::empty());
    if let Some(dsh) = find_on_dirs("dsh", &m.search_dirs, &m.dsh_here) {
        proof {
            reveal_strlit("dsh");
        }
        return Ok(BackendCmd::Exec(dsh));
    }
    proof {
        reveal_strlit("dsh");
    }
    let e = match found {
        Some(entry) => {
            let mut e = String::from_str("found the harness at ");
            e.append(entry.as_str());
            e.append(" but no interpreter that can run it: ");
            match &m.interpreter {
                Err(why) => e.append(why.as_str()),
                Ok(_) => e.append("set DSH_DESKTOP_NODE to name one"),
            }
            e
        },
        None => {
            let mut e = String::from_str(
                "no dsh installation found. Install it with `npm i -g @deepseek-ai/dsh`, or point DSH_DESKTOP_BACKEND at its lib/bin.js. ",
            );
            match &m.interpreter {
                Err(why) => e.append(why.as_str()),
                Ok(_) => {},
            }
            e
        },
    };
    Err(e)
}

/// With an interpreter at hand, the first installation whose entry point
/// exists is the one started, whether or not its own `node` is usable: a
/// root whose `node` is too old does not disqualify its `dsh`, and the
/// interpreter shipped beside the install is used only when it can run the
/// harness.
pub proof fn lemma_first_present_install_wins(
    installs: Seq<Install>,
    node_setting: bool,
    node: Seq<char>,
    found: Option<Seq<char>>,
    i: int,
)
    requires
        0 <= i < installs.len(),
        installs[i].entry_is_file,
        forall|j: int| 0 <= j < i ==> !(#[trigger] installs[j]).entry_is_file,
    ensures
        install_choice(installs, node_setting, Ok(node), found).0 == Some(
            Launch::Node(
                if !node_setting && installs[i].sibling_executable && usable(
                    installs[i].sibling_version,
                ) {
                    sibling_of(installs[i])
                } else {
                    node
                },
                entry_of(installs[i]),
            ),
        ),
    decreases i,
{
    if i > 0 {
        let rest = installs.drop_first();
        assert(!installs[0].entry_is_file);
        assert forall|j: int| 0 <= j < i - 1 implies !(#[trigger] rest[j]).entry_is_file by {
            assert(rest[j] == installs[j + 1]);
        }
        assert(rest[i - 1] == installs[i]);
        lemma_first_present_install_wins(rest, node_setting, node, found, i - 1);
    }
}

/// When `DSH_DESKTOP_NODE` names an interpreter the harness cannot use, and
/// `DSH_DESKTOP_BACKEND` does not name the harness itself, resolution stops
/// with that interpreter's error rather than falling back to another one.
pub proof fn lemma_named_interpreter_is_never_replaced(m: Machine)
    requires
        m.node_setting,
        m.interpreter is Err,
        backend_path_of(m.backend_setting) is None,
    ensures
        resolution(m) == Err::<Launch, Seq<char>>(m.interpreter->Err_0@),
{
}

/// Whether `s` ends with `suffix`.
pub open spec fn ends_with(s: Seq<char>, suffix: Seq<char>) -> bool {
    s.len() >= suffix.len() && s.skip(s.len() - suffix.len()) == suffix
}

/// A relative path joined onto any base ends with that path.
pub proof fn lemma_joined_ends_with(base: Seq<char>, rel: Seq<char>)
    requires
        rel.len() == 0 || rel[0] != '/',
    ensures
        ends_with(joined(base, rel), rel),
{
    let j = joined(base, rel);
    assert(j.skip(j.len() - rel.len()) =~= rel);
}

/// An installation is chosen only when its entry point exists, and it is
/// started through that entry point.
proof fn lemma_choice_from_install(
    installs: Seq<Install>,
    node_setting: bool,
    interpreter: Result<Seq<char>, Seq<char>>,
    found: Option<Seq<char>>,
)
    ensures
        install_choice(installs, node_setting, interpreter, found).0 matches Some(l) ==> (
        l matches Launch::Node(_, entry) && exists|i: int|
            0 <= i < installs.len() && (#[trigger] installs[i]).entry_is_file && entry == entry_of(
                installs[i],
            )),
    decreases installs.len(),
{
    if installs.len() > 0 {
        let rest = installs.drop_first();
        lemma_choice_from_install(rest, node_setting, interpreter, found);
        lemma_choice_from_install(rest, node_setting, interpreter, Some(entry_of(installs[0])));
        if let Some(Launch::Node(_, entry)) = install_choice(
            installs,
            node_setting,
            interpreter,
            found,
        ).0 {
            if entry != entry_of(installs[0]) || !installs[0].entry_is_file {
                let k = choose|k: int|
                    0 <= k < rest.len() && (#[trigger] rest[k]).entry_is_file && entry == entry_of(
                        rest[k],
                    );
                assert(installs[k + 1] == rest[k]);
            }
        }
    }
}

/// The first flagged path is one of the flagged paths.
proof fn lemma_first_flagged_is_flagged(paths: Seq<Seq<char>>, flags: Seq<bool>)
    ensures
        first_flagged(paths, flags) matches Some(p) ==> exists|i: int|
            0 <= i < paths.len() && i < flags.len() && #[trigger] flags[i] && p == paths[i],
    decreases paths.len(),
{
    if paths.len() > 0 && flags.len() > 0 && !flags[0] {
        lemma_first_flagged_is_flagged(paths.drop_first(), flags.drop_first());
        if let Some(p) = first_flagged(paths, flags) {
            let k = choose|k: int|
                0 <= k < paths.len() - 1 && k < flags.len() - 1 && #[trigger] flags.drop_first()[k]
                    && p == paths.drop_first()[k];
            assert(flags[k + 1] == flags.drop_first()[k]);
        }
    }
}

/// Unless `DSH_DESKTOP_BACKEND` names the harness, what is started is `dsh`:
/// either the `@deepseek-ai/dsh` entry point under one of the installation
/// roots, where that entry point exists, or a `dsh` executable found in one
/// of the search directories.
pub proof fn lemma_resolved_harness_is_dsh(m: Machine)
    requires
        backend_path_of(m.backend_setting) is None,
    ensures
        resolution(m) matches Ok(Launch::Node(_, entry)) ==> ends_with(entry, CLI_ENTRY_REL@)
            && exists|i: int|
            0 <= i < m.installs.len() && (#[trigger] m.installs@[i]).entry_is_file && entry
                == entry_of(m.installs@[i]),
        resolution(m) matches Ok(Launch::Exec(path)) ==> ends_with(path, "dsh"@) && exists|i: int|
            0 <= i < m.search_dirs.len() && i < m.dsh_here.len() && #[trigger] m.dsh_here@[i]
                && path == joined(m.search_dirs@[i]@, "dsh"@),
{
    let interpreter = text_result(m.interpreter);
    lemma_choice_from_install(m.installs@, m.node_setting, interpreter, None);
    let dirs = each_joined(texts(m.search_dirs@), "dsh"@);
    lemma_first_flagged_is_flagged(dirs, m.dsh_here@);
    reveal_strlit("dsh");
    reveal_strlit("lib/node_modules/@deepseek-ai/dsh/lib/bin.js");
    assert(CLI_ENTRY_REL@ == "lib/node_modules/@deepseek-ai/dsh/lib/bin.js"@);
    if let Ok(Launch::Node(_, entry)) = resolution(m) {
        let i = choose|i: int|
            0 <= i < m.installs.len() && (#[trigger] m.installs@[i]).entry_is_file && entry
                == entry_of(m.installs@[i]);
        lemma_joined_ends_with(m.installs@[i].root@, CLI_ENTRY_REL@);
    }
    if let Ok(Launch::Exec(path)) = resolution(m) {
        let i = choose|i: int|
            0 <= i < dirs.len() && i < m.dsh_here.len() && #[trigger] m.dsh_here@[i] && path
                == dirs[i];
        assert(dirs[i] == joined(m.search_dirs@[i]@, "dsh"@));
        lemma_joined_ends_with(m.search_dirs@[i]@, "dsh"@);
    }
}

/// Outside `DSH_DESKTOP_BACKEND` and an unusable named interpreter, a global
/// install that can be started always wins over `dsh` on the search path:
/// when some installation root has its entry point and an interpreter for
/// it, resolution starts that install, whatever the search directories
/// hold. A `dsh` on the search path is used only when no install qualifies.
pub proof fn lemma_installs_come_before_the_search_path(m: Machine)
    requires
        backend_path_of(m.backend_setting) is None,
        !(m.node_setting && m.interpreter is Err),
    ensures
        install_choice(m.installs@, m.node_setting, text_result(m.interpreter), None).0 matches Some(
            l,
        ) ==> resolution(m) == Ok::<Launch, Seq<char>>(l),
        resolution(m) matches Ok(Launch::Exec(_)) ==> install_choice(
            m.installs@,
            m.node_setting,
            text_result(m.interpreter),
            None,
        ).0 is None,
{
    lemma_choice_from_install(m.installs@, m.node_setting, text_result(m.interpreter), None);
}

/// With an interpreter at hand and no `DSH_DESKTOP_BACKEND`, the first
/// installation root whose entry point exists is started through that entry
/// point, and never a `dsh` from the search path.
pub proof fn lemma_first_install_beats_the_search_path(m: Machine, i: int)
    requires
        backend_path_of(m.backend_setting) is None,
        m.interpreter is Ok,
        0 <= i < m.installs.len(),
        m.installs@[i].entry_is_file,
        forall|j: int| 0 <= j < i ==> !(#[trigger] m.installs@[j]).entry_is_file,
    ensures
        resolution(m) == Ok::<Launch, Seq<char>>(
            Launch::Node(
                if !m.node_setting && m.installs@[i].sibling_executable && usable(
                    m.installs@[i].sibling_version,
                ) {
                    joined(m.installs@[i].root@, "bin/node"@)
                } else {
                    m.interpreter->Ok_0@
                },
                joined(m.installs@[i].root@, CLI_ENTRY_REL@),
            ),
        ),
{
    lemma_first_present_install_wins(
        m.installs@,
        m.node_setting,
        m.interpreter->Ok_0@,
        None,
        i,
    );
}

/// Two machines that differ only in their search directories resolve the
/// same way as soon as one of their installs can be started.
pub proof fn lemma_search_path_irrelevant_when_an_install_qualifies(m1: Machine, m2: Machine)
    requires
        m1.backend_setting == m2.backend_setting,
        m1.backend_is_file == m2.backend_is_file,
        m1.backend_is_executable == m2.backend_is_executable,
        m1.node_setting == m2.node_setting,
        m1.interpreter == m2.interpreter,
        m1.installs@ == m2.installs@,
        install_choice(m1.installs@, m1.node_setting, text_result(m1.interpreter), None).0 is Some,
    ensures
        resolution(m1) == resolution(m2),
{
}

} // verus!
