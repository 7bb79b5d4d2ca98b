use base64::Engine;
use hmac::Mac;
use sha2::Digest;

use dsh_desktop::announce::parse_announced;
use dsh_desktop::boot::{
    attach_target, cookie_check_request, cookie_lifetime, cookie_refused_report, cookie_verdict,
    failure_script, foreign_port_report, harness_args, next_cookie_step, port_occupant,
    port_probe_request, silent_boot, teardown_step, CookieStep, CookieVerdict, LogTail,
    PortOccupant, TeardownAction, Watch, WatchAction, LOG_TAIL, TEARDOWN_POLLS, WATCH_RETRIES,
};
use dsh_desktop::config::{profile_name, web_port, DEFAULT_WEB_PORT};
use dsh_desktop::paths::{
    binary_dirs, child_path, child_search_path, cli_entry, executable_mode, find_on_dirs, harness_home, home_dir,
    install_roots, join_path, node_candidates, paths_equal, sibling_node,
};
use dsh_desktop::resolve::{
    backend_path, describe_nodes, is_script_path, resolve, resolve_node, BackendCmd, ExplicitNode,
    Install, Machine, NodeProbe,
};
use dsh_desktop::session::{
    attach_url, authority, cookie_name, cookie_payload, cookie_secret, cookie_value, discover_token,
    mint_cookie_for, mint_session_cookie, COOKIE_LIFETIME_MILLIS, SHORT_COOKIE_LIFETIME_MILLIS,
};
use dsh_desktop::versions::{newest_first, node_is_usable, parse_node_version, version_key};

fn s(text: &str) -> String {
    text.to_string()
}

fn strings(items: &[&str]) -> Vec<String> {
    items.iter().map(|item| item.to_string()).collect()
}

// --- announcements ---------------------------------------------------------

#[test]
fn announcement_accepts_https_and_extra_spacing() {
    assert_eq!(
        parse_announced("dsh web:    https://127.0.0.1:9/?token=q  more").as_deref(),
        Some("https://127.0.0.1:9/?token=q")
    );
}

#[test]
fn announcement_reads_only_the_first_marker() {
    assert_eq!(
        parse_announced("dsh web: ftp://x dsh web: http://127.0.0.1:2/").as_deref(),
        None
    );
    assert_eq!(parse_announced("dsh web:").as_deref(), None);
    assert_eq!(parse_announced("dsh web:   ").as_deref(), None);
}

// --- versions --------------------------------------------------------------

#[test]
fn version_keys_read_each_dotted_piece() {
    assert_eq!(version_key("v24.11.1"), vec![24, 11, 1]);
    assert_eq!(version_key("vv1..x"), vec![1, 0, 0]);
    assert_eq!(version_key(""), vec![0]);
    assert_eq!(version_key("+5.07"), vec![5, 7]);
    assert_eq!(version_key("99999999999999999999.1"), vec![0, 1]);
    assert_eq!(version_key("18446744073709551615"), vec![u64::MAX]);
}

#[test]
fn version_directories_sort_newest_first_and_keep_ties_in_order() {
    let names = strings(&["v9.0.0", "v24.0.0", "v22.15.0", "v24.0.0", "v24"]);
    assert_eq!(newest_first(&names), vec![1, 3, 4, 2, 0]);
    assert_eq!(newest_first(&Vec::new()), Vec::<usize>::new());
}

#[test]
fn node_version_output_is_read_to_major_and_minor() {
    assert_eq!(parse_node_version("v24.11.1\n"), Some((24, 11)));
    assert_eq!(parse_node_version("  v23.8.0 "), Some((23, 8)));
    assert_eq!(parse_node_version("v22"), None);
    assert_eq!(parse_node_version("garbage"), None);
    assert_eq!(parse_node_version("v22.x.1"), None);
}

#[test]
fn an_unprobed_interpreter_gets_the_benefit_of_the_doubt() {
    assert!(node_is_usable(None));
    assert!(!node_is_usable(Some((20, 10))));
    assert!(node_is_usable(Some((22, 15))));
}

// --- settings --------------------------------------------------------------

#[test]
fn profile_setting_is_trimmed_and_defaults_to_web() {
    assert_eq!(profile_name(None), "web");
    assert_eq!(profile_name(Some("   ")), "web");
    assert_eq!(profile_name(Some(" work \n")), "work");
}

#[test]
fn port_setting_falls_back_for_zero_and_junk() {
    assert_eq!(web_port(None), DEFAULT_WEB_PORT);
    assert_eq!(web_port(Some("4000")), 4000);
    assert_eq!(web_port(Some(" 4000 ")), 4000);
    assert_eq!(web_port(Some("+4000")), 4000);
    assert_eq!(web_port(Some("0")), 3080);
    assert_eq!(web_port(Some("70000")), 3080);
    assert_eq!(web_port(Some("abc")), 3080);
    assert_eq!(web_port(Some("-1")), 3080);
}

// --- tokens ----------------------------------------------------------------

#[test]
fn the_last_announcement_in_the_first_useful_log_wins() {
    let logs = vec![
        None,
        Some(s("dsh web: http://127.0.0.1:3080/?token=old\nboot\ndsh web: http://127.0.0.1:3080/?token=new-1_x (LAN)\n")),
        Some(s("dsh web: http://127.0.0.1:3080/?token=later")),
    ];
    assert_eq!(discover_token(3080, &logs).as_deref(), Some("new-1_x"));
    assert_eq!(attach_url(3080, &logs), "http://127.0.0.1:3080/?token=new-1_x");
    assert_eq!(discover_token(4000, &logs), None);
    assert_eq!(attach_url(4000, &logs), "http://127.0.0.1:4000/");
}

#[test]
fn an_attach_url_reads_back_from_an_announcement() {
    let logs = vec![None, Some(s("dsh web: http://127.0.0.1:3080/?token=Ab-9_z (LAN: x)"))];
    for port in [3080u16, 65535] {
        let url = attach_url(port, &logs);
        assert!(url.starts_with(&format!("http://127.0.0.1:{port}/")));
        assert!(!url.contains(char::is_whitespace));
        assert_eq!(parse_announced(&format!("dsh web: {url}")), Some(url));
    }
}

#[test]
fn an_empty_token_moves_on_to_the_next_log() {
    let logs = vec![
        Some(s("http://127.0.0.1:3080/?token=")),
        Some(s("http://127.0.0.1:3080/?token=abc")),
    ];
    assert_eq!(discover_token(3080, &logs).as_deref(), Some("abc"));
}

// --- the signing secret ----------------------------------------------------

#[test]
fn the_secret_is_read_from_the_browser_session_record_only() {
    let text = "other:\n  secret: nope\nclient-connection/browser-session:\n  secret: 'c2VjcmV0'\n";
    assert_eq!(cookie_secret(text).as_deref(), Some("c2VjcmV0"));
    let quoted = "\"client-connection/browser-session\":\r\n    secret: \"abc\"\r\n";
    assert_eq!(cookie_secret(quoted).as_deref(), Some("abc"));
}

#[test]
fn a_key_at_the_record_indent_closes_the_record() {
    let text = "client-connection/browser-session:\n  kind: x\nnext:\n  secret: late\n";
    assert_eq!(cookie_secret(text), None);
    let empty = "client-connection/browser-session:\n  secret: ''\n  secret: second\n";
    assert_eq!(cookie_secret(empty).as_deref(), Some("second"));
    assert_eq!(cookie_secret(""), None);
}

// --- cookies ---------------------------------------------------------------

const SECRET: &str = "AAECAwQFBgcICQoLDA0ODxAREhMUFRYXGBkaGxwdHh8";

fn credentials() -> String {
    format!("client-connection/browser-session:\n  secret: {SECRET}\n")
}

#[test]
fn the_payload_has_the_harness_format() {
    assert_eq!(authority(3080), "127.0.0.1:3080");
    assert_eq!(
        cookie_payload("127.0.0.1:3080", 1, -5),
        "{\"version\":1,\"authority\":\"127.0.0.1:3080\",\"issuedAt\":1,\"expiresAt\":-5}"
    );
    assert_eq!(cookie_value("body", "sig"), "v1.body.sig");
    assert_eq!(COOKIE_LIFETIME_MILLIS, 29 * 24 * 60 * 60 * 1000);
}

#[test]
fn the_minted_cookie_is_what_the_harness_signs() {
    let engine = base64::engine::general_purpose::URL_SAFE_NO_PAD;
    let issued: i64 = 1_725_029_869_000;
    let (name, value) =
        mint_session_cookie(3080, Some(&credentials()), Some(issued)).expect("a cookie");

    let payload = format!(
        "{{\"version\":1,\"authority\":\"127.0.0.1:3080\",\"issuedAt\":{issued},\"expiresAt\":{}}}",
        issued + COOKIE_LIFETIME_MILLIS
    );
    let body = engine.encode(payload.as_bytes());
    let key = engine.decode(SECRET).unwrap();
    let mut mac = hmac::Hmac::<sha2::Sha256>::new_from_slice(&key).unwrap();
    mac.update(body.as_bytes());
    let signature = engine.encode(mac.finalize().into_bytes());
    assert_eq!(value, format!("v1.{body}.{signature}"));
    let expected_name = format!(
        "dsh-auth-{}",
        engine.encode(sha2::Sha256::digest(b"127.0.0.1:3080"))
    );
    assert_eq!(name, expected_name);
    assert_eq!(cookie_name("127.0.0.1:3080"), expected_name);
    assert_ne!(name, "dsh-auth-127.0.0.1:3080");
}

#[test]
fn no_cookie_without_a_secret_a_key_or_a_clock() {
    assert_eq!(mint_session_cookie(3080, None, Some(0)), None);
    assert_eq!(mint_session_cookie(3080, Some("nothing: here\n"), Some(0)), None);
    let bad = "client-connection/browser-session:\n  secret: not=base64!\n";
    assert_eq!(mint_session_cookie(3080, Some(bad), Some(0)), None);
    assert_eq!(mint_session_cookie(3080, Some(&credentials()), None), None);
}

#[test]
fn the_cookie_name_depends_on_the_port_alone() {
    let a = mint_session_cookie(3080, Some(&credentials()), Some(1)).unwrap();
    let b = mint_session_cookie(3080, Some(&credentials()), Some(2)).unwrap();
    let c = mint_session_cookie(3081, Some(&credentials()), Some(1)).unwrap();
    assert_eq!(a.0, b.0);
    assert_ne!(a.1, b.1);
    assert_ne!(a.0, c.0);
}

// --- interpreters ----------------------------------------------------------

fn probe(path: &str, version: Option<(u64, u64)>) -> NodeProbe {
    NodeProbe { path: s(path), version }
}

#[test]
fn a_named_interpreter_is_a_decision() {
    let missing = Some(ExplicitNode { path: s("/x/node"), is_file: false, version: None });
    assert_eq!(
        resolve_node(&missing, &vec![probe("/ok/node", Some((24, 0)))]),
        Err(s("DSH_DESKTOP_NODE points at /x/node, which is not a file"))
    );
    let old = Some(ExplicitNode { path: s("/old/node"), is_file: true, version: Some((20, 10)) });
    assert_eq!(
        resolve_node(&old, &vec![probe("/ok/node", Some((24, 0)))]),
        Err(s("DSH_DESKTOP_NODE points at /old/node — that is v20.10, and the harness needs Node 22.15 or newer (23.8+ on the 23 line): a core plugin imports `node:zlib`'s Zstd codecs by name at module scope, so a runtime without them cannot even load it"))
    );
    let quiet = Some(ExplicitNode { path: s("/wrap/node"), is_file: true, version: None });
    assert_eq!(resolve_node(&quiet, &Vec::new()), Ok(s("/wrap/node")));
}

#[test]
fn no_usable_interpreter_is_reported_with_every_candidate() {
    let candidates = vec![probe("/a/node", Some((20, 10))), probe("/b/node", Some((23, 7)))];
    assert_eq!(
        describe_nodes(&candidates),
        "/a/node (v20.10), /b/node (v23.7)"
    );
    assert_eq!(describe_nodes(&Vec::new()), "none found");
    assert_eq!(
        describe_nodes(&vec![probe("/w/node", None)]),
        "/w/node (would not report a version)"
    );
    assert_eq!(
        resolve_node(&None, &candidates),
        Err(s("the harness needs Node 22.15 or newer (a core plugin imports `node:zlib`'s Zstd codecs at module scope, so a runtime without them cannot load it), and no usable node was found. Candidates: /a/node (v20.10), /b/node (v23.7)"))
    );
    assert_eq!(
        resolve_node(&None, &vec![probe("/w/node", None), probe("/b/node", Some((24, 1)))]),
        Ok(s("/w/node"))
    );
}

// --- resolving the harness -------------------------------------------------

fn install(root: &str, entry_is_file: bool, sibling_version: Option<(u64, u64)>) -> Install {
    Install {
        root: s(root),
        entry_is_file,
        sibling_executable: sibling_version.is_some(),
        sibling_version,
    }
}

fn machine() -> Machine {
    Machine {
        backend_setting: None,
        backend_is_file: false,
        backend_is_executable: false,
        node_setting: false,
        interpreter: Ok(s("/usr/local/bin/node")),
        installs: Vec::new(),
        search_dirs: vec![s("/bin"), s("/usr/bin/")],
        dsh_here: vec![false, false],
    }
}

#[test]
fn the_backend_setting_comes_first() {
    let mut m = machine();
    m.backend_setting = Some(s("  /x/bin.JS "));
    assert_eq!(backend_path(&m.backend_setting).as_deref(), Some("/x/bin.JS"));
    assert_eq!(
        resolve(&m).err().as_deref(),
        Some("DSH_DESKTOP_BACKEND is set to /x/bin.JS, but that file does not exist")
    );
    m.backend_is_file = true;
    match resolve(&m) {
        Ok(BackendCmd::Node { node, entry }) => {
            assert_eq!(node, "/usr/local/bin/node");
            assert_eq!(entry, "/x/bin.JS");
        }
        _ => panic!("expected a node command"),
    }
    m.interpreter = Err(s("no node"));
    assert_eq!(
        resolve(&m).err().as_deref(),
        Some("DSH_DESKTOP_BACKEND is set to /x/bin.JS, but no node")
    );
    m.backend_setting = Some(s("/x/dsh"));
    assert_eq!(
        resolve(&m).err().as_deref(),
        Some("DSH_DESKTOP_BACKEND is set to /x/dsh, but that is not an executable file")
    );
    m.backend_is_executable = true;
    assert_eq!(resolve(&m).unwrap().describe(), "/x/dsh");
    m.backend_setting = Some(s("   "));
    assert!(resolve(&m).is_err());
}

#[test]
fn script_entry_points_are_recognised_by_extension() {
    assert!(is_script_path("a/b.JS"));
    assert!(is_script_path("x.mjs/"));
    assert!(is_script_path("./lib/bin.cjs/."));
    assert!(!is_script_path(".js"));
    assert!(!is_script_path("dir/.."));
    assert!(!is_script_path("/usr/bin/dsh"));
    assert!(!is_script_path("bin.json"));
}

#[test]
fn an_unusable_named_interpreter_stops_resolution() {
    let mut m = machine();
    m.node_setting = true;
    m.interpreter = Err(s("DSH_DESKTOP_NODE points at /x, which is not a file"));
    m.installs = vec![install("/opt/homebrew", true, Some((24, 0)))];
    m.dsh_here = vec![false, true];
    assert_eq!(
        resolve(&m).err().as_deref(),
        Some("DSH_DESKTOP_NODE points at /x, which is not a file")
    );
}

#[test]
fn the_newest_install_pairs_with_its_own_node_when_it_can() {
    let mut m = machine();
    m.installs = vec![
        install("/h/.nvm/versions/node/v24.1.0", false, Some((24, 1))),
        install("/h/.nvm/versions/node/v20.10.0", true, Some((20, 10))),
        install("/opt/homebrew", true, Some((24, 0))),
    ];
    match resolve(&m).unwrap() {
        BackendCmd::Node { node, entry } => {
            assert_eq!(node, "/usr/local/bin/node");
            assert_eq!(entry, "/h/.nvm/versions/node/v20.10.0/lib/node_modules/@deepseek-ai/dsh/lib/bin.js");
        }
        _ => panic!("expected a node command"),
    }
    m.installs.remove(1);
    match resolve(&m).unwrap() {
        BackendCmd::Node { node, .. } => assert_eq!(node, "/opt/homebrew/bin/node"),
        _ => panic!("expected a node command"),
    }
}

#[test]
fn missing_pieces_are_explained() {
    let mut m = machine();
    m.interpreter = Err(s("no node here"));
    m.installs = vec![install("/a", true, Some((20, 1))), install("/b", true, None)];
    assert_eq!(
        resolve(&m).err().as_deref(),
        Some("found the harness at /b/lib/node_modules/@deepseek-ai/dsh/lib/bin.js but no interpreter that can run it: no node here")
    );
    m.installs = Vec::new();
    assert_eq!(
        resolve(&m).err().as_deref(),
        Some("no dsh installation found. Install it with `npm i -g @deepseek-ai/dsh`, or point DSH_DESKTOP_BACKEND at its lib/bin.js. no node here")
    );
    m.dsh_here = vec![false, true];
    assert_eq!(resolve(&m).unwrap().describe(), "/usr/bin/dsh");
}

// --- paths -----------------------------------------------------------------

#[test]
fn joining_follows_path_join() {
    assert_eq!(join_path("/home/u", ".dsh"), "/home/u/.dsh");
    assert_eq!(join_path("/home/u/", ".dsh"), "/home/u/.dsh");
    assert_eq!(join_path("", "x"), "x");
    assert_eq!(join_path("/home/u", "/etc"), "/etc");
}

#[test]
fn paths_compare_by_components() {
    assert!(paths_equal("/usr/bin/", "/usr//bin"));
    assert!(paths_equal("/usr/./bin", "/usr/bin"));
    assert!(!paths_equal("./a", "a"));
    assert!(!paths_equal("/a", "a"));
    assert!(!paths_equal("/a/b", "/a/c"));
}

#[test]
fn install_roots_and_search_dirs_are_listed_in_order() {
    let fnm = strings(&["/h/fnm/v24"]);
    let nvm = strings(&["/h/nvm/v22"]);
    assert_eq!(
        install_roots("/h", &fnm, &nvm),
        strings(&[
            "/h/fnm/v24/installation",
            "/h/nvm/v22",
            "/opt/homebrew",
            "/usr/local",
            "/h/.npm-global",
            "/h/.local",
            "/h/Library/pnpm/global",
        ])
    );
    assert_eq!(
        binary_dirs(&strings(&["/usr/bin", "", "/bin"]), "/h", &fnm, &nvm),
        strings(&[
            "/usr/bin",
            "/bin",
            "/opt/homebrew/bin",
            "/usr/local/bin",
            "/opt/local/bin",
            "/h/.volta/bin",
            "/h/.asdf/shims",
            "/h/.local/bin",
            "/h/Library/pnpm",
            "/h/fnm/v24/installation/bin",
            "/h/nvm/v22/bin",
        ])
    );
}

#[test]
fn the_first_executable_wins_on_the_search_path() {
    let dirs = strings(&["/a", "/b/", "/c"]);
    assert_eq!(find_on_dirs("dsh", &dirs, &vec![false, true, true]).as_deref(), Some("/b/dsh"));
    assert_eq!(find_on_dirs("dsh", &dirs, &vec![false, false, false]), None);
    assert_eq!(find_on_dirs("dsh", &dirs, &vec![false]), None);
}

#[test]
fn one_candidate_per_interpreter() {
    let dirs = strings(&["/shim", "/usr/bin", "/real/bin", "/other"]);
    let executable = vec![true, false, true, true];
    let identities = strings(&["/real/bin/node", "/usr/bin/node", "/real//bin/node", "/other/node"]);
    assert_eq!(
        node_candidates(&dirs, &executable, &identities),
        strings(&["/shim/node", "/other/node"])
    );
    // Only directories with both a flag and an identity are looked at.
    assert_eq!(
        node_candidates(&dirs, &executable[..3].to_vec(), &identities),
        strings(&["/shim/node"])
    );
}

#[test]
fn the_child_path_lists_each_directory_once() {
    assert_eq!(child_path(&strings(&["/a", "/b", "/a/", "/c"])), "/a:/b:/c");
    assert_eq!(child_path(&strings(&["/a", "/b:c"])), "");
    assert_eq!(child_path(&Vec::new()), "");
}

#[test]
fn the_child_path_puts_node_directories_first() {
    let search = strings(&["/usr/bin", "/bin", "/h/.volta/bin"]);
    let fnm = strings(&["/h/.local/share/fnm/node-versions/v24.1.0"]);
    let nvm: Vec<String> = Vec::new();
    let dirs = binary_dirs(&search, "/h", &fnm, &nvm);
    let mut has_node = vec![false; dirs.len()];
    has_node[0] = true;
    has_node[dirs.len() - 1] = true;
    assert_eq!(
        child_search_path(&search, "/h", &fnm, &nvm, &has_node),
        "/usr/bin:/h/.local/share/fnm/node-versions/v24.1.0/installation/bin:/bin:\
         /h/.volta/bin:/opt/homebrew/bin:/usr/local/bin:/opt/local/bin:/h/.asdf/shims:\
         /h/.local/bin:/h/Library/pnpm"
    );
    // Without a node anywhere, the order is that of the search for one.
    assert_eq!(
        child_search_path(&search, "/h", &fnm, &nvm, &Vec::new()),
        "/usr/bin:/bin:/h/.volta/bin:/opt/homebrew/bin:/usr/local/bin:/opt/local/bin:\
         /h/.asdf/shims:/h/.local/bin:/h/Library/pnpm:\
         /h/.local/share/fnm/node-versions/v24.1.0/installation/bin"
    );
}

#[test]
fn a_resolved_install_is_started_through_its_own_entry_point() {
    let mut m = machine();
    m.node_setting = false;
    m.installs = vec![install("/opt/homebrew", true, Some((24, 3)))];
    match resolve(&m).unwrap() {
        BackendCmd::Node { node, entry } => {
            assert_eq!(node, sibling_node("/opt/homebrew"));
            assert_eq!(entry, cli_entry("/opt/homebrew"));
            assert!(entry.contains("@deepseek-ai/dsh"));
        }
        _ => panic!("expected a node command"),
    }
    m.installs = Vec::new();
    m.dsh_here = vec![true];
    assert_eq!(resolve(&m).unwrap().describe(), "/bin/dsh");
}

// --- booting ---------------------------------------------------------------

#[test]
fn the_harness_is_started_on_the_shared_profile_and_port() {
    assert_eq!(
        harness_args("web", 3080),
        strings(&["web", "--profile", "web", "--no-open", "--port", "3080"])
    );
}

#[test]
fn the_stderr_tail_keeps_the_newest_lines() {
    let mut tail = LogTail::new();
    assert_eq!(tail.joined(), "");
    for i in 0..(LOG_TAIL + 5) {
        tail.push(format!("line {i}"));
    }
    let joined = tail.joined();
    let lines: Vec<&str> = joined.split('\n').collect();
    assert_eq!(lines.len(), LOG_TAIL);
    assert_eq!(lines[0], "line 5");
    assert_eq!(lines[LOG_TAIL - 1], format!("line {}", LOG_TAIL + 4));
}

#[test]
fn a_silent_boot_is_reported_with_its_last_output() {
    assert_eq!(silent_boot("dsh", 90, ""), "`dsh` did not announce a URL within 90s");
    assert_eq!(
        silent_boot("node x", 3, "a\nb"),
        "`node x` did not announce a URL within 3s. Last output:\na\nb"
    );
}

#[test]
fn attaching_prefers_a_minted_cookie() {
    let logs = vec![Some(s("http://127.0.0.1:5/?token=t1"))];
    let cookie = Some((s("n"), s("v")));
    assert_eq!(
        attach_target(5, cookie.clone(), &logs),
        (s("http://127.0.0.1:5/"), cookie)
    );
    assert_eq!(attach_target(5, None, &logs), (s("http://127.0.0.1:5/?token=t1"), None));
}

#[test]
fn failures_reach_the_boot_screen_as_a_json_string() {
    assert_eq!(
        failure_script("bad \"thing\"\n"),
        "window.__dshFailed && window.__dshFailed(\"bad \\\"thing\\\"\\n\")"
    );
}

// --- checking a minted cookie ----------------------------------------------


#[test]
fn the_status_line_decides_the_verdict() {
    assert_eq!(cookie_verdict(Some("HTTP/1.1 200 OK\r\n")), CookieVerdict::Accepted);
    assert_eq!(cookie_verdict(Some("HTTP/1.1 401 Unauthorized\r\n")), CookieVerdict::Rejected);
    assert_eq!(cookie_verdict(Some("HTTP/1.1 303 See Other")), CookieVerdict::Unknown);
    assert_eq!(cookie_verdict(Some("HTTP/1.1 +20 x")), CookieVerdict::Unknown);
    assert_eq!(cookie_verdict(Some("SSH-2.0-OpenSSH")), CookieVerdict::Unknown);
    assert_eq!(cookie_verdict(Some("")), CookieVerdict::Unknown);
    assert_eq!(cookie_verdict(None), CookieVerdict::Unknown);
}

#[test]
fn a_refused_cookie_is_retried_once_then_explained() {
    assert_eq!(next_cookie_step(true, CookieVerdict::Accepted), CookieStep::Open);
    assert_eq!(next_cookie_step(true, CookieVerdict::Unknown), CookieStep::Open);
    assert_eq!(next_cookie_step(true, CookieVerdict::Rejected), CookieStep::RetryShorter);
    assert_eq!(next_cookie_step(false, CookieVerdict::Rejected), CookieStep::Refuse);
    assert!(cookie_refused_report(3080).starts_with("the harness on 127.0.0.1:3080 refused"));
}

#[test]
fn the_check_asks_for_the_root_with_the_cookie() {
    assert_eq!(
        cookie_check_request(3080, "dsh-auth-x", "v1.a.b"),
        "GET / HTTP/1.1\r\nHost: 127.0.0.1:3080\r\nCookie: dsh-auth-x=v1.a.b\r\nConnection: close\r\n\r\n"
    );
}

#[test]
fn the_retry_cookie_carries_the_shorter_lifetime() {
    let engine = base64::engine::general_purpose::URL_SAFE_NO_PAD;
    let (_, value) =
        mint_cookie_for(3080, Some(&credentials()), Some(1000), SHORT_COOKIE_LIFETIME_MILLIS).unwrap();
    let body = value.split('.').nth(1).unwrap();
    let payload = String::from_utf8(engine.decode(body).unwrap()).unwrap();
    assert_eq!(
        payload,
        format!(
            "{{\"version\":1,\"authority\":\"127.0.0.1:3080\",\"issuedAt\":1000,\"expiresAt\":{}}}",
            1000 + 24 * 60 * 60 * 1000
        )
    );
}

#[test]
fn the_harness_home_defaults_under_home() {
    assert_eq!(home_dir(None), "/");
    assert_eq!(harness_home(None, Some("/Users/u")), "/Users/u/.dsh");
    assert_eq!(harness_home(None, None), "/.dsh");
    assert_eq!(harness_home(Some("/data/dsh"), Some("/Users/u")), "/data/dsh");
    assert!(executable_mode(true, 0o755));
    assert!(executable_mode(true, 0o100));
    assert!(!executable_mode(true, 0o644));
    assert!(!executable_mode(false, 0o755));
}

// --- the shared port and the watchdog --------------------------------------

#[test]
fn only_the_harness_unauthenticated_answer_counts_as_the_harness() {
    assert_eq!(port_occupant(None), PortOccupant::Free);
    assert_eq!(
        port_occupant(Some(
            "HTTP/1.1 401 Unauthorized\r\ncontent-type: text/plain\r\n\r\ndsh web authentication required\n"
        )),
        PortOccupant::Harness
    );
    assert_eq!(
        port_occupant(Some("HTTP/1.1 401 Unauthorized\r\n\r\nlogin first")),
        PortOccupant::Foreign
    );
    assert_eq!(
        port_occupant(Some("HTTP/1.1 200 OK\r\n\r\ndsh web authentication required")),
        PortOccupant::Foreign
    );
    assert_eq!(port_occupant(Some("")), PortOccupant::Foreign);
    assert_eq!(
        port_probe_request(3080),
        "GET / HTTP/1.1\r\nHost: 127.0.0.1:3080\r\nConnection: close\r\n\r\n"
    );
    assert!(foreign_port_report(3080).starts_with("127.0.0.1:3080 is held by a program that is not dsh web"));
}

#[test]
fn the_retry_asks_for_the_shorter_lifetime() {
    assert_eq!(cookie_lifetime(true), COOKIE_LIFETIME_MILLIS);
    assert_eq!(cookie_lifetime(false), SHORT_COOKIE_LIFETIME_MILLIS);
}

#[test]
fn the_watchdog_restarts_after_two_misses_and_gives_up_eventually() {
    let mut w = Watch::new();
    assert_eq!(w.step(false, true), WatchAction::Keep);
    assert_eq!(w.step(false, false), WatchAction::Keep);
    assert_eq!(w.step(false, false), WatchAction::Reboot);
    assert_eq!(w.retries_left, WATCH_RETRIES - 1);
    // A boot in progress is left alone, however long it takes.
    for _ in 0..5 {
        assert_eq!(w.step(true, false), WatchAction::Keep);
    }
    let mut restarts = 1;
    loop {
        match w.step(false, false) {
            WatchAction::Keep => {}
            WatchAction::Reboot => restarts += 1,
            WatchAction::GiveUp => break,
        }
    }
    assert_eq!(restarts, WATCH_RETRIES);
    assert!(w.given_up);
    assert_eq!(w.step(false, false), WatchAction::Keep);
    assert_eq!(w.step(false, true), WatchAction::Keep);
}

#[test]
fn a_served_probe_restores_the_restarts() {
    let mut w = Watch::new();
    w.step(false, false);
    w.step(false, false);
    assert_eq!(w.retries_left, WATCH_RETRIES - 1);
    assert_eq!(w.step(false, true), WatchAction::Keep);
    assert_eq!(w.retries_left, WATCH_RETRIES);
    assert_eq!(w.misses, 0);
}

#[test]
fn teardown_waits_a_bounded_while_before_killing() {
    assert_eq!(teardown_step(0, true), TeardownAction::Done);
    assert_eq!(teardown_step(TEARDOWN_POLLS + 5, true), TeardownAction::Done);
    assert_eq!(teardown_step(0, false), TeardownAction::Poll);
    assert_eq!(teardown_step(TEARDOWN_POLLS - 1, false), TeardownAction::Poll);
    assert_eq!(teardown_step(TEARDOWN_POLLS, false), TeardownAction::Kill);
    assert_eq!(TEARDOWN_POLLS, 30);
}
