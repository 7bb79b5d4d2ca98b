use dsh_desktop::announce::parse_announced;
use dsh_desktop::config::DEFAULT_PROFILE;
use dsh_desktop::resolve::{resolve, resolve_node, Install, Machine, NodeProbe};
use dsh_desktop::session::mint_session_cookie;
use dsh_desktop::versions::{node_is_supported, version_key};

#[test]
fn reads_the_loopback_url_from_a_lan_announcement() {
    let line = "dsh web: http://127.0.0.1:64875/?token=abc-123 \
                (LAN: http://10.0.0.5:64875/?token=abc-123)";
    assert_eq!(
        parse_announced(line).as_deref(),
        Some("http://127.0.0.1:64875/?token=abc-123")
    );
}

#[test]
fn reads_the_url_when_no_lan_address_is_announced() {
    assert_eq!(
        parse_announced("dsh web: http://127.0.0.1:1234/?token=t").as_deref(),
        Some("http://127.0.0.1:1234/?token=t")
    );
}

#[test]
fn ignores_lines_that_carry_no_url() {
    assert_eq!(parse_announced("dsh web: opening the default browser"), None);
    assert_eq!(parse_announced("dsh web: not-a-url"), None);
    assert_eq!(parse_announced("plugin loaded"), None);
    assert_eq!(parse_announced(""), None);
}

#[test]
fn tolerates_leading_log_noise() {
    assert_eq!(
        parse_announced("[info] dsh web: http://127.0.0.1:1/?token=x").as_deref(),
        Some("http://127.0.0.1:1/?token=x")
    );
}

#[test]
fn orders_version_directories_newest_first() {
    assert!(version_key("v24.11.1") > version_key("v22.15.0"));
    assert!(version_key("v9.0.0") < version_key("v24.0.0"));
    assert!(version_key("v24.11.1") > version_key("v24.9.9"));
}

/// A machine with a global install under one Node root whose own `node` can
/// run the harness.
fn machine_with_an_install() -> Machine {
    Machine {
        backend_setting: None,
        backend_is_file: false,
        backend_is_executable: false,
        node_setting: false,
        interpreter: Ok("/usr/local/bin/node".to_string()),
        installs: vec![Install {
            root: "/opt/homebrew".to_string(),
            entry_is_file: true,
            sibling_executable: true,
            sibling_version: Some((24, 11)),
        }],
        search_dirs: vec!["/usr/bin".to_string(), "/opt/homebrew/bin".to_string()],
        dsh_here: vec![false, true],
    }
}

#[test]
fn finds_the_harness_this_shell_is_meant_to_reuse() {
    // The shell's premise is reusing a local installation rather than
    // shipping one: a machine that has one resolves to it.
    let backend = resolve(&machine_with_an_install()).expect("the install should resolve");
    let described = backend.describe();
    println!("resolved backend: {described}");
    assert!(described.contains("dsh"), "unexpected backend: {described}");
}

/// Credentials text as the harness writes it, with a 32-byte secret.
const CREDENTIALS: &str = "\
client-connection/browser-session:
  kind: secret
  secret: \"AAECAwQFBgcICQoLDA0ODxAREhMUFRYXGBkaGxwdHh8\"
other/record:
  secret: not-this-one
";

#[test]
fn mints_a_well_formed_session_cookie() {
    let port: u16 = 3099;
    let (name, value) = mint_session_cookie(port, Some(CREDENTIALS), Some(1_725_029_869_000))
        .expect("a cookie should be minted from the secret");
    println!("COOKIE {name}={value}");
    assert!(name.starts_with("dsh-auth-"));
    assert!(value.starts_with("v1."));
    assert_eq!(value.split('.').count(), 3);
}

#[test]
fn never_claims_the_electron_owned_profile() {
    assert_ne!(DEFAULT_PROFILE, "desktop");
}

#[test]
fn refuses_the_node_releases_the_harness_cannot_run_on() {
    assert!(!node_is_supported(20, 10));
    assert!(!node_is_supported(20, 12));
    assert!(!node_is_supported(21, 7));
    assert!(!node_is_supported(22, 14));
    assert!(node_is_supported(22, 15));
    assert!(node_is_supported(22, 99));
    assert!(!node_is_supported(23, 0));
    assert!(!node_is_supported(23, 7));
    assert!(node_is_supported(23, 8));
    assert!(node_is_supported(24, 0));
    assert!(node_is_supported(25, 1));
}

#[test]
fn picks_an_interpreter_the_harness_can_run_on() {
    // An old node earlier on the search path must not shadow a suitable one
    // further down.
    let candidates = vec![
        NodeProbe { path: "/usr/bin/node".to_string(), version: Some((20, 10)) },
        NodeProbe { path: "/opt/homebrew/bin/node".to_string(), version: Some((24, 11)) },
    ];
    let node = resolve_node(&None, &candidates).expect("a usable node should be discoverable here");
    let probe = candidates.iter().find(|c| c.path == node).and_then(|c| c.version);
    let (major, minor) = probe.expect("the chosen interpreter should report a version");
    println!("chosen interpreter: {} v{major}.{minor}", node);
    assert!(
        node_is_supported(major, minor),
        "chose {} v{major}.{minor}, which the harness cannot run on",
        node
    );
}
