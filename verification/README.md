# dsh_desktop

The logic of a thin desktop shell around a local `dsh web` harness, with its
behaviour stated in Verus contracts and proved.

The shell finds the user's own `dsh` and a Node release that can run it,
attaches to a `dsh web` already serving the shared loopback port (minting the
browser-session cookie the harness would have issued) or boots one there when
the port is free, refuses a port held by anything else, and hands the
authenticated URL to a webview. A watchdog takes the address over when the
server the window shows stops.

## Layout

- `src/text.rs`: the character-level model of strings (`trim`, `find`,
  `rfind`, `split('.')`, `lines`, integer parsing and printing) and the span
  helpers every parser uses.
- `src/announce.rs`: the URL a booting harness announces.
- `src/versions.rs`: version-directory keys and their newest-first order, what
  `node --version` printed, and the Node releases the harness runs on.
- `src/config.rs`: the profile and port settings and their defaults.
- `src/paths.rs`: Unix path joining and equality, installation roots, search
  directories, `node` candidates and the child's `PATH`.
- `src/resolve.rs`: choosing the interpreter and the harness command.
- `src/session.rs`: launch tokens in logs, the signing secret in the
  credentials file, and the minted session cookie.
- `src/crypto.rs`: the calls into `base64`, `sha2`, `hmac` and `serde_json`.
- `src/boot.rs`: the harness command line, the stderr tail, boot failure
  reports, checking a minted cookie before the window gets it, telling who
  holds the shared port, and the watchdog's decisions.
- `app/`: the program around the library: environment, files, processes,
  signals and the Tauri windows.
- `tests/`: tests of the library on concrete values.
