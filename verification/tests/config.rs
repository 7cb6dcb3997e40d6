use drey::config::{
    ancestors, config_path, is_boundary, log_path, marker_paths, runtime_dir, socket_path,
    widen_along, widen_root_bounded, widen_roots, Config, DaemonConfig, ServerConfig, DEFAULT_IDLE_SECS,
};

fn strings(list: &[&str]) -> Vec<String> {
    list.iter().map(|s| s.to_string()).collect()
}

fn server(command: &str, args: &[&str], markers: &[&str]) -> ServerConfig {
    ServerConfig {
        command: command.to_string(),
        args: strings(args),
        env: Vec::new(),
        root_markers: strings(markers),
    }
}

fn load(entries: Vec<(&str, ServerConfig)>) -> Config {
    Config::load(Some(Config {
        server: entries.into_iter().map(|(n, s)| (n.to_string(), s)).collect(),
        daemon: DaemonConfig::default(),
    }))
}

#[test]
fn builtin_servers_are_available_without_a_config_file() {
    let cfg = Config::default();
    assert_eq!(cfg.server("rust-analyzer").unwrap().command, "rust-analyzer");
    assert!(cfg.server("nonesuch").is_err());
}

#[test]
fn unknown_server_error_lists_the_known_ones() {
    let err = Config::default().server("nope").unwrap_err().message("/c.toml");
    assert!(err.contains("rust-analyzer"), "{err}");
    assert_eq!(
        err,
        "no server named `nope`; known servers: clangd, elixir, gopls, jdtls, lua, pyright, \
         ruff, rust-analyzer, typescript, zls. Define it in /c.toml"
    );
}

#[test]
fn every_builtin_has_markers_so_sibling_projects_can_share() {
    let cfg = Config::default();
    for (name, s) in &cfg.server {
        assert!(!s.command.is_empty(), "{name} has no command");
        assert!(!s.root_markers.is_empty(), "{name} has no root markers");
    }
}

#[test]
fn the_builtins_are_what_they_are() {
    let cfg = Config::default();
    let ts = cfg.server("typescript").unwrap();
    assert_eq!(ts.command, "typescript-language-server");
    assert_eq!(ts.args, ["--stdio"]);
    assert_eq!(ts.root_markers, ["pnpm-workspace.yaml", "package.json", "tsconfig.json"]);
    assert!(ts.env.is_empty());
    let ruff = cfg.server("ruff").unwrap();
    assert_eq!(ruff.args, ["server"]);
    assert_eq!(cfg.server.len(), 10);
}

#[test]
fn a_user_entry_overrides_the_builtin_of_the_same_name() {
    let cfg = load(vec![("rust-analyzer", server("/opt/ra", &["--log"], &["Cargo.toml"]))]);
    let ra = cfg.server("rust-analyzer").unwrap();
    assert_eq!(ra.command, "/opt/ra");
    assert_eq!(ra.args, ["--log"]);
    assert_eq!(cfg.server.len(), 10);
}

#[test]
fn builtins_not_mentioned_by_the_user_survive_the_merge() {
    let cfg = load(vec![("mine", server("mine", &[], &[]))]);
    assert_eq!(cfg.server("mine").unwrap().command, "mine");
    assert_eq!(cfg.server("gopls").unwrap().command, "gopls");
    assert_eq!(cfg.server.len(), 11);
}

#[test]
fn env_entries_are_read_verbatim() {
    let mut e = server("e", &[], &[]);
    e.env.push(("RUST_LOG".to_string(), "debug".to_string()));
    let cfg = load(vec![("e", e)]);
    let e = cfg.server("e").unwrap().duplicate();
    assert_eq!(e.env, [("RUST_LOG".to_string(), "debug".to_string())]);
}

#[test]
fn daemon_settings_default_when_the_section_is_absent() {
    let cfg = load(vec![("x", server("x", &[], &[]))]);
    assert_eq!(cfg.daemon.idle_timeout_secs, 30 * 60);
    assert_eq!(cfg.daemon.max_backends, 0);
    assert_eq!(DEFAULT_IDLE_SECS, 30 * 60);
}

#[test]
fn daemon_settings_are_read_from_the_file() {
    let cfg = Config::load(Some(Config {
        server: Vec::new(),
        daemon: DaemonConfig { idle_timeout_secs: 5, max_backends: 3 },
    }));
    assert_eq!(cfg.daemon.idle_timeout_secs, 5);
    assert_eq!(cfg.daemon.max_backends, 3);
}

#[test]
fn a_missing_config_file_is_not_an_error() {
    let cfg = Config::load(None);
    assert_eq!(cfg.server("zls").unwrap().command, "zls");
}

#[test]
fn config_path_prefers_the_environment_override() {
    assert_eq!(config_path(Some("/tmp/drey-test.toml"), Some("/c")), "/tmp/drey-test.toml");
    assert_eq!(config_path(None, Some("/c")), "/c/drey/config.toml");
    assert_eq!(config_path(None, None), "./drey/config.toml");
}

#[test]
fn runtime_paths_share_one_directory() {
    let dir = runtime_dir(Some("/tmp/drey-test-run"), Some("/x"), None, None, "/tmp");
    assert_eq!(dir, "/tmp/drey-test-run");
    assert_eq!(socket_path(&dir), "/tmp/drey-test-run/daemon.sock");
    assert_eq!(log_path(&dir), "/tmp/drey-test-run/daemon.log");
}

#[test]
fn xdg_runtime_dir_gets_its_own_subdirectory() {
    assert_eq!(runtime_dir(None, Some("/tmp/drey-xdg"), None, None, "/t"), "/tmp/drey-xdg/drey");
    assert_eq!(runtime_dir(None, None, Some("/s"), Some("/c"), "/t"), "/s/drey");
    assert_eq!(runtime_dir(None, None, None, Some("/c"), "/t"), "/c/drey");
    assert_eq!(runtime_dir(None, None, None, None, "/t"), "/t/drey");
}

// ---- widening -----------------------------------------------------------

fn widen(start: &str, markers: &[&str], home: Option<&str>, existing: &[&str]) -> String {
    widen_root_bounded(start, &strings(markers), home, &strings(existing))
}

#[test]
fn widen_root_climbs_to_the_outermost_marker() {
    let existing = ["/t/ws/Cargo.toml", "/t/ws/crates/inner/Cargo.toml"];
    assert_eq!(widen("/t/ws/crates/inner", &["Cargo.toml"], None, &existing), "/t/ws");
}

#[test]
fn widen_root_is_a_no_op_without_markers_above() {
    assert_eq!(
        widen("/t/solo", &["Cargo.toml"], None, &["/t/solo/Cargo.toml"]),
        "/t/solo"
    );
}

#[test]
fn widen_root_stops_at_the_first_gap_in_the_marker_chain() {
    let existing = ["/t/top/Cargo.toml", "/t/top/unrelated/inner/Cargo.toml"];
    // Widening keeps climbing, so the outermost marker wins.
    assert_eq!(
        widen("/t/top/unrelated/inner", &["Cargo.toml"], None, &existing),
        "/t/top"
    );
}

#[test]
fn widen_root_with_no_markers_configured_is_the_identity() {
    let tmp = tempfile::tempdir().unwrap();
    let path = tmp.path().to_str().unwrap();
    assert_eq!(widen(path, &[], None, &[]), path);
}

#[test]
fn widen_root_accepts_any_of_several_markers() {
    assert_eq!(widen("/t/a/b", &["go.work", "go.mod"], None, &["/t/a/go.work"]), "/t/a");
    assert_eq!(widen("/t/a/b", &["go.work", "go.mod"], None, &["/t/a/go.mod"]), "/t/a");
}

#[test]
fn widen_root_stops_before_the_home_directory() {
    // A stray Cargo.toml in $HOME must not pull every project under it into one backend
    // indexing the whole home directory.
    let existing = ["/t/home/Cargo.toml", "/t/home/code/thing/Cargo.toml"];
    assert_eq!(
        widen("/t/home/code/thing", &["Cargo.toml"], Some("/t/home"), &existing),
        "/t/home/code/thing"
    );
    assert_eq!(
        widen("/t/home/code/thing", &["Cargo.toml"], None, &existing),
        "/t/home"
    );
}

#[test]
fn opening_the_home_directory_itself_does_not_climb_above_it() {
    // The guard has to cover both sides. Testing only the parent would let a client that
    // opened $HOME walk up into /Users or /.
    assert_eq!(
        widen("/t/above/home", &["Cargo.toml"], Some("/t/above/home"), &["/t/above/Cargo.toml"]),
        "/t/above/home"
    );
    assert_eq!(
        widen("/t/above/home/", &["Cargo.toml"], Some("/t/above/home"), &["/t/above/Cargo.toml"]),
        "/t/above/home/"
    );
}

#[test]
fn widening_from_the_filesystem_root_is_the_identity() {
    assert_eq!(widen("/", &["Cargo.toml"], None, &["/Cargo.toml"]), "/");
}

#[test]
fn widening_never_adopts_the_filesystem_root() {
    // A marker at `/` must not pull every project on the machine into one backend. Home
    // usually stops the walk first, but a workspace outside home (a mounted volume, /srv, a CI
    // checkout) has no such guard.
    assert_eq!(widen("/usr", &["definitely-not-here"], Some("/elsewhere/home"), &[]), "/usr");
    assert_eq!(widen("/usr", &["marker"], Some("/elsewhere/home"), &["/marker"]), "/usr");
}

#[test]
fn the_walk_visits_every_directory_in_between() {
    assert_eq!(ancestors("/a/b/c/d", None), ["/a/b/c", "/a/b", "/a"]);
    assert_eq!(ancestors("/a/b/c/d", Some("/a/b")), ["/a/b/c"]);
    assert_eq!(ancestors("a/b", None), ["a"]);
    assert_eq!(ancestors("/a//b/./c/", None), ["/a//b", "/a"]);
    assert!(ancestors("//a", None).is_empty() && ancestors("./a", None) == ["."]);
    assert!(ancestors("/", None).is_empty());
    assert!(ancestors("", None).is_empty());
    assert_eq!(marker_paths("/a", &strings(&["x", "y"])), ["/a/x", "/a/y"]);
    assert_eq!(
        widen_along("/s", &strings(&["/1", "/2"]), &strings(&["m"]), &strings(&["/1/m"])),
        "/1"
    );
    assert!(is_boundary("/h/x", "/h", Some("/h/")) && is_boundary("x", "", None));
    assert!(!is_boundary("/h/x", "/h", None));
}

#[test]
fn siblings_of_one_workspace_agree_on_its_root() {
    let existing = ["/t/ws/Cargo.toml"];
    let a = widen("/t/ws/crates/a", &["Cargo.toml"], None, &existing);
    let b = widen("/t/ws/crates/b", &["Cargo.toml"], None, &existing);
    assert_eq!((a.as_str(), b.as_str()), ("/t/ws", "/t/ws"));
}

#[test]
fn every_root_that_was_asked_for_is_widened_by_itself() {
    let asked = strings(&["/h/ws/crates/a", "/h/ws/crates/b", "/elsewhere/x"]);
    let existing = strings(&["/h/ws/Cargo.toml", "/h/ws/crates/a/Cargo.toml"]);
    assert_eq!(
        widen_roots(&asked, &strings(&["Cargo.toml"]), Some("/h"), &existing),
        ["/h/ws", "/h/ws", "/elsewhere/x"]
    );
    assert!(widen_roots(&Vec::new(), &Vec::new(), None, &Vec::new()).is_empty());
}
