use std::collections::HashSet;

use drey::daemon::backend::{Backend, BackendKey, Effect, SharedDoc};
use drey::daemon::key::{canonical_json, hash_settings, short_hex};
use drey::daemon::launch::{
    banned_dirs, handshake, init_request, initialized, is_banned, is_own_wrapper, plan_launch,
    sanitised_path, Handshake, LaunchError,
};
use drey::config::ServerConfig;
use drey::json::Json;
use drey::msg;
use drey::text::Text;

fn strings(list: &[&str]) -> Vec<String> {
    list.iter().map(|s| s.to_string()).collect()
}

fn json(text: &str) -> Json {
    Json::parse_text(text).unwrap()
}

fn key(roots: &[&str]) -> BackendKey {
    BackendKey::new("rust-analyzer", strings(roots), None)
}

#[test]
fn a_backend_covers_a_subset_of_its_roots() {
    assert!(key(&["/w"]).covers(&key(&["/w"])));
    assert!(key(&["/w"]).covers(&key(&["/w/crates/a"])));
    assert!(key(&["/w", "/x"]).covers(&key(&["/x"])));
}

#[test]
fn a_backend_does_not_cover_roots_it_never_indexed() {
    assert!(!key(&["/w/crates/a"]).covers(&key(&["/w"])));
    assert!(!key(&["/w"]).covers(&key(&["/w", "/other"])));
    // Sibling worktrees must never be merged, despite the shared prefix.
    assert!(!key(&["/w-main"]).covers(&key(&["/w-main-2"])));
}

#[test]
fn different_servers_or_settings_never_share() {
    let a = BackendKey::new("gopls", vec!["/w".into()], None);
    assert!(!key(&["/w"]).covers(&a));

    let opts = json("{ \"cargo\": { \"features\": \"all\" } }");
    let with = BackendKey::new("rust-analyzer", vec!["/w".into()], Some(&opts));
    assert!(!key(&["/w"]).covers(&with));
}

#[test]
fn settings_hash_ignores_key_order() {
    let a = json("{ \"x\": 1, \"y\": { \"a\": true, \"b\": false } }");
    let b = Json::Object(vec![
        (
            "y".to_string(),
            Json::Object(vec![
                ("b".to_string(), Json::Bool(false)),
                ("a".to_string(), Json::Bool(true)),
            ]),
        ),
        ("x".to_string(), Json::signed(1)),
    ]);
    assert_eq!(
        BackendKey::new("rs", vec![], Some(&a)).init_hash,
        BackendKey::new("rs", vec![], Some(&b)).init_hash
    );
}

#[test]
fn extra_args_split_backends_because_flags_change_behaviour() {
    let plain = BackendKey::with_args("rs", vec!["/w".into()], None, vec![]);
    let flagged = BackendKey::with_args("rs", vec!["/w".into()], None, vec!["--check".into()]);
    assert!(!plain.covers(&flagged));
    assert!(!flagged.covers(&plain));
    assert!(flagged.covers(&flagged.clone()));
}

#[test]
fn argument_order_is_significant() {
    let a = BackendKey::with_args("rs", vec![], None, vec!["-a".into(), "-b".into()]);
    let b = BackendKey::with_args("rs", vec![], None, vec!["-b".into(), "-a".into()]);
    assert!(!a.covers(&b));
}

#[test]
fn a_rootless_key_is_covered_by_anything_of_the_same_shape() {
    // No roots means no containment requirement, so such a client can join any backend for
    // the same server and settings.
    assert!(key(&["/w"]).covers(&key(&[])));
    assert!(!key(&[]).covers(&key(&["/w"])));
}

#[test]
fn containment_is_by_path_component_not_string_prefix() {
    assert!(!key(&["/w/a"]).covers(&key(&["/w/ab"])));
    assert!(key(&["/w/a"]).covers(&key(&["/w/a/b"])));
    assert!(key(&["/w/a"]).covers(&key(&["/w/a/"])));
}

#[test]
fn covering_is_reflexive_and_transitive_along_a_path() {
    let (outer, mid, inner) = (key(&["/w"]), key(&["/w/a"]), key(&["/w/a/b"]));
    assert!(outer.covers(&outer));
    assert!(outer.covers(&mid) && mid.covers(&inner));
    assert!(outer.covers(&inner));
}

#[test]
fn absent_and_null_settings_hash_the_same() {
    let a = BackendKey::new("rs", vec![], None);
    let b = BackendKey::new("rs", vec![], Some(&Json::Null));
    assert_eq!(a.init_hash, "default");
    assert_eq!(a, b);
}

#[test]
fn different_settings_hash_differently() {
    let a = json("{ \"cargo\": { \"features\": \"all\" } }");
    let b = json("{ \"cargo\": { \"features\": \"none\" } }");
    assert_ne!(
        BackendKey::new("rs", vec![], Some(&a)).init_hash,
        BackendKey::new("rs", vec![], Some(&b)).init_hash
    );
}

#[test]
fn canonical_json_is_order_independent_for_objects_only() {
    let a = json("{ \"x\": 1, \"y\": 2 }");
    let b = Json::object().with("y", Json::signed(2)).with("x", Json::signed(1));
    assert_eq!(canonical_json(&a), canonical_json(&b));
    // Array order is meaningful, so it must survive.
    assert_ne!(canonical_json(&json("[1, 2]")), canonical_json(&json("[2, 1]")));
}

#[test]
fn canonical_json_distinguishes_a_number_from_its_text() {
    assert_ne!(
        canonical_json(&json("{ \"k\": 1 }")),
        canonical_json(&json("{ \"k\": \"1\" }"))
    );
    assert_ne!(canonical_json(&json("null")), canonical_json(&json("\"null\"")));
}

#[test]
fn canonical_json_is_compact() {
    assert_eq!(
        canonical_json(&json("{ \"b\": [1, { }, []], \"a\\n\": \"x\\ty\" }")),
        "{\"a\\n\":\"x\\ty\",\"b\":[1,{},[]]}"
    );
}

#[test]
fn the_settings_hash_is_a_short_hex_digest() {
    let h = BackendKey::new("rs", vec![], Some(&json("{ \"a\": 1 }"))).init_hash;
    assert_eq!(h.len(), 16);
    assert!(h.chars().all(|c| c.is_ascii_hexdigit()));
}

#[test]
fn the_digest_is_sha_256() {
    // SHA-256 of `[]`.
    assert_eq!(hash_settings(Some(&json("[]"))), "4f53cda18c2baa0c");
    assert_eq!(short_hex(&vec![0, 1, 15, 16, 127, 128, 254, 255, 9]), "00010f107f80feff");
}

#[test]
fn the_label_names_the_server_and_its_roots() {
    assert_eq!(key(&["/b", "/a"]).label(), "rust-analyzer [/a, /b]");
}

#[test]
fn a_document_is_clean_only_while_base_and_overlay_agree() {
    let mut doc = SharedDoc {
        base: Text::new("a".into()),
        loaded: Text::new("a".into()),
        version: 1,
        refs: HashSet::new(),
    };
    assert!(doc.is_clean());
    doc.loaded = Text::new("a-edited".into());
    assert!(!doc.is_clean());
    doc.base = doc.loaded.clone();
    assert!(doc.is_clean());
}

#[test]
fn roots_are_normalised_so_ordering_does_not_split_backends() {
    let a = BackendKey::new("rs", vec!["/b".into(), "/a".into(), "/a".into()], None);
    let b = BackendKey::new("rs", vec!["/a".into(), "/b".into()], None);
    assert_eq!(a, b);
}

// ---- starting -----------------------------------------------------------

#[test]
fn our_own_wrapper_directory_is_stripped_from_the_child_path() {
    // Version-manager proxies re-resolve the server name from PATH. If our wrapper directory
    // survived, the daemon would spawn itself forever.
    let banned = banned_dirs(Some("/opt/drey/drey"), Some("/home/u"));
    assert_eq!(banned, ["/opt/drey", "/home/u/.drey/bin"]);
    assert_eq!(
        sanitised_path("/home/u/.drey/bin:/usr/bin:/bin", &banned),
        "/usr/bin:/bin",
        "only our own entry may be removed"
    );
    assert_eq!(sanitised_path("/opt/drey/:/usr/bin", &banned), "/usr/bin");
    assert_eq!(sanitised_path("/home/u/.drey/bin", &banned), "");
}

#[test]
fn spawning_a_wrapper_is_refused() {
    let banned = banned_dirs(None, Some("/home/u"));
    assert!(is_own_wrapper("/home/u/.drey/bin/rust-analyzer", &banned));
    assert!(!is_own_wrapper("/usr/local/bin/rust-analyzer", &banned));
    assert!(!is_own_wrapper("rust-analyzer", &banned));
}

#[test]
fn a_bare_command_name_is_not_treated_as_a_wrapper() {
    // Bare names are handled by sanitising PATH instead.
    let banned = banned_dirs(Some("/usr/bin/drey"), Some("/home/u"));
    assert!(!is_own_wrapper("gopls", &banned));
    assert!(!is_own_wrapper("", &banned));
}

#[test]
fn sanitising_path_leaves_unrelated_entries_alone() {
    let banned = banned_dirs(Some("/opt/drey/drey"), Some("/home/u"));
    assert_eq!(sanitised_path("/usr/bin:/opt/x/bin", &banned), "/usr/bin:/opt/x/bin");
    assert_eq!(sanitised_path("", &banned), "");
    assert!(is_banned("/home/u//.drey/bin/", &banned) && !is_banned("/home/u/.drey", &banned));
}

fn server() -> ServerConfig {
    ServerConfig {
        command: "/usr/bin/rs".to_string(),
        args: strings(&["--stdio"]),
        env: vec![("A".to_string(), "1".to_string())],
        root_markers: Vec::new(),
    }
}

#[test]
fn a_server_is_started_in_its_first_root_with_all_arguments() {
    let key = BackendKey::with_args("rs", strings(&["/w", "/a"]), None, strings(&["-x"]));
    let launch = plan_launch(&server(), &key, "/bin:/own", &strings(&["/own"])).unwrap();
    assert_eq!(launch.command, "/usr/bin/rs");
    assert_eq!(launch.args, ["--stdio", "-x"]);
    assert_eq!(launch.dir.as_deref(), Some("/a"));
    assert_eq!(
        launch.env,
        [
            ("PATH".to_string(), "/bin".to_string()),
            ("A".to_string(), "1".to_string())
        ]
    );
}

#[test]
fn a_configured_search_path_wins() {
    let mut cfg = server();
    cfg.env = vec![("PATH".to_string(), "/mine".to_string())];
    let launch = plan_launch(&cfg, &key(&[]), "/bin", &Vec::new()).unwrap();
    assert_eq!(launch.env, [("PATH".to_string(), "/mine".to_string())]);
    assert!(launch.dir.is_none());
}

#[test]
fn a_wrapper_is_never_started() {
    let err = plan_launch(&server(), &key(&[]), "/bin", &strings(&["/usr/bin"])).unwrap_err();
    assert!(matches!(err, LaunchError::OwnWrapper { .. }));
    assert_eq!(
        err.message(),
        "`/usr/bin/rs` points at a drey wrapper, which would recurse; set `command` to the \
         real server binary"
    );
}

#[test]
fn the_handshake_waits_for_its_own_answer() {
    let init = init_request(json("{ \"p\": 1 }"));
    assert_eq!(
        init.text(),
        "{\"id\":\"drey/initialize\",\"jsonrpc\":\"2.0\",\"method\":\"initialize\",\"params\":{\"p\":1}}"
    );
    let log = json("{ \"method\": \"window/logMessage\" }");
    assert!(matches!(handshake("rs", Some(&log)), Handshake::Waiting));
    let other = json("{ \"id\": 1, \"result\": 2 }");
    assert!(matches!(handshake("rs", Some(&other)), Handshake::Waiting));
    let done = json("{ \"id\": \"drey/initialize\", \"result\": { \"c\": 1 } }");
    match handshake("rs", Some(&done)) {
        Handshake::Done(result) => assert_eq!(result.text(), "{\"c\":1}"),
        _ => panic!("the answer was not recognised"),
    }
    let bare = json("{ \"id\": \"drey/initialize\" }");
    assert!(matches!(handshake("rs", Some(&bare)), Handshake::Done(Json::Null)));
    assert_eq!(
        initialized().text(),
        "{\"jsonrpc\":\"2.0\",\"method\":\"initialized\",\"params\":{}}"
    );
}

#[test]
fn a_failed_handshake_says_why() {
    let refused = json("{ \"id\": \"drey/initialize\", \"error\": { \"code\": 1 } }");
    match handshake("rs", Some(&refused)) {
        Handshake::Failed(e) => assert_eq!(e.message(), "`rs` failed to initialize: {\"code\":1}"),
        _ => panic!("the error was not recognised"),
    }
    match handshake("rs", None) {
        Handshake::Failed(e) => assert_eq!(e.message(), "`rs` exited during initialize"),
        _ => panic!("the end was not recognised"),
    }
}

// ---- routing ------------------------------------------------------------

fn backend(clients: &[u64]) -> Backend {
    let mut b = Backend::new(1, key(&["/w"]), None, Json::Null, 42, 0);
    b.state.clients = clients.to_vec();
    b
}

fn shown(list: &[Effect]) -> Vec<String> {
    list.iter()
        .map(|e| match e {
            Effect::ToServer(v) => format!("server {}", v.text()),
            Effect::ToClient(c, v) => format!("{c} {}", v.text()),
        })
        .collect()
}

#[test]
fn an_answer_goes_to_the_client_that_asked_under_its_own_id() {
    let mut b = backend(&[3, 7]);
    let answer = msg::response(msg::encode_id(7, &json("\"q\"")), json("5"));
    assert_eq!(
        shown(&b.route_from_server(answer)),
        ["7 {\"id\":\"q\",\"jsonrpc\":\"2.0\",\"result\":5}"]
    );
    let gone = msg::response(msg::encode_id(8, &json("1")), json("5"));
    assert!(b.route_from_server(gone).is_empty());
    let foreign = msg::response(json("1"), json("5"));
    assert!(b.route_from_server(foreign).is_empty());
}

#[test]
fn answers_to_our_own_requests_go_nowhere() {
    let mut b = backend(&[3]);
    let id = b.internal_id();
    assert_eq!(id.as_str(), Some("drey/0"));
    assert!(b.route_from_server(msg::response(id, Json::Null)).is_empty());
    assert_eq!(b.internal_id().as_str(), Some("drey/1"));
}

#[test]
fn the_lowest_client_answers_for_all() {
    let mut b = backend(&[9, 3, 7]);
    let asked = msg::request(json("1"), "workspace/configuration", Json::Null);
    let sent = b.route_from_server(asked);
    assert_eq!(sent.len(), 1);
    assert!(matches!(sent[0], Effect::ToClient(3, _)));
}

#[test]
fn requests_are_held_until_someone_attaches_and_no_more_than_allowed() {
    let mut b = backend(&[]);
    for i in 0..64 {
        let asked = msg::request(Json::unsigned(i), "m", Json::Null);
        assert!(b.route_from_server(asked).is_empty());
    }
    assert_eq!(b.state.pending_requests.len(), 64);
    let refused = b.route_from_server(msg::request(json("64"), "m", Json::Null));
    assert_eq!(
        shown(&refused),
        ["server {\"error\":{\"code\":-32603,\"message\":\"drey: no client attached to answer\"},\
          \"id\":64,\"jsonrpc\":\"2.0\"}"]
    );
    assert_eq!(b.state.pending_requests.len(), 64);
}

#[test]
fn notifications_reach_everyone() {
    let mut b = backend(&[2, 1]);
    let sent = b.route_from_server(msg::notification("window/logMessage", Json::Null));
    let to: Vec<u64> = sent
        .iter()
        .map(|e| match e {
            Effect::ToClient(c, _) => *c,
            Effect::ToServer(_) => 0,
        })
        .collect();
    assert_eq!(to, [2, 1]);
    // So do diagnostics for a file nobody opened.
    let volunteered = json(
        "{ \"method\": \"textDocument/publishDiagnostics\", \"params\": { \"uri\": \"x\" } }",
    );
    assert_eq!(b.route_from_server(volunteered).len(), 2);
}

#[test]
fn a_dead_server_is_announced_to_everyone() {
    let mut b = backend(&[2, 1]);
    let told = shown(&b.mark_dead());
    assert_eq!(
        told[0],
        "2 {\"jsonrpc\":\"2.0\",\"method\":\"window/logMessage\",\"params\":\
         {\"message\":\"drey: language server exited\",\"type\":1}}"
    );
    assert_eq!(told.len(), 2);
    assert!(b.is_dead());
    assert_eq!(b.client_count(), 0);
}
