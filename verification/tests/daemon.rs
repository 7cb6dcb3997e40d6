use drey::config::widen_root_bounded;
use drey::daemon::key::BackendKey;
use drey::daemon::uri::unescape;
use drey::daemon::{
    client_key, expect_hello, expect_initialize, resolve_roots, uri_to_path, welcome, Control,
    Hello, HELLO_METHOD,
};
use drey::json::Json;
use drey::msg;

fn json(text: &str) -> Json {
    Json::parse_text(text).unwrap()
}

fn folders(paths: &[&str]) -> Json {
    Json::Array(
        paths
            .iter()
            .map(|p| Json::object().with("uri", Json::string(&format!("file://{p}"))))
            .collect(),
    )
}

#[test]
fn uris_decode_to_paths() {
    assert_eq!(uri_to_path("file:///a/b"), "/a/b");
    assert_eq!(uri_to_path("file:///a/my%20crate"), "/a/my crate");
    assert_eq!(uri_to_path("file://localhost/a/b"), "/a/b");
    assert_eq!(uri_to_path("untitled:1"), "untitled:1");
}

#[test]
fn percent_decoding_handles_the_awkward_cases() {
    assert_eq!(uri_to_path("file:///a/%2Fb"), "/a//b");
    assert_eq!(uri_to_path("file:///a/%c3%a9"), "/a/é");
    assert_eq!(uri_to_path("file:///a/%C3%A9"), "/a/é");
    // Not an escape: leave it alone rather than mangling the path.
    assert_eq!(uri_to_path("file:///a/100%"), "/a/100%");
    assert_eq!(uri_to_path("file:///a/%zz"), "/a/%zz");
    assert_eq!(uri_to_path("file:///a/%2"), "/a/%2");
}

#[test]
fn escapes_that_are_no_text_are_replaced() {
    assert_eq!(uri_to_path("file:///a/%ffb"), "/a/\u{fffd}b");
    assert_eq!(unescape("%ff%+a%"), b"\xff\x0a%".to_vec());
    assert_eq!(unescape("é%41"), "éA".as_bytes());
}

#[test]
fn a_file_uri_without_a_path_still_yields_something_stable() {
    assert_eq!(uri_to_path("file://"), "");
    assert_eq!(uri_to_path("file://host"), "host");
}

#[test]
fn non_file_uris_are_left_untouched_so_they_still_key_documents() {
    for uri in ["untitled:Untitled-1", "jdt://contents/rt.jar", "vscode-vfs://x/y"] {
        assert_eq!(uri_to_path(uri), uri);
    }
}

#[test]
fn workspace_folders_win_over_root_uri() {
    let params = Json::object()
        .with("workspaceFolders", folders(&["/t/a"]))
        .with("rootUri", Json::string("file:///ignored"));
    let roots = resolve_roots(&params, None);
    assert_eq!(roots.len(), 1);
    assert!(roots[0].ends_with("a"));
}

#[test]
fn falls_back_to_cwd_when_the_client_sends_no_root() {
    let tmp = tempfile::tempdir().unwrap();
    let cwd = tmp.path().to_string_lossy().into_owned();
    let roots = resolve_roots(&Json::object(), Some(&cwd));
    assert_eq!(roots, [cwd]);
}

#[test]
fn every_workspace_folder_becomes_a_root() {
    let params = Json::object().with("workspaceFolders", folders(&["/t/a", "/t/b"]));
    assert_eq!(resolve_roots(&params, None), ["/t/a", "/t/b"]);
}

#[test]
fn root_path_is_honoured_when_root_uri_is_absent() {
    let tmp = tempfile::tempdir().unwrap();
    let path = tmp.path().to_string_lossy().into_owned();
    let params = Json::object().with("rootPath", Json::string(&path));
    let roots = resolve_roots(&params, Some("/ignored"));
    assert_eq!(roots.len(), 1);
    assert!(roots[0].contains(tmp.path().file_name().unwrap().to_str().unwrap()));
}

#[test]
fn root_uri_beats_root_path() {
    let params = Json::object()
        .with("rootUri", Json::string("file:///t/a"))
        .with("rootPath", Json::string("/should/not/be/used"));
    assert!(resolve_roots(&params, None)[0].ends_with("a"));
}

#[test]
fn an_empty_workspace_folder_list_falls_through_to_root_uri() {
    let tmp = tempfile::tempdir().unwrap();
    let uri = format!("file://{}", tmp.path().display());
    let params = Json::object()
        .with("workspaceFolders", folders(&[]))
        .with("rootUri", Json::string(&uri));
    assert_eq!(resolve_roots(&params, None).len(), 1);
}

#[test]
fn a_client_with_no_root_and_no_cwd_gets_no_roots() {
    assert!(resolve_roots(&Json::object(), None).is_empty());
}

#[test]
fn roots_are_widened_to_the_marker_so_two_crates_agree() {
    let markers = vec!["Cargo.toml".to_string()];
    let existing = vec!["/t/ws/Cargo.toml".to_string()];
    let root_of = |dir: &str| {
        let params = Json::object().with("rootUri", Json::string(&format!("file://{dir}")));
        let asked = resolve_roots(&params, None);
        widen_root_bounded(&asked[0], &markers, None, &existing)
    };
    assert_eq!(root_of("/t/ws/crates/a"), root_of("/t/ws/crates/b"));
    assert!(root_of("/t/ws/crates/a").ends_with("ws"));
}

#[test]
fn widened_roots_produce_one_shared_backend_key() {
    let markers = vec!["Cargo.toml".to_string()];
    let existing = vec!["/t/ws/Cargo.toml".to_string()];
    let key = |dir: &str| {
        BackendKey::with_args(
            "rust-analyzer",
            vec![widen_root_bounded(dir, &markers, None, &existing)],
            None,
            Vec::new(),
        )
    };
    assert!(key("/t/ws").covers(&key("/t/ws/crates/a")));
    assert_eq!(key("/t/ws"), key("/t/ws/crates/a"));
}

#[test]
fn a_connection_begins_with_a_hello() {
    let hello = msg::notification(HELLO_METHOD, json("{ \"server\": \"gopls\" }"));
    assert_eq!(expect_hello(&hello).unwrap().text(), "{\"server\":\"gopls\"}");
    let other = msg::notification("initialize", Json::Null);
    assert_eq!(
        expect_hello(&other).unwrap_err().message(),
        "expected $/drey.hello as the first message"
    );
}

#[test]
fn after_the_hello_comes_initialize() {
    let init = msg::request(json("3"), "initialize", json("{ \"a\": 1 }"));
    assert_eq!(expect_initialize(&init).unwrap().text(), "{\"a\":1}");
    let bare = json("{ \"method\": \"initialize\" }");
    assert!(expect_initialize(&bare).unwrap().is_null());
    let other = msg::notification("exit", Json::Null);
    assert_eq!(
        expect_initialize(&other).unwrap_err().message(),
        "expected initialize, got `exit`"
    );
    assert_eq!(
        welcome(&init, &json("{ \"c\": 2 }")).text(),
        "{\"id\":3,\"jsonrpc\":\"2.0\",\"result\":{\"c\":2}}"
    );
}

#[test]
fn the_key_of_a_client_has_its_settings_and_arguments() {
    let hello = Hello::serving("rs".into(), None, vec!["-x".into()]);
    let plain = client_key(&hello, &Json::object(), vec!["/w".into()]);
    assert_eq!((plain.server.as_str(), plain.init_hash.as_str()), ("rs", "default"));
    assert_eq!(plain.extra_args, ["-x"]);
    let params = json("{ \"initializationOptions\": [] }");
    let with = client_key(&hello, &params, vec!["/w".into()]);
    assert_eq!(with.init_hash, "4f53cda18c2baa0c");
}

#[test]
fn a_control_connection_greets_without_a_server() {
    let hello = Hello::asking(Control::Gc);
    assert!(hello.server.is_empty() && hello.cwd.is_none() && hello.args.is_empty());
    assert_eq!(hello.control, Some(Control::Gc));
}
