use drey::config::{Config, DaemonConfig, ServerConfig};
use drey::daemon::backend::{Backend, BackendKey, Effect};
use drey::daemon::registry::Registry;
use drey::daemon::session::{Next, Session, SWAP_THRASH_LIMIT, SWAP_WINDOW};
use drey::json::Json;
use drey::msg;
use drey::text::Text;

const URI: &str = "file:///w/a.rs";

fn json(text: &str) -> Json {
    Json::parse_text(text).unwrap()
}

/// One shared backend on `/t/w`, and clients that are numbered from one.
struct Harness {
    reg: Registry,
    next_id: u64,
    now: u64,
}

impl Harness {
    fn new() -> Self {
        let server = ServerConfig {
            command: "mock".to_string(),
            args: Vec::new(),
            env: Vec::new(),
            root_markers: Vec::new(),
        };
        let mut reg = Registry::new(Config {
            server: vec![("mock".to_string(), server)],
            daemon: DaemonConfig { idle_timeout_secs: 600, max_backends: 0 },
        });
        let key = BackendKey::new("mock", vec!["/t/w".to_string()], None);
        let init = json("{ \"serverInfo\": { \"name\": \"mock\" } }");
        assert!(reg.adopt(Backend::new(0, key, None, init, 100, 0)).is_empty());
        Harness { reg, next_id: 1, now: 1 }
    }

    fn client(&mut self) -> (Session, Vec<Effect>) {
        let id = self.next_id;
        self.next_id += 1;
        let backend = &mut self.reg.backends[0];
        let key = backend.key.duplicate();
        Session::new(id, backend, key, Json::Null, self.now)
    }

    fn handle(&mut self, s: &mut Session, v: Json) -> (Vec<Effect>, Next) {
        s.handle(&mut self.reg.backends[0], v, self.now)
    }

    /// The base, the loaded text, the owner and the number of holders.
    fn doc(&self) -> (String, String, Option<u64>, usize) {
        let st = &self.reg.backends[0].state;
        let d = &st.docs.iter().find(|d| d.0 == URI).unwrap().1;
        (
            d.base.content.clone(),
            d.loaded.content.clone(),
            st.loaded_for,
            d.refs.len(),
        )
    }
}

fn open(uri: &str, text: &str) -> Json {
    let doc = Json::object()
        .with("uri", Json::string(uri))
        .with("languageId", Json::string("rust"))
        .with("version", Json::signed(1))
        .with("text", Json::string(text));
    msg::notification("textDocument/didOpen", Json::object().with("textDocument", doc))
}

fn full_change(uri: &str, version: i64, text: &str) -> Json {
    let doc = Json::object()
        .with("uri", Json::string(uri))
        .with("version", Json::signed(version));
    let change = Json::object().with("text", Json::string(text));
    msg::notification(
        "textDocument/didChange",
        Json::object()
            .with("textDocument", doc)
            .with("contentChanges", Json::Array(vec![change])),
    )
}

fn about(method: &str, uri: &str) -> Json {
    let doc = Json::object().with("uri", Json::string(uri));
    msg::notification(method, Json::object().with("textDocument", doc))
}

fn added(path: &str) -> Json {
    let folder = Json::object().with("uri", Json::string(&format!("file://{path}")));
    let event = Json::object().with("added", Json::Array(vec![folder]));
    msg::notification(
        "workspace/didChangeWorkspaceFolders",
        Json::object().with("event", event),
    )
}

fn sent(list: &[Effect]) -> Vec<String> {
    list.iter()
        .map(|e| match e {
            Effect::ToServer(v) => v.text(),
            Effect::ToClient(c, v) => format!("client {c}: {}", v.text()),
        })
        .collect()
}

#[test]
fn opening_a_document_registers_it_as_clean() {
    let mut h = Harness::new();
    let (mut a, _) = h.client();
    let (out, next) = h.handle(&mut a, open(URI, "fn a() {}"));
    assert_eq!(h.doc(), ("fn a() {}".into(), "fn a() {}".into(), None, 1));
    assert_eq!(sent(&out), [open(URI, "fn a() {}").text()]);
    assert!(matches!(next, Next::Continue));
}

#[test]
fn two_clients_opening_the_same_file_share_one_document() {
    let mut h = Harness::new();
    let (mut a, _) = h.client();
    let (mut b, _) = h.client();
    h.handle(&mut a, open(URI, "same"));
    let (out, _) = h.handle(&mut b, open(URI, "same"));
    assert!(out.is_empty(), "the server knows the document already");
    let st = &h.reg.backends[0].state;
    assert_eq!(st.docs.len(), 1);
    assert_eq!(st.docs[0].1.refs.len(), 2);
    assert!(st.docs[0].1.is_clean(), "agreeing clients need no overlay");
    // Joining an open document claims ownership of the loaded state, even though the text is
    // identical and nothing was sent to the server.
    assert_eq!(st.generation, 1);
    assert_eq!(st.loaded_for, Some(b.id));
}

#[test]
fn a_sole_holder_edit_advances_the_shared_base() {
    let mut h = Harness::new();
    let (mut a, _) = h.client();
    h.handle(&mut a, open(URI, "one"));
    let (out, _) = h.handle(&mut a, full_change(URI, 2, "two"));
    // Write-through: nobody owns the loaded state, so no swap is pending.
    assert_eq!(h.doc(), ("two".into(), "two".into(), None, 1));
    assert_eq!(h.reg.backends[0].state.generation, 0);
    assert_eq!(sent(&out), [full_change(URI, 2, "two").text()]);
}

fn edited_by_a() -> (Harness, Session, Session) {
    let mut h = Harness::new();
    let (mut a, _) = h.client();
    let (mut b, _) = h.client();
    h.handle(&mut a, open(URI, "shared"));
    h.handle(&mut b, open(URI, "shared"));
    let (out, _) = h.handle(&mut a, full_change(URI, 2, "a-edit"));
    // The server is told in full, under the next version.
    assert_eq!(sent(&out), [full_change(URI, 2, "a-edit").text()]);
    (h, a, b)
}

#[test]
fn an_edit_with_a_second_holder_becomes_an_overlay() {
    let (h, a, _b) = edited_by_a();
    let (base, loaded, owner, refs) = h.doc();
    assert_eq!(base, "shared", "the other client must still see disk text");
    assert_eq!(loaded, "a-edit");
    assert_eq!(owner, Some(a.id));
    assert_eq!(refs, 2);
    assert_eq!(h.reg.backends[0].state.generation, 2);
}

#[test]
fn the_other_client_swaps_the_server_back_before_being_answered() {
    let (mut h, _a, mut b) = edited_by_a();
    let ping = msg::request(json("9"), "test/ping", Json::object());
    let (out, _) = h.handle(&mut b, ping);
    let (base, loaded, owner, _) = h.doc();
    assert_eq!(base, "shared");
    assert_eq!(loaded, "shared", "b must be answered against its own text");
    assert_eq!(owner, Some(b.id));
    assert_eq!(h.reg.backends[0].state.generation, 3);
    let asked = msg::request(Json::string("2\u{1}9"), "test/ping", Json::object());
    assert_eq!(sent(&out), [full_change(URI, 3, "shared").text(), asked.text()]);

    // And the answer really comes back, with b's own request id restored.
    let answer = msg::response(Json::string("2\u{1}9"), json("{ \"pid\": 1 }"));
    let back = h.reg.backends[0].route_from_server(answer);
    assert_eq!(
        sent(&back),
        ["client 2: {\"id\":9,\"jsonrpc\":\"2.0\",\"result\":{\"pid\":1}}"]
    );
}

#[test]
fn a_save_collapses_the_overlay_into_the_shared_base() {
    let (mut h, mut a, _b) = edited_by_a();
    assert_eq!(h.doc().2, Some(a.id));
    let (out, _) = h.handle(&mut a, about("textDocument/didSave", URI));
    let (base, loaded, owner, _) = h.doc();
    assert_eq!(base, "a-edit", "what was written to disk is now shared");
    assert_eq!(loaded, "a-edit");
    assert_eq!(owner, None, "nobody owns clean state");
    assert_eq!(sent(&out), [about("textDocument/didSave", URI).text()]);
}

#[test]
fn closing_drops_only_the_last_reference() {
    let mut h = Harness::new();
    let (mut a, _) = h.client();
    let (mut b, _) = h.client();
    h.handle(&mut a, open(URI, "x"));
    h.handle(&mut b, open(URI, "x"));
    let (out, _) = h.handle(&mut a, about("textDocument/didClose", URI));
    assert!(out.is_empty(), "only the last holder may tell the server");
    assert_eq!(h.doc().3, 1);
    let (out, _) = h.handle(&mut b, about("textDocument/didClose", URI));
    assert_eq!(sent(&out), [about("textDocument/didClose", URI).text()]);
    assert!(h.reg.backends[0].state.docs.is_empty());
}

#[test]
fn closing_hands_the_shared_text_back_to_everyone_else() {
    let (mut h, mut a, _b) = edited_by_a();
    let (out, _) = h.handle(&mut a, about("textDocument/didClose", URI));
    let (base, loaded, owner, refs) = h.doc();
    assert_eq!((base.as_str(), loaded.as_str()), ("shared", "shared"));
    assert_eq!(owner, None);
    assert_eq!(refs, 1);
    assert_eq!(sent(&out), [full_change(URI, 3, "shared").text()]);
}

#[test]
fn a_departing_client_releases_its_overlay() {
    let (mut h, a, _b) = edited_by_a();
    let out = a.detach_from_backend(&mut h.reg.backends[0], 5);
    let (base, loaded, owner, refs) = h.doc();
    assert_eq!(loaded, base, "survivors must not be left reading dead edits");
    assert_eq!(owner, None);
    assert_eq!(refs, 1);
    assert!(!h.reg.backends[0].state.clients.contains(&a.id));
    assert_eq!(sent(&out), [full_change(URI, 3, "shared").text()]);
}

#[test]
fn a_departing_client_closes_what_nobody_else_holds() {
    let mut h = Harness::new();
    let (mut a, _) = h.client();
    h.handle(&mut a, open(URI, "x"));
    let out = a.detach_from_backend(&mut h.reg.backends[0], 5);
    assert_eq!(sent(&out), [about("textDocument/didClose", URI).text()]);
    assert!(h.reg.backends[0].state.docs.is_empty());
}

#[test]
fn the_last_client_leaving_starts_the_idle_clock() {
    let mut h = Harness::new();
    let (a, _) = h.client();
    assert!(h.reg.backends[0].idle_since.is_none());
    a.detach_from_backend(&mut h.reg.backends[0], 7);
    assert_eq!(h.reg.backends[0].idle_since, Some(7));
    assert_eq!(h.reg.backends[0].client_count(), 0);
}

#[test]
fn a_second_initialize_is_answered_from_the_cached_result() {
    let mut h = Harness::new();
    let (mut a, _) = h.client();
    let (out, _) = h.handle(&mut a, msg::request(json("1"), "initialize", Json::object()));
    assert_eq!(
        sent(&out),
        ["client 1: {\"id\":1,\"jsonrpc\":\"2.0\",\"result\":{\"serverInfo\":{\"name\":\"mock\"}}}"]
    );
    let (out, next) = h.handle(&mut a, msg::notification("initialized", Json::object()));
    assert!(out.is_empty() && matches!(next, Next::Continue));
}

#[test]
fn shutdown_is_answered_per_client_without_stopping_the_server() {
    let mut h = Harness::new();
    let (mut a, _) = h.client();
    let (out, next) = h.handle(&mut a, msg::request(json("2"), "shutdown", Json::Null));
    assert!(matches!(next, Next::Continue));
    assert_eq!(sent(&out), ["client 1: {\"id\":2,\"jsonrpc\":\"2.0\",\"result\":null}"]);
    assert!(!h.reg.backends[0].is_dead());
}

#[test]
fn exit_ends_the_session_loop() {
    let mut h = Harness::new();
    let (mut a, _) = h.client();
    let (out, next) = h.handle(&mut a, msg::notification("exit", Json::Null));
    assert!(out.is_empty() && matches!(next, Next::Exit));
}

#[test]
fn a_change_to_an_unopened_document_is_forwarded_not_shadowed() {
    let mut h = Harness::new();
    let (mut a, _) = h.client();
    let change = full_change("file:///w/ghost.rs", 1, "x");
    let (out, _) = h.handle(&mut a, change.clone());
    assert!(h.reg.backends[0].state.docs.is_empty());
    assert!(a.shadow.is_empty());
    assert_eq!(sent(&out), [change.text()]);
}

#[test]
fn the_first_client_to_attach_answers_what_the_server_asked_early() {
    // A server may pull its settings the moment it is initialized, before any client exists.
    // Dropping that request would leave it on defaults.
    let mut h = Harness::new();
    let asked = msg::request(json("1"), "workspace/configuration", Json::Null);
    assert!(h.reg.backends[0].route_from_server(asked.clone()).is_empty());
    let (_a, held) = h.client();
    assert_eq!(sent(&held), [format!("client 1: {}", asked.text())]);
    assert!(h.reg.backends[0].state.pending_requests.is_empty());
    let (_b, held) = h.client();
    assert!(held.is_empty());
}

fn diagnostics() -> Json {
    msg::notification(
        "textDocument/publishDiagnostics",
        Json::object().with("uri", Json::string(URI)),
    )
}

#[test]
fn diagnostics_for_an_agreed_file_reach_every_holder() {
    let mut h = Harness::new();
    let (mut a, _) = h.client();
    let (mut b, _) = h.client();
    let (_c, _) = h.client();
    h.handle(&mut a, open(URI, "shared"));
    h.handle(&mut b, open(URI, "shared"));
    let out = h.reg.backends[0].route_from_server(diagnostics());
    assert_eq!(out.len(), 2, "a client that does not hold the file is not told");
    assert!(matches!(out[0], Effect::ToClient(1, _)));
    assert!(matches!(out[1], Effect::ToClient(2, _)));
}

#[test]
fn diagnostics_about_one_clients_unsaved_edits_go_only_to_that_client() {
    let (mut h, _a, _b) = edited_by_a();
    let out = h.reg.backends[0].route_from_server(diagnostics());
    // b never wrote that text, so it must not be told about errors in it.
    assert_eq!(out.len(), 1);
    assert!(matches!(out[0], Effect::ToClient(1, _)));
}

#[test]
fn widening_within_the_indexed_roots_keeps_the_same_backend() {
    let mut h = Harness::new();
    let (mut a, _) = h.client();
    let inner = format!("{}/crates/a", h.reg.backends[0].key.roots[0]);
    let (out, next) = h.handle(&mut a, added(&inner));
    assert!(matches!(next, Next::Continue));
    assert_eq!(sent(&out), [added(&inner).text()]);
    assert_eq!(h.reg.list(1).len(), 1);
    assert!(a.key.roots.iter().any(|r| r == &inner));
}

#[test]
fn a_change_that_adds_no_folder_is_forwarded() {
    let mut h = Harness::new();
    let (mut a, _) = h.client();
    let before = a.key.duplicate();
    let nothing = msg::notification("workspace/didChangeWorkspaceFolders", Json::object());
    let (out, next) = h.handle(&mut a, nothing.clone());
    assert!(matches!(next, Next::Continue));
    assert_eq!(sent(&out), [nothing.text()]);
    assert_eq!(a.key, before);
}

/// Moves a client onto a private backend of its own.
fn fork(h: &mut Harness, s: &mut Session) -> Vec<Effect> {
    assert_eq!(h.reg.fork(&s.key).unwrap().command, "mock");
    let handle = h.reg.backends.len() as u64;
    let private = Backend::new(
        handle,
        s.key.duplicate(),
        Some(s.id),
        Json::Null,
        200,
        h.now,
    );
    assert!(h.reg.adopt(private).is_empty());
    s.detach_from_backend(&mut h.reg.backends[0], h.now);
    let at = h.reg.position(handle).unwrap();
    s.switch_to(&mut h.reg.backends[at])
}

#[test]
fn widening_past_the_indexed_roots_forks_a_private_backend() {
    let mut h = Harness::new();
    let (mut a, _) = h.client();
    let (out, next) = h.handle(&mut a, added("/t/outside"));
    assert!(out.is_empty());
    assert!(matches!(next, Next::Fork(None)));
    fork(&mut h, &mut a);
    let live = h.reg.list(1);
    assert_eq!(live.len(), 2);
    assert_eq!(live.iter().filter(|b| b.private).count(), 1);
    assert_eq!(h.reg.backends[0].client_count(), 0, "a left the shared backend");
}

#[test]
fn a_fork_replays_the_clients_open_documents() {
    let mut h = Harness::new();
    let (mut a, _) = h.client();
    h.handle(&mut a, open(URI, "carried over"));
    h.handle(&mut a, added("/t/outside2"));
    let out = fork(&mut h, &mut a);
    assert_eq!(sent(&out), [open(URI, "carried over").text()]);
    assert_eq!(
        h.reg.list(1).iter().find(|i| i.private).map(|i| i.open_docs),
        Some(1)
    );
    let doc = &h.reg.backends[1].state.docs[0].1;
    assert_eq!(doc.loaded.content, "carried over");
    assert!(doc.refs.contains(&a.id));
}

#[test]
fn a_dead_server_is_replaced_before_the_message_is_looked_at() {
    let mut h = Harness::new();
    let (mut a, _) = h.client();
    h.handle(&mut a, open(URI, "text"));
    h.reg.backends[0].mark_dead();
    let ping = msg::request(json("1"), "test/ping", Json::object());
    let (out, next) = h.handle(&mut a, ping.clone());
    assert!(out.is_empty());
    match next {
        Next::Respawn(v) => assert_eq!(v.text(), ping.text()),
        _ => panic!("the corpse was talked to"),
    }
}

#[test]
fn a_cancellation_names_the_request_as_the_server_knows_it() {
    let mut h = Harness::new();
    let (mut a, _) = h.client();
    let cancel = msg::notification("$/cancelRequest", json("{ \"id\": 4 }"));
    let (out, _) = h.handle(&mut a, cancel);
    assert_eq!(
        sent(&out),
        ["{\"jsonrpc\":\"2.0\",\"method\":\"$/cancelRequest\",\"params\":{\"id\":\"1\\u00014\"}}"]
    );
    let empty = msg::notification("$/cancelRequest", Json::object());
    let (out, _) = h.handle(&mut a, empty.clone());
    assert_eq!(sent(&out), [empty.text()]);
}

#[test]
fn answers_to_the_servers_questions_pass_through_untouched() {
    let mut h = Harness::new();
    let (mut a, _) = h.client();
    let answer = msg::response(json("77"), Json::Null);
    let (out, _) = h.handle(&mut a, answer.clone());
    assert_eq!(sent(&out), [answer.text()]);
}

#[test]
fn a_client_that_swaps_too_often_forks_with_its_request() {
    let (mut h, mut a, mut b) = edited_by_a();
    let ping = || msg::request(json("1"), "test/ping", Json::object());
    // The edit of `a` was its first swap.
    for _ in 1..SWAP_THRASH_LIMIT {
        h.handle(&mut b, ping());
        let (_, next) = h.handle(&mut a, ping());
        assert!(matches!(next, Next::Continue));
    }
    h.handle(&mut b, ping());
    let (out, next) = h.handle(&mut a, ping());
    match next {
        Next::Fork(Some(v)) => assert_eq!(v.text(), ping().text()),
        _ => panic!("a went on swapping"),
    }
    assert_eq!(out.len(), 1, "its state was loaded, but the request not asked here");
    assert_eq!(a.swaps, 0);
}

#[test]
fn swaps_that_are_far_apart_never_add_up() {
    let (mut h, mut a, mut b) = edited_by_a();
    let ping = || msg::request(json("1"), "test/ping", Json::object());
    for _ in 0..100 {
        h.now += SWAP_WINDOW + 1;
        h.handle(&mut b, ping());
        let (_, next) = h.handle(&mut a, ping());
        assert!(matches!(next, Next::Continue));
        assert_eq!(a.swaps, 1);
    }
}

#[test]
fn incomplete_document_messages_change_nothing() {
    let mut h = Harness::new();
    let (mut a, _) = h.client();
    for method in [
        "textDocument/didOpen",
        "textDocument/didChange",
        "textDocument/didSave",
        "textDocument/didClose",
    ] {
        let v = Json::object().with("method", Json::string(method));
        let (out, next) = h.handle(&mut a, v);
        assert!(out.is_empty() && matches!(next, Next::Continue));
    }
    assert!(h.reg.backends[0].state.docs.is_empty() && a.shadow.is_empty());
}

#[test]
fn each_client_is_answered_against_its_own_text_in_turn() {
    let (mut h, mut a, mut b) = edited_by_a();
    h.handle(&mut b, full_change(URI, 2, "b-edit"));
    for _ in 0..3 {
        for (client, text) in [(&mut a, "a-edit"), (&mut b, "b-edit")] {
            let ping = msg::request(json("1"), "test/ping", Json::object());
            h.handle(client, ping);
            let (base, loaded, owner, refs) = h.doc();
            assert_eq!((base.as_str(), loaded.as_str()), ("shared", text));
            assert_eq!((owner, refs), (Some(client.id), 2));
        }
    }
    assert_eq!(a.shadow[0].1.text.content, "a-edit");
    assert_eq!(b.shadow[0].1.text.content, "b-edit");
}

#[test]
fn what_is_loaded_is_not_loaded_again() {
    let (mut h, mut a, _b) = edited_by_a();
    let before = h.reg.backends[0].state.generation;
    let ping = msg::request(json("1"), "test/ping", Json::object());
    let (out, _) = h.handle(&mut a, ping);
    assert_eq!(out.len(), 1, "nothing but the request is sent");
    assert_eq!(h.reg.backends[0].state.generation, before);
}

fn ping() -> Json {
    msg::request(json("7"), "test/ping", Json::object())
}

/// Clients 1 and 2 opened a file, 1 edited it, 2 asked something and closed it: nobody's
/// overlay is loaded, and yet client 1 has unsaved edits.
fn overlay_handed_back() -> (Harness, Session) {
    let (mut h, a, mut b) = edited_by_a();
    h.handle(&mut b, ping());
    h.handle(&mut b, about("textDocument/didClose", URI));
    assert_eq!(h.doc(), ("shared".into(), "shared".into(), None, 1));
    (h, a)
}

#[test]
fn a_client_sees_its_own_text_though_nobodys_overlay_is_loaded() {
    let (mut h, mut a) = overlay_handed_back();
    let (out, next) = h.handle(&mut a, ping());
    assert!(matches!(next, Next::Continue));
    assert_eq!(
        sent(&out),
        [full_change(URI, 4, "a-edit").text(), a.forward(ping()).text()]
    );
    assert_eq!(h.doc(), ("shared".into(), "a-edit".into(), Some(1), 1));
}

#[test]
fn an_edit_of_what_the_server_does_not_show_is_sent_in_full() {
    let (mut h, mut a) = overlay_handed_back();
    let insert = json(&format!(
        "{{\"jsonrpc\":\"2.0\",\"method\":\"textDocument/didChange\",\"params\":{{\"textDocument\":{{\
         \"uri\":\"{URI}\",\"version\":9}},\"contentChanges\":[{{\"range\":{{\"start\":{{\"line\":0,\
         \"character\":0}},\"end\":{{\"line\":0,\"character\":0}}}},\"text\":\"new \"}}]}}}}"
    ));
    let (out, _) = h.handle(&mut a, insert);
    assert_eq!(sent(&out), [full_change(URI, 4, "new a-edit").text()]);
    assert_eq!(h.doc(), ("shared".into(), "new a-edit".into(), Some(1), 1));
}

#[test]
fn a_save_of_what_the_server_does_not_show_is_shown_first() {
    let (mut h, mut a) = overlay_handed_back();
    let save = about("textDocument/didSave", URI);
    let (out, _) = h.handle(&mut a, save.clone());
    assert_eq!(sent(&out), [full_change(URI, 4, "a-edit").text(), save.text()]);
    assert_eq!(h.doc(), ("a-edit".into(), "a-edit".into(), None, 1));
}

#[test]
fn a_change_by_a_client_that_never_opened_the_file_stays_out_of_the_others_view() {
    let mut h = Harness::new();
    let (mut a, _) = h.client();
    let (mut b, _) = h.client();
    h.handle(&mut a, open(URI, "a-text"));
    let (out, _) = h.handle(&mut b, full_change(URI, 4, "stray"));
    assert_eq!(sent(&out), [full_change(URI, 4, "stray").text()]);
    assert_eq!(h.doc(), ("a-text".into(), "stray".into(), Some(2), 1));
    let (out, _) = h.handle(&mut a, ping());
    assert_eq!(
        sent(&out),
        [full_change(URI, 5, "a-text").text(), a.forward(ping()).text()]
    );
}

#[test]
fn moving_to_a_server_where_the_file_is_open_joins_it_and_shows_the_own_text() {
    let mut h = Harness::new();
    let (mut a, _) = h.client();
    h.handle(&mut a, open(URI, "of a"));
    let mut other = Harness::new();
    other.next_id = 9;
    let (mut b, _) = other.client();
    other.handle(&mut b, open(URI, "of b"));

    a.detach_from_backend(&mut h.reg.backends[0], h.now);
    let out = a.switch_to(&mut other.reg.backends[0]);
    assert_eq!(sent(&out), [full_change(URI, 2, "of a").text()]);
    assert_eq!(other.doc(), ("of b".into(), "of a".into(), Some(1), 2));
    let doc = &other.reg.backends[0].state.docs[0].1;
    assert!(doc.refs.contains(&1) && doc.refs.contains(&9));

    // The one that was there before still sees its own.
    let (out, _) = other.handle(&mut b, ping());
    assert_eq!(
        sent(&out),
        [full_change(URI, 3, "of b").text(), b.forward(ping()).text()]
    );
}

#[test]
fn widening_keeps_settings_and_flags() {
    let options = json("{\"check\":true}");
    let mut key = BackendKey::new("mock", vec!["/t/w".to_string()], Some(&options));
    key.extra_args = vec!["--stdio".to_string()];
    let mut h = Harness::new();
    h.reg.backends[0].key = key.duplicate();
    let (mut a, _) = h.client();
    let (out, next) = h.handle(&mut a, added("/t/w/crates/a"));
    assert!(matches!(next, Next::Continue));
    assert_eq!(sent(&out), [added("/t/w/crates/a").text()]);
    assert_eq!(a.key.roots, ["/t/w", "/t/w/crates/a"]);
    assert_ne!(a.key.init_hash, "default");
    assert_eq!(a.key.init_hash, key.init_hash);
    assert_eq!(a.key.extra_args, ["--stdio"]);
    assert_eq!(a.key.server, "mock");

    // Past the indexed roots it is moved, and still asks for the same server.
    let (out, next) = h.handle(&mut a, added("/t/outside"));
    assert!(out.is_empty());
    assert!(matches!(next, Next::Fork(None)));
    assert_eq!(a.key.init_hash, key.init_hash);
    assert_eq!(a.key.extra_args, ["--stdio"]);
}

/// A server that takes what it is sent at its word.
struct Mirror {
    texts: Vec<(String, Text)>,
}

impl Mirror {
    fn take(&mut self, list: &[Effect]) {
        for effect in list {
            let Effect::ToServer(v) = effect else { continue };
            let params = v.field("params");
            let doc = params.field("textDocument");
            let member = |name: &str| doc.field(name).as_str().unwrap_or_default().to_string();
            let uri = member("uri");
            match v.field("method").as_str().unwrap_or_default() {
                "textDocument/didOpen" => {
                    assert!(self.texts.iter().all(|t| t.0 != uri), "opened twice");
                    self.texts.push((uri, Text::new(member("text"))));
                }
                "textDocument/didChange" => {
                    if let Some(held) = self.texts.iter_mut().find(|t| t.0 == uri) {
                        for change in params.field("contentChanges").as_array().unwrap() {
                            held.1.apply(change);
                        }
                    }
                }
                "textDocument/didClose" => self.texts.retain(|t| t.0 != uri),
                _ => {}
            }
        }
    }

    fn agrees(&self, h: &Harness) {
        let mut held: Vec<(String, String)> =
            self.texts.iter().map(|t| (t.0.clone(), t.1.content.clone())).collect();
        let mut recorded: Vec<(String, String)> = h.reg.backends[0]
            .state
            .docs
            .iter()
            .map(|d| (d.0.clone(), d.1.loaded.content.clone()))
            .collect();
        held.sort();
        recorded.sort();
        assert_eq!(held, recorded);
    }
}

#[test]
fn what_is_recorded_is_what_the_server_holds() {
    let other = "file:///w/b.rs";
    let mut h = Harness::new();
    let mut server = Mirror { texts: Vec::new() };
    let (mut a, _) = h.client();
    let (mut b, _) = h.client();
    for (who, v) in [
        (1, open(URI, "one")),
        (1, full_change(URI, 2, "two")),
        (2, open(URI, "two")),
        (2, full_change(URI, 3, "of b")),
        (2, open(other, "more")),
        (1, ping()),
        (1, full_change(URI, 4, "of a")),
        (2, ping()),
        (2, about("textDocument/didClose", URI)),
        (1, ping()),
        (1, full_change(other, 5, "stray")),
        (2, ping()),
        (1, about("textDocument/didSave", URI)),
        (1, full_change(URI, 6, "three")),
        (2, about("textDocument/didSave", other)),
        (1, about("textDocument/didClose", URI)),
    ] {
        let s = if who == 1 { &mut a } else { &mut b };
        let (out, next) = h.handle(s, v);
        assert!(matches!(next, Next::Continue));
        server.take(&out);
        server.agrees(&h);
    }
    let out = b.detach_from_backend(&mut h.reg.backends[0], 9);
    server.take(&out);
    server.agrees(&h);
    assert!(server.texts.is_empty());
}
