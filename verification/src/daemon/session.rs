//! One connected client, and its copy-on-write view of the shared documents.

use std::collections::HashSet;
use vstd::prelude::*;
use vstd::std_specs::hash::*;
use vstd::string::*;
use crate::daemon::backend::{
    all_clean, are_clean, effects, has_client, messages, no_effects, one, to_server, Backend, BackendKey,
    BackendState, BackendView, DocView, Docs, Effect, EffectView, KeyView, SharedDoc, StateView,
};
use crate::daemon::uri::{folder_paths, read_folders};
use crate::json::{
    empty_object, int_json, items_view, json_view, lemma_items_view, Json, JsonView,
};
use crate::msg;
use crate::strings::{copy_list, same, sort_unique, sorted_list, views};
use crate::table::{find, insert, lemma_place, lookup, put, remove, table, without};
use crate::text::{edited_all, Text};

verus! {

/// A client causing more than this many state swaps inside the window is promoted
/// to its own backend. Chosen high enough that ordinary editing never trips it, low
/// enough that two clients fighting over one file stop paying swap costs on every
/// request.
pub const SWAP_THRASH_LIMIT: u64 = 40;

/// The window in which swaps are counted, in nanoseconds.
pub const SWAP_WINDOW: u64 = 10_000_000_000;

/// A client's private view of a document it has open.
pub struct ShadowDoc {
    pub text: Text,
    pub version: i64,
    pub language_id: String,
}

/// A client's private view of a document it has open.
#[verifier::ext_equal]
pub struct ShadowView {
    pub text: Seq<char>,
    pub version: i64,
    pub language_id: Seq<char>,
}

impl View for ShadowDoc {
    type V = ShadowView;

    open spec fn view(&self) -> ShadowView {
        ShadowView {
            text: self.text@,
            version: self.version,
            language_id: self.language_id@,
        }
    }
}

/// A table of a client's own documents by URI.
pub type Shadow = Seq<(Seq<char>, ShadowView)>;

/// One connected client.
pub struct Session {
    pub id: u64,
    pub key: BackendKey,
    /// Kept so a fork can initialize its private backend identically.
    pub init_params: Json,
    pub shadow: Vec<(String, ShadowDoc)>,
    /// Swaps this client has caused, and when the window started. Sustained
    /// thrashing is the one case where forking still beats switching.
    pub swaps: u64,
    pub swap_window: u64,
}

/// One connected client.
#[verifier::ext_equal]
pub struct SessionView {
    pub id: u64,
    pub key: KeyView,
    pub init_params: JsonView,
    pub shadow: Shadow,
    pub swaps: u64,
    pub swap_window: u64,
}

impl View for Session {
    type V = SessionView;

    open spec fn view(&self) -> SessionView {
        SessionView {
            id: self.id,
            key: self.key@,
            init_params: self.init_params@,
            shadow: table(self.shadow@),
            swaps: self.swaps,
            swap_window: self.swap_window,
        }
    }
}

/// What is to happen after a message was handled.
pub enum Next {
    /// The next message.
    Continue,
    /// The client has asked to exit.
    Exit,
    /// The backend is dead: the client is to move onto a live one, and the message is
    /// to be dispatched there.
    Respawn(Json),
    /// The client is to move onto a private backend, and the message, if there is
    /// one, is to be forwarded there.
    Fork(Option<Json>),
}

/// What is to happen after a message was handled.
#[verifier::ext_equal]
pub enum NextView {
    Continue,
    Exit,
    Respawn(JsonView),
    Fork(Option<JsonView>),
}

impl View for Next {
    type V = NextView;

    open spec fn view(&self) -> NextView {
        match self {
            Next::Continue => NextView::Continue,
            Next::Exit => NextView::Exit,
            Next::Respawn(v) => NextView::Respawn(v@),
            Next::Fork(Some(v)) => NextView::Fork(Some(v@)),
            Next::Fork(None) => NextView::Fork(None),
        }
    }
}

/// What handling a message leaves, sends and asks for.
#[verifier::ext_equal]
pub struct Turn {
    pub session: SessionView,
    pub backend: BackendView,
    pub sent: Seq<EffectView>,
    pub next: NextView,
}

/// Nothing but messages.
pub open spec fn quiet(s: SessionView, b: BackendView, sent: Seq<EffectView>) -> Turn {
    Turn { session: s, backend: b, sent, next: NextView::Continue }
}

// ---- reading messages ---------------------------------------------------

/// The text, or nothing where it is no string.
pub open spec fn text_or_empty(v: JsonView) -> Seq<char> {
    match v {
        JsonView::Str(s) => s,
        _ => Seq::empty(),
    }
}

/// The integer, or zero.
pub open spec fn int_or_zero(v: JsonView) -> i64 {
    match v.as_i64() {
        Some(n) => n,
        None => 0,
    }
}

/// The items, or none.
pub open spec fn items_or_none(v: JsonView) -> Seq<JsonView> {
    match v.as_array() {
        Some(items) => items,
        None => Seq::empty(),
    }
}

fn text_member(v: &Json, key: &str) -> (r: String)
    ensures
        r@ == text_or_empty(v@.field(key@)),
{
    match v.get(key) {
        Some(m) => match m.as_str() {
            Some(s) => s.to_owned(),
            None => String::new(),
        },
        None => String::new(),
    }
}

fn int_member(v: &Json, key: &str) -> (r: i64)
    ensures
        r == int_or_zero(v@.field(key@)),
{
    match v.get(key) {
        Some(m) => match m.as_i64() {
            Some(n) => n,
            None => 0,
        },
        None => 0,
    }
}

/// The URI of the document that a message is about.
pub open spec fn document_uri(v: JsonView) -> Option<Seq<char>> {
    v.field("params"@).field("textDocument"@).field("uri"@).as_str()
}

fn read_document_uri(v: &Json) -> (r: Option<String>)
    ensures
        match r {
            Some(s) => document_uri(v@) == Some(s@),
            None => document_uri(v@) is None,
        },
{
    match v.get("params") {
        Some(p) => match p.get("textDocument") {
            Some(d) => match d.get("uri") {
                Some(u) => match u.as_str() {
                    Some(s) => Some(s.to_owned()),
                    None => None,
                },
                None => None,
            },
            None => None,
        },
        None => None,
    }
}

// ---- loading ------------------------------------------------------------

/// What a client believes a file says: its own shadow if it has the file open,
/// otherwise the agreed base.
pub open spec fn wanted(shadow: Shadow, uri: Seq<char>, doc: DocView) -> Seq<char> {
    match lookup(shadow, uri) {
        Some(own) => own.text,
        None => doc.base,
    }
}

/// A document after the server was shown what the client believes.
pub open spec fn loaded_doc(shadow: Shadow, entry: (Seq<char>, DocView)) -> (Seq<char>, DocView) {
    let text = wanted(shadow, entry.0, entry.1);
    if entry.1.loaded == text {
        entry
    } else {
        (entry.0, DocView { loaded: text, version: entry.1.version.wrapping_add(1), ..entry.1 })
    }
}

/// All documents after the server was shown what the client believes.
pub open spec fn loaded_docs(shadow: Shadow, docs: Docs) -> Docs {
    Seq::new(docs.len(), |i: int| loaded_doc(shadow, docs[i]))
}

/// The message that replaces a document's text.
pub open spec fn change_json(uri: Seq<char>, version: i64, text: Seq<char>) -> JsonView {
    msg::notification_json(
        "textDocument/didChange"@,
        empty_object().with(
            "textDocument"@,
            empty_object().with("uri"@, JsonView::Str(uri)).with(
                "version"@,
                int_json(version as int),
            ),
        ).with(
            "contentChanges"@,
            JsonView::Array(seq![empty_object().with("text"@, JsonView::Str(text))]),
        ),
    )
}

/// The server holds, of every document, what the client believes it says.
pub open spec fn shows(shadow: Shadow, docs: Docs) -> bool {
    forall|i: int|
        0 <= i < docs.len() ==> (#[trigger] docs[i]).1.loaded == wanted(
            shadow,
            docs[i].0,
            docs[i].1,
        )
}

/// The messages that show the server what the client believes: one for every
/// document that currently differs.
pub open spec fn load_messages(shadow: Shadow, docs: Docs) -> Seq<JsonView>
    decreases docs.len(),
{
    if docs.len() == 0 {
        Seq::empty()
    } else {
        let before = load_messages(shadow, docs.drop_last());
        let entry = docs.last();
        if entry.1.loaded == wanted(shadow, entry.0, entry.1) {
            before
        } else {
            let new = loaded_doc(shadow, entry).1;
            before.push(change_json(entry.0, new.version, new.loaded))
        }
    }
}

fn change_message(uri: &str, version: i64, text: &str) -> (r: Json)
    ensures
        r@ == change_json(uri@, version, text@),
{
    let document = Json::object().with("uri", Json::string(uri)).with(
        "version",
        Json::signed(version),
    );
    let mut list: Vec<Json> = Vec::new();
    list.push(Json::object().with("text", Json::string(text)));
    proof {
        lemma_items_view(list@);
        assert(items_view(list@) =~= seq![
            empty_object().with("text"@, JsonView::Str(text@)),
        ]);
    }
    msg::notification(
        "textDocument/didChange",
        Json::object().with("textDocument", document).with("contentChanges", Json::Array(list)),
    )
}

/// Shows the server what a client believes: sets each document to the client's own
/// text, or to the base where it has none.
fn load_into(docs: &mut Vec<(String, SharedDoc)>, shadow: &Vec<(String, ShadowDoc)>) -> (r: Vec<
    Json,
>)
    ensures
        table(final(docs)@) == loaded_docs(table(shadow@), table(old(docs)@)),
        messages(r@) == load_messages(table(shadow@), table(old(docs)@)),
{
    let mut out: Vec<Json> = Vec::new();
    let mut i: usize = 0;
    let ghost t = table(docs@);
    let ghost sh = table(shadow@);
    assert(messages(out@) =~= load_messages(sh, t.take(0)));
    while i < docs.len()
        invariant
            i <= docs@.len(),
            docs@.len() == t.len(),
            sh == table(shadow@),
            forall|k: int| 0 <= k < i ==> #[trigger] table(docs@)[k] == loaded_doc(sh, t[k]),
            forall|k: int| i <= k < t.len() ==> #[trigger] table(docs@)[k] == t[k],
            messages(out@) == load_messages(sh, t.take(i as int)),
        decreases docs@.len() - i,
    {
        let ghost entry = t[i as int];
        let ghost held = messages(out@);
        proof {
            assert(t.take(i + 1).drop_last() =~= t.take(i as int));
            assert(table(docs@)[i as int] == entry);
        }
        let text: String = match find(shadow, docs[i].0.as_str()) {
            Some(k) => shadow[k].1.text.content.clone(),
            None => docs[i].1.base.content.clone(),
        };
        assert(text@ == wanted(sh, entry.0, entry.1));
        if !same(docs[i].1.loaded.content.as_str(), text.as_str()) {
            let version = docs[i].1.version.wrapping_add(1);
            out.push(change_message(docs[i].0.as_str(), version, text.as_str()));
            let ghost before = docs@;
            let doc = &mut docs[i].1;
            doc.loaded = Text::new(text);
            doc.version = version;
            proof {
                assert(messages(out@) =~= held.push(change_json(entry.0, version, text@)));
                assert(table(docs@) =~= table(before).update(i as int, loaded_doc(sh, entry)));
            }
        }
        i += 1;
    }
    assert(t.take(i as int) =~= t);
    assert(table(docs@) =~= loaded_docs(sh, t));
    out
}

/// Whether the server holds what a client believes.
fn is_shown(docs: &Vec<(String, SharedDoc)>, shadow: &Vec<(String, ShadowDoc)>) -> (r: bool)
    ensures
        r == shows(table(shadow@), table(docs@)),
{
    let ghost t = table(docs@);
    let ghost sh = table(shadow@);
    let mut i: usize = 0;
    while i < docs.len()
        invariant
            i <= docs@.len(),
            t == table(docs@),
            sh == table(shadow@),
            forall|k: int|
                0 <= k < i ==> (#[trigger] t[k]).1.loaded == wanted(sh, t[k].0, t[k].1),
        decreases docs@.len() - i,
    {
        let loaded = docs[i].1.loaded.content.as_str();
        let level = match find(shadow, docs[i].0.as_str()) {
            Some(k) => same(loaded, shadow[k].1.text.content.as_str()),
            None => same(loaded, docs[i].1.base.content.as_str()),
        };
        assert(level == (t[i as int].1.loaded == wanted(sh, t[i as int].0, t[i as int].1)));
        if !level {
            return false;
        }
        i += 1;
    }
    true
}

/// Messages for the server.
fn send_all(list: Vec<Json>) -> (r: Vec<Effect>)
    ensures
        effects(r@) == to_server(messages(list@)),
{
    let mut out: Vec<Effect> = Vec::new();
    let mut i: usize = 0;
    while i < list.len()
        invariant
            i <= list@.len(),
            out@.len() == i,
            forall|k: int| 0 <= k < i ==> (#[trigger] out@[k])@ == EffectView::ToServer(list@[k]@),
        decreases list@.len() - i,
    {
        out.push(Effect::ToServer(list[i].duplicate()));
        i += 1;
    }
    assert(effects(out@) =~= to_server(messages(list@)));
    out
}

// ---- what each message does ---------------------------------------------

impl SessionView {
    /// Whether the window in which swaps are counted is over.
    pub open spec fn window_over(self, now: u64) -> bool {
        now as int - self.swap_window as int > SWAP_WINDOW
    }

    /// Swaps counted so far in the window that `now` belongs to.
    pub open spec fn recent_swaps(self, now: u64) -> u64 {
        if self.window_over(now) {
            0
        } else {
            self.swaps
        }
    }

    /// One swap too many.
    pub open spec fn thrashing(self, now: u64) -> bool {
        self.recent_swaps(now) >= SWAP_THRASH_LIMIT
    }

    /// After one more swap.
    pub open spec fn swapped(self, now: u64) -> SessionView {
        SessionView {
            swap_window: if self.window_over(now) {
                now
            } else {
                self.swap_window
            },
            swaps: if self.thrashing(now) {
                0
            } else {
                (self.recent_swaps(now) + 1) as u64
            },
            ..self
        }
    }

    /// Makes the server's view match this client's. The client is to fork, with
    /// `after` to be forwarded there, if it has swapped too often.
    pub open spec fn load(self, b: BackendView, now: u64, after: Option<JsonView>) -> Turn {
        let list = load_messages(self.shadow, b.state.docs);
        let swap = b.state.loaded_for != Some(self.id);
        let touched = swap || list.len() > 0;
        let counted = swap && list.len() > 0;
        Turn {
            session: if counted {
                self.swapped(now)
            } else {
                self
            },
            backend: BackendView {
                state: StateView {
                    docs: loaded_docs(self.shadow, b.state.docs),
                    loaded_for: if touched {
                        Some(self.id)
                    } else {
                        b.state.loaded_for
                    },
                    generation: if touched {
                        b.state.generation.wrapping_add(1)
                    } else {
                        b.state.generation
                    },
                    ..b.state
                },
                ..b
            },
            sent: to_server(list),
            next: if counted && self.thrashing(now) {
                NextView::Fork(after)
            } else {
                NextView::Continue
            },
        }
    }

    /// Some client's unsaved edits may be what the server holds, or this client's own
    /// may be missing from it.
    pub open spec fn anyone_diverged(self, b: BackendView) -> bool {
        ||| b.state.loaded_for is Some && b.state.loaded_for != Some(self.id)
        ||| !all_clean(b.state.docs)
        ||| !shows(self.shadow, b.state.docs)
    }

    /// A message as it goes to the server. Client requests get their id namespaced;
    /// responses to server-initiated requests pass through untouched, since those ids
    /// are the server's own.
    pub open spec fn forwarded(self, v: JsonView) -> JsonView {
        if msg::request_shaped(v) {
            v.with("id"@, msg::encoded_id(self.id, v.field("id"@)))
        } else {
            v
        }
    }

    /// A cancellation as it goes to the server.
    pub open spec fn cancellation(self, v: JsonView) -> JsonView {
        match v.field("params"@).get("id"@) {
            Some(id) => v.with(
                "params"@,
                v.field("params"@).with("id"@, msg::encoded_id(self.id, id)),
            ),
            None => v,
        }
    }

    /// Opening a document. Joining one that is open already loads the client's own
    /// text: if it disagrees, that is an overlay, not a reason to fork.
    pub open spec fn did_open(self, b: BackendView, v: JsonView, now: u64) -> Turn {
        match v.field("params"@).get("textDocument"@) {
            None => quiet(self, b, Seq::empty()),
            Some(doc) => {
                let uri = text_or_empty(doc.field("uri"@));
                let text = text_or_empty(doc.field("text"@));
                let version = int_or_zero(doc.field("version"@));
                let own = ShadowView {
                    text,
                    version,
                    language_id: text_or_empty(doc.field("languageId"@)),
                };
                let s = SessionView { shadow: put(self.shadow, uri, own), ..self };
                match lookup(b.state.docs, uri) {
                    None => {
                        let shared = DocView {
                            base: text,
                            loaded: text,
                            version,
                            refs: set![self.id],
                        };
                        quiet(
                            s,
                            b.with_docs(put(b.state.docs, uri, shared)),
                            seq![EffectView::ToServer(v)],
                        )
                    },
                    Some(shared) => s.load(
                        b.with_docs(
                            put(
                                b.state.docs,
                                uri,
                                DocView { refs: shared.refs.insert(self.id), ..shared },
                            ),
                        ),
                        now,
                        None,
                    ),
                }
            },
        }
    }

    /// Nobody else holds the document.
    pub open spec fn sole_holder(self, b: BackendView, uri: Seq<char>) -> bool {
        match lookup(b.state.docs, uri) {
            Some(doc) => doc.refs.len() == 1 && doc.refs.contains(self.id),
            None => false,
        }
    }

    /// Editing a document. A sole holder's edit, while nobody has unsaved edits
    /// loaded and the server shows the holder's text, simply advances the shared base;
    /// any other edit is an overlay. An edit of a document that this client never
    /// opened goes to the server as it is, which then holds the edited text if others
    /// have the document open.
    pub open spec fn did_change(self, b: BackendView, v: JsonView, now: u64) -> Turn {
        match v.get("params"@) {
            None => quiet(self, b, Seq::empty()),
            Some(params) => {
                let uri = text_or_empty(params.field("textDocument"@).field("uri"@));
                let version = int_or_zero(params.field("textDocument"@).field("version"@));
                let changes = items_or_none(params.field("contentChanges"@));
                match lookup(self.shadow, uri) {
                    None => {
                        let next = match lookup(b.state.docs, uri) {
                            Some(shared) => b.with_docs(
                                put(
                                    b.state.docs,
                                    uri,
                                    DocView {
                                        loaded: edited_all(shared.loaded, changes),
                                        version,
                                        ..shared
                                    },
                                ),
                            ).owned_by(Some(self.id)),
                            None => b,
                        };
                        quiet(self, next, seq![EffectView::ToServer(v)])
                    },
                    Some(own) => {
                        let text = edited_all(own.text, changes);
                        let s = SessionView {
                            shadow: put(self.shadow, uri, ShadowView { text, version, ..own }),
                            ..self
                        };
                        if self.sole_holder(b, uri) && all_clean(b.state.docs) && lookup(
                            b.state.docs,
                            uri,
                        )->0.loaded == own.text {
                            let shared = lookup(b.state.docs, uri)->0;
                            let next = b.with_docs(
                                put(
                                    b.state.docs,
                                    uri,
                                    DocView { base: text, loaded: text, version, ..shared },
                                ),
                            );
                            quiet(s, next.owned_by(None), seq![EffectView::ToServer(v)])
                        } else {
                            s.load(b, now, None)
                        }
                    },
                }
            },
        }
    }

    /// Saving a document. What was just written to disk is now what everyone agrees
    /// on. While nobody's overlay is loaded the server shows what is agreed, so it is
    /// shown the saved text if it held another.
    pub open spec fn did_save(self, b: BackendView, v: JsonView) -> Turn {
        match document_uri(v) {
            None => quiet(self, b, Seq::empty()),
            Some(uri) => {
                let sent = seq![EffectView::ToServer(v)];
                match (lookup(self.shadow, uri), lookup(b.state.docs, uri)) {
                    (Some(own), Some(shared)) => {
                        let docs = put(
                            b.state.docs,
                            uri,
                            DocView { base: own.text, ..shared },
                        );
                        let next = b.with_docs(docs);
                        if b.state.loaded_for is None && shared.loaded != own.text {
                            let version = shared.version.wrapping_add(1);
                            let level = DocView {
                                base: own.text,
                                loaded: own.text,
                                version,
                                ..shared
                            };
                            quiet(
                                self,
                                b.with_docs(put(b.state.docs, uri, level)),
                                seq![
                                    EffectView::ToServer(change_json(uri, version, own.text)),
                                    EffectView::ToServer(v),
                                ],
                            )
                        } else if shared.loaded == own.text && all_clean(docs) {
                            quiet(self, next.owned_by(None), sent)
                        } else {
                            quiet(self, next, sent)
                        }
                    },
                    _ => quiet(self, b, sent),
                }
            },
        }
    }

    /// Closing a document. Only the last holder may tell the server so.
    pub open spec fn did_close(self, b: BackendView, v: JsonView) -> Turn {
        match document_uri(v) {
            None => quiet(self, b, Seq::empty()),
            Some(uri) => {
                let s = SessionView { shadow: without(self.shadow, uri), ..self };
                let last = match lookup(b.state.docs, uri) {
                    Some(doc) => doc.refs.remove(self.id).is_empty(),
                    None => false,
                };
                let docs = match lookup(b.state.docs, uri) {
                    Some(doc) => if last {
                        without(b.state.docs, uri)
                    } else {
                        put(
                            b.state.docs,
                            uri,
                            DocView { refs: doc.refs.remove(self.id), ..doc },
                        )
                    },
                    None => b.state.docs,
                };
                let left = b.with_docs(docs);
                let told = if last {
                    seq![EffectView::ToServer(v)]
                } else {
                    Seq::empty()
                };
                quiet(
                    s,
                    BackendView { state: left.state.released(self.id), ..left },
                    told + to_server(left.state.release_messages(self.id)),
                )
            },
        }
    }

    /// Widening the workspace: adopted if the backend already covers the new roots,
    /// otherwise a fork, so that the client gets a backend that has indexed them.
    pub open spec fn did_change_workspace_folders(self, b: BackendView, v: JsonView) -> Turn {
        let added = folder_paths(
            items_or_none(v.field("params"@).field("event"@).field("added"@)),
        );
        let wider = KeyView {
            roots: sorted_list((self.key.roots + added).to_set()),
            ..self.key
        };
        let s = SessionView { key: wider, ..self };
        if added.len() == 0 {
            quiet(self, b, seq![EffectView::ToServer(v)])
        } else if b.key.covers(wider) {
            quiet(s, b, seq![EffectView::ToServer(v)])
        } else {
            Turn { session: s, backend: b, sent: Seq::empty(), next: NextView::Fork(None) }
        }
    }

    /// Anything else. A request is answered against whatever the server currently
    /// holds, so the client's own state has to be loaded before it is asked.
    pub open spec fn pass_on(self, b: BackendView, v: JsonView, now: u64) -> Turn {
        if msg::request_shaped(v) && self.anyone_diverged(b) {
            let turn = self.load(b, now, Some(v));
            if turn.next is Fork {
                turn
            } else {
                Turn { sent: turn.sent.push(EffectView::ToServer(self.forwarded(v))), ..turn }
            }
        } else {
            quiet(self, b, seq![EffectView::ToServer(self.forwarded(v))])
        }
    }

    /// One message from the client. A dead server is replaced before it is looked at.
    pub open spec fn handle(self, b: BackendView, v: JsonView, now: u64) -> Turn {
        if b.state.dead {
            Turn { session: self, backend: b, sent: Seq::empty(), next: NextView::Respawn(v) }
        } else {
            self.dispatch(b, v, now)
        }
    }

    /// One message from the client, on a backend that was found alive.
    pub open spec fn dispatch(self, b: BackendView, v: JsonView, now: u64) -> Turn {
        let method = msg::method_of(v);
        if method == "initialize"@ {
            quiet(
                self,
                b,
                seq![
                    EffectView::ToClient(
                        self.id,
                        msg::response_json(v.field("id"@), b.init_result),
                    ),
                ],
            )
        } else if method == "initialized"@ {
            quiet(self, b, Seq::empty())
        } else if method == "shutdown"@ {
            quiet(
                self,
                b,
                seq![
                    EffectView::ToClient(
                        self.id,
                        msg::response_json(v.field("id"@), JsonView::Null),
                    ),
                ],
            )
        } else if method == "exit"@ {
            Turn { session: self, backend: b, sent: Seq::empty(), next: NextView::Exit }
        } else if method == "textDocument/didOpen"@ {
            self.did_open(b, v, now)
        } else if method == "textDocument/didChange"@ {
            self.did_change(b, v, now)
        } else if method == "textDocument/didSave"@ {
            self.did_save(b, v)
        } else if method == "textDocument/didClose"@ {
            self.did_close(b, v)
        } else if method == "workspace/didChangeWorkspaceFolders"@ {
            self.did_change_workspace_folders(b, v)
        } else if method == "$/cancelRequest"@ {
            quiet(self, b, seq![EffectView::ToServer(self.cancellation(v))])
        } else {
            self.pass_on(b, v, now)
        }
    }
}

impl BackendView {
    /// With other documents.
    pub open spec fn with_docs(self, docs: Docs) -> BackendView {
        BackendView { state: StateView { docs, ..self.state }, ..self }
    }

    /// With another owner of what is loaded.
    pub open spec fn owned_by(self, owner: Option<u64>) -> BackendView {
        BackendView { state: StateView { loaded_for: owner, ..self.state }, ..self }
    }
}

impl StateView {
    /// Every document back at its base text, if `client`'s overlay is the one that is
    /// loaded.
    pub open spec fn released(self, client: u64) -> StateView {
        if self.loaded_for == Some(client) {
            StateView {
                docs: loaded_docs(Seq::empty(), self.docs),
                loaded_for: None,
                ..self
            }
        } else {
            self
        }
    }

    /// The messages that bring every document back to its base text.
    pub open spec fn release_messages(self, client: u64) -> Seq<JsonView> {
        if self.loaded_for == Some(client) {
            load_messages(Seq::empty(), self.docs)
        } else {
            Seq::empty()
        }
    }
}

// ---- joining and leaving ------------------------------------------------

/// The clients without `client`.
pub open spec fn others(clients: Seq<u64>, client: u64) -> Seq<u64>
    decreases clients.len(),
{
    if clients.len() == 0 {
        Seq::empty()
    } else {
        let before = others(clients.drop_last(), client);
        if clients.last() == client {
            before
        } else {
            before.push(clients.last())
        }
    }
}

/// The documents that somebody other than `client` holds, no longer held by it.
pub open spec fn kept_docs(docs: Docs, client: u64) -> Docs
    decreases docs.len(),
{
    if docs.len() == 0 {
        Seq::empty()
    } else {
        let before = kept_docs(docs.drop_last(), client);
        let (uri, doc) = docs.last();
        if doc.refs.remove(client).is_empty() {
            before
        } else {
            before.push((uri, DocView { refs: doc.refs.remove(client), ..doc }))
        }
    }
}

/// The message that closes a document.
pub open spec fn close_json(uri: Seq<char>) -> JsonView {
    msg::notification_json(
        "textDocument/didClose"@,
        empty_object().with("textDocument"@, empty_object().with("uri"@, JsonView::Str(uri))),
    )
}

/// The messages that close the documents which nobody but `client` holds.
pub open spec fn orphan_messages(docs: Docs, client: u64) -> Seq<JsonView>
    decreases docs.len(),
{
    if docs.len() == 0 {
        Seq::empty()
    } else {
        let before = orphan_messages(docs.drop_last(), client);
        let (uri, doc) = docs.last();
        if doc.refs.remove(client).is_empty() {
            before.push(close_json(uri))
        } else {
            before
        }
    }
}

/// The message that opens a document.
pub open spec fn open_json(uri: Seq<char>, doc: ShadowView) -> JsonView {
    msg::notification_json(
        "textDocument/didOpen"@,
        empty_object().with(
            "textDocument"@,
            empty_object().with("uri"@, JsonView::Str(uri)).with(
                "languageId"@,
                JsonView::Str(doc.language_id),
            ).with("version"@, int_json(doc.version as int)).with("text"@, JsonView::Str(doc.text)),
        ),
    )
}

/// The shared documents after a client brought its own along. One that is open there
/// already is joined; any other is open now, with the client's text.
pub open spec fn replayed_docs(docs: Docs, shadow: Shadow, client: u64) -> Docs
    decreases shadow.len(),
{
    if shadow.len() == 0 {
        docs
    } else {
        let before = replayed_docs(docs, shadow.drop_last(), client);
        let (uri, own) = shadow.last();
        match lookup(before, uri) {
            Some(doc) => put(before, uri, DocView { refs: doc.refs.insert(client), ..doc }),
            None => put(
                before,
                uri,
                DocView {
                    base: own.text,
                    loaded: own.text,
                    version: own.version,
                    refs: set![client],
                },
            ),
        }
    }
}

/// The messages that open a client's documents, where they are not open already.
pub open spec fn replay_messages(docs: Docs, shadow: Shadow, client: u64) -> Seq<JsonView>
    decreases shadow.len(),
{
    if shadow.len() == 0 {
        Seq::empty()
    } else {
        let before = replay_messages(docs, shadow.drop_last(), client);
        let (uri, own) = shadow.last();
        if lookup(replayed_docs(docs, shadow.drop_last(), client), uri) is Some {
            before
        } else {
            before.push(open_json(uri, own))
        }
    }
}

/// What the server asked while nobody was listening, for the client that came first.
pub open spec fn held_for(client: u64, pending: Seq<JsonView>) -> Seq<EffectView> {
    Seq::new(pending.len(), |i: int| EffectView::ToClient(client, pending[i]))
}

impl BackendView {
    /// With `client` attached.
    pub open spec fn registered(self, client: u64) -> BackendView {
        BackendView {
            state: StateView {
                clients: if self.state.clients.contains(client) {
                    self.state.clients
                } else {
                    self.state.clients.push(client)
                },
                pending: Seq::empty(),
                ..self.state
            },
            idle_since: None,
            ..self
        }
    }

    /// Without `client` among those attached.
    pub open spec fn unlisted(self, client: u64) -> BackendView {
        BackendView {
            state: StateView { clients: others(self.state.clients, client), ..self.state },
            ..self
        }
    }

    /// With `client` gone.
    pub open spec fn detached(self, client: u64, now: u64) -> BackendView {
        let rest = self.unlisted(client).state.released(client);
        BackendView {
            state: StateView { docs: kept_docs(rest.docs, client), ..rest },
            idle_since: if rest.clients.len() == 0 {
                Some(now)
            } else {
                self.idle_since
            },
            ..self
        }
    }

    /// What is sent when `client` goes: documents that nobody else holds are closed,
    /// and the others are brought back to their base text if its overlay was loaded.
    pub open spec fn detach_messages(self, client: u64) -> Seq<JsonView> {
        let st = self.unlisted(client).state;
        orphan_messages(st.released(client).docs, client) + st.release_messages(client)
    }

    /// With `s` attached and its documents brought along, showing what `s` sees.
    pub open spec fn joined_by(self, s: SessionView) -> BackendView {
        let b = self.registered(s.id);
        let docs = replayed_docs(b.state.docs, s.shadow, s.id);
        if load_messages(s.shadow, docs).len() == 0 {
            b.with_docs(docs)
        } else {
            BackendView {
                state: StateView {
                    docs: loaded_docs(s.shadow, docs),
                    loaded_for: Some(s.id),
                    generation: b.state.generation.wrapping_add(1),
                    ..b.state
                },
                ..b
            }
        }
    }

    /// What is sent when `s` joins: the documents that were not open are opened, and the
    /// others are set to what `s` believes they say.
    pub open spec fn join_messages(self, s: SessionView) -> Seq<JsonView> {
        replay_messages(self.state.docs, s.shadow, s.id) + load_messages(
            s.shadow,
            replayed_docs(self.state.docs, s.shadow, s.id),
        )
    }
}

// ---- the session --------------------------------------------------------

impl Session {
    fn anyone_diverged(&self, backend: &Backend) -> (r: bool)
        ensures
            r == self@.anyone_diverged(backend@),
    {
        let other = match backend.state.loaded_for {
            Some(owner) => owner != self.id,
            None => false,
        };
        other || !are_clean(&backend.state.docs) || !is_shown(
            &backend.state.docs,
            &self.shadow,
        )
    }

    /// A message as it goes to the server.
    pub fn forward(&self, v: Json) -> (r: Json)
        ensures
            r@ == self@.forwarded(v@),
    {
        if msg::is_request(&v) {
            let id = v.field("id");
            v.with("id", msg::encode_id(self.id, &id))
        } else {
            v
        }
    }

    /// Sustained swapping is the one case where a private server is cheaper than
    /// sharing one. Promotes a thrashing client rather than let every request pay a
    /// swap.
    fn note_swap(&mut self, now: u64) -> (fork: bool)
        ensures
            final(self)@ == old(self)@.swapped(now),
            fork == old(self)@.thrashing(now),
    {
        if now > self.swap_window && now - self.swap_window > SWAP_WINDOW {
            self.swap_window = now;
            self.swaps = 0;
        }
        if self.swaps >= SWAP_THRASH_LIMIT {
            self.swaps = 0;
            true
        } else {
            self.swaps += 1;
            false
        }
    }

    /// Makes the server's view match this client's, by sending a full-text
    /// `didChange` for every document that currently differs.
    ///
    /// This is the state switch. It is cheap because the server is an incremental
    /// engine: replacing one file's text invalidates only the queries depending on
    /// that file, not the whole index.
    pub fn ensure_loaded(&mut self, backend: &mut Backend, now: u64) -> (r: (Vec<Effect>, bool))
        ensures
            ({
                let turn = old(self)@.load(old(backend)@, now, None);
                &&& final(self)@ == turn.session
                &&& final(backend)@ == turn.backend
                &&& effects(r.0@) == turn.sent
                &&& r.1 == (turn.next is Fork)
            }),
    {
        let swapped = match backend.state.loaded_for {
            Some(owner) => owner != self.id,
            None => true,
        };
        let list = load_into(&mut backend.state.docs, &self.shadow);
        let any = list.len() > 0;
        if swapped || any {
            backend.state.loaded_for = Some(self.id);
            backend.state.generation = backend.state.generation.wrapping_add(1);
        }
        let fork = if any && swapped {
            self.note_swap(now)
        } else {
            false
        };
        (send_all(list), fork)
    }

    /// Restores every document to its base text if this client's overlay is the one
    /// currently loaded, returning the notifications to send.
    ///
    /// Called when the client stops caring about its overlay (closing a file, or going
    /// away entirely). Without it the server keeps holding text that no remaining
    /// client believes in, and every one of them pays a swap to get back to reality.
    fn plan_release(&self, st: &mut BackendState) -> (r: Vec<Json>)
        ensures
            final(st)@ == old(st)@.released(self@.id),
            messages(r@) == old(st)@.release_messages(self@.id),
    {
        let mine = match st.loaded_for {
            Some(owner) => owner == self.id,
            None => false,
        };
        if !mine {
            let none: Vec<Json> = Vec::new();
            assert(messages(none@) =~= Seq::empty());
            return none;
        }
        let nothing: Vec<(String, ShadowDoc)> = Vec::new();
        assert(table(nothing@) =~= Seq::empty());
        let list = load_into(&mut st.docs, &nothing);
        st.loaded_for = None;
        list
    }

    /// Opening a document.
    pub fn did_open(&mut self, backend: &mut Backend, v: &Json, now: u64) -> (r: (
        Vec<Effect>,
        bool,
    ))
        ensures
            ({
                let turn = old(self)@.did_open(old(backend)@, v@, now);
                &&& final(self)@ == turn.session
                &&& final(backend)@ == turn.backend
                &&& effects(r.0@) == turn.sent
                &&& r.1 == (turn.next is Fork)
                &&& turn.next == (if r.1 {
                    NextView::Fork(None)
                } else {
                    NextView::Continue
                })
            }),
    {
        broadcast use group_hash_axioms;

        let params = match v.get("params") {
            Some(p) => p,
            None => return (no_effects(), false),
        };
        let doc = match params.get("textDocument") {
            Some(d) => d,
            None => return (no_effects(), false),
        };
        let uri = text_member(doc, "uri");
        let text = text_member(doc, "text");
        let version = int_member(doc, "version");
        let language_id = text_member(doc, "languageId");
        insert(
            &mut self.shadow,
            uri.as_str(),
            ShadowDoc { text: Text::new(text.clone()), version, language_id },
        );
        match find(&backend.state.docs, uri.as_str()) {
            None => {
                let mut refs: HashSet<u64> = HashSet::new();
                refs.insert(self.id);
                let shared = SharedDoc {
                    base: Text::new(text.clone()),
                    loaded: Text::new(text),
                    version,
                    refs,
                };
                assert(shared@.refs =~= set![self.id]);
                insert(&mut backend.state.docs, uri.as_str(), shared);
                (one(Effect::ToServer(v.duplicate())), false)
            },
            Some(i) => {
                // Already open. Join it whatever its content.
                let ghost held = table(backend.state.docs@);
                let shared = &mut backend.state.docs[i].1;
                shared.refs.insert(self.id);
                proof {
                    lemma_place(held, uri@);
                    let doc = held[i as int].1;
                    assert(table(backend.state.docs@) =~= put(
                        held,
                        uri@,
                        DocView { refs: doc.refs.insert(self.id), ..doc },
                    ));
                }
                // Sends nothing when our text matches; otherwise loads our overlay.
                self.ensure_loaded(backend, now)
            },
        }
    }

    /// Editing a document.
    pub fn did_change(&mut self, backend: &mut Backend, v: &Json, now: u64) -> (r: (
        Vec<Effect>,
        bool,
    ))
        ensures
            ({
                let turn = old(self)@.did_change(old(backend)@, v@, now);
                &&& final(self)@ == turn.session
                &&& final(backend)@ == turn.backend
                &&& effects(r.0@) == turn.sent
                &&& r.1 == (turn.next is Fork)
                &&& turn.next == (if r.1 {
                    NextView::Fork(None)
                } else {
                    NextView::Continue
                })
            }),
    {
        broadcast use group_hash_axioms;

        let params = match v.get("params") {
            Some(p) => p,
            None => return (no_effects(), false),
        };
        let document = params.field("textDocument");
        let uri = text_member(&document, "uri");
        let version = int_member(&document, "version");
        let ghost changes = items_or_none(params@.field("contentChanges"@));
        let at = match find(&self.shadow, uri.as_str()) {
            Some(i) => i,
            None => {
                // A change to a document we never saw opened. Nothing sane to shadow, so
                // forward and let the server complain. It has no reason to where another
                // client opened the document: then it takes the change, and what it holds
                // is no longer what anybody else believes.
                if let Some(i) = find(&backend.state.docs, uri.as_str()) {
                    let ghost before = table(backend.state.docs@);
                    let mut text = backend.state.docs[i].1.loaded.clone();
                    apply_changes(&mut text, params);
                    let shared = &mut backend.state.docs[i].1;
                    shared.loaded = text;
                    shared.version = version;
                    backend.state.loaded_for = Some(self.id);
                    proof {
                        lemma_place(before, uri@);
                        let doc = before[i as int].1;
                        assert(table(backend.state.docs@) =~= put(
                            before,
                            uri@,
                            DocView { loaded: edited_all(doc.loaded, changes), version, ..doc },
                        ));
                    }
                }
                return (one(Effect::ToServer(v.duplicate())), false);
            },
        };
        let ghost own = self.shadow@[at as int].1@;
        let held_text = self.shadow[at].1.text.clone();
        let mut text = held_text.clone();
        apply_changes(&mut text, params);
        assert(text@ == edited_all(own.text, changes));
        let ghost held = table(self.shadow@);
        let shadow = &mut self.shadow[at].1;
        shadow.text = text.clone();
        shadow.version = version;
        proof {
            lemma_place(held, uri@);
            assert(table(self.shadow@) =~= put(
                held,
                uri@,
                ShadowView { text: text@, version, ..own },
            ));
        }

        // Fast path: we are the only client holding this file, nobody else has unsaved
        // edits anywhere, and the server is already showing our state. Then our edit
        // simply advances the shared base, and the client's own incremental change is
        // forwarded untouched. This is the overwhelmingly common case, and it costs
        // nothing.
        if let Some(i) = find(&backend.state.docs, uri.as_str()) {
            let refs = &backend.state.docs[i].1.refs;
            let sole_holder = refs.len() == 1 && refs.contains(&self.id);
            let shown = same(
                backend.state.docs[i].1.loaded.content.as_str(),
                held_text.content.as_str(),
            );
            // Every document clean means no other client has an overlay loaded, so
            // advancing this one cannot trample anybody.
            if sole_holder && are_clean(&backend.state.docs) && shown {
                let ghost before = table(backend.state.docs@);
                let shared = &mut backend.state.docs[i].1;
                shared.base = text.clone();
                shared.loaded = text.clone();
                shared.version = version;
                proof {
                    lemma_place(before, uri@);
                    let doc = before[i as int].1;
                    assert(table(backend.state.docs@) =~= put(
                        before,
                        uri@,
                        DocView { base: text@, loaded: text@, version, ..doc },
                    ));
                }
                // Everything is still clean, so no client owns the loaded state.
                // Leaving a stale owner here would misroute the diagnostics this edit is
                // about to produce.
                backend.state.loaded_for = None;
                return (one(Effect::ToServer(v.duplicate())), false);
            }
        }
        // Otherwise this is an overlay edit. Rather than fork a whole second language
        // server, push our state to the one we share.
        self.ensure_loaded(backend, now)
    }

    /// A save is what collapses an overlay back into shared state.
    ///
    /// This matters more for agents than for people. An agent edits a file and writes
    /// it to disk within seconds, and at that moment its version *is* the truth every
    /// other client will read. Advancing the base here is what keeps overlays
    /// short-lived, and with them the swapping.
    pub fn did_save(&self, backend: &mut Backend, v: &Json) -> (r: Vec<Effect>)
        ensures
            ({
                let turn = self@.did_save(old(backend)@, v@);
                &&& turn.session == self@
                &&& final(backend)@ == turn.backend
                &&& effects(r@) == turn.sent
                &&& turn.next is Continue
            }),
    {
        let uri = match read_document_uri(v) {
            Some(u) => u,
            None => return no_effects(),
        };
        if let Some(k) = find(&self.shadow, uri.as_str()) {
            if let Some(i) = find(&backend.state.docs, uri.as_str()) {
                let ghost before = table(backend.state.docs@);
                let text = self.shadow[k].1.text.clone();
                let shown = same(
                    backend.state.docs[i].1.loaded.content.as_str(),
                    text.content.as_str(),
                );
                if backend.state.loaded_for.is_none() && !shown {
                    // Nobody's overlay is loaded, so what is agreed is what the server
                    // shows.
                    let shared = &mut backend.state.docs[i].1;
                    let version = shared.version.wrapping_add(1);
                    shared.base = text.clone();
                    shared.loaded = text.clone();
                    shared.version = version;
                    proof {
                        lemma_place(before, uri@);
                        let doc = before[i as int].1;
                        assert(table(backend.state.docs@) =~= put(
                            before,
                            uri@,
                            DocView { base: text@, loaded: text@, version, ..doc },
                        ));
                    }
                    let mut out = one(
                        Effect::ToServer(
                            change_message(uri.as_str(), version, text.content.as_str()),
                        ),
                    );
                    let ghost first = effects(out@);
                    out.push(Effect::ToServer(v.duplicate()));
                    assert(effects(out@) =~= first.push(EffectView::ToServer(v@)));
                    return out;
                }
                let shared = &mut backend.state.docs[i].1;
                shared.base = text.clone();
                let level = shared.is_clean();
                proof {
                    lemma_place(before, uri@);
                    let doc = before[i as int].1;
                    assert(table(backend.state.docs@) =~= put(
                        before,
                        uri@,
                        DocView { base: text@, ..doc },
                    ));
                }
                // No overlay is loaded any more. If ours was the only one, the shared
                // state is clean again and nobody owns it.
                if level && are_clean(&backend.state.docs) {
                    backend.state.loaded_for = None;
                }
            }
        }
        one(Effect::ToServer(v.duplicate()))
    }

    /// Closing a document.
    pub fn did_close(&mut self, backend: &mut Backend, v: &Json) -> (r: Vec<Effect>)
        ensures
            ({
                let turn = old(self)@.did_close(old(backend)@, v@);
                &&& final(self)@ == turn.session
                &&& final(backend)@ == turn.backend
                &&& effects(r@) == turn.sent
                &&& turn.next is Continue
            }),
    {
        broadcast use group_hash_axioms;

        let uri = match read_document_uri(v) {
            Some(u) => u,
            None => return no_effects(),
        };
        remove(&mut self.shadow, uri.as_str());
        let mut last_ref = false;
        if let Some(i) = find(&backend.state.docs, uri.as_str()) {
            let ghost before = table(backend.state.docs@);
            let shared = &mut backend.state.docs[i].1;
            shared.refs.remove(&self.id);
            last_ref = shared.refs.is_empty();
            proof {
                lemma_place(before, uri@);
                let doc = before[i as int].1;
                assert(backend.state.docs@[i as int].1@.refs =~= doc.refs.remove(self.id));
                assert(table(backend.state.docs@) =~= put(
                    before,
                    uri@,
                    DocView { refs: doc.refs.remove(self.id), ..doc },
                ));
            }
            if last_ref {
                backend.state.docs.remove(i);
                assert(table(backend.state.docs@) =~= without(before, uri@));
            }
        }
        // We no longer hold this file, so our overlay should not be what the server is
        // showing everyone else.
        let released = self.plan_release(&mut backend.state);
        // Only the last holder may tell the server the document is closed.
        let mut out = if last_ref {
            one(Effect::ToServer(v.duplicate()))
        } else {
            no_effects()
        };
        let mut sent = send_all(released);
        concat(&mut out, &mut sent);
        out
    }

    /// Widening the workspace mid-session: adopted if the current backend already
    /// covers the new roots, otherwise a fork.
    pub fn did_change_workspace_folders(&mut self, backend: &Backend, v: &Json) -> (r: (
        Vec<Effect>,
        bool,
    ))
        ensures
            ({
                let turn = old(self)@.did_change_workspace_folders(backend@, v@);
                &&& final(self)@ == turn.session
                &&& turn.backend == backend@
                &&& effects(r.0@) == turn.sent
                &&& turn.next == (if r.1 {
                    NextView::Fork(None)
                } else {
                    NextView::Continue
                })
            }),
    {
        let list = v.field("params").field("event").field("added");
        let mut added: Vec<String> = Vec::new();
        assert(views(added@) =~= folder_paths(Seq::empty()));
        if let Some(folders) = list.as_array() {
            added = read_folders(folders);
        }
        if added.len() == 0 {
            return (one(Effect::ToServer(v.duplicate())), false);
        }
        let mut roots = copy_list(&self.key.roots);
        let ghost own = views(roots@);
        let ghost more = views(added@);
        roots.append(&mut added);
        assert(views(roots@) =~= own + more);
        let wider = BackendKey {
            server: self.key.server.clone(),
            roots: sort_unique(&roots),
            init_hash: self.key.init_hash.clone(),
            extra_args: copy_list(&self.key.extra_args),
        };
        let covered = backend.key.covers(&wider);
        self.key = wider;
        if covered {
            (one(Effect::ToServer(v.duplicate())), false)
        } else {
            (no_effects(), true)
        }
    }

    /// A cancellation as it goes to the server.
    pub fn cancel(&self, v: Json) -> (r: Json)
        ensures
            r@ == self@.cancellation(v@),
    {
        let params = v.field("params");
        match params.get("id") {
            Some(id) => {
                let encoded = msg::encode_id(self.id, id);
                let params = params.duplicate().with("id", encoded);
                v.with("params", params)
            },
            None => v,
        }
    }

    /// Handles one message from the client, which shares `backend`.
    pub fn handle(&mut self, backend: &mut Backend, v: Json, now: u64) -> (r: (Vec<Effect>, Next))
        ensures
            ({
                let turn = old(self)@.handle(old(backend)@, v@, now);
                &&& final(self)@ == turn.session
                &&& final(backend)@ == turn.backend
                &&& effects(r.0@) == turn.sent
                &&& r.1@ == turn.next
            }),
    {
        if backend.is_dead() {
            // The shared server died. Get everyone a working one rather than leaving the
            // client talking to a corpse.
            return (no_effects(), Next::Respawn(v));
        }
        self.dispatch(backend, v, now)
    }

    /// Handles one message from the client on a backend that was found alive.
    pub fn dispatch(&mut self, backend: &mut Backend, v: Json, now: u64) -> (r: (
        Vec<Effect>,
        Next,
    ))
        ensures
            ({
                let turn = old(self)@.dispatch(old(backend)@, v@, now);
                &&& final(self)@ == turn.session
                &&& final(backend)@ == turn.backend
                &&& effects(r.0@) == turn.sent
                &&& r.1@ == turn.next
            }),
    {
        let method = msg::method(&v).to_owned();
        let method = method.as_str();
        // The handshake already happened. A second initialize would be a protocol error
        // from the client; answer from cache regardless.
        if same(method, "initialize") {
            let reply = msg::response(v.field("id"), backend.init_result.duplicate());
            return (one(Effect::ToClient(self.id, reply)), Next::Continue);
        }
        if same(method, "initialized") {
            return (no_effects(), Next::Continue);
        }
        // Shutdown is per-client. The shared server keeps running for everyone else; the
        // daemon's idle timer decides its fate.
        if same(method, "shutdown") {
            let reply = msg::response(v.field("id"), Json::Null);
            return (one(Effect::ToClient(self.id, reply)), Next::Continue);
        }
        if same(method, "exit") {
            return (no_effects(), Next::Exit);
        }
        if same(method, "textDocument/didOpen") {
            let (sent, fork) = self.did_open(backend, &v, now);
            return (sent, after(fork));
        }
        if same(method, "textDocument/didChange") {
            let (sent, fork) = self.did_change(backend, &v, now);
            return (sent, after(fork));
        }
        if same(method, "textDocument/didSave") {
            return (self.did_save(backend, &v), Next::Continue);
        }
        if same(method, "textDocument/didClose") {
            return (self.did_close(backend, &v), Next::Continue);
        }
        if same(method, "workspace/didChangeWorkspaceFolders") {
            let (sent, fork) = self.did_change_workspace_folders(backend, &v);
            return (sent, after(fork));
        }
        if same(method, "$/cancelRequest") {
            return (one(Effect::ToServer(self.cancel(v))), Next::Continue);
        }
        if msg::is_request(&v) && self.anyone_diverged(backend) {
            // Skipped entirely while nobody has unsaved edits, which is the normal case.
            let (sent, fork) = self.ensure_loaded(backend, now);
            if fork {
                return (sent, Next::Fork(Some(v)));
            }
            let mut sent = sent;
            let ghost held = effects(sent@);
            let message = self.forward(v);
            sent.push(Effect::ToServer(message));
            assert(effects(sent@) =~= held.push(EffectView::ToServer(message@)));
            return (sent, Next::Continue);
        }
        (one(Effect::ToServer(self.forward(v))), Next::Continue)
    }

    /// A client that has just connected, and what it is told at once.
    pub fn new(
        id: u64,
        backend: &mut Backend,
        key: BackendKey,
        init_params: Json,
        now: u64,
    ) -> (r: (Self, Vec<Effect>))
        ensures
            r.0@ == (SessionView {
                id,
                key: key@,
                init_params: init_params@,
                shadow: Seq::empty(),
                swaps: 0,
                swap_window: now,
            }),
            final(backend)@ == old(backend)@.registered(id),
            effects(r.1@) == held_for(id, old(backend)@.state.pending),
    {
        let s = Self { id, key, init_params, shadow: Vec::new(), swaps: 0, swap_window: now };
        assert(table(s.shadow@) =~= Seq::empty());
        let sent = s.register_with_backend(backend);
        (s, sent)
    }

    fn register_with_backend(&self, backend: &mut Backend) -> (r: Vec<Effect>)
        ensures
            final(backend)@ == old(backend)@.registered(self@.id),
            effects(r@) == held_for(self@.id, old(backend)@.state.pending),
    {
        if !has_client(&backend.state.clients, self.id) {
            backend.state.clients.push(self.id);
        }
        // We may be the first client. Anything the server asked while nobody was
        // listening is now answerable.
        let mut out: Vec<Effect> = Vec::new();
        let mut i: usize = 0;
        let ghost pending = messages(backend.state.pending_requests@);
        while i < backend.state.pending_requests.len()
            invariant
                i <= backend.state.pending_requests@.len(),
                pending == messages(backend.state.pending_requests@),
                out@.len() == i,
                forall|k: int| 0 <= k < i ==> (#[trigger] out@[k])@ == EffectView::ToClient(
                    self.id,
                    pending[k],
                ),
            decreases backend.state.pending_requests@.len() - i,
        {
            out.push(Effect::ToClient(self.id, backend.state.pending_requests[i].duplicate()));
            i += 1;
        }
        assert(effects(out@) =~= held_for(self.id, pending));
        backend.state.pending_requests = Vec::new();
        backend.idle_since = None;
        assert(backend@.state.pending =~= Seq::empty());
        out
    }

    /// Moves this client, which has left its backend, onto `next` and replays its
    /// documents, so that the new server sees exactly what the client sees.
    pub fn switch_to(&self, next: &mut Backend) -> (r: Vec<Effect>)
        ensures
            final(next)@ == old(next)@.joined_by(self@),
            effects(r@) == held_for(self@.id, old(next)@.state.pending) + to_server(
                old(next)@.join_messages(self@),
            ),
    {
        let mut out = self.register_with_backend(next);
        let ghost b = next@;
        let mut list = replay(&mut next.state.docs, &self.shadow, self.id);
        let ghost opened = messages(list@);
        let mut overlay = load_into(&mut next.state.docs, &self.shadow);
        let ghost loaded = messages(overlay@);
        if overlay.len() > 0 {
            next.state.loaded_for = Some(self.id);
            next.state.generation = next.state.generation.wrapping_add(1);
        } else {
            proof {
                lemma_nothing_loaded(
                    self@.shadow,
                    replayed_docs(b.state.docs, self@.shadow, self.id),
                );
            }
        }
        list.append(&mut overlay);
        assert(messages(list@) =~= opened + loaded);
        let mut sent = send_all(list);
        concat(&mut out, &mut sent);
        out
    }

    /// Takes this client off `backend`.
    pub fn detach_from_backend(&self, backend: &mut Backend, now: u64) -> (r: Vec<Effect>)
        ensures
            final(backend)@ == old(backend)@.detached(self@.id, now),
            effects(r@) == to_server(old(backend)@.detach_messages(self@.id)),
    {
        remove_client(&mut backend.state.clients, self.id);
        // Hand the shared state back before our documents disappear, or the survivors
        // are left looking at our unsaved edits.
        let released = self.plan_release(&mut backend.state);
        let orphaned = drop_holder(&mut backend.state.docs, self.id);
        if backend.state.clients.len() == 0 {
            backend.idle_since = Some(now);
        }
        let mut out = send_all(orphaned);
        let mut sent = send_all(released);
        concat(&mut out, &mut sent);
        assert(effects(out@) =~= to_server(old(backend)@.detach_messages(self@.id)));
        out
    }
}

/// Brings a client's documents along: joins those that are open already, and opens the
/// others.
fn replay(
    docs: &mut Vec<(String, SharedDoc)>,
    shadow: &Vec<(String, ShadowDoc)>,
    client: u64,
) -> (r: Vec<Json>)
    ensures
        table(final(docs)@) == replayed_docs(table(old(docs)@), table(shadow@), client),
        messages(r@) == replay_messages(table(old(docs)@), table(shadow@), client),
{
    let ghost before = table(docs@);
    let ghost sh = table(shadow@);
    let mut list: Vec<Json> = Vec::new();
    let mut i: usize = 0;
    proof {
        assert(messages(list@) =~= replay_messages(before, sh.take(0), client));
        assert(table(docs@) =~= replayed_docs(before, sh.take(0), client));
    }
    while i < shadow.len()
        invariant
            i <= shadow@.len(),
            sh == table(shadow@),
            messages(list@) == replay_messages(before, sh.take(i as int), client),
            table(docs@) == replayed_docs(before, sh.take(i as int), client),
        decreases shadow@.len() - i,
    {
        broadcast use group_hash_axioms;

        let uri = shadow[i].0.as_str();
        let own = &shadow[i].1;
        let ghost listed = messages(list@);
        let ghost held = table(docs@);
        proof {
            assert(sh.take(i + 1).drop_last() =~= sh.take(i as int));
            assert(sh.take(i + 1).last() == (uri@, own@));
        }
        match find(docs, uri) {
            Some(k) => {
                let shared = &mut docs[k].1;
                shared.refs.insert(client);
                proof {
                    lemma_place(held, uri@);
                    let doc = held[k as int].1;
                    assert(table(docs@) =~= put(
                        held,
                        uri@,
                        DocView { refs: doc.refs.insert(client), ..doc },
                    ));
                }
            },
            None => {
                let mut refs: HashSet<u64> = HashSet::new();
                refs.insert(client);
                let shared = SharedDoc {
                    base: own.text.clone(),
                    loaded: own.text.clone(),
                    version: own.version,
                    refs,
                };
                assert(shared@.refs =~= set![client]);
                insert(docs, uri, shared);
                let document = Json::object().with("uri", Json::string(uri)).with(
                    "languageId",
                    Json::string(own.language_id.as_str()),
                ).with("version", Json::signed(own.version)).with(
                    "text",
                    Json::string(own.text.content.as_str()),
                );
                list.push(
                    msg::notification(
                        "textDocument/didOpen",
                        Json::object().with("textDocument", document),
                    ),
                );
                assert(messages(list@) =~= listed.push(open_json(uri@, own@)));
            },
        }
        i += 1;
    }
    assert(sh.take(i as int) =~= sh);
    list
}

/// Where loading sends nothing, it changes nothing.
pub proof fn lemma_nothing_loaded(shadow: Shadow, docs: Docs)
    requires
        load_messages(shadow, docs).len() == 0,
    ensures
        loaded_docs(shadow, docs) == docs,
    decreases docs.len(),
{
    if docs.len() > 0 {
        lemma_nothing_loaded(shadow, docs.drop_last());
        assert forall|i: int| 0 <= i < docs.len() implies #[trigger] loaded_docs(shadow, docs)[i]
            == docs[i] by {
            if i < docs.len() - 1 {
                assert(loaded_docs(shadow, docs.drop_last())[i] == docs.drop_last()[i]);
                assert(docs.drop_last()[i] == docs[i]);
            }
        }
    }
    assert(loaded_docs(shadow, docs) =~= docs);
}

/// Applies the changes that an edit's parameters list.
fn apply_changes(text: &mut Text, params: &Json)
    ensures
        final(text)@ == edited_all(
            old(text)@,
            items_or_none(params@.field("contentChanges"@)),
        ),
{
    if let Some(list) = params.get("contentChanges") {
        if let Some(list) = list.as_array() {
            apply_all(text, list);
        }
    }
}

/// Takes `client` out of the list.
fn remove_client(clients: &mut Vec<u64>, client: u64)
    ensures
        final(clients)@ == others(old(clients)@, client),
{
    let mut out: Vec<u64> = Vec::new();
    let mut i: usize = 0;
    let ghost all = clients@;
    while i < clients.len()
        invariant
            i <= clients@.len(),
            all == clients@,
            out@ == others(all.take(i as int), client),
        decreases clients@.len() - i,
    {
        assert(all.take(i + 1).drop_last() =~= all.take(i as int));
        if clients[i] != client {
            out.push(clients[i]);
        }
        i += 1;
    }
    assert(all.take(i as int) =~= all);
    *clients = out;
}

/// Takes `client` off every document, and takes out those that nobody holds any more.
/// Returns the notifications that close them.
fn drop_holder(docs: &mut Vec<(String, SharedDoc)>, client: u64) -> (r: Vec<Json>)
    ensures
        table(final(docs)@) == kept_docs(table(old(docs)@), client),
        messages(r@) == orphan_messages(table(old(docs)@), client),
{
    broadcast use group_hash_axioms;

    let mut out: Vec<Json> = Vec::new();
    let mut i: usize = 0;
    let ghost t = table(docs@);
    let ghost mut done: int = 0;
    proof {
        assert(table(docs@).take(0) =~= kept_docs(t.take(0), client));
        assert(table(docs@).skip(0) =~= t.skip(0));
        assert(messages(out@) =~= orphan_messages(t.take(0), client));
    }
    while i < docs.len()
        invariant
            i <= docs@.len(),
            0 <= done <= t.len(),
            docs@.len() - i == t.len() - done,
            table(docs@).take(i as int) == kept_docs(t.take(done), client),
            table(docs@).skip(i as int) == t.skip(done),
            messages(out@) == orphan_messages(t.take(done), client),
        decreases t.len() - done,
    {
        broadcast use group_hash_axioms;

        let ghost before = table(docs@);
        let ghost entry = t[done];
        let ghost held = messages(out@);
        proof {
            assert(t.take(done + 1).drop_last() =~= t.take(done));
            assert(t.skip(done)[0] == entry);
            assert(before.skip(i as int)[0] == before[i as int]);
            assert(before[i as int] == entry);
        }
        let doc = &mut docs[i].1;
        doc.refs.remove(&client);
        let orphan = doc.refs.is_empty();
        proof {
            assert(docs@[i as int].1@.refs =~= entry.1.refs.remove(client));
            assert(table(docs@) =~= before.update(
                i as int,
                (entry.0, DocView { refs: entry.1.refs.remove(client), ..entry.1 }),
            ));
        }
        if orphan {
            let (uri, _) = docs.remove(i);
            out.push(
                msg::notification(
                    "textDocument/didClose",
                    Json::object().with(
                        "textDocument",
                        Json::object().with("uri", Json::string(uri.as_str())),
                    ),
                ),
            );
            proof {
                assert(table(docs@) =~= before.remove(i as int));
                assert(table(docs@).take(i as int) =~= before.take(i as int));
                assert(before.skip(i as int).skip(1) =~= t.skip(done + 1)) by {
                    assert(t.skip(done).skip(1) =~= t.skip(done + 1));
                }
                assert(table(docs@).skip(i as int) =~= before.skip(i as int).skip(1));
                assert(messages(out@) =~= held.push(close_json(entry.0)));
            }
        } else {
            proof {
                let now = table(docs@);
                assert(now.take(i + 1) =~= before.take(i as int).push(now[i as int]));
                assert(t.skip(done).skip(1) =~= t.skip(done + 1));
                assert(now.skip(i + 1) =~= before.skip(i as int).skip(1));
            }
            i += 1;
        }
        proof {
            done = done + 1;
        }
    }
    assert(t.take(done) =~= t);
    assert(table(docs@).take(i as int) =~= table(docs@));
    out
}

/// Applies a list of changes, each to what the one before it left.
fn apply_all(text: &mut Text, changes: &Vec<Json>)
    ensures
        final(text)@ == edited_all(old(text)@, items_view(changes@)),
{
    let ghost all = items_view(changes@);
    let ghost start = text@;
    proof {
        lemma_items_view(changes@);
    }
    let mut i: usize = 0;
    assert(text@ == edited_all(start, all.take(0)));
    while i < changes.len()
        invariant
            i <= changes@.len(),
            all == Seq::new(changes@.len(), |k: int| json_view(changes@[k])),
            text@ == edited_all(start, all.take(i as int)),
        decreases changes@.len() - i,
    {
        assert(all.take(i + 1).drop_last() =~= all.take(i as int));
        assert(all.take(i + 1).last() == changes@[i as int]@);
        text.apply(&changes[i]);
        i += 1;
    }
    assert(all.take(i as int) =~= all);
}

/// Appends messages.
fn concat(out: &mut Vec<Effect>, more: &mut Vec<Effect>)
    ensures
        effects(final(out)@) == effects(old(out)@) + effects(old(more)@),
{
    out.append(more);
    assert(effects(out@) =~= effects(old(out)@) + effects(old(more)@));
}

/// What follows where a message may have made the client fork.
fn after(fork: bool) -> (r: Next)
    ensures
        r@ == (if fork {
            NextView::Fork(None)
        } else {
            NextView::Continue
        }),
{
    if fork {
        Next::Fork(None)
    } else {
        Next::Continue
    }
}

} // verus!
