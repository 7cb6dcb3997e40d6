//! What a client's messages do: to its own view of its documents, to what is shared, and to
//! what the server is told.

use vstd::prelude::*;
use vstd::string::*;
use crate::daemon::backend::{all_clean, BackendView, DocView, Docs, EffectView};
use crate::daemon::session::{
    change_json, close_json, int_or_zero, items_or_none, load_messages, loaded_doc, loaded_docs,
    open_json, orphan_messages, replay_messages, replayed_docs, shows, wanted, NextView, SessionView, Shadow, ShadowView,
    SWAP_THRASH_LIMIT, SWAP_WINDOW,
};
use crate::daemon::mirror::lemma_loaded_lookup;
use crate::daemon::sharing::{
    holds, lemma_all_loaded, lemma_load_shows_own_view, lemma_moving_replays_documents,
    lemma_nothing_to_load, lemma_release_restores_the_base, lemma_replayed, lemma_same_agreement,
    lemma_widening, replayed_doc,
};
use crate::daemon::uri::folder_paths;
use crate::json::{int_json, JsonView};
use crate::msg;
use crate::table::{
    distinct, lemma_place, lemma_place_is, lemma_put, lemma_without, lookup, place, put, without,
};
use crate::text::edited_all;

verus! {

/// The message is about the document at `uri`.
pub open spec fn is_about(v: JsonView, uri: Seq<char>) -> bool {
    v.field("params"@).field("textDocument"@).field("uri"@) == JsonView::Str(uri)
}

/// A document that somebody holds and the server shows to the client `s` says what `s`
/// believes.
proof fn lemma_shown(shadow: Shadow, docs: Docs, uri: Seq<char>, own: ShadowView)
    requires
        shows(shadow, docs),
        lookup(shadow, uri) == Some(own),
        lookup(docs, uri) is Some,
    ensures
        lookup(docs, uri)->0.loaded == own.text,
{
    lemma_place(docs, uri);
    let i = place(docs, uri)->0;
    assert(docs[i].1.loaded == wanted(shadow, docs[i].0, docs[i].1));
}

proof fn lemma_methods()
    ensures
        "textDocument/didOpen"@ != "textDocument/didChange"@,
        "textDocument/didOpen"@ != "textDocument/didClose"@,
        "textDocument/didOpen"@ != "textDocument/didSave"@,
        "textDocument/didChange"@ != "textDocument/didClose"@,
        "textDocument/didChange"@ != "textDocument/didSave"@,
        "textDocument/didClose"@ != "textDocument/didSave"@,
        "textDocument/didOpen"@.len() == 20,
        "textDocument/didChange"@.len() == 22,
        "textDocument/didClose"@.len() == 21,
        "textDocument/didSave"@.len() == 20,
        "initialize"@.len() == 10,
        "initialized"@.len() == 11,
        "shutdown"@.len() == 8,
        "exit"@.len() == 4,
        "$/cancelRequest"@.len() == 15,
        "workspace/didChangeWorkspaceFolders"@.len() == 35,
{
    reveal_strlit("textDocument/didOpen");
    reveal_strlit("textDocument/didChange");
    reveal_strlit("textDocument/didClose");
    reveal_strlit("textDocument/didSave");
    reveal_strlit("initialize");
    reveal_strlit("initialized");
    reveal_strlit("shutdown");
    reveal_strlit("exit");
    reveal_strlit("$/cancelRequest");
    reveal_strlit("workspace/didChangeWorkspaceFolders");
    assert("textDocument/didOpen"@.len() == 20);
    assert("textDocument/didSave"@.len() == 20);
    assert("textDocument/didClose"@.len() == 21);
    assert("textDocument/didChange"@.len() == 22);
    assert("textDocument/didOpen"@[16] != "textDocument/didSave"@[16]);
}

/// A client that opens a document sees it as it sent it, whether or not the document was
/// open already, and its other documents as before. It holds the document, and the server
/// shows its text. What others agreed on stays; where nobody had the document open, its text
/// is what is agreed, and the server gets the message as it is.
pub proof fn lemma_opening(
    s: SessionView,
    b: BackendView,
    v: JsonView,
    now: u64,
    uri: Seq<char>,
    text: Seq<char>,
    version: i64,
    language_id: Seq<char>,
)
    requires
        s.wf(),
        b.state.wf(),
        !b.state.dead,
        msg::method_of(v) == "textDocument/didOpen"@,
        is_about(v, uri),
        v.field("params"@).field("textDocument"@).field("text"@) == JsonView::Str(text),
        v.field("params"@).field("textDocument"@).field("version"@) == int_json(version as int),
        v.field("params"@).field("textDocument"@).field("languageId"@) == JsonView::Str(
            language_id,
        ),
    ensures
        ({
            let turn = s.handle(b, v, now);
            let docs = turn.backend.state.docs;
            let doc = lookup(docs, uri)->0;
            &&& lookup(turn.session.shadow, uri) == Some(ShadowView { text, version, language_id })
            &&& forall|u: Seq<char>|
                u != uri ==> #[trigger] lookup(turn.session.shadow, u) == lookup(s.shadow, u)
            &&& turn.session.id == s.id && turn.session.key == s.key && turn.session.init_params
                == s.init_params
            &&& holds(docs, uri, s.id)
            &&& doc.loaded == text
            &&& match lookup(b.state.docs, uri) {
                Some(shared) => {
                    &&& shows(turn.session.shadow, docs)
                    &&& doc.base == shared.base
                    &&& doc.refs == shared.refs.insert(s.id)
                    &&& forall|i: int|
                        0 <= i < turn.sent.len() ==> (#[trigger] turn.sent[i]) != (
                        EffectView::ToServer(v))
                },
                None => {
                    &&& doc.base == text
                    &&& doc.version == version
                    &&& turn.sent == seq![EffectView::ToServer(v)]
                    &&& turn.next is Continue
                    &&& forall|u: Seq<char>|
                        u != uri ==> #[trigger] lookup(docs, u) == lookup(b.state.docs, u)
                },
            }
            &&& turn.next is Continue || turn.next == NextView::Fork(None)
        }),
{
    lemma_methods();
    let own = ShadowView { text, version, language_id };
    let mine = put(s.shadow, uri, own);
    lemma_put(s.shadow, uri, own);
    let next = SessionView { shadow: mine, ..s };
    let turn = s.handle(b, v, now);
    assert(turn == s.did_open(b, v, now));
    match lookup(b.state.docs, uri) {
        None => {
            let shared = DocView { base: text, loaded: text, version, refs: set![s.id] };
            lemma_put(b.state.docs, uri, shared);
        },
        Some(shared) => {
            let held = DocView { refs: shared.refs.insert(s.id), ..shared };
            lemma_put(b.state.docs, uri, held);
            let joined = b.with_docs(put(b.state.docs, uri, held));
            lemma_load_shows_own_view(next, joined, now);
            lemma_same_agreement(joined.state.docs, turn.backend.state.docs, uri);
            lemma_shown(mine, turn.backend.state.docs, uri, own);
            assert forall|i: int| 0 <= i < turn.sent.len() implies (#[trigger] turn.sent[i]) != (
            EffectView::ToServer(v)) by {
                let list = load_messages(mine, joined.state.docs);
                lemma_loading_only_edits(mine, joined.state.docs, i);
                assert(turn.sent[i] == EffectView::ToServer(list[i]));
            }
        },
    }
}

/// Loading opens nothing: what it sends are edits.
proof fn lemma_loading_only_edits(shadow: Shadow, docs: Docs, k: int)
    requires
        0 <= k < load_messages(shadow, docs).len(),
    ensures
        msg::method_of(load_messages(shadow, docs)[k]) == "textDocument/didChange"@,
    decreases docs.len(),
{
    let before = docs.drop_last();
    if k < load_messages(shadow, before).len() {
        lemma_loading_only_edits(shadow, before, k);
    } else {
        msg::lemma_message_shapes(
            JsonView::Null,
            "textDocument/didChange"@,
            load_messages(shadow, docs)[k].field("params"@),
            JsonView::Null,
            0,
            Seq::empty(),
        );
        msg::lemma_names_differ();
    }
}

/// A client that edits a document it has open sees its own text with the changes applied, and
/// its other documents as before; and the server shows that text, if it has the document.
pub proof fn lemma_editing(
    s: SessionView,
    b: BackendView,
    v: JsonView,
    now: u64,
    uri: Seq<char>,
    changes: Seq<JsonView>,
    version: i64,
    own: ShadowView,
)
    requires
        s.wf(),
        b.state.wf(),
        !b.state.dead,
        msg::method_of(v) == "textDocument/didChange"@,
        is_about(v, uri),
        v.field("params"@).field("contentChanges"@) == JsonView::Array(changes),
        v.field("params"@).field("textDocument"@).field("version"@) == int_json(version as int),
        lookup(s.shadow, uri) == Some(own),
    ensures
        ({
            let turn = s.handle(b, v, now);
            let docs = turn.backend.state.docs;
            let text = edited_all(own.text, changes);
            &&& lookup(turn.session.shadow, uri) == Some(
                ShadowView { text, version, language_id: own.language_id },
            )
            &&& forall|u: Seq<char>|
                u != uri ==> #[trigger] lookup(turn.session.shadow, u) == lookup(s.shadow, u)
            &&& turn.session.id == s.id && turn.session.key == s.key && turn.session.init_params
                == s.init_params
            &&& lookup(docs, uri) is Some <==> lookup(b.state.docs, uri) is Some
            &&& lookup(docs, uri) is Some ==> lookup(docs, uri)->0.loaded == text && lookup(
                docs,
                uri,
            )->0.refs == lookup(b.state.docs, uri)->0.refs
            &&& !s.sole_holder(b, uri) && lookup(docs, uri) is Some ==> lookup(docs, uri)->0.base
                == lookup(b.state.docs, uri)->0.base
            &&& turn.next is Continue || turn.next == NextView::Fork(None)
        }),
{
    lemma_methods();
    let text = edited_all(own.text, changes);
    let new = ShadowView { text, version, ..own };
    let mine = put(s.shadow, uri, new);
    lemma_put(s.shadow, uri, new);
    let next = SessionView { shadow: mine, ..s };
    let turn = s.handle(b, v, now);
    assert(turn == s.did_change(b, v, now));
    if let Some(shared) = lookup(b.state.docs, uri) {
        lemma_put(
            b.state.docs,
            uri,
            DocView { base: text, loaded: text, version, ..shared },
        );
    }
    if turn == next.load(b, now, None) {
        lemma_load_shows_own_view(next, b, now);
        lemma_same_agreement(b.state.docs, turn.backend.state.docs, uri);
        if lookup(b.state.docs, uri) is Some {
            lemma_shown(mine, turn.backend.state.docs, uri, new);
        }
    }
}

/// An edit of a document that the client never opened changes nothing that it sees, and goes
/// to the server as it is.
pub proof fn lemma_editing_unopened(
    s: SessionView,
    b: BackendView,
    v: JsonView,
    now: u64,
    uri: Seq<char>,
)
    requires
        s.wf(),
        b.state.wf(),
        !b.state.dead,
        msg::method_of(v) == "textDocument/didChange"@,
        is_about(v, uri),
        lookup(s.shadow, uri) is None,
    ensures
        ({
            let turn = s.handle(b, v, now);
            &&& turn.session == s
            &&& turn.sent == seq![EffectView::ToServer(v)]
            &&& turn.next is Continue
            &&& lookup(b.state.docs, uri) is None ==> turn.backend == b
            &&& forall|u: Seq<char>|
                u != uri ==> #[trigger] lookup(turn.backend.state.docs, u) == lookup(
                    b.state.docs,
                    u,
                )
            &&& lookup(b.state.docs, uri) is Some ==> lookup(
                turn.backend.state.docs,
                uri,
            ) is Some && lookup(turn.backend.state.docs, uri)->0.base == lookup(
                b.state.docs,
                uri,
            )->0.base && lookup(turn.backend.state.docs, uri)->0.refs == lookup(
                b.state.docs,
                uri,
            )->0.refs
        }),
{
    lemma_methods();
    let turn = s.handle(b, v, now);
    assert(turn == s.did_change(b, v, now));
    if let Some(shared) = lookup(b.state.docs, uri) {
        lemma_put(b.state.docs, uri, lookup(turn.backend.state.docs, uri)->0);
        let params = v.field("params"@);
        let version = int_or_zero(
            params.field("textDocument"@).field("version"@),
        );
        let changes = items_or_none(params.field("contentChanges"@));
        lemma_put(
            b.state.docs,
            uri,
            DocView { loaded: edited_all(shared.loaded, changes), version, ..shared },
        );
    }
}

/// A client that saves a document sees what it saw, and what it sees of that document is what
/// everyone agrees on from then on. Other documents stay as they are, and the server is told,
/// last of all.
pub proof fn lemma_saving(
    s: SessionView,
    b: BackendView,
    v: JsonView,
    now: u64,
    uri: Seq<char>,
    own: ShadowView,
)
    requires
        s.wf(),
        b.state.wf(),
        !b.state.dead,
        msg::method_of(v) == "textDocument/didSave"@,
        is_about(v, uri),
        lookup(s.shadow, uri) == Some(own),
        lookup(b.state.docs, uri) is Some,
    ensures
        ({
            let turn = s.handle(b, v, now);
            let docs = turn.backend.state.docs;
            let old = lookup(b.state.docs, uri)->0;
            &&& turn.session == s
            &&& lookup(docs, uri) is Some
            &&& lookup(docs, uri)->0.base == own.text
            &&& lookup(docs, uri)->0.refs == old.refs
            &&& old.loaded == own.text ==> lookup(docs, uri)->0.loaded == own.text && turn.sent
                == seq![EffectView::ToServer(v)]
            &&& forall|u: Seq<char>|
                u != uri ==> #[trigger] lookup(docs, u) == lookup(b.state.docs, u)
            &&& turn.sent.len() > 0 && turn.sent.last() == EffectView::ToServer(v)
            &&& turn.next is Continue
            &&& turn.backend.state.loaded_for == b.state.loaded_for
                || turn.backend.state.loaded_for is None && all_clean(docs)
        }),
{
    lemma_methods();
    let turn = s.handle(b, v, now);
    assert(turn == s.did_save(b, v));
    let old = lookup(b.state.docs, uri)->0;
    lemma_put(b.state.docs, uri, DocView { base: own.text, ..old });
    lemma_put(
        b.state.docs,
        uri,
        DocView {
            base: own.text,
            loaded: own.text,
            version: old.version.wrapping_add(1),
            ..old
        },
    );
}

/// A client that closes a document no longer sees it, and sees its other documents as before.
/// It no longer holds the document; others who do, still do, and only the last one's message
/// reaches the server.
pub proof fn lemma_closing_files(
    s: SessionView,
    b: BackendView,
    v: JsonView,
    now: u64,
    uri: Seq<char>,
    doc: DocView,
)
    requires
        s.wf(),
        b.state.wf(),
        !b.state.dead,
        msg::method_of(v) == "textDocument/didClose"@,
        is_about(v, uri),
        lookup(b.state.docs, uri) == Some(doc),
    ensures
        ({
            let turn = s.handle(b, v, now);
            let docs = turn.backend.state.docs;
            let alone = forall|c: u64| #[trigger] doc.refs.contains(c) ==> c == s.id;
            &&& lookup(turn.session.shadow, uri) is None
            &&& forall|u: Seq<char>|
                u != uri ==> #[trigger] lookup(turn.session.shadow, u) == lookup(s.shadow, u)
            &&& turn.session.id == s.id && turn.session.key == s.key
            &&& turn.next is Continue
            &&& alone ==> lookup(docs, uri) is None && turn.sent.len() > 0 && turn.sent[0]
                == EffectView::ToServer(v)
            &&& !alone ==> lookup(docs, uri) is Some && lookup(docs, uri)->0.base == doc.base
                && lookup(docs, uri)->0.refs == doc.refs.remove(s.id) && forall|i: int|
                0 <= i < turn.sent.len() ==> #[trigger] turn.sent[i] != EffectView::ToServer(v)
            &&& forall|u: Seq<char>|
                u != uri ==> (#[trigger] lookup(docs, u) is Some <==> lookup(
                    b.state.docs,
                    u,
                ) is Some) && (lookup(docs, u) is Some ==> lookup(docs, u)->0.base == lookup(
                    b.state.docs,
                    u,
                )->0.base && lookup(docs, u)->0.refs == lookup(b.state.docs, u)->0.refs)
        }),
{
    lemma_methods();
    let turn = s.handle(b, v, now);
    assert(turn == s.did_close(b, v));
    lemma_without(s.shadow, uri);
    let last = doc.refs.remove(s.id).is_empty();
    let new = DocView { refs: doc.refs.remove(s.id), ..doc };
    lemma_without(b.state.docs, uri);
    lemma_put(b.state.docs, uri, new);
    let docs = if last {
        without(b.state.docs, uri)
    } else {
        put(b.state.docs, uri, new)
    };
    let alone = forall|c: u64| #[trigger] doc.refs.contains(c) ==> c == s.id;
    assert(alone == last) by {
        if !alone {
            let c = choose|c: u64| #[trigger] doc.refs.contains(c) && c != s.id;
            assert(doc.refs.remove(s.id).contains(c));
        } else {
            assert(doc.refs.remove(s.id) =~= Set::empty());
        }
    }
    let left = b.with_docs(docs);
    lemma_release_restores_the_base(left.state, s.id);
    let after = left.state.released(s.id).docs;
    lemma_same_agreement(docs, after, uri);
    assert forall|u: Seq<char>| u != uri implies (#[trigger] lookup(after, u) is Some <==> lookup(
        b.state.docs,
        u,
    ) is Some) && (lookup(after, u) is Some ==> lookup(after, u)->0.base == lookup(
        b.state.docs,
        u,
    )->0.base && lookup(after, u)->0.refs == lookup(b.state.docs, u)->0.refs) by {
        lemma_same_agreement(docs, after, u);
        assert(lookup(docs, u) == lookup(b.state.docs, u));
    }
    if !alone {
        assert forall|i: int| 0 <= i < turn.sent.len() implies #[trigger] turn.sent[i]
            != EffectView::ToServer(v) by {
            let list = left.state.release_messages(s.id);
            lemma_loading_only_edits(Seq::empty(), left.state.docs, i);
            assert(turn.sent[i] == EffectView::ToServer(list[i]));
        }
    }
}

/// A message to a dead server is kept for the one that replaces it: nothing is sent and
/// nothing changes.
pub proof fn lemma_dead_servers_get_nothing(s: SessionView, b: BackendView, v: JsonView, now: u64)
    requires
        b.state.dead,
    ensures
        s.handle(b, v, now).session == s,
        s.handle(b, v, now).backend == b,
        s.handle(b, v, now).sent.len() == 0,
        s.handle(b, v, now).next == NextView::Respawn(v),
{
}

/// The messages that open and end a connection are the daemon's to answer, and change
/// nothing: `initialize` is answered under its id with what the server said when it was
/// started, `initialized` not at all, `shutdown` with null; `exit` ends the session.
pub proof fn lemma_lifecycle(s: SessionView, b: BackendView, v: JsonView, now: u64)
    requires
        !b.state.dead,
        msg::method_of(v) == "initialize"@ || msg::method_of(v) == "initialized"@
            || msg::method_of(v) == "shutdown"@ || msg::method_of(v) == "exit"@,
    ensures
        ({
            let turn = s.handle(b, v, now);
            let method = msg::method_of(v);
            &&& turn.session == s
            &&& turn.backend == b
            &&& turn.next is Exit <==> method == "exit"@
            &&& turn.next is Exit || turn.next is Continue
            &&& method == "initialized"@ || method == "exit"@ ==> turn.sent.len() == 0
            &&& method == "initialize"@ || method == "shutdown"@ ==> {
                &&& turn.sent.len() == 1
                &&& turn.sent[0] is ToClient
                &&& turn.sent[0]->ToClient_0 == s.id
                &&& turn.sent[0]->ToClient_1.get("id"@) == Some(v.field("id"@))
                &&& turn.sent[0]->ToClient_1.get("result"@) == Some(
                    if method == "initialize"@ {
                        b.init_result
                    } else {
                        JsonView::Null
                    },
                )
                &&& turn.sent[0]->ToClient_1.get("error"@) is None
            }
        }),
{
    lemma_methods();
    msg::lemma_names_differ();
}

/// Not one of the methods that the daemon looks into.
pub open spec fn is_plain_method(method: Seq<char>) -> bool {
    &&& method != "initialize"@ && method != "initialized"@
    &&& method != "shutdown"@ && method != "exit"@
    &&& method != "textDocument/didOpen"@ && method != "textDocument/didChange"@
    &&& method != "textDocument/didSave"@ && method != "textDocument/didClose"@
    &&& method != "workspace/didChangeWorkspaceFolders"@ && method != "$/cancelRequest"@
}

/// What is neither a request nor about documents or folders passes through untouched:
/// notifications, and answers to what the server asked.
pub proof fn lemma_others_pass_through(s: SessionView, b: BackendView, v: JsonView, now: u64)
    requires
        !b.state.dead,
        is_plain_method(msg::method_of(v)),
        v.get("id"@) is None || v.get("method"@) is None,
    ensures
        s.handle(b, v, now).session == s,
        s.handle(b, v, now).backend == b,
        s.handle(b, v, now).sent == seq![EffectView::ToServer(v)],
        s.handle(b, v, now).next is Continue,
{
}

/// A request reaches the server last of all that is sent, under an id that names the client
/// and its own id for it, and is otherwise as the client sent it. If the client is to fork
/// instead, the request goes with it, as it is.
pub proof fn lemma_requests_are_forwarded(s: SessionView, b: BackendView, v: JsonView, now: u64)
    requires
        !b.state.dead,
        is_plain_method(msg::method_of(v)),
        v.get("id"@) is Some,
        v.get("method"@) is Some,
    ensures
        ({
            let turn = s.handle(b, v, now);
            let w = turn.sent.last()->ToServer_0;
            &&& turn.session.shadow == s.shadow && turn.session.id == s.id && turn.session.key
                == s.key
            &&& turn.next is Continue || turn.next == NextView::Fork(Some(v))
            &&& turn.next is Continue ==> {
                &&& turn.sent.len() > 0
                &&& turn.sent.last() is ToServer
                &&& w.get("id"@) == Some(msg::encoded_id(s.id, v.get("id"@)->0))
                &&& forall|name: Seq<char>|
                    name != "id"@ ==> #[trigger] w.get(name) == v.get(name)
            }
            &&& turn.next is Fork ==> forall|i: int|
                0 <= i < turn.sent.len() ==> (#[trigger] turn.sent[i]) is ToServer
                    && msg::method_of(turn.sent[i]->ToServer_0) == "textDocument/didChange"@
        }),
{
    let turn = s.handle(b, v, now);
    assert(turn == s.pass_on(b, v, now));
    if turn.next is Fork {
        assert forall|i: int| 0 <= i < turn.sent.len() implies (#[trigger] turn.sent[i]) is ToServer
            && msg::method_of(turn.sent[i]->ToServer_0) == "textDocument/didChange"@ by {
            lemma_loading_only_edits(s.shadow, b.state.docs, i);
        }
    }
}

/// A cancellation names the request as the server knows it, and is otherwise as the client
/// sent it.
pub proof fn lemma_cancelling(s: SessionView, b: BackendView, v: JsonView, now: u64)
    requires
        !b.state.dead,
        msg::method_of(v) == "$/cancelRequest"@,
    ensures
        ({
            let turn = s.handle(b, v, now);
            let w = turn.sent[0]->ToServer_0;
            &&& turn.session == s
            &&& turn.backend == b
            &&& turn.next is Continue
            &&& turn.sent.len() == 1
            &&& turn.sent[0] is ToServer
            &&& match v.field("params"@).get("id"@) {
                Some(id) => {
                    &&& w.field("params"@).get("id"@) == Some(msg::encoded_id(s.id, id))
                    &&& forall|name: Seq<char>|
                        name != "id"@ ==> #[trigger] w.field("params"@).get(name) == v.field(
                            "params"@,
                        ).get(name)
                    &&& forall|name: Seq<char>|
                        name != "params"@ ==> #[trigger] w.get(name) == v.get(name)
                },
                None => w == v,
            }
        }),
{
    lemma_methods();
}

/// Showing a client's text costs a swap where another client's was loaded and something had
/// to be sent, and only then: the swap is counted in the current window, which begins anew
/// once it is over, and a client that had as many as the limit allows is to fork instead of
/// counting on. What was shown before to the same client is not counted again.
pub proof fn lemma_swaps_are_counted(
    s: SessionView,
    b: BackendView,
    now: u64,
    after: Option<JsonView>,
)
    ensures
        ({
            let turn = s.load(b, now, after);
            let swap = b.state.loaded_for != Some(s.id) && !shows(s.shadow, b.state.docs);
            let over = now as int - s.swap_window as int > SWAP_WINDOW;
            let so_far = if over {
                0
            } else {
                s.swaps
            };
            &&& !swap ==> turn.session == s && turn.next is Continue
            &&& swap ==> {
                &&& turn.session.swap_window == if over {
                    now
                } else {
                    s.swap_window
                }
                &&& turn.next == if so_far >= SWAP_THRASH_LIMIT {
                    NextView::Fork(after)
                } else {
                    NextView::Continue
                }
                &&& turn.session.swaps == if so_far >= SWAP_THRASH_LIMIT {
                    0
                } else {
                    so_far + 1
                }
                &&& turn.session == (SessionView {
                    swaps: turn.session.swaps,
                    swap_window: turn.session.swap_window,
                    ..s
                })
            }
            &&& b.state.loaded_for != Some(s.id) || !shows(s.shadow, b.state.docs) ==> {
                &&& turn.backend.state.loaded_for == Some(s.id)
                &&& turn.backend.state.generation == b.state.generation.wrapping_add(1)
            }
            &&& b.state.loaded_for == Some(s.id) && shows(s.shadow, b.state.docs)
                ==> turn.backend == b
        }),
{
    lemma_something_to_load(s.shadow, b.state.docs);
    if shows(s.shadow, b.state.docs) {
        lemma_nothing_to_load(s.shadow, b.state.docs);
    }
}

/// Where the server shows something else, there is something to send.
proof fn lemma_something_to_load(shadow: Shadow, docs: Docs)
    ensures
        !shows(shadow, docs) ==> load_messages(shadow, docs).len() > 0,
    decreases docs.len(),
{
    if docs.len() > 0 && !shows(shadow, docs) {
        let before = docs.drop_last();
        lemma_something_to_load(shadow, before);
        assert(docs[docs.len() - 1] == docs.last());
        if shows(shadow, before) && docs.last().1.loaded == wanted(
            shadow,
            docs.last().0,
            docs.last().1,
        ) {
            assert forall|i: int| 0 <= i < docs.len() implies (#[trigger] docs[i]).1.loaded
                == wanted(shadow, docs[i].0, docs[i].1) by {
                if i < before.len() {
                    assert(before[i] == docs[i]);
                }
            }
        }
    }
}

/// The messages that the daemon writes itself about a document name it and say what they are
/// for: a change brings the whole text, as its only change and without a range, under the
/// version given; an opening brings the client's text, version and language; a closing brings
/// nothing more. None of them asks for an answer.
pub proof fn lemma_document_messages(
    uri: Seq<char>,
    version: i64,
    text: Seq<char>,
    own: ShadowView,
)
    ensures
        ({
            let v = change_json(uri, version, text);
            let changes = v.field("params"@).field("contentChanges"@);
            &&& msg::method_of(v) == "textDocument/didChange"@
            &&& v.get("id"@) is None
            &&& is_about(v, uri)
            &&& v.field("params"@).field("textDocument"@).field("version"@) == int_json(
                version as int,
            )
            &&& changes is Array && changes->Array_0.len() == 1
            &&& changes->Array_0[0].field("text"@) == JsonView::Str(text)
            &&& changes->Array_0[0].get("range"@) is None
        }),
        ({
            let v = open_json(uri, own);
            let doc = v.field("params"@).field("textDocument"@);
            &&& msg::method_of(v) == "textDocument/didOpen"@
            &&& v.get("id"@) is None
            &&& is_about(v, uri)
            &&& doc.field("languageId"@) == JsonView::Str(own.language_id)
            &&& doc.field("version"@) == int_json(own.version as int)
            &&& doc.field("text"@) == JsonView::Str(own.text)
        }),
        ({
            let v = close_json(uri);
            &&& msg::method_of(v) == "textDocument/didClose"@
            &&& v.get("id"@) is None
            &&& is_about(v, uri)
        }),
{
    msg::lemma_names_differ();
    reveal_strlit("textDocument");
    reveal_strlit("contentChanges");
    reveal_strlit("uri");
    reveal_strlit("version");
    reveal_strlit("text");
    reveal_strlit("range");
    reveal_strlit("languageId");
    assert("textDocument"@.len() == 12 && "contentChanges"@.len() == 14);
    assert("uri"@.len() == 3 && "version"@.len() == 7 && "text"@.len() == 4 && "range"@.len() == 5
        && "languageId"@.len() == 10);
    let changes = change_json(uri, version, text).field("params"@).field("contentChanges"@);
    assert(changes->Array_0[0].field("text"@) == JsonView::Str(text));
}

/// A document that the server is shown another text of gets the next version, any other keeps
/// the one it had; and nothing is sent of a document that is shown right already.
pub proof fn lemma_versions_advance(s: SessionView, b: BackendView, now: u64, uri: Seq<char>)
    requires
        b.state.wf(),
        lookup(b.state.docs, uri) is Some,
    ensures
        ({
            let old = lookup(b.state.docs, uri)->0;
            let new = lookup(s.load(b, now, None).backend.state.docs, uri)->0;
            let text = match lookup(s.shadow, uri) {
                Some(own) => own.text,
                None => old.base,
            };
            &&& new.loaded == text
            &&& new.base == old.base
            &&& new.refs == old.refs
            &&& old.loaded == text ==> new.version == old.version
            &&& old.loaded != text ==> new.version == old.version.wrapping_add(1)
        }),
{
    let docs = b.state.docs;
    let after = s.load(b, now, None).backend.state.docs;
    lemma_load_shows_own_view(s, b, now);
    lemma_same_agreement(docs, after, uri);
    lemma_place(docs, uri);
    let i = place(docs, uri)->0;
    assert(after[i] == loaded_doc(s.shadow, docs[i]));
    lemma_place_is(after, uri, i);
}

/// A client that adds folders to its workspace asks for them, too, from then on, with the same
/// server, settings and flags. Inside the roots that its server has indexed it stays, and the
/// server is told as it is; otherwise it is moved onto another.
pub proof fn lemma_adding_folders(
    s: SessionView,
    b: BackendView,
    v: JsonView,
    now: u64,
    folders: Seq<JsonView>,
)
    requires
        !b.state.dead,
        b.key.covers(s.key),
        msg::method_of(v) == "workspace/didChangeWorkspaceFolders"@,
        v.field("params"@).field("event"@).field("added"@) == JsonView::Array(folders),
    ensures
        ({
            let turn = s.handle(b, v, now);
            let key = turn.session.key;
            let added = folder_paths(folders);
            let inside = forall|i: int|
                0 <= i < added.len() ==> b.key.holds_root(#[trigger] added[i]);
            &&& key.server == s.key.server
            &&& key.init_hash == s.key.init_hash
            &&& key.extra_args == s.key.extra_args
            &&& key.roots.to_set() == s.key.roots.to_set() + added.to_set()
            &&& turn.session == (SessionView { key, ..s })
            &&& turn.backend == b
            &&& inside ==> turn.next is Continue && turn.sent == seq![EffectView::ToServer(v)]
            &&& !inside ==> turn.next == NextView::Fork(None) && turn.sent.len() == 0
        }),
{
    lemma_methods();
    lemma_widening(s, b, v);
}

/// A client that moves onto another server finds each of its documents there: one that was
/// open there already keeps the text that its holders agreed on and gains the client as a
/// holder; any other is the client's alone, with the client's text as what is agreed.
pub proof fn lemma_moving(s: SessionView, b: BackendView, uri: Seq<char>, own: ShadowView)
    requires
        s.wf(),
        b.state.wf(),
        lookup(s.shadow, uri) == Some(own),
    ensures
        ({
            let after = b.joined_by(s);
            let doc = lookup(after.state.docs, uri)->0;
            &&& after.state.clients.contains(s.id)
            &&& after.idle_since is None
            &&& after.state.pending.len() == 0
            &&& lookup(after.state.docs, uri) is Some
            &&& doc.loaded == own.text
            &&& match lookup(b.state.docs, uri) {
                Some(shared) => doc.base == shared.base && doc.refs == shared.refs.insert(s.id),
                None => doc.base == own.text && doc.version == own.version && doc.refs == set![
                    s.id,
                ],
            }
        }),
{
    let opened = replayed_docs(b.state.docs, s.shadow, s.id);
    let docs = b.joined_by(s).state.docs;
    lemma_moving_replays_documents(s, b);
    lemma_replayed(b.state.docs, s.shadow, s.id);
    lemma_all_loaded(s.shadow, opened);
    assert(docs == loaded_docs(s.shadow, opened));
    assert(lookup(opened, uri) == replayed_doc(b.state.docs, s.shadow, s.id, uri));
    assert(holds(docs, uri, s.id));
    lemma_shown(s.shadow, docs, uri, own);
    lemma_loaded_lookup(s.shadow, opened, uri);
    let clients = b.registered(s.id).state.clients;
    if !b.state.clients.contains(s.id) {
        assert(clients[clients.len() - 1] == s.id);
    }
}

/// Documents are shown one by one, in order: one message for each that the server holds
/// another text of than the client believes, and none for any other.
pub proof fn lemma_loading_sends_once(
    uri: Seq<char>,
    doc: DocView,
    shadow: Shadow,
    first: Docs,
    second: Docs,
)
    ensures
        load_messages(shadow, Seq::empty()).len() == 0,
        load_messages(shadow, first + second) == load_messages(shadow, first) + load_messages(
            shadow,
            second,
        ),
        ({
            let text = match lookup(shadow, uri) {
                Some(own) => own.text,
                None => doc.base,
            };
            load_messages(shadow, seq![(uri, doc)]) == (if doc.loaded == text {
                Seq::empty()
            } else {
                seq![change_json(uri, doc.version.wrapping_add(1), text)]
            })
        }),
    decreases second.len(),
{
    let one = seq![(uri, doc)];
    assert(one.drop_last() =~= Seq::empty());
    assert(one.last() == (uri, doc));
    reveal_with_fuel(load_messages, 2);
    let text = wanted(shadow, uri, doc);
    assert(load_messages(shadow, one) =~= if doc.loaded == text {
        Seq::empty()
    } else {
        seq![change_json(uri, doc.version.wrapping_add(1), text)]
    });
    if second.len() == 0 {
        assert(first + second =~= first);
        assert(load_messages(shadow, first) + load_messages(shadow, second) =~= load_messages(
            shadow,
            first,
        ));
    } else {
        assert((first + second).drop_last() =~= first + second.drop_last());
        assert((first + second).last() == second.last());
        lemma_loading_sends_once(uri, doc, shadow, first, second.drop_last());
        assert(load_messages(shadow, first + second) =~= load_messages(shadow, first)
            + load_messages(shadow, second));
    }
}

/// When a client goes, documents are looked at one by one, in order: one message closes each
/// that nobody else holds, and none is sent about any other.
pub proof fn lemma_leaving_closes_once(
    uri: Seq<char>,
    doc: DocView,
    client: u64,
    first: Docs,
    second: Docs,
)
    ensures
        orphan_messages(Seq::empty(), client).len() == 0,
        orphan_messages(first + second, client) == orphan_messages(first, client)
            + orphan_messages(second, client),
        orphan_messages(seq![(uri, doc)], client) == (if forall|c: u64| #[trigger]
            doc.refs.contains(c) ==> c == client {
            seq![close_json(uri)]
        } else {
            Seq::empty()
        }),
    decreases second.len(),
{
    let one = seq![(uri, doc)];
    assert(one.drop_last() =~= Seq::empty());
    assert(one.last() == (uri, doc));
    reveal_with_fuel(orphan_messages, 2);
    let alone = forall|c: u64| #[trigger] doc.refs.contains(c) ==> c == client;
    assert(alone == doc.refs.remove(client).is_empty()) by {
        if alone {
            assert(doc.refs.remove(client) =~= Set::empty());
        } else {
            let c = choose|c: u64| #[trigger] doc.refs.contains(c) && c != client;
            assert(doc.refs.remove(client).contains(c));
        }
    }
    assert(orphan_messages(one, client) =~= if alone {
        seq![close_json(uri)]
    } else {
        Seq::empty()
    });
    if second.len() == 0 {
        assert(first + second =~= first);
        assert(orphan_messages(first, client) + orphan_messages(second, client)
            =~= orphan_messages(first, client));
    } else {
        assert((first + second).drop_last() =~= first + second.drop_last());
        assert((first + second).last() == second.last());
        lemma_leaving_closes_once(uri, doc, client, first, second.drop_last());
        assert(orphan_messages(first + second, client) =~= orphan_messages(first, client)
            + orphan_messages(second, client));
    }
}

/// A client that moves opens its documents one by one, in order, each once, but for those that
/// are open there already.
pub proof fn lemma_moving_opens_once(
    docs: Docs,
    shadow: Shadow,
    uri: Seq<char>,
    own: ShadowView,
    client: u64,
)
    requires
        distinct(docs),
        distinct(shadow.push((uri, own))),
    ensures
        replay_messages(docs, Seq::empty(), client).len() == 0,
        replay_messages(docs, shadow.push((uri, own)), client) == (if lookup(docs, uri) is Some {
            replay_messages(docs, shadow, client)
        } else {
            replay_messages(docs, shadow, client).push(open_json(uri, own))
        }),
{
    let all = shadow.push((uri, own));
    assert(all.drop_last() =~= shadow);
    assert forall|i: int| 0 <= i < shadow.len() implies #[trigger] shadow[i] == all[i] by {}
    lemma_replayed(docs, shadow, client);
    lemma_place(shadow, uri);
    if place(shadow, uri) is Some {
        let i = place(shadow, uri)->0;
        assert(all[i].0 != all[shadow.len() as int].0);
    }
    assert(lookup(replayed_docs(docs, shadow, client), uri) == replayed_doc(
        docs,
        shadow,
        client,
        uri,
    ));
}

/// While a client alone holds a document, the server shows its text of it and everyone's
/// documents are at their agreed text, its edit is agreed at once and forwarded as it came.
/// Where somebody else holds the document, an edit leaves what is agreed as it is.
pub proof fn lemma_who_edits_what_is_agreed(
    s: SessionView,
    b: BackendView,
    v: JsonView,
    now: u64,
    uri: Seq<char>,
    changes: Seq<JsonView>,
    own: ShadowView,
    doc: DocView,
)
    requires
        s.wf(),
        b.state.wf(),
        !b.state.dead,
        msg::method_of(v) == "textDocument/didChange"@,
        is_about(v, uri),
        v.field("params"@).field("contentChanges"@) == JsonView::Array(changes),
        lookup(s.shadow, uri) == Some(own),
        lookup(b.state.docs, uri) == Some(doc),
        doc.refs.finite(),
    ensures
        ({
            let turn = s.handle(b, v, now);
            let new = lookup(turn.backend.state.docs, uri)->0;
            let text = edited_all(own.text, changes);
            let agreed = forall|i: int|
                0 <= i < b.state.docs.len() ==> (#[trigger] b.state.docs[i]).1.base
                    == b.state.docs[i].1.loaded;
            &&& (exists|c: u64| c != s.id && #[trigger] doc.refs.contains(c)) ==> new.base
                == doc.base
            &&& doc.refs == set![s.id] && doc.loaded == own.text && agreed ==> {
                &&& new.base == text
                &&& new.loaded == text
                &&& turn.sent == seq![EffectView::ToServer(v)]
                &&& turn.backend.state.loaded_for is None
                &&& turn.backend.state.generation == b.state.generation
                &&& turn.next is Continue
                &&& forall|u: Seq<char>|
                    u != uri ==> #[trigger] lookup(turn.backend.state.docs, u) == lookup(
                        b.state.docs,
                        u,
                    )
            }
        }),
{
    lemma_methods();
    let turn = s.handle(b, v, now);
    assert(turn == s.did_change(b, v, now));
    let text = edited_all(own.text, changes);
    let version = int_or_zero(v.field("params"@).field("textDocument"@).field("version"@));
    let mine = ShadowView { text, version, ..own };
    let next = SessionView { shadow: put(s.shadow, uri, mine), ..s };
    lemma_put(b.state.docs, uri, DocView { base: text, loaded: text, version, ..doc });
    if exists|c: u64| c != s.id && #[trigger] doc.refs.contains(c) {
        let c = choose|c: u64| c != s.id && #[trigger] doc.refs.contains(c);
        if doc.refs.len() == 1 && doc.refs.contains(s.id) {
            vstd::set_lib::lemma_len_subset(set![s.id, c], doc.refs);
            assert(set![s.id, c].len() == 2);
        }
        lemma_load_shows_own_view(next, b, now);
        lemma_same_agreement(b.state.docs, next.load(b, now, None).backend.state.docs, uri);
    }
    if doc.refs == set![s.id] {
        assert(doc.refs.contains(s.id));
        assert(set![s.id].len() == 1);
    }
}

/// Forty swaps within ten seconds are borne, by the clock in nanoseconds.
pub proof fn lemma_swap_limits()
    ensures
        SWAP_THRASH_LIMIT == 40,
        SWAP_WINDOW == 10 * 1_000_000_000,
{
}

/// A save of a document that the client has not open, or that nobody has, changes nothing, and
/// the server is told as it is.
pub proof fn lemma_saving_unopened(
    s: SessionView,
    b: BackendView,
    v: JsonView,
    now: u64,
    uri: Seq<char>,
)
    requires
        !b.state.dead,
        msg::method_of(v) == "textDocument/didSave"@,
        is_about(v, uri),
        lookup(s.shadow, uri) is None || lookup(b.state.docs, uri) is None,
    ensures
        s.handle(b, v, now).session == s,
        s.handle(b, v, now).backend == b,
        s.handle(b, v, now).sent == seq![EffectView::ToServer(v)],
        s.handle(b, v, now).next is Continue,
{
    lemma_methods();
}

/// A message about documents that does not say which changes nothing, and the server is not
/// told.
pub proof fn lemma_incomplete_messages(s: SessionView, b: BackendView, v: JsonView, now: u64)
    requires
        !b.state.dead,
        msg::method_of(v) == "textDocument/didOpen"@ && v.field("params"@).get(
            "textDocument"@,
        ) is None || msg::method_of(v) == "textDocument/didChange"@ && v.get("params"@) is None || (
        msg::method_of(v) == "textDocument/didSave"@ || msg::method_of(v)
            == "textDocument/didClose"@) && !(v.field("params"@).field("textDocument"@).field(
            "uri"@,
        ) is Str),
    ensures
        s.handle(b, v, now).session == s,
        s.handle(b, v, now).backend == b,
        s.handle(b, v, now).sent.len() == 0,
        s.handle(b, v, now).next is Continue,
{
    lemma_methods();
}

} // verus!
