//! What the language server holds, told from the messages that were sent to it, and that
//! the shared state always says the same.

use vstd::prelude::*;
use vstd::string::*;
use crate::daemon::backend::{
    diagnostics_uri, lemma_deliver_to, lowest, to_server, unanswerable, BackendView, DocView, Docs,
    EffectView, StateView, MAX_PENDING,
};
use crate::daemon::session::{
    change_json, close_json, document_uri, int_or_zero, kept_docs, lemma_nothing_loaded,
    load_messages, loaded_doc, loaded_docs, open_json, orphan_messages, replay_messages,
    replayed_docs, text_or_empty, wanted, SessionView, Shadow, ShadowView,
};
use crate::daemon::sharing::{
    changed_by, changed_uri, lemma_kept_docs, lemma_release_restores_the_base,
    lemma_requests_see_own_text, lemma_same_agreement,
};
use crate::json::JsonView;
use crate::msg;
use crate::table::{
    distinct, lemma_place, lemma_place_is, lemma_put, lemma_without, lookup, place, put, without,
};
use crate::text::edited_all;

verus! {

/// The text of every document that a server has open.
pub type Texts = Map<Seq<char>, Seq<char>>;

/// What a server holds after one more message: `didOpen` opens a document with the text it
/// brings, `didChange` edits one that is open, `didClose` closes one, and no other message
/// changes any text.
pub open spec fn held_next(texts: Texts, v: JsonView) -> Texts {
    let method = msg::method_of(v);
    if method == "textDocument/didOpen"@ {
        let doc = v.field("params"@).field("textDocument"@);
        texts.insert(text_or_empty(doc.field("uri"@)), text_or_empty(doc.field("text"@)))
    } else if method == "textDocument/didChange"@ {
        let uri = changed_uri(v);
        if texts.dom().contains(uri) {
            texts.insert(uri, edited_all(texts[uri], changed_by(v)))
        } else {
            texts
        }
    } else if method == "textDocument/didClose"@ {
        texts.remove(changed_uri(v))
    } else {
        texts
    }
}

/// What a server holds after a turn's messages, of which it sees those that go to it.
pub open spec fn held_after(texts: Texts, sent: Seq<EffectView>) -> Texts
    decreases sent.len(),
{
    if sent.len() == 0 {
        texts
    } else {
        let before = held_after(texts, sent.drop_last());
        match sent.last() {
            EffectView::ToServer(v) => held_next(before, v),
            EffectView::ToClient(_, _) => before,
        }
    }
}

/// What the shared state says that the server holds.
pub open spec fn recorded(docs: Docs) -> Texts {
    Map::new(
        |uri: Seq<char>| lookup(docs, uri) is Some,
        |uri: Seq<char>| lookup(docs, uri)->0.loaded,
    )
}

// ---- messages -----------------------------------------------------------

proof fn lemma_held_none(texts: Texts)
    ensures
        held_after(texts, Seq::empty()) == texts,
{
}

proof fn lemma_held_one(texts: Texts, e: EffectView)
    ensures
        held_after(texts, seq![e]) == (match e {
            EffectView::ToServer(v) => held_next(texts, v),
            EffectView::ToClient(_, _) => texts,
        }),
{
    assert(seq![e].drop_last() =~= Seq::empty());
    lemma_held_none(texts);
}

proof fn lemma_held_push(texts: Texts, sent: Seq<EffectView>, e: EffectView)
    ensures
        held_after(texts, sent.push(e)) == (match e {
            EffectView::ToServer(v) => held_next(held_after(texts, sent), v),
            EffectView::ToClient(_, _) => held_after(texts, sent),
        }),
{
    assert(sent.push(e).drop_last() =~= sent);
}

proof fn lemma_held_concat(texts: Texts, a: Seq<EffectView>, b: Seq<EffectView>)
    ensures
        held_after(texts, a + b) == held_after(held_after(texts, a), b),
    decreases b.len(),
{
    if b.len() == 0 {
        assert(a + b =~= a);
    } else {
        assert((a + b).drop_last() =~= a + b.drop_last());
        lemma_held_concat(texts, a, b.drop_last());
    }
}

proof fn lemma_to_server_push(list: Seq<JsonView>, v: JsonView)
    ensures
        to_server(list.push(v)) == to_server(list).push(EffectView::ToServer(v)),
{
    assert(to_server(list.push(v)) =~= to_server(list).push(EffectView::ToServer(v)));
}

proof fn lemma_to_server_concat(a: Seq<JsonView>, b: Seq<JsonView>)
    ensures
        to_server(a + b) == to_server(a) + to_server(b),
{
    assert(to_server(a + b) =~= to_server(a) + to_server(b));
}

/// The methods that change texts are told apart.
proof fn lemma_methods()
    ensures
        "textDocument/didOpen"@ != "textDocument/didChange"@,
        "textDocument/didOpen"@ != "textDocument/didClose"@,
        "textDocument/didOpen"@ != "textDocument/didSave"@,
        "textDocument/didChange"@ != "textDocument/didClose"@,
        "textDocument/didChange"@ != "textDocument/didSave"@,
        "textDocument/didClose"@ != "textDocument/didSave"@,
        "textDocument/didOpen"@.len() == 20,
        "textDocument/didChange"@.len() == 22,
        "textDocument/didClose"@.len() == 21,
        "textDocument/didSave"@.len() == 20,
{
    reveal_strlit("textDocument/didOpen");
    reveal_strlit("textDocument/didChange");
    reveal_strlit("textDocument/didClose");
    reveal_strlit("textDocument/didSave");
    assert("textDocument/didOpen"@.len() == 20);
    assert("textDocument/didSave"@.len() == 20);
    assert("textDocument/didClose"@.len() == 21);
    assert("textDocument/didChange"@.len() == 22);
    assert("textDocument/didOpen"@[16] != "textDocument/didSave"@[16]);
}

/// A full-text change sets the document to that text.
proof fn lemma_held_change(texts: Texts, uri: Seq<char>, version: i64, text: Seq<char>)
    ensures
        held_next(texts, change_json(uri, version, text)) == (if texts.dom().contains(uri) {
            texts.insert(uri, text)
        } else {
            texts
        }),
{
    let v = change_json(uri, version, text);
    lemma_methods();
    reveal_strlit("method");
    reveal_strlit("params");
    reveal_strlit("jsonrpc");
    reveal_strlit("textDocument");
    reveal_strlit("contentChanges");
    reveal_strlit("uri");
    reveal_strlit("version");
    reveal_strlit("text");
    reveal_strlit("range");
    assert("method"@.len() == 6 && "params"@.len() == 6 && "method"@[0] != "params"@[0]);
    assert("textDocument"@.len() == 12 && "contentChanges"@.len() == 14);
    assert("uri"@.len() == 3 && "version"@.len() == 7);
    assert("text"@.len() == 4 && "range"@.len() == 5);
    assert(msg::method_of(v) == "textDocument/didChange"@);
    assert(changed_uri(v) == uri);
    let changes = changed_by(v);
    assert(changes.len() == 1);
    if texts.dom().contains(uri) {
        let old = texts[uri];
        assert(changes.last().get("range"@) is None);
        assert(edited_all(old, changes.drop_last()) == old);
        assert(edited_all(old, changes) == text);
    }
}

/// Closing a document closes it.
proof fn lemma_held_close(texts: Texts, uri: Seq<char>)
    ensures
        held_next(texts, close_json(uri)) == texts.remove(uri),
{
    let v = close_json(uri);
    lemma_methods();
    reveal_strlit("method");
    reveal_strlit("params");
    reveal_strlit("jsonrpc");
    assert("method"@.len() == 6 && "params"@.len() == 6 && "method"@[0] != "params"@[0]);
    assert(msg::method_of(v) == "textDocument/didClose"@);
    assert(changed_uri(v) == uri);
}

/// Opening a document opens it with the client's text.
proof fn lemma_held_open(texts: Texts, uri: Seq<char>, own: ShadowView)
    ensures
        held_next(texts, open_json(uri, own)) == texts.insert(uri, own.text),
{
    let v = open_json(uri, own);
    reveal_strlit("method");
    reveal_strlit("params");
    reveal_strlit("uri");
    reveal_strlit("languageId");
    reveal_strlit("version");
    reveal_strlit("text");
    assert("method"@.len() == 6 && "params"@.len() == 6 && "method"@[0] != "params"@[0]);
    assert("uri"@.len() == 3 && "version"@.len() == 7);
    assert("text"@.len() == 4 && "languageId"@.len() == 10);
    assert(msg::method_of(v) == "textDocument/didOpen"@);
}

// ---- the shared documents -----------------------------------------------

proof fn lemma_drop_last(docs: Docs)
    requires
        docs.len() > 0,
        distinct(docs),
    ensures
        distinct(docs.drop_last()),
        lookup(docs.drop_last(), docs.last().0) is None,
        lookup(docs, docs.last().0) == Some(docs.last().1),
        forall|uri: Seq<char>|
            uri != docs.last().0 ==> #[trigger] lookup(docs, uri) == lookup(
                docs.drop_last(),
                uri,
            ),
{
    let rest = docs.drop_last();
    let (last, doc) = docs.last();
    assert forall|i: int| 0 <= i < rest.len() implies #[trigger] rest[i] == docs[i] by {}
    assert(docs[docs.len() - 1] == docs.last());
    lemma_place_is(docs, last, docs.len() - 1);
    lemma_place(rest, last);
    if place(rest, last) is Some {
        let i = place(rest, last)->0;
        assert(docs[i].0 != docs[docs.len() - 1].0);
    }
    assert forall|uri: Seq<char>| uri != last implies #[trigger] lookup(docs, uri) == lookup(
        rest,
        uri,
    ) by {
        lemma_place(docs, uri);
        lemma_place(rest, uri);
        if place(docs, uri) is Some {
            let i = place(docs, uri)->0;
            assert(rest[i] == docs[i]);
            lemma_place_is(rest, uri, i);
        } else if place(rest, uri) is Some {
            let i = place(rest, uri)->0;
            assert(docs[i] == rest[i]);
        }
    }
}

/// Loading sets every open document that differs to what the client believes.
proof fn lemma_held_load(texts: Texts, shadow: Shadow, docs: Docs)
    requires
        distinct(docs),
    ensures
        ({
            let after = held_after(texts, to_server(load_messages(shadow, docs)));
            &&& after.dom() == texts.dom()
            &&& forall|uri: Seq<char>|
                texts.dom().contains(uri) ==> #[trigger] after[uri] == (match lookup(docs, uri) {
                    Some(doc) => if doc.loaded == wanted(shadow, uri, doc) {
                        texts[uri]
                    } else {
                        wanted(shadow, uri, doc)
                    },
                    None => texts[uri],
                })
        }),
    decreases docs.len(),
{
    let list = load_messages(shadow, docs);
    if docs.len() == 0 {
        assert(to_server(list) =~= Seq::empty());
        assert forall|uri: Seq<char>| lookup(docs, uri) is None by {
            lemma_place(docs, uri);
        }
    } else {
        let rest = docs.drop_last();
        let (last, doc) = docs.last();
        lemma_drop_last(docs);
        lemma_held_load(texts, shadow, rest);
        let before = load_messages(shadow, rest);
        let held = held_after(texts, to_server(before));
        if doc.loaded != wanted(shadow, last, doc) {
            let new = loaded_doc(shadow, docs.last()).1;
            lemma_to_server_push(before, change_json(last, new.version, new.loaded));
            lemma_held_push(
                texts,
                to_server(before),
                EffectView::ToServer(change_json(last, new.version, new.loaded)),
            );
            lemma_held_change(held, last, new.version, new.loaded);
        }
        let after = held_after(texts, to_server(list));
        assert(after.dom() =~= texts.dom());
        assert forall|uri: Seq<char>| texts.dom().contains(uri) implies #[trigger] after[uri] == (
        match lookup(docs, uri) {
            Some(doc) => if doc.loaded == wanted(shadow, uri, doc) {
                texts[uri]
            } else {
                wanted(shadow, uri, doc)
            },
            None => texts[uri],
        }) by {
            assert(held[uri] == held[uri]);
            assert(lookup(docs, uri) == lookup(docs, uri));
        }
    }
}

/// What is found after loading.
pub proof fn lemma_loaded_lookup(shadow: Shadow, docs: Docs, uri: Seq<char>)
    requires
        distinct(docs),
    ensures
        lookup(loaded_docs(shadow, docs), uri) == (match lookup(docs, uri) {
            Some(doc) => Some(loaded_doc(shadow, (uri, doc)).1),
            None => None,
        }),
{
    let after = loaded_docs(shadow, docs);
    lemma_place(docs, uri);
    lemma_place(after, uri);
    if place(docs, uri) is Some {
        let i = place(docs, uri)->0;
        assert(after[i] == loaded_doc(shadow, docs[i]));
        assert(distinct(after)) by {
            assert forall|i: int, j: int| 0 <= i < j < after.len() implies after[i].0
                != after[j].0 by {
                assert(docs[i].0 != docs[j].0);
            }
        }
        lemma_place_is(after, uri, i);
    } else if place(after, uri) is Some {
        let i = place(after, uri)->0;
        assert(after[i] == loaded_doc(shadow, docs[i]));
    }
}

/// A server that holds what is recorded does so after loading.
proof fn lemma_load_in_step(shadow: Shadow, docs: Docs)
    requires
        distinct(docs),
    ensures
        held_after(recorded(docs), to_server(load_messages(shadow, docs))) == recorded(
            loaded_docs(shadow, docs),
        ),
{
    let texts = recorded(docs);
    let after = held_after(texts, to_server(load_messages(shadow, docs)));
    let now = recorded(loaded_docs(shadow, docs));
    lemma_held_load(texts, shadow, docs);
    assert forall|uri: Seq<char>| #[trigger] now.dom().contains(uri) == after.dom().contains(uri)
        && (now.dom().contains(uri) ==> now[uri] == after[uri]) by {
        lemma_loaded_lookup(shadow, docs, uri);
        assert(after.dom().contains(uri) == texts.dom().contains(uri));
        if texts.dom().contains(uri) {
            assert(after[uri] == after[uri]);
        }
    }
    lemma_same_texts(after, now);
}

proof fn lemma_same_texts(a: Texts, b: Texts)
    requires
        forall|uri: Seq<char>| #[trigger]
            b.dom().contains(uri) == a.dom().contains(uri) && (b.dom().contains(uri) ==> b[uri]
                == a[uri]),
    ensures
        a == b,
{
    assert forall|uri: Seq<char>| a.dom().contains(uri) == #[trigger] b.dom().contains(uri) by {}
    assert(a.dom() =~= b.dom());
    assert forall|uri: Seq<char>| #[trigger] a.dom().contains(uri) implies a[uri] == b[uri] by {
        assert(b.dom().contains(uri));
    }
    assert(a =~= b);
}

proof fn lemma_recorded_put(docs: Docs, uri: Seq<char>, doc: DocView)
    requires
        distinct(docs),
    ensures
        recorded(put(docs, uri, doc)) == recorded(docs).insert(uri, doc.loaded),
        distinct(put(docs, uri, doc)),
{
    lemma_put(docs, uri, doc);
    let a = recorded(docs).insert(uri, doc.loaded);
    let b = recorded(put(docs, uri, doc));
    assert forall|u: Seq<char>| #[trigger] b.dom().contains(u) == a.dom().contains(u) && (
    b.dom().contains(u) ==> b[u] == a[u]) by {
        assert(lookup(put(docs, uri, doc), u) == if u == uri {
            Some(doc)
        } else {
            lookup(docs, u)
        });
    }
    lemma_same_texts(a, b);
}

proof fn lemma_recorded_without(docs: Docs, uri: Seq<char>)
    requires
        distinct(docs),
    ensures
        recorded(without(docs, uri)) == recorded(docs).remove(uri),
        distinct(without(docs, uri)),
{
    lemma_without(docs, uri);
    let a = recorded(docs).remove(uri);
    let b = recorded(without(docs, uri));
    assert forall|u: Seq<char>| #[trigger] b.dom().contains(u) == a.dom().contains(u) && (
    b.dom().contains(u) ==> b[u] == a[u]) by {
        if u != uri {
            assert(lookup(without(docs, uri), u) == lookup(docs, u));
        }
    }
    lemma_same_texts(a, b);
}

// ---- a client's messages ------------------------------------------------

proof fn lemma_open_in_step(s: SessionView, b: BackendView, v: JsonView, now: u64)
    requires
        distinct(b.state.docs),
        msg::method_of(v) == "textDocument/didOpen"@,
    ensures
        held_after(recorded(b.state.docs), s.did_open(b, v, now).sent) == recorded(
            s.did_open(b, v, now).backend.state.docs,
        ),
{
    let texts = recorded(b.state.docs);
    lemma_held_none(texts);
    if v.field("params"@).get("textDocument"@) is Some {
        let doc = v.field("params"@).get("textDocument"@)->0;
        let uri = text_or_empty(doc.field("uri"@));
        let text = text_or_empty(doc.field("text"@));
        let version = int_or_zero(doc.field("version"@));
        let own = ShadowView {
            text,
            version,
            language_id: text_or_empty(doc.field("languageId"@)),
        };
        match lookup(b.state.docs, uri) {
            None => {
                let shared = DocView { base: text, loaded: text, version, refs: set![s.id] };
                lemma_recorded_put(b.state.docs, uri, shared);
                lemma_held_one(texts, EffectView::ToServer(v));
            },
            Some(shared) => {
                let held = DocView { refs: shared.refs.insert(s.id), ..shared };
                let docs = put(b.state.docs, uri, held);
                lemma_recorded_put(b.state.docs, uri, held);
                assert(texts.insert(uri, shared.loaded) =~= texts);
                lemma_load_in_step(put(s.shadow, uri, own), docs);
            },
        }
    }
}

proof fn lemma_change_in_step(s: SessionView, b: BackendView, v: JsonView, now: u64)
    requires
        distinct(b.state.docs),
        msg::method_of(v) == "textDocument/didChange"@,
    ensures
        held_after(recorded(b.state.docs), s.did_change(b, v, now).sent) == recorded(
            s.did_change(b, v, now).backend.state.docs,
        ),
{
    let texts = recorded(b.state.docs);
    let docs = b.state.docs;
    lemma_methods();
    lemma_held_none(texts);
    lemma_held_one(texts, EffectView::ToServer(v));
    if v.get("params"@) is Some {
        let uri = changed_uri(v);
        let version = int_or_zero(v.field("params"@).field("textDocument"@).field("version"@));
        assert(texts.dom().contains(uri) == (lookup(docs, uri) is Some));
        match lookup(s.shadow, uri) {
            None => {
                if let Some(shared) = lookup(docs, uri) {
                    let new = DocView {
                        loaded: edited_all(shared.loaded, changed_by(v)),
                        version,
                        ..shared
                    };
                    lemma_recorded_put(docs, uri, new);
                }
            },
            Some(own) => {
                let text = edited_all(own.text, changed_by(v));
                let next = ShadowView { text, version, ..own };
                if let Some(shared) = lookup(docs, uri) {
                    let new = DocView { base: text, loaded: text, version, ..shared };
                    lemma_recorded_put(docs, uri, new);
                }
                lemma_load_in_step(put(s.shadow, uri, next), docs);
            },
        }
    }
}

proof fn lemma_save_in_step(s: SessionView, b: BackendView, v: JsonView)
    requires
        distinct(b.state.docs),
        msg::method_of(v) == "textDocument/didSave"@,
    ensures
        held_after(recorded(b.state.docs), s.did_save(b, v).sent) == recorded(
            s.did_save(b, v).backend.state.docs,
        ),
{
    let texts = recorded(b.state.docs);
    let docs = b.state.docs;
    lemma_methods();
    lemma_held_none(texts);
    lemma_held_one(texts, EffectView::ToServer(v));
    if document_uri(v) is Some {
        let uri = document_uri(v)->0;
        if lookup(s.shadow, uri) is Some && lookup(docs, uri) is Some {
            let own = lookup(s.shadow, uri)->0;
            let shared = lookup(docs, uri)->0;
            let version = shared.version.wrapping_add(1);
            lemma_recorded_put(docs, uri, DocView { base: own.text, ..shared });
            assert(texts.dom().contains(uri));
            assert(texts.insert(uri, shared.loaded) =~= texts);
            if b.state.loaded_for is None && shared.loaded != own.text {
                let level = DocView { base: own.text, loaded: own.text, version, ..shared };
                let change = EffectView::ToServer(change_json(uri, version, own.text));
                lemma_recorded_put(docs, uri, level);
                lemma_held_one(texts, change);
                lemma_held_change(texts, uri, version, own.text);
                lemma_held_push(texts, seq![change], EffectView::ToServer(v));
                assert(seq![change].push(EffectView::ToServer(v)) =~= seq![
                    change,
                    EffectView::ToServer(v),
                ]);
            }
        }
    }
}

proof fn lemma_release_in_step(st: StateView, client: u64)
    requires
        distinct(st.docs),
    ensures
        held_after(recorded(st.docs), to_server(st.release_messages(client))) == recorded(
            st.released(client).docs,
        ),
{
    if st.loaded_for == Some(client) {
        lemma_load_in_step(Seq::empty(), st.docs);
    } else {
        assert(to_server(st.release_messages(client)) =~= Seq::empty());
    }
}

proof fn lemma_close_in_step(s: SessionView, b: BackendView, v: JsonView)
    requires
        distinct(b.state.docs),
        msg::method_of(v) == "textDocument/didClose"@,
    ensures
        held_after(recorded(b.state.docs), s.did_close(b, v).sent) == recorded(
            s.did_close(b, v).backend.state.docs,
        ),
{
    let texts = recorded(b.state.docs);
    lemma_methods();
    lemma_held_none(texts);
    lemma_held_one(texts, EffectView::ToServer(v));
    if document_uri(v) is Some {
        let uri = document_uri(v)->0;
        assert(changed_uri(v) == uri);
        let last = match lookup(b.state.docs, uri) {
            Some(doc) => doc.refs.remove(s.id).is_empty(),
            None => false,
        };
        let docs = match lookup(b.state.docs, uri) {
            Some(doc) => if last {
                without(b.state.docs, uri)
            } else {
                put(b.state.docs, uri, DocView { refs: doc.refs.remove(s.id), ..doc })
            },
            None => b.state.docs,
        };
        let told = if last {
            seq![EffectView::ToServer(v)]
        } else {
            Seq::empty()
        };
        if let Some(doc) = lookup(b.state.docs, uri) {
            lemma_recorded_without(b.state.docs, uri);
            lemma_recorded_put(
                b.state.docs,
                uri,
                DocView { refs: doc.refs.remove(s.id), ..doc },
            );
            assert(texts.insert(uri, doc.loaded) =~= texts);
        }
        let left = b.with_docs(docs);
        assert(held_after(texts, told) == recorded(docs));
        lemma_release_in_step(left.state, s.id);
        lemma_held_concat(texts, told, to_server(left.state.release_messages(s.id)));
    }
}

/// A message under a method that changes no text, or under none, changes none.
proof fn lemma_held_same(texts: Texts, v: JsonView)
    requires
        msg::method_of(v) != "textDocument/didOpen"@,
        msg::method_of(v) != "textDocument/didChange"@,
        msg::method_of(v) != "textDocument/didClose"@,
    ensures
        held_next(texts, v) == texts,
        held_after(texts, seq![EffectView::ToServer(v)]) == texts,
{
    lemma_held_one(texts, EffectView::ToServer(v));
}

/// A message under another id, or with other parameters, is still under its method.
proof fn lemma_method_stays(v: JsonView, id: JsonView, params: JsonView)
    ensures
        msg::method_of(v.with("id"@, id)) == msg::method_of(v),
        msg::method_of(v.with("params"@, params)) == msg::method_of(v),
{
    reveal_strlit("method");
    reveal_strlit("params");
    reveal_strlit("id");
    assert("id"@.len() == 2);
    assert("method"@.len() == 6 && "params"@.len() == 6 && "method"@[0] != "params"@[0]);
}

/// A server that was just started has nothing open, and nothing is recorded of it.
pub proof fn lemma_starts_in_step()
    ensures
        recorded(Seq::empty()) == Map::<Seq<char>, Seq<char>>::empty(),
{
    let none: Docs = Seq::empty();
    assert forall|uri: Seq<char>| lookup(none, uri) is None by {
        lemma_place(none, uri);
    }
    assert(recorded(none) =~= Map::<Seq<char>, Seq<char>>::empty());
}

/// Whatever a client sends, the shared state says what the server is holding: if it did
/// so before the turn, and the server got what the turn sends it, it does so afterwards.
pub proof fn lemma_server_stays_in_step(
    s: SessionView,
    b: BackendView,
    v: JsonView,
    now: u64,
    texts: Texts,
)
    requires
        b.state.wf(),
        texts == recorded(b.state.docs),
    ensures
        held_after(texts, s.handle(b, v, now).sent) == recorded(
            s.handle(b, v, now).backend.state.docs,
        ),
        held_after(texts, s.dispatch(b, v, now).sent) == recorded(
            s.dispatch(b, v, now).backend.state.docs,
        ),
{
    let method = msg::method_of(v);
    lemma_methods();
    lemma_held_none(texts);
    reveal_strlit("initialize");
    reveal_strlit("initialized");
    reveal_strlit("shutdown");
    reveal_strlit("exit");
    assert("initialize"@.len() == 10 && "initialized"@.len() == 11);
    assert("shutdown"@.len() == 8 && "exit"@.len() == 4);
    if method == "textDocument/didOpen"@ {
        lemma_open_in_step(s, b, v, now);
    }
    if method == "textDocument/didChange"@ {
        lemma_change_in_step(s, b, v, now);
    }
    if method == "textDocument/didSave"@ {
        lemma_save_in_step(s, b, v);
    }
    if method == "textDocument/didClose"@ {
        lemma_close_in_step(s, b, v);
    }
    if method != "textDocument/didOpen"@ && method != "textDocument/didChange"@ && method
        != "textDocument/didClose"@ {
        let id = v.field("params"@).field("id"@);
        let params = v.field("params"@).with("id"@, msg::encoded_id(s.id, id));
        lemma_method_stays(v, msg::encoded_id(s.id, v.field("id"@)), params);
        lemma_held_same(texts, v);
        lemma_held_same(texts, s.forwarded(v));
        lemma_held_same(texts, s.cancellation(v));
        lemma_load_in_step(s.shadow, b.state.docs);
        let loading = s.load(b, now, Some(v));
        let after = held_after(texts, loading.sent);
        lemma_held_same(after, s.forwarded(v));
        lemma_held_push(texts, loading.sent, EffectView::ToServer(s.forwarded(v)));
        if method == "initialize"@ {
            lemma_held_one(
                texts,
                EffectView::ToClient(s.id, msg::response_json(v.field("id"@), b.init_result)),
            );
        }
        if method == "shutdown"@ {
            lemma_held_one(
                texts,
                EffectView::ToClient(s.id, msg::response_json(v.field("id"@), JsonView::Null)),
            );
        }
    }
}

/// When a client's request is sent, the server holds, of every document that the client
/// has open, the client's own text, and of every other document the text that everyone
/// agrees on. None of the client's documents is missing there.
pub proof fn lemma_requests_meet_own_text(
    s: SessionView,
    b: BackendView,
    v: JsonView,
    now: u64,
    texts: Texts,
)
    requires
        b.state.wf(),
        texts == recorded(b.state.docs),
        msg::request_shaped(v),
        s.pass_on(b, v, now).next is Continue,
    ensures
        ({
            let sent = s.pass_on(b, v, now).sent;
            let held = held_after(texts, sent.drop_last());
            &&& sent.len() > 0
            &&& sent.last() == EffectView::ToServer(s.forwarded(v))
            &&& held.dom() == texts.dom()
            &&& forall|uri: Seq<char>| #[trigger]
                held.dom().contains(uri) ==> held[uri] == (match lookup(s.shadow, uri) {
                    Some(own) => own.text,
                    None => lookup(b.state.docs, uri)->0.base,
                })
            &&& s.attends(b) ==> forall|uri: Seq<char>| #[trigger]
                lookup(s.shadow, uri) is Some ==> held.dom().contains(uri)
        }),
{
    let docs = b.state.docs;
    let sent = s.pass_on(b, v, now).sent;
    let held = held_after(texts, sent.drop_last());
    lemma_requests_see_own_text(s, b, v, now);
    lemma_held_none(texts);
    if s.anyone_diverged(b) {
        let loading = s.load(b, now, Some(v)).sent;
        assert(sent.drop_last() =~= loading);
        lemma_held_load(texts, s.shadow, docs);
    } else {
        assert(sent.drop_last() =~= Seq::empty());
    }
    assert forall|uri: Seq<char>| #[trigger] held.dom().contains(uri) implies held[uri] == (
    match lookup(s.shadow, uri) {
        Some(own) => own.text,
        None => lookup(docs, uri)->0.base,
    }) by {
        lemma_place(docs, uri);
        let i = place(docs, uri)->0;
        assert(lookup(docs, uri) == Some(docs[i].1));
        if s.anyone_diverged(b) {
            assert(held[uri] == held[uri]);
        } else {
            assert(docs[i].1.loaded == wanted(s.shadow, uri, docs[i].1));
        }
    }
}

// ---- joining, leaving and routing ---------------------------------------

/// Closing what only one client holds.
proof fn lemma_held_orphans(texts: Texts, docs: Docs, client: u64)
    requires
        distinct(docs),
    ensures
        ({
            let after = held_after(texts, to_server(orphan_messages(docs, client)));
            forall|uri: Seq<char>| #[trigger]
                after.dom().contains(uri) == (texts.dom().contains(uri) && !(lookup(
                    docs,
                    uri,
                ) is Some && lookup(docs, uri)->0.refs.remove(client).is_empty())) && (
                after.dom().contains(uri) ==> after[uri] == texts[uri])
        }),
    decreases docs.len(),
{
    let list = orphan_messages(docs, client);
    if docs.len() == 0 {
        assert(to_server(list) =~= Seq::empty());
        assert forall|uri: Seq<char>| lookup(docs, uri) is None by {
            lemma_place(docs, uri);
        }
    } else {
        let rest = docs.drop_last();
        let (last, doc) = docs.last();
        lemma_drop_last(docs);
        lemma_held_orphans(texts, rest, client);
        let before = orphan_messages(rest, client);
        let held = held_after(texts, to_server(before));
        if doc.refs.remove(client).is_empty() {
            lemma_to_server_push(before, close_json(last));
            lemma_held_push(texts, to_server(before), EffectView::ToServer(close_json(last)));
            lemma_held_close(held, last);
        }
        let after = held_after(texts, to_server(list));
        assert forall|uri: Seq<char>| #[trigger] after.dom().contains(uri) == (
        texts.dom().contains(uri) && !(lookup(docs, uri) is Some && lookup(
            docs,
            uri,
        )->0.refs.remove(client).is_empty())) && (after.dom().contains(uri) ==> after[uri]
            == texts[uri]) by {
            assert(held.dom().contains(uri) == held.dom().contains(uri));
            assert(lookup(docs, uri) == lookup(docs, uri));
        }
    }
}

/// When a client goes, the shared state still says what the server is holding.
pub proof fn lemma_leaving_stays_in_step(b: BackendView, client: u64, now: u64, texts: Texts)
    requires
        b.state.wf(),
        texts == recorded(b.state.docs),
    ensures
        held_after(texts, to_server(b.detach_messages(client))) == recorded(
            b.detached(client, now).state.docs,
        ),
{
    let st = b.unlisted(client).state;
    let docs = b.state.docs;
    let rest = st.released(client).docs;
    let closing = orphan_messages(rest, client);
    let release = st.release_messages(client);
    let none: Shadow = Seq::empty();
    lemma_release_restores_the_base(st, client);
    lemma_same_agreement(docs, rest, Seq::empty());
    lemma_kept_docs(rest, client);
    let left = held_after(texts, to_server(closing));
    lemma_held_orphans(texts, rest, client);
    lemma_to_server_concat(closing, release);
    lemma_held_concat(texts, to_server(closing), to_server(release));
    let after = held_after(left, to_server(release));
    if st.loaded_for == Some(client) {
        lemma_held_load(left, none, docs);
    } else {
        assert(to_server(release) =~= Seq::empty());
    }
    let b2 = recorded(b.detached(client, now).state.docs);
    assert forall|uri: Seq<char>| #[trigger] b2.dom().contains(uri) == after.dom().contains(uri)
        && (b2.dom().contains(uri) ==> b2[uri] == after[uri]) by {
        lemma_same_agreement(docs, rest, uri);
        assert(lookup(kept_docs(rest, client), uri) == lookup(kept_docs(rest, client), uri));
        assert(left.dom().contains(uri) == left.dom().contains(uri));
        if st.loaded_for == Some(client) {
            lemma_loaded_lookup(none, docs, uri);
            lemma_place(none, uri);
            assert(after.dom().contains(uri) == left.dom().contains(uri));
            if left.dom().contains(uri) {
                assert(after[uri] == after[uri]);
            }
        }
    }
    lemma_same_texts(after, b2);
}

proof fn lemma_replay_in_step(docs: Docs, shadow: Shadow, client: u64)
    requires
        distinct(docs),
    ensures
        distinct(replayed_docs(docs, shadow, client)),
        held_after(recorded(docs), to_server(replay_messages(docs, shadow, client))) == recorded(
            replayed_docs(docs, shadow, client),
        ),
    decreases shadow.len(),
{
    let texts = recorded(docs);
    if shadow.len() == 0 {
        assert(to_server(replay_messages(docs, shadow, client)) =~= Seq::empty());
    } else {
        let rest = shadow.drop_last();
        let (uri, own) = shadow.last();
        let before = replayed_docs(docs, rest, client);
        let list = replay_messages(docs, rest, client);
        lemma_replay_in_step(docs, rest, client);
        match lookup(before, uri) {
            Some(doc) => {
                let new = DocView { refs: doc.refs.insert(client), ..doc };
                lemma_recorded_put(before, uri, new);
                assert(recorded(before).insert(uri, doc.loaded) =~= recorded(before));
            },
            None => {
                let new = DocView {
                    base: own.text,
                    loaded: own.text,
                    version: own.version,
                    refs: set![client],
                };
                lemma_recorded_put(before, uri, new);
                lemma_to_server_push(list, open_json(uri, own));
                lemma_held_push(
                    texts,
                    to_server(list),
                    EffectView::ToServer(open_json(uri, own)),
                );
                lemma_held_open(recorded(before), uri, own);
            },
        }
    }
}

/// When a client moves onto a server, the shared state still says what the server is
/// holding.
pub proof fn lemma_joining_stays_in_step(s: SessionView, b: BackendView, texts: Texts)
    requires
        b.state.wf(),
        texts == recorded(b.state.docs),
    ensures
        held_after(texts, to_server(b.join_messages(s))) == recorded(b.joined_by(s).state.docs),
{
    let docs = replayed_docs(b.state.docs, s.shadow, s.id);
    let opening = replay_messages(b.state.docs, s.shadow, s.id);
    let loading = load_messages(s.shadow, docs);
    lemma_replay_in_step(b.state.docs, s.shadow, s.id);
    lemma_load_in_step(s.shadow, docs);
    lemma_to_server_concat(opening, loading);
    lemma_held_concat(texts, to_server(opening), to_server(loading));
    if loading.len() == 0 {
        lemma_nothing_loaded(s.shadow, docs);
    }
}

/// What the server says changes neither what it holds nor what is recorded of it.
pub proof fn lemma_routing_stays_in_step(st: StateView, v: JsonView, texts: Texts)
    requires
        texts == recorded(st.docs),
    ensures
        held_after(texts, st.route(v)) == recorded(st.after_route(v).docs),
{
    let sent = st.route(v);
    lemma_held_none(texts);
    if !msg::response_shaped(v) && msg::request_shaped(v) && st.clients.len() == 0
        && st.pending.len() >= MAX_PENDING {
        let back = unanswerable(v);
        reveal_strlit("method");
        reveal_strlit("jsonrpc");
        reveal_strlit("id");
        reveal_strlit("error");
        assert("method"@.len() == 6 && "jsonrpc"@.len() == 7 && "id"@.len() == 2
            && "error"@.len() == 5);
        assert(msg::method_of(back) == Seq::<char>::empty());
        lemma_methods();
        lemma_held_same(texts, back);
        assert(lowest(st.clients) is None);
    } else {
        assert forall|i: int| 0 <= i < sent.len() implies (#[trigger] sent[i]) is ToClient by {
            if let Some(doc) = lookup(st.docs, diagnostics_uri(v)) {
                lemma_deliver_to(st.clients, doc.refs, v);
            }
            if let EffectView::ToServer(m) = sent[i] {
                assert(sent.contains(EffectView::ToServer(m)));
            }
        }
        lemma_held_clients_only(texts, sent);
    }
}

proof fn lemma_held_clients_only(texts: Texts, sent: Seq<EffectView>)
    requires
        forall|i: int| 0 <= i < sent.len() ==> (#[trigger] sent[i]) is ToClient,
    ensures
        held_after(texts, sent) == texts,
    decreases sent.len(),
{
    if sent.len() > 0 {
        assert forall|i: int| 0 <= i < sent.len() - 1 implies (
        #[trigger] sent.drop_last()[i]) is ToClient by {
            assert(sent[i] is ToClient);
        }
        assert(sent[sent.len() - 1] is ToClient);
        lemma_held_clients_only(texts, sent.drop_last());
    }
}

} // verus!
