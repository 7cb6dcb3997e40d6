//! What holds of clients that share one server, whatever they do.

use vstd::prelude::*;
use vstd::string::*;
use crate::daemon::backend::{
    all_clean, lemma_answers_reach_the_asker, BackendView, DocView, Docs, EffectView, StateView,
};
use crate::daemon::session::{
    change_json, document_uri, held_for, int_or_zero, items_or_none, kept_docs,
    lemma_nothing_loaded, load_messages,
    loaded_doc, loaded_docs, open_json, others, replay_messages, replayed_docs, shows,
    text_or_empty, wanted, NextView, SessionView, Shadow, ShadowView, Turn, SWAP_THRASH_LIMIT, SWAP_WINDOW,
};
use crate::daemon::key::KeyView;
use crate::daemon::uri::folder_paths;
use crate::json::JsonView;
use crate::msg;
use crate::strings::{lemma_sorted_list_exists, sorted_list};
use crate::table::{
    distinct, lemma_place, lemma_place_is, lemma_put, lemma_without, lookup, place, put, without,
};
use crate::text::edited_all;

verus! {

impl SessionView {
    /// No document stands twice among the client's own.
    pub open spec fn wf(self) -> bool {
        distinct(self.shadow)
    }
}

/// The same documents with the same holders and the same agreed text: all that can
/// differ is what the server holds.
pub open spec fn same_agreement(a: Docs, b: Docs) -> bool {
    a.len() == b.len() && forall|i: int|
        0 <= i < a.len() ==> (#[trigger] a[i]).0 == b[i].0 && a[i].1.base == b[i].1.base
            && a[i].1.refs == b[i].1.refs
}

// ---- loading ------------------------------------------------------------

/// Loading shows the server exactly what the client believes, and changes nothing that
/// the clients agree on.
pub proof fn lemma_load_shows_own_view(s: SessionView, b: BackendView, now: u64)
    ensures
        shows(s.shadow, s.load(b, now, None).backend.state.docs),
        same_agreement(b.state.docs, s.load(b, now, None).backend.state.docs),
        s.load(b, now, None).session.shadow == s.shadow,
        s.load(b, now, None).backend.state.clients == b.state.clients,
        s.load(b, now, None).backend.state.pending == b.state.pending,
{
    let docs = loaded_docs(s.shadow, b.state.docs);
    assert forall|i: int| 0 <= i < docs.len() implies (#[trigger] docs[i]).1.loaded == wanted(
        s.shadow,
        docs[i].0,
        docs[i].1,
    ) by {
        assert(docs[i] == loaded_doc(s.shadow, b.state.docs[i]));
    }
    assert forall|i: int| 0 <= i < docs.len() implies (#[trigger] b.state.docs[i]).0 == docs[i].0
        && b.state.docs[i].1.base == docs[i].1.base && b.state.docs[i].1.refs
        == docs[i].1.refs by {
        assert(docs[i] == loaded_doc(s.shadow, b.state.docs[i]));
    }
}

/// Nothing is sent to a server that already shows what the client believes.
pub proof fn lemma_nothing_to_load(shadow: Shadow, docs: Docs)
    requires
        shows(shadow, docs),
    ensures
        load_messages(shadow, docs).len() == 0,
        loaded_docs(shadow, docs) == docs,
    decreases docs.len(),
{
    assert forall|i: int| 0 <= i < docs.len() implies #[trigger] loaded_docs(shadow, docs)[i]
        == docs[i] by {
        assert(docs[i].1.loaded == wanted(shadow, docs[i].0, docs[i].1));
    }
    assert(loaded_docs(shadow, docs) =~= docs);
    if docs.len() > 0 {
        let before = docs.drop_last();
        assert forall|i: int| 0 <= i < before.len() implies (#[trigger] before[i]).1.loaded
            == wanted(shadow, before[i].0, before[i].1) by {
            assert(docs[i] == before[i]);
        }
        lemma_nothing_to_load(shadow, before);
        assert(docs[docs.len() - 1] == docs.last());
    }
}

/// Loading twice in a row sends nothing the second time and changes nothing more.
pub proof fn lemma_load_once_is_enough(s: SessionView, b: BackendView, now: u64, later: u64)
    ensures
        ({
            let first = s.load(b, now, None);
            let second = first.session.load(first.backend, later, None);
            &&& second.sent == Seq::<EffectView>::empty()
            &&& second.backend == first.backend
            &&& second.session == first.session
            &&& second.next is Continue
        }),
{
    let first = s.load(b, now, None);
    lemma_load_shows_own_view(s, b, now);
    lemma_nothing_to_load(s.shadow, first.backend.state.docs);
    let second = first.session.load(first.backend, later, None);
    assert(second.sent =~= Seq::empty());
    assert(first.backend.state.loaded_for == Some(s.id));
    assert(second.backend =~= first.backend);
}

/// Every message that loading sends replaces the whole text of a document by what the
/// client believes it says, and names the document and its new version.
pub proof fn lemma_load_messages(shadow: Shadow, docs: Docs, k: int)
    requires
        0 <= k < load_messages(shadow, docs).len(),
    ensures
        exists|i: int|
            0 <= i < docs.len() && (#[trigger] docs[i]).1.loaded != wanted(
                shadow,
                docs[i].0,
                docs[i].1,
            ) && load_messages(shadow, docs)[k] == change_json(
                docs[i].0,
                docs[i].1.version.wrapping_add(1),
                wanted(shadow, docs[i].0, docs[i].1),
            ),
    decreases docs.len(),
{
    let before = docs.drop_last();
    if k < load_messages(shadow, before).len() {
        lemma_load_messages(shadow, before, k);
        let i = choose|i: int|
            0 <= i < before.len() && (#[trigger] before[i]).1.loaded != wanted(
                shadow,
                before[i].0,
                before[i].1,
            ) && load_messages(shadow, before)[k] == change_json(
                before[i].0,
                before[i].1.version.wrapping_add(1),
                wanted(shadow, before[i].0, before[i].1),
            );
        assert(docs[i] == before[i]);
    } else {
        let i = docs.len() - 1;
        assert(docs[i] == docs.last());
    }
}

/// A client's request is answered against that client's own text: when it is sent, the
/// server shows what the client believes.
pub proof fn lemma_requests_see_own_text(s: SessionView, b: BackendView, v: JsonView, now: u64)
    requires
        msg::request_shaped(v),
    ensures
        ({
            let turn = s.pass_on(b, v, now);
            &&& shows(s.shadow, turn.backend.state.docs)
            &&& same_agreement(b.state.docs, turn.backend.state.docs)
            &&& turn.session.shadow == s.shadow
            &&& turn.next is Continue ==> turn.sent.len() > 0 && turn.sent.last()
                == EffectView::ToServer(s.forwarded(v))
        }),
{
    lemma_load_shows_own_view(s, b, now);
}

/// Two clients with different unsaved edits are each answered against their own text, one
/// after the other, by one server: whatever the first left loaded, the second's request finds
/// the server showing what the second believes. Neither client's text changes, nor the text
/// that they agree on.
pub proof fn lemma_clients_alternate(
    s: SessionView,
    t: SessionView,
    b: BackendView,
    v: JsonView,
    w: JsonView,
    now: u64,
    later: u64,
)
    requires
        msg::request_shaped(v),
        msg::request_shaped(w),
    ensures
        ({
            let first = s.pass_on(b, v, now);
            let second = t.pass_on(first.backend, w, later);
            &&& shows(s.shadow, first.backend.state.docs)
            &&& shows(t.shadow, second.backend.state.docs)
            &&& same_agreement(b.state.docs, second.backend.state.docs)
            &&& first.session.shadow == s.shadow
            &&& second.session.shadow == t.shadow
        }),
{
    let first = s.pass_on(b, v, now);
    let second = t.pass_on(first.backend, w, later);
    lemma_load_shows_own_view(s, b, now);
    lemma_load_shows_own_view(t, first.backend, later);
    let d0 = b.state.docs;
    let d1 = first.backend.state.docs;
    let d2 = second.backend.state.docs;
    assert forall|i: int| 0 <= i < d0.len() implies (#[trigger] d0[i]).0 == d2[i].0 && d0[i].1.base
        == d2[i].1.base && d0[i].1.refs == d2[i].1.refs by {
        assert(d1[i].0 == d2[i].0);
    }
}

/// While nobody has unsaved edits, and the server shows what the client believes, a
/// request costs no swap.
pub proof fn lemma_no_swap_while_agreed(s: SessionView, b: BackendView, v: JsonView, now: u64)
    requires
        b.state.loaded_for is None || b.state.loaded_for == Some(s.id),
        all_clean(b.state.docs),
        shows(s.shadow, b.state.docs),
    ensures
        s.pass_on(b, v, now) == (Turn {
            session: s,
            backend: b,
            sent: seq![EffectView::ToServer(s.forwarded(v))],
            next: NextView::Continue,
        }),
{
}

/// What a client asks goes out under an id of its own, and the answer to that id comes
/// back to it alone, under the id that it chose.
pub proof fn lemma_request_and_answer(
    s: SessionView,
    st: StateView,
    v: JsonView,
    answer: JsonView,
)
    requires
        msg::request_shaped(v),
        msg::decoded_id(msg::encoded_id(s.id, v.field("id"@))) == Some((s.id, v.field("id"@))),
        st.clients.contains(s.id),
        msg::response_shaped(answer),
        answer.field("id"@) == s.forwarded(v).field("id"@),
    ensures
        msg::method_of(s.forwarded(v)) == msg::method_of(v),
        st.route(answer) == seq![
            EffectView::ToClient(s.id, answer.with("id"@, v.field("id"@))),
        ],
{
    msg::lemma_names_differ();
    lemma_answers_reach_the_asker(st, s.id, v.field("id"@), answer);
}

/// Answers to the server's own questions pass through untouched.
pub proof fn lemma_client_answers_pass_through(
    s: SessionView,
    b: BackendView,
    v: JsonView,
    now: u64,
)
    requires
        msg::response_shaped(v),
        !b.state.dead,
    ensures
        s.handle(b, v, now) == (Turn {
            session: s,
            backend: b,
            sent: seq![EffectView::ToServer(v)],
            next: NextView::Continue,
        }),
{
    reveal_strlit("initialize");
    reveal_strlit("initialized");
    reveal_strlit("shutdown");
    reveal_strlit("exit");
    reveal_strlit("textDocument/didOpen");
    reveal_strlit("textDocument/didChange");
    reveal_strlit("textDocument/didSave");
    reveal_strlit("textDocument/didClose");
    reveal_strlit("workspace/didChangeWorkspaceFolders");
    reveal_strlit("$/cancelRequest");
    assert(msg::method_of(v) =~= Seq::empty());
}

// ---- editing, saving, closing -------------------------------------------

/// An edit of a file that others hold too, or while somebody's edits are loaded, is an
/// overlay: the server shows it, and the text that the others agree on stays.
pub proof fn lemma_edits_are_overlays(
    s: SessionView,
    b: BackendView,
    v: JsonView,
    now: u64,
    own: ShadowView,
)
    requires
        s.wf(),
        v.get("params"@) is Some,
        lookup(s.shadow, changed_uri(v)) == Some(own),
        !(s.sole_holder(b, changed_uri(v)) && all_clean(b.state.docs) && lookup(
            b.state.docs,
            changed_uri(v),
        )->0.loaded == own.text),
    ensures
        ({
            let turn = s.did_change(b, v, now);
            &&& lookup(turn.session.shadow, changed_uri(v)) is Some
            &&& lookup(turn.session.shadow, changed_uri(v))->0.text == edited_all(
                own.text,
                changed_by(v),
            )
            &&& shows(turn.session.shadow, turn.backend.state.docs)
            &&& same_agreement(b.state.docs, turn.backend.state.docs)
        }),
{
    let uri = changed_uri(v);
    let text = edited_all(own.text, changed_by(v));
    let version = int_or_zero(v.field("params"@).field("textDocument"@).field("version"@));
    let next = ShadowView { text, version, ..own };
    lemma_put(s.shadow, uri, next);
    let edited = SessionView { shadow: put(s.shadow, uri, next), ..s };
    lemma_load_shows_own_view(edited, b, now);
}

/// The document that an edit is about.
pub open spec fn changed_uri(v: JsonView) -> Seq<char> {
    text_or_empty(v.field("params"@).field("textDocument"@).field("uri"@))
}

/// The changes that an edit makes.
pub open spec fn changed_by(v: JsonView) -> Seq<JsonView> {
    items_or_none(v.field("params"@).field("contentChanges"@))
}

/// A sole holder's edit, while nobody has unsaved edits and the server shows the holder's
/// text, advances the shared text: it is agreed at once, forwarded as it came, and nobody
/// owns what is loaded.
pub proof fn lemma_sole_holder_edits_advance_the_base(
    s: SessionView,
    b: BackendView,
    v: JsonView,
    now: u64,
    own: ShadowView,
)
    requires
        b.state.wf(),
        v.get("params"@) is Some,
        lookup(s.shadow, changed_uri(v)) == Some(own),
        s.sole_holder(b, changed_uri(v)),
        all_clean(b.state.docs),
        lookup(b.state.docs, changed_uri(v))->0.loaded == own.text,
    ensures
        ({
            let turn = s.did_change(b, v, now);
            let doc = lookup(turn.backend.state.docs, changed_uri(v))->0;
            &&& lookup(turn.backend.state.docs, changed_uri(v)) is Some
            &&& doc.base == edited_all(own.text, changed_by(v))
            &&& doc.loaded == doc.base
            &&& all_clean(turn.backend.state.docs)
            &&& turn.backend.state.loaded_for is None
            &&& turn.backend.state.generation == b.state.generation
            &&& turn.sent == seq![EffectView::ToServer(v)]
        }),
{
    let uri = changed_uri(v);
    let text = edited_all(own.text, changed_by(v));
    let version = int_or_zero(v.field("params"@).field("textDocument"@).field("version"@));
    let shared = lookup(b.state.docs, uri)->0;
    let new = DocView { base: text, loaded: text, version, ..shared };
    lemma_put(b.state.docs, uri, new);
    lemma_put_clean(b.state.docs, uri, new);
}

/// Putting a clean document among clean ones leaves all of them clean.
proof fn lemma_put_clean(docs: Docs, uri: Seq<char>, doc: DocView)
    requires
        doc.is_clean(),
        all_clean(docs),
    ensures
        all_clean(put(docs, uri, doc)),
{
    lemma_place(docs, uri);
    let after = put(docs, uri, doc);
    assert forall|i: int| 0 <= i < after.len() implies (#[trigger] after[i]).1.is_clean() by {
        if i < docs.len() && place(docs, uri) != Some(i) {
            assert(after[i] == docs[i]);
        }
    }
}

/// A save makes the saver's text the shared truth and touches no other document. What the
/// server shows of it stays as it is, unless nobody's overlay is loaded: then the server
/// shows the saved text. If the server was showing it and no other document differs,
/// everything is agreed again and nobody owns what is loaded.
pub proof fn lemma_saving_collapses_overlays(s: SessionView, b: BackendView, v: JsonView)
    requires
        b.state.wf(),
        document_uri(v) is Some,
        lookup(s.shadow, document_uri(v)->0) is Some,
        lookup(b.state.docs, document_uri(v)->0) is Some,
    ensures
        ({
            let uri = document_uri(v)->0;
            let own = lookup(s.shadow, uri)->0;
            let old = lookup(b.state.docs, uri)->0;
            let turn = s.did_save(b, v);
            let docs = turn.backend.state.docs;
            &&& lookup(docs, uri) is Some
            &&& lookup(docs, uri)->0.base == own.text
            &&& lookup(docs, uri)->0.refs == old.refs
            &&& lookup(docs, uri)->0.loaded == (if b.state.loaded_for is None {
                own.text
            } else {
                old.loaded
            })
            &&& forall|u: Seq<char>| u != uri ==> #[trigger] lookup(docs, u) == lookup(
                b.state.docs,
                u,
            )
            &&& (old.loaded == own.text && forall|i: int|
                0 <= i < b.state.docs.len() && b.state.docs[i].0 != uri ==> (
                #[trigger] b.state.docs[i]).1.is_clean()) ==> all_clean(docs)
                && turn.backend.state.loaded_for is None
        }),
{
    let uri = document_uri(v)->0;
    let own = lookup(s.shadow, uri)->0;
    let old = lookup(b.state.docs, uri)->0;
    let new = DocView { base: own.text, ..old };
    let docs = put(b.state.docs, uri, new);
    lemma_put(b.state.docs, uri, new);
    lemma_put(
        b.state.docs,
        uri,
        DocView {
            base: own.text,
            loaded: own.text,
            version: old.version.wrapping_add(1),
            ..old
        },
    );
    lemma_place(b.state.docs, uri);
    let at = place(b.state.docs, uri)->0;
    if old.loaded == own.text && forall|i: int|
        0 <= i < b.state.docs.len() && b.state.docs[i].0 != uri ==> (
        #[trigger] b.state.docs[i]).1.is_clean() {
        assert forall|i: int| 0 <= i < docs.len() implies (#[trigger] docs[i]).1.is_clean() by {
            if i != at {
                assert(docs[i] == b.state.docs[i]);
                assert(b.state.docs[i].0 != b.state.docs[at].0);
            }
        }
    }
}

/// Releasing brings every document back to the text that everyone agrees on, if the
/// client's overlay was the one that was loaded, and changes nothing that is agreed.
pub proof fn lemma_release_restores_the_base(st: StateView, client: u64)
    ensures
        st.released(client).loaded_for != Some(client),
        st.loaded_for == Some(client) ==> all_clean(st.released(client).docs)
            && st.released(client).loaded_for is None,
        st.loaded_for != Some(client) ==> st.released(client) == st,
        same_agreement(st.docs, st.released(client).docs),
        st.released(client).clients == st.clients,
{
    if st.loaded_for == Some(client) {
        let none: Shadow = Seq::empty();
        let docs = loaded_docs(none, st.docs);
        assert forall|i: int| 0 <= i < docs.len() implies (#[trigger] docs[i]).1.is_clean() by {
            lemma_place(none, st.docs[i].0);
            assert(docs[i] == loaded_doc(none, st.docs[i]));
        }
        assert forall|i: int| 0 <= i < docs.len() implies (#[trigger] st.docs[i]).0 == docs[i].0
            && st.docs[i].1.base == docs[i].1.base && st.docs[i].1.refs == docs[i].1.refs by {
            assert(docs[i] == loaded_doc(none, st.docs[i]));
        }
    }
}

/// Closing a file drops the client's own view of it. Only the last holder's close reaches
/// the server, and only then is the document gone; and what the client had loaded is
/// handed back.
pub proof fn lemma_closing(s: SessionView, b: BackendView, v: JsonView, doc: DocView)
    requires
        s.wf(),
        b.state.wf(),
        document_uri(v) is Some,
        lookup(b.state.docs, document_uri(v)->0) == Some(doc),
    ensures
        ({
            let uri = document_uri(v)->0;
            let turn = s.did_close(b, v);
            let last = doc.refs.remove(s.id).is_empty();
            let docs = turn.backend.state.docs;
            &&& lookup(turn.session.shadow, uri) is None
            &&& lookup(docs, uri) is None <==> last
            &&& !last ==> lookup(docs, uri)->0.refs == doc.refs.remove(s.id)
                && lookup(docs, uri)->0.base == doc.base
            &&& last ==> turn.sent.len() > 0 && turn.sent[0] == EffectView::ToServer(v)
            &&& !last && b.state.loaded_for != Some(s.id) ==> turn.sent.len() == 0
            &&& turn.backend.state.loaded_for != Some(s.id)
            &&& b.state.loaded_for == Some(s.id) ==> all_clean(docs)
                && turn.backend.state.loaded_for is None
        }),
{
    let uri = document_uri(v)->0;
    lemma_without(s.shadow, uri);
    let last = doc.refs.remove(s.id).is_empty();
    let new = DocView { refs: doc.refs.remove(s.id), ..doc };
    lemma_without(b.state.docs, uri);
    lemma_put(b.state.docs, uri, new);
    let docs = if last {
        without(b.state.docs, uri)
    } else {
        put(b.state.docs, uri, new)
    };
    let left = b.with_docs(docs);
    lemma_release_restores_the_base(left.state, s.id);
    lemma_same_agreement(docs, left.state.released(s.id).docs, uri);
}

/// Documents that agree are found under the same names.
pub proof fn lemma_same_agreement(a: Docs, b: Docs, uri: Seq<char>)
    requires
        same_agreement(a, b),
        distinct(a),
    ensures
        distinct(b),
        lookup(a, uri) is Some <==> lookup(b, uri) is Some,
        lookup(a, uri) is Some ==> lookup(b, uri)->0.base == lookup(a, uri)->0.base && lookup(
            b,
            uri,
        )->0.refs == lookup(a, uri)->0.refs,
{
    assert forall|i: int, j: int| 0 <= i < j < b.len() implies (#[trigger] b[i]).0 != (
    #[trigger] b[j]).0 by {
        assert(a[i].0 == b[i].0 && a[j].0 == b[j].0);
    }
    lemma_place(a, uri);
    lemma_place(b, uri);
    if lookup(a, uri) is Some {
        let i = place(a, uri)->0;
        assert(a[i].0 == b[i].0);
        lemma_place_is(b, uri, i);
    }
    if lookup(b, uri) is Some {
        let i = place(b, uri)->0;
        assert(a[i].0 == b[i].0);
    }
}

// ---- joining and leaving ------------------------------------------------

proof fn lemma_others(clients: Seq<u64>, client: u64)
    ensures
        !others(clients, client).contains(client),
        forall|c: u64| c != client ==> (#[trigger] others(clients, client).contains(c)
            <==> clients.contains(c)),
        clients.no_duplicates() ==> others(clients, client).no_duplicates(),
        others(clients, client).len() <= clients.len(),
    decreases clients.len(),
{
    if clients.len() > 0 {
        let rest = clients.drop_last();
        let last = clients.last();
        let before = others(rest, client);
        let all = others(clients, client);
        lemma_others(rest, client);
        assert(clients[clients.len() - 1] == last);
        assert forall|c: u64| clients.contains(c) <==> rest.contains(c) || c == last by {
            if clients.contains(c) {
                let j = choose|j: int| 0 <= j < clients.len() && clients[j] == c;
                if j < rest.len() {
                    assert(rest[j] == c);
                }
            }
            if rest.contains(c) {
                let j = choose|j: int| 0 <= j < rest.len() && rest[j] == c;
                assert(clients[j] == c);
            }
        }
        assert forall|c: u64| all.contains(c) <==> before.contains(c) || (last != client && c
            == last) by {
            if all.contains(c) {
                let j = choose|j: int| 0 <= j < all.len() && all[j] == c;
                if j < before.len() {
                    assert(before[j] == c);
                }
            }
            if before.contains(c) {
                let j = choose|j: int| 0 <= j < before.len() && before[j] == c;
                assert(all[j] == c);
            }
            if last != client {
                assert(all[all.len() - 1] == last);
            }
        }
        if clients.no_duplicates() {
            assert(rest.no_duplicates());
            if rest.contains(last) {
                let j = choose|j: int| 0 <= j < rest.len() && rest[j] == last;
                assert(clients[j] == clients[clients.len() - 1]);
            }
            assert(before.no_duplicates());
            assert forall|i: int, j: int| 0 <= i < j < all.len() implies all[i] != all[j] by {
                if j < before.len() {
                    assert(before[i] != before[j]);
                } else {
                    assert(before.contains(before[i]));
                }
            }
        }
    }
}

/// What is left of the documents when a client goes: nobody's text changes, the client
/// holds none, and what somebody else holds stays open.
pub proof fn lemma_kept_docs(docs: Docs, client: u64)
    requires
        distinct(docs),
    ensures
        distinct(kept_docs(docs, client)),
        all_clean(docs) ==> all_clean(kept_docs(docs, client)),
        forall|k: int|
            0 <= k < kept_docs(docs, client).len() ==> !(#[trigger] kept_docs(
                docs,
                client,
            )[k]).1.refs.is_empty() && !kept_docs(docs, client)[k].1.refs.contains(client),
        forall|k: int|
            0 <= k < kept_docs(docs, client).len() ==> exists|i: int|
                0 <= i < docs.len() && #[trigger] docs[i].0 == (#[trigger] kept_docs(
                    docs,
                    client,
                )[k]).0,
        forall|uri: Seq<char>| #[trigger]
            lookup(kept_docs(docs, client), uri) == (match lookup(docs, uri) {
                Some(doc) => if doc.refs.remove(client).is_empty() {
                    None
                } else {
                    Some(DocView { refs: doc.refs.remove(client), ..doc })
                },
                None => None,
            }),
    decreases docs.len(),
{
    let all = kept_docs(docs, client);
    if docs.len() > 0 {
        let rest = docs.drop_last();
        let (uri, doc) = docs.last();
        let before = kept_docs(rest, client);
        assert(docs[docs.len() - 1] == docs.last());
        assert forall|i: int| 0 <= i < rest.len() implies #[trigger] rest[i] == docs[i] by {}
        assert(distinct(rest));
        if all_clean(docs) {
            assert(all_clean(rest)) by {
                assert forall|i: int| 0 <= i < rest.len() implies (
                #[trigger] rest[i]).1.is_clean() by {
                    assert(docs[i].1.is_clean());
                }
            }
            assert(doc.is_clean());
        }
        lemma_kept_docs(rest, client);
        assert forall|k: int| 0 <= k < before.len() implies (#[trigger] before[k]).0 != uri by {
            let i = choose|i: int| 0 <= i < rest.len() && #[trigger] rest[i].0 == before[k].0;
            assert(docs[i].0 != docs[docs.len() - 1].0);
        }
        assert forall|k: int| 0 <= k < all.len() implies exists|i: int|
            0 <= i < docs.len() && #[trigger] docs[i].0 == (#[trigger] all[k]).0 by {
            if k < before.len() {
                assert(all[k] == before[k]);
                let i = choose|i: int| 0 <= i < rest.len() && #[trigger] rest[i].0 == before[k].0;
                assert(docs[i].0 == all[k].0);
            } else {
                assert(docs[docs.len() - 1].0 == all[k].0);
            }
        }
        assert forall|u: Seq<char>| #[trigger] lookup(all, u) == (match lookup(docs, u) {
            Some(d) => if d.refs.remove(client).is_empty() {
                None
            } else {
                Some(DocView { refs: d.refs.remove(client), ..d })
            },
            None => None,
        }) by {
            assert(lookup(before, u) == lookup(before, u));
            lemma_drop_last_lookup(docs, u);
            if all.len() > before.len() {
                assert(all.drop_last() =~= before);
                lemma_drop_last_lookup(all, u);
            }
            if u == uri {
                lemma_place(before, u);
                lemma_place_is(docs, u, docs.len() - 1);
                if all.len() > before.len() {
                    lemma_place_is(all, u, all.len() - 1);
                }
            }
        }
    } else {
        assert forall|u: Seq<char>| lookup(all, u) is None by {
            lemma_place(all, u);
        }
        assert forall|u: Seq<char>| lookup(docs, u) is None by {
            lemma_place(docs, u);
        }
    }
}

proof fn lemma_drop_last_lookup(t: Docs, uri: Seq<char>)
    requires
        t.len() > 0,
        distinct(t),
    ensures
        uri != t.last().0 ==> lookup(t, uri) == lookup(t.drop_last(), uri),
{
    let rest = t.drop_last();
    lemma_place(t, uri);
    lemma_place(rest, uri);
    if uri != t.last().0 {
        if place(t, uri) is Some {
            let i = place(t, uri)->0;
            assert(rest[i] == t[i]);
            lemma_place_is(rest, uri, i);
        } else if place(rest, uri) is Some {
            let i = place(rest, uri)->0;
            assert(t[i] == rest[i]);
        }
    }
}

/// `client` holds the document.
pub open spec fn holds(docs: Docs, uri: Seq<char>, client: u64) -> bool {
    lookup(docs, uri) is Some && lookup(docs, uri)->0.refs.contains(client)
}

/// A departing client leaves nothing behind: it is no longer listed, it holds no document
/// and owns no overlay. What it had loaded is handed back, and every document that
/// somebody else holds stays, with the text that everyone agrees on.
pub proof fn lemma_departing_clients_leave_nothing(b: BackendView, client: u64, now: u64)
    requires
        b.state.wf(),
    ensures
        ({
            let after = b.detached(client, now);
            &&& !after.state.clients.contains(client)
            &&& forall|c: u64| c != client ==> (#[trigger] after.state.clients.contains(c)
                <==> b.state.clients.contains(c))
            &&& after.state.loaded_for != Some(client)
            &&& b.state.loaded_for == Some(client) ==> all_clean(after.state.docs)
                && after.state.loaded_for is None
            &&& forall|uri: Seq<char>| #[trigger] lookup(after.state.docs, uri) is Some ==> !lookup(
                after.state.docs,
                uri,
            )->0.refs.contains(client)
            &&& forall|uri: Seq<char>, c: u64| #[trigger]
                holds(b.state.docs, uri, c) && c != client ==> holds(after.state.docs, uri, c)
                    && lookup(after.state.docs, uri)->0.base == lookup(b.state.docs, uri)->0.base
            &&& after.state.wf()
            &&& b.state.settled() ==> after.state.settled()
        }),
{
    lemma_others(b.state.clients, client);
    let st = b.unlisted(client).state;
    let rest = st.released(client);
    lemma_release_restores_the_base(st, client);
    lemma_same_agreement(st.docs, rest.docs, Seq::empty());
    lemma_kept_docs(rest.docs, client);
    let after = b.detached(client, now);
    assert(after.state.docs == kept_docs(rest.docs, client));
    assert forall|uri: Seq<char>, c: u64| #[trigger]
        holds(b.state.docs, uri, c) && c != client implies holds(after.state.docs, uri, c)
        && lookup(after.state.docs, uri)->0.base == lookup(b.state.docs, uri)->0.base by {
        lemma_same_agreement(st.docs, rest.docs, uri);
        let doc = lookup(rest.docs, uri)->0;
        assert(doc.refs.remove(client).contains(c));
    }
    assert forall|uri: Seq<char>| #[trigger] lookup(after.state.docs, uri) is Some implies !lookup(
        after.state.docs,
        uri,
    )->0.refs.contains(client) by {
        lemma_place(after.state.docs, uri);
    }
}

/// The idle clock runs exactly while nobody is attached: the last one to leave starts it,
/// and the first to come stops it.
pub proof fn lemma_idle_clock(b: BackendView, client: u64, now: u64)
    ensures
        b.registered(client).idle_since is None,
        b.registered(client).state.clients.contains(client),
        others(b.state.clients, client).len() == 0 ==> b.detached(client, now).idle_since == Some(
            now,
        ),
        others(b.state.clients, client).len() > 0 ==> b.detached(client, now).idle_since
            == b.idle_since,
{
    let clients = b.registered(client).state.clients;
    if !b.state.clients.contains(client) {
        assert(clients[clients.len() - 1] == client);
    }
}

/// What the server asked while nobody was listening is handed to the client that attaches,
/// in order, and to nobody else later.
pub proof fn lemma_held_requests_are_delivered_once(b: BackendView, first: u64, second: u64)
    ensures
        held_for(first, b.state.pending).len() == b.state.pending.len(),
        forall|i: int|
            0 <= i < b.state.pending.len() ==> #[trigger] held_for(first, b.state.pending)[i]
                == EffectView::ToClient(first, b.state.pending[i]),
        held_for(second, b.registered(first).state.pending).len() == 0,
{
}

/// A document after a client brought its own along.
pub open spec fn replayed_doc(
    docs: Docs,
    shadow: Shadow,
    client: u64,
    uri: Seq<char>,
) -> Option<DocView> {
    match (lookup(docs, uri), lookup(shadow, uri)) {
        (Some(doc), Some(own)) => Some(DocView { refs: doc.refs.insert(client), ..doc }),
        (None, Some(own)) => Some(
            DocView {
                base: own.text,
                loaded: own.text,
                version: own.version,
                refs: set![client],
            },
        ),
        (found, None) => found,
    }
}

/// What a client brings along to another server is open there, and held by it.
pub proof fn lemma_replayed(docs: Docs, shadow: Shadow, client: u64)
    requires
        distinct(docs),
        distinct(shadow),
    ensures
        distinct(replayed_docs(docs, shadow, client)),
        all_clean(docs) ==> all_clean(replayed_docs(docs, shadow, client)),
        (forall|i: int| 0 <= i < docs.len() ==> !(#[trigger] docs[i]).1.refs.is_empty()) ==> (
        forall|i: int|
            0 <= i < replayed_docs(docs, shadow, client).len() ==> !(#[trigger] replayed_docs(
                docs,
                shadow,
                client,
            )[i]).1.refs.is_empty()),
        forall|uri: Seq<char>| #[trigger]
            lookup(replayed_docs(docs, shadow, client), uri) == replayed_doc(
                docs,
                shadow,
                client,
                uri,
            ),
    decreases shadow.len(),
{
    let all = replayed_docs(docs, shadow, client);
    if shadow.len() > 0 {
        let rest = shadow.drop_last();
        let (uri, own) = shadow.last();
        let before = replayed_docs(docs, rest, client);
        assert(shadow[shadow.len() - 1] == shadow.last());
        assert forall|i: int| 0 <= i < rest.len() implies #[trigger] rest[i] == shadow[i] by {}
        lemma_replayed(docs, rest, client);
        lemma_place(rest, uri);
        if place(rest, uri) is Some {
            let i = place(rest, uri)->0;
            assert(shadow[i].0 != shadow[shadow.len() - 1].0);
        }
        lemma_place_is(shadow, uri, shadow.len() - 1);
        assert(lookup(before, uri) == lookup(docs, uri));
        let new = match lookup(before, uri) {
            Some(doc) => DocView { refs: doc.refs.insert(client), ..doc },
            None => DocView {
                base: own.text,
                loaded: own.text,
                version: own.version,
                refs: set![client],
            },
        };
        assert(all == put(before, uri, new));
        assert(new.refs.contains(client));
        lemma_put(before, uri, new);
        lemma_place(before, uri);
        if all_clean(docs) {
            if lookup(before, uri) is Some {
                assert(before[place(before, uri)->0].1.is_clean());
            }
            lemma_put_clean(before, uri, new);
        }
        if forall|i: int| 0 <= i < docs.len() ==> !(#[trigger] docs[i]).1.refs.is_empty() {
            lemma_put_keeps(before, uri, new);
        }
        assert forall|u: Seq<char>| #[trigger] lookup(all, u) == replayed_doc(
            docs,
            shadow,
            client,
            u,
        ) by {
            assert(lookup(before, u) == replayed_doc(docs, rest, client, u));
            if u != uri {
                lemma_shadow_drop_last(shadow, u);
            }
        }
    } else {
        assert forall|u: Seq<char>| lookup(shadow, u) is None by {
            lemma_place(shadow, u);
        }
    }
}

proof fn lemma_shadow_drop_last(t: Shadow, uri: Seq<char>)
    requires
        t.len() > 0,
        distinct(t),
        uri != t.last().0,
    ensures
        lookup(t, uri) == lookup(t.drop_last(), uri),
{
    let rest = t.drop_last();
    lemma_place(t, uri);
    lemma_place(rest, uri);
    if place(t, uri) is Some {
        let i = place(t, uri)->0;
        assert(rest[i] == t[i]);
        lemma_place_is(rest, uri, i);
    } else if place(rest, uri) is Some {
        let i = place(rest, uri)->0;
        assert(t[i] == rest[i]);
    }
}

/// The message opens one of a client's documents that is not open yet, with the client's
/// own text and language.
pub open spec fn opens_own(docs: Docs, shadow: Shadow, m: JsonView) -> bool {
    exists|i: int|
        0 <= i < shadow.len() && lookup(docs, (#[trigger] shadow[i]).0) is None && m == open_json(
            shadow[i].0,
            shadow[i].1,
        )
}

/// Moving onto another server, whatever is open there, brings the client's documents
/// along: the client holds each of them, what the others agree on is left as it is, and
/// the server shows exactly what the client sees. Only documents that were not open there
/// are opened.
pub proof fn lemma_moving_replays_documents(s: SessionView, b: BackendView)
    requires
        s.wf(),
        b.state.wf(),
    ensures
        shows(s.shadow, b.joined_by(s).state.docs),
        forall|uri: Seq<char>| #[trigger]
            lookup(s.shadow, uri) is Some ==> holds(b.joined_by(s).state.docs, uri, s.id),
        forall|uri: Seq<char>| #[trigger]
            lookup(b.state.docs, uri) is Some ==> lookup(b.joined_by(s).state.docs, uri) is Some
                && lookup(b.joined_by(s).state.docs, uri)->0.base == lookup(
                b.state.docs,
                uri,
            )->0.base && lookup(b.state.docs, uri)->0.refs.subset_of(
                lookup(b.joined_by(s).state.docs, uri)->0.refs,
            ),
        forall|k: int|
            0 <= k < replay_messages(b.state.docs, s.shadow, s.id).len() ==> opens_own(
                b.state.docs,
                s.shadow,
                #[trigger] replay_messages(b.state.docs, s.shadow, s.id)[k],
            ),
        b.state.docs.len() == 0 ==> all_clean(b.joined_by(s).state.docs)
            && b.joined_by(s).state.loaded_for == b.state.loaded_for,
        b.joined_by(s).state.wf(),
        b.state.settled() ==> b.joined_by(s).state.settled(),
{
    let opened = replayed_docs(b.state.docs, s.shadow, s.id);
    let docs = b.joined_by(s).state.docs;
    lemma_replayed(b.state.docs, s.shadow, s.id);
    lemma_registered(b, s.id);
    lemma_all_loaded(s.shadow, opened);
    assert(docs == loaded_docs(s.shadow, opened));
    assert(same_agreement(opened, docs)) by {
        assert forall|i: int| 0 <= i < opened.len() implies (#[trigger] opened[i]).0 == docs[i].0
            && opened[i].1.base == docs[i].1.base && opened[i].1.refs == docs[i].1.refs by {
            assert(docs[i] == loaded_doc(s.shadow, opened[i]));
        }
    }
    assert forall|uri: Seq<char>| #[trigger] lookup(s.shadow, uri) is Some implies holds(
        docs,
        uri,
        s.id,
    ) by {
        lemma_same_agreement(opened, docs, uri);
        assert(lookup(opened, uri) == replayed_doc(b.state.docs, s.shadow, s.id, uri));
    }
    assert forall|uri: Seq<char>| #[trigger] lookup(b.state.docs, uri) is Some implies lookup(
        docs,
        uri,
    ) is Some && lookup(docs, uri)->0.base == lookup(b.state.docs, uri)->0.base && lookup(
        b.state.docs,
        uri,
    )->0.refs.subset_of(lookup(docs, uri)->0.refs) by {
        lemma_same_agreement(opened, docs, uri);
        assert(lookup(opened, uri) == replayed_doc(b.state.docs, s.shadow, s.id, uri));
    }
    lemma_replay_messages(b.state.docs, s.shadow, s.id);
    lemma_same_agreement(opened, docs, Seq::empty());
    assert forall|i: int| 0 <= i < docs.len() implies !(#[trigger] docs[i]).1.refs.is_empty() by {
        assert(opened[i].1.refs == docs[i].1.refs);
    }
    if b.state.docs.len() == 0 {
        assert forall|i: int| 0 <= i < opened.len() implies (#[trigger] opened[i]).1.loaded
            == wanted(s.shadow, opened[i].0, opened[i].1) by {
            let uri = opened[i].0;
            lemma_place(b.state.docs, uri);
            lemma_place_is(opened, uri, i);
            assert(lookup(opened, uri) == replayed_doc(b.state.docs, s.shadow, s.id, uri));
        }
        lemma_nothing_to_load(s.shadow, opened);
    }
}

/// Whether or not there was anything to load, what follows shows what the client sees.
pub proof fn lemma_all_loaded(shadow: Shadow, docs: Docs)
    ensures
        shows(shadow, loaded_docs(shadow, docs)),
        load_messages(shadow, docs).len() == 0 ==> loaded_docs(shadow, docs) == docs,
{
    let after = loaded_docs(shadow, docs);
    assert forall|i: int| 0 <= i < after.len() implies (#[trigger] after[i]).1.loaded == wanted(
        shadow,
        after[i].0,
        after[i].1,
    ) by {
        assert(after[i] == loaded_doc(shadow, docs[i]));
    }
    if load_messages(shadow, docs).len() == 0 {
        lemma_nothing_loaded(shadow, docs);
    }
}

/// The documents that are opened on moving are those of the client that were not open.
proof fn lemma_replay_messages(docs: Docs, shadow: Shadow, client: u64)
    requires
        distinct(docs),
        distinct(shadow),
    ensures
        forall|k: int|
            0 <= k < replay_messages(docs, shadow, client).len() ==> opens_own(
                docs,
                shadow,
                #[trigger] replay_messages(docs, shadow, client)[k],
            ),
    decreases shadow.len(),
{
    if shadow.len() > 0 {
        let rest = shadow.drop_last();
        let (uri, own) = shadow.last();
        let all = replay_messages(docs, shadow, client);
        let before = replay_messages(docs, rest, client);
        assert forall|i: int| 0 <= i < rest.len() implies #[trigger] rest[i] == shadow[i] by {}
        lemma_replay_messages(docs, rest, client);
        lemma_replayed(docs, rest, client);
        assert(lookup(replayed_docs(docs, rest, client), uri) == replayed_doc(
            docs,
            rest,
            client,
            uri,
        ));
        assert forall|k: int| 0 <= k < all.len() implies opens_own(
            docs,
            shadow,
            #[trigger] all[k],
        ) by {
            if k < before.len() {
                assert(before[k] == all[k]);
                let i = choose|i: int|
                    0 <= i < rest.len() && lookup(docs, (#[trigger] rest[i]).0) is None
                        && before[k] == open_json(rest[i].0, rest[i].1);
                assert(rest[i] == shadow[i]);
            } else {
                assert(shadow[shadow.len() - 1] == (uri, own));
            }
        }
    }
}

/// Attaching keeps everything in order.
pub proof fn lemma_registered(b: BackendView, client: u64)
    requires
        b.state.wf(),
    ensures
        b.registered(client).state.wf(),
        b.state.settled() ==> b.registered(client).state.settled(),
        b.registered(client).state.docs == b.state.docs,
{
    let clients = b.registered(client).state.clients;
    if !b.state.clients.contains(client) {
        assert(clients == b.state.clients.push(client));
        assert forall|i: int, j: int| 0 <= i < j < clients.len() implies clients[i]
            != clients[j] by {
            if j == clients.len() - 1 {
                assert(b.state.clients.contains(b.state.clients[i]));
            }
        }
    }
}

// ---- invariants ---------------------------------------------------------

proof fn lemma_load_keeps(s: SessionView, b: BackendView, now: u64, after: Option<JsonView>)
    requires
        b.state.wf(),
        b.state.settled(),
    ensures
        s.load(b, now, after).backend.state.wf(),
        s.load(b, now, after).backend.state.settled(),
        s.wf() ==> s.load(b, now, after).session.wf(),
{
    let docs = s.load(b, now, after).backend.state.docs;
    lemma_load_shows_own_view(s, b, now);
    lemma_same_agreement(b.state.docs, docs, Seq::empty());
    assert forall|i: int| 0 <= i < docs.len() implies !(#[trigger] docs[i]).1.refs.is_empty() by {
        assert(b.state.docs[i].1.refs == docs[i].1.refs);
    }
}

proof fn lemma_put_keeps(docs: Docs, uri: Seq<char>, doc: DocView)
    requires
        distinct(docs),
        forall|i: int| 0 <= i < docs.len() ==> !(#[trigger] docs[i]).1.refs.is_empty(),
        !doc.refs.is_empty(),
    ensures
        distinct(put(docs, uri, doc)),
        forall|i: int|
            0 <= i < put(docs, uri, doc).len() ==> !(#[trigger] put(
                docs,
                uri,
                doc,
            )[i]).1.refs.is_empty(),
{
    lemma_put(docs, uri, doc);
    lemma_place(docs, uri);
    let after = put(docs, uri, doc);
    assert forall|i: int| 0 <= i < after.len() implies !(#[trigger] after[i]).1.refs.is_empty() by {
        if i < docs.len() && place(docs, uri) != Some(i) {
            assert(after[i] == docs[i]);
        }
    }
}

/// Whatever a client sends, every document and every client still stands once, every
/// document has a holder, and while nobody's overlay is loaded every document is at the
/// text that everyone agrees on.
pub proof fn lemma_messages_keep_order(s: SessionView, b: BackendView, v: JsonView, now: u64)
    requires
        s.wf(),
        b.state.wf(),
        b.state.settled(),
    ensures
        s.handle(b, v, now).session.wf(),
        s.handle(b, v, now).backend.state.wf(),
        s.handle(b, v, now).backend.state.settled(),
        s.handle(b, v, now).session.id == s.id,
        s.handle(b, v, now).backend.state.clients == b.state.clients,
{
    lemma_load_keeps(s, b, now, Some(v));
    lemma_open_keeps(s, b, v, now);
    lemma_change_keeps(s, b, v, now);
    lemma_close_keeps(s, b, v);
    if document_uri(v) is Some {
        let uri = document_uri(v)->0;
        if lookup(s.shadow, uri) is Some && lookup(b.state.docs, uri) is Some {
            let own = lookup(s.shadow, uri)->0;
            let old = lookup(b.state.docs, uri)->0;
            let new = DocView { base: own.text, ..old };
            let level = DocView {
                base: own.text,
                loaded: own.text,
                version: old.version.wrapping_add(1),
                ..old
            };
            lemma_place(b.state.docs, uri);
            lemma_put_keeps(b.state.docs, uri, new);
            lemma_put_keeps(b.state.docs, uri, level);
            if b.state.loaded_for is None {
                lemma_put_clean(b.state.docs, uri, level);
            }
            if b.state.loaded_for is None && old.loaded == own.text {
                lemma_put_clean(b.state.docs, uri, new);
            }
        }
    }
}

proof fn lemma_open_keeps(s: SessionView, b: BackendView, v: JsonView, now: u64)
    requires
        s.wf(),
        b.state.wf(),
        b.state.settled(),
    ensures
        s.did_open(b, v, now).session.wf(),
        s.did_open(b, v, now).backend.state.wf(),
        s.did_open(b, v, now).backend.state.settled(),
{
    if v.field("params"@).get("textDocument"@) is Some {
        let doc = v.field("params"@).get("textDocument"@)->0;
        let uri = text_or_empty(doc.field("uri"@));
        let text = text_or_empty(doc.field("text"@));
        let version = int_or_zero(doc.field("version"@));
        let own = ShadowView {
            text,
            version,
            language_id: text_or_empty(doc.field("languageId"@)),
        };
        lemma_put(s.shadow, uri, own);
        let next = SessionView { shadow: put(s.shadow, uri, own), ..s };
        lemma_place(b.state.docs, uri);
        match lookup(b.state.docs, uri) {
            None => {
                let shared = DocView { base: text, loaded: text, version, refs: set![s.id] };
                assert(shared.refs.contains(s.id));
                lemma_put_keeps(b.state.docs, uri, shared);
                if all_clean(b.state.docs) {
                    lemma_put_clean(b.state.docs, uri, shared);
                }
            },
            Some(shared) => {
                let held = DocView { refs: shared.refs.insert(s.id), ..shared };
                assert(held.refs.contains(s.id));
                lemma_put_keeps(b.state.docs, uri, held);
                if all_clean(b.state.docs) {
                    assert(b.state.docs[place(b.state.docs, uri)->0].1.is_clean());
                    lemma_put_clean(b.state.docs, uri, held);
                }
                lemma_load_keeps(next, b.with_docs(put(b.state.docs, uri, held)), now, None);
            },
        }
    }
}

proof fn lemma_change_keeps(s: SessionView, b: BackendView, v: JsonView, now: u64)
    requires
        s.wf(),
        b.state.wf(),
        b.state.settled(),
    ensures
        s.did_change(b, v, now).session.wf(),
        s.did_change(b, v, now).backend.state.wf(),
        s.did_change(b, v, now).backend.state.settled(),
{
    let uri = changed_uri(v);
    let version = int_or_zero(v.field("params"@).field("textDocument"@).field("version"@));
    if v.get("params"@) is Some && lookup(s.shadow, uri) is None {
        if lookup(b.state.docs, uri) is Some {
            let shared = lookup(b.state.docs, uri)->0;
            let doc = DocView {
                loaded: edited_all(shared.loaded, changed_by(v)),
                version,
                ..shared
            };
            lemma_place(b.state.docs, uri);
            lemma_put_keeps(b.state.docs, uri, doc);
        }
    } else if v.get("params"@) is Some {
        let own = lookup(s.shadow, uri)->0;
        let text = edited_all(own.text, changed_by(v));
        let new = ShadowView { text, version, ..own };
        lemma_put(s.shadow, uri, new);
        let next = SessionView { shadow: put(s.shadow, uri, new), ..s };
        if s.sole_holder(b, uri) && all_clean(b.state.docs) && lookup(b.state.docs, uri)->0.loaded
            == own.text {
            let shared = lookup(b.state.docs, uri)->0;
            let doc = DocView { base: text, loaded: text, version, ..shared };
            lemma_place(b.state.docs, uri);
            lemma_put_keeps(b.state.docs, uri, doc);
            lemma_put_clean(b.state.docs, uri, doc);
        } else {
            lemma_load_keeps(next, b, now, None);
        }
    }
}

proof fn lemma_close_keeps(s: SessionView, b: BackendView, v: JsonView)
    requires
        s.wf(),
        b.state.wf(),
        b.state.settled(),
    ensures
        s.did_close(b, v).session.wf(),
        s.did_close(b, v).backend.state.wf(),
        s.did_close(b, v).backend.state.settled(),
{
    if document_uri(v) is Some {
        let uri = document_uri(v)->0;
        lemma_without(s.shadow, uri);
        lemma_place(b.state.docs, uri);
        let docs = match lookup(b.state.docs, uri) {
            Some(doc) => if doc.refs.remove(s.id).is_empty() {
                without(b.state.docs, uri)
            } else {
                put(b.state.docs, uri, DocView { refs: doc.refs.remove(s.id), ..doc })
            },
            None => b.state.docs,
        };
        if let Some(doc) = lookup(b.state.docs, uri) {
            let at = place(b.state.docs, uri)->0;
            if doc.refs.remove(s.id).is_empty() {
                lemma_without(b.state.docs, uri);
                assert forall|i: int| 0 <= i < docs.len() implies !(
                #[trigger] docs[i]).1.refs.is_empty() && (all_clean(b.state.docs) ==> docs[i].1.is_clean()) by {
                    let k = if i < at {
                        i
                    } else {
                        i + 1
                    };
                    assert(docs[i] == b.state.docs[k]);
                }
            } else {
                let new = DocView { refs: doc.refs.remove(s.id), ..doc };
                lemma_put_keeps(b.state.docs, uri, new);
                if all_clean(b.state.docs) {
                    assert(b.state.docs[at].1.is_clean());
                    lemma_put_clean(b.state.docs, uri, new);
                }
            }
        }
        let left = b.with_docs(docs);
        lemma_release_restores_the_base(left.state, s.id);
        let after = left.state.released(s.id);
        lemma_same_agreement(docs, after.docs, uri);
        assert forall|i: int| 0 <= i < after.docs.len() implies !(
        #[trigger] after.docs[i]).1.refs.is_empty() by {
            assert(docs[i].1.refs == after.docs[i].1.refs);
        }
    }
}

/// The folders that a client adds to its workspace.
pub open spec fn added_folders(v: JsonView) -> Seq<Seq<char>> {
    folder_paths(items_or_none(v.field("params"@).field("event"@).field("added"@)))
}

/// Widening the workspace adds the new folders to what the client asks for and changes
/// neither its server nor its settings nor its flags. Inside the roots that the backend has
/// indexed the client stays where it is, and the server is told; otherwise it is moved.
pub proof fn lemma_widening(s: SessionView, b: BackendView, v: JsonView)
    requires
        b.key.covers(s.key),
    ensures
        ({
            let turn = s.did_change_workspace_folders(b, v);
            let key = turn.session.key;
            let added = added_folders(v);
            let inside = forall|i: int|
                0 <= i < added.len() ==> b.key.holds_root(#[trigger] added[i]);
            &&& key.server == s.key.server
            &&& key.init_hash == s.key.init_hash
            &&& key.extra_args == s.key.extra_args
            &&& key.roots.to_set() == s.key.roots.to_set() + added.to_set()
            &&& turn.session == (SessionView { key, ..s })
            &&& turn.backend == b
            &&& inside ==> turn.next is Continue && turn.sent == seq![EffectView::ToServer(v)]
            &&& !inside ==> turn.next == NextView::Fork(None) && turn.sent.len() == 0
        }),
{
    let added = added_folders(v);
    let all = s.key.roots + added;
    lemma_sorted_list_exists(all);
    assert(all.to_set() =~= s.key.roots.to_set() + added.to_set()) by {
        assert forall|r: Seq<char>| all.contains(r) <==> s.key.roots.contains(r) || added.contains(
            r,
        ) by {
            if s.key.roots.contains(r) {
                let i = choose|i: int| 0 <= i < s.key.roots.len() && s.key.roots[i] == r;
                assert(all[i] == r);
            }
            if added.contains(r) {
                let i = choose|i: int| 0 <= i < added.len() && added[i] == r;
                assert(all[s.key.roots.len() + i] == r);
            }
        }
    }
    if added.len() == 0 {
        assert(all =~= s.key.roots);
    } else {
        let wider = KeyView { roots: sorted_list(all.to_set()), ..s.key };
        if forall|i: int| 0 <= i < added.len() ==> b.key.holds_root(#[trigger] added[i]) {
            assert forall|i: int| 0 <= i < wider.roots.len() implies b.key.holds_root(
                #[trigger] wider.roots[i],
            ) by {
                let r = wider.roots[i];
                assert(wider.roots.to_set().contains(r));
                assert(all.to_set().contains(r));
                let k = choose|k: int| 0 <= k < all.len() && all[k] == r;
                if k < s.key.roots.len() {
                    assert(s.key.roots[k] == r);
                } else {
                    assert(added[k - s.key.roots.len()] == r);
                }
            }
        } else {
            let i = choose|i: int|
                0 <= i < added.len() && !b.key.holds_root(#[trigger] added[i]);
            assert(added.contains(added[i]));
            assert(all.to_set().contains(added[i]));
            assert(wider.roots.to_set().contains(added[i]));
            let k = choose|k: int| 0 <= k < wider.roots.len() && wider.roots[k] == added[i];
            assert(!b.key.holds_root(wider.roots[k]));
        }
    }
}

impl SessionView {
    /// The client is among the holders of every document that it has open.
    pub open spec fn attends(self, b: BackendView) -> bool {
        forall|uri: Seq<char>| #[trigger]
            lookup(self.shadow, uri) is Some ==> holds(b.state.docs, uri, self.id)
    }
}

/// What a client has open stays open for it: it is among the holders of each of its
/// documents from the moment it joins, whatever it sends and whatever others send, and
/// also when others leave.
pub proof fn lemma_open_documents_stay_held(
    s: SessionView,
    t: SessionView,
    b: BackendView,
    v: JsonView,
    now: u64,
)
    requires
        s.wf(),
        t.wf(),
        b.state.wf(),
        s.id != t.id,
    ensures
        s.attends(b.joined_by(s)),
        s.attends(b) ==> s.handle(b, v, now).session.attends(s.handle(b, v, now).backend),
        s.attends(b) ==> s.attends(t.handle(b, v, now).backend),
        s.attends(b) ==> s.attends(b.joined_by(t)),
        s.attends(b) ==> s.attends(b.detached(t.id, now)),
{
    lemma_moving_replays_documents(s, b);
    lemma_moving_replays_documents(t, b);
    lemma_departing_clients_leave_nothing(b, t.id, now);
    if s.attends(b) {
        let own = s.handle(b, v, now);
        assert forall|uri: Seq<char>| #[trigger] lookup(own.session.shadow, uri) is Some implies holds(
            own.backend.state.docs,
            uri,
            s.id,
        ) by {
            lemma_turn_holds(s, b, v, now, uri, s.id);
        }
        assert forall|uri: Seq<char>| #[trigger] lookup(s.shadow, uri) is Some implies holds(
            t.handle(b, v, now).backend.state.docs,
            uri,
            s.id,
        ) && holds(b.joined_by(t).state.docs, uri, s.id) && holds(
            b.detached(t.id, now).state.docs,
            uri,
            s.id,
        ) by {
            lemma_turn_holds(t, b, v, now, uri, s.id);
            assert(holds(b.state.docs, uri, s.id));
            assert(lookup(b.state.docs, uri)->0.refs.subset_of(
                lookup(b.joined_by(t).state.docs, uri)->0.refs,
            ));
        }
    }
}

/// Who holds a document after a client's turn: the others as before, and the client if it
/// has the document open.
proof fn lemma_turn_holds(
    t: SessionView,
    b: BackendView,
    v: JsonView,
    now: u64,
    uri: Seq<char>,
    c: u64,
)
    requires
        t.wf(),
        b.state.wf(),
    ensures
        ({
            let turn = t.handle(b, v, now);
            let docs = turn.backend.state.docs;
            &&& c != t.id && holds(b.state.docs, uri, c) ==> holds(docs, uri, c)
            &&& (lookup(t.shadow, uri) is Some ==> holds(b.state.docs, uri, t.id)) ==> (lookup(
                turn.session.shadow,
                uri,
            ) is Some ==> holds(docs, uri, t.id))
        }),
{
    let docs = b.state.docs;
    let method = msg::method_of(v);
    if method == "textDocument/didOpen"@ {
        if v.field("params"@).get("textDocument"@) is Some {
            let doc = v.field("params"@).get("textDocument"@)->0;
            let at = text_or_empty(doc.field("uri"@));
            let text = text_or_empty(doc.field("text"@));
            let version = int_or_zero(doc.field("version"@));
            let own = ShadowView {
                text,
                version,
                language_id: text_or_empty(doc.field("languageId"@)),
            };
            lemma_put(t.shadow, at, own);
            let new = match lookup(docs, at) {
                None => DocView { base: text, loaded: text, version, refs: set![t.id] },
                Some(shared) => DocView { refs: shared.refs.insert(t.id), ..shared },
            };
            lemma_put(docs, at, new);
            let s = SessionView { shadow: put(t.shadow, at, own), ..t };
            let joined = b.with_docs(put(docs, at, new));
            lemma_load_shows_own_view(s, joined, now);
            lemma_same_agreement(
                joined.state.docs,
                s.load(joined, now, None).backend.state.docs,
                uri,
            );
        }
    } else if method == "textDocument/didChange"@ {
        let at = changed_uri(v);
        let version = int_or_zero(v.field("params"@).field("textDocument"@).field("version"@));
        if let Some(shared) = lookup(docs, at) {
            lemma_put(
                docs,
                at,
                DocView { loaded: edited_all(shared.loaded, changed_by(v)), version, ..shared },
            );
        }
        if let Some(own) = lookup(t.shadow, at) {
            let text = edited_all(own.text, changed_by(v));
            let next = ShadowView { text, version, ..own };
            lemma_put(t.shadow, at, next);
            if let Some(shared) = lookup(docs, at) {
                lemma_put(docs, at, DocView { base: text, loaded: text, version, ..shared });
            }
            let s = SessionView { shadow: put(t.shadow, at, next), ..t };
            lemma_load_shows_own_view(s, b, now);
            lemma_same_agreement(docs, s.load(b, now, None).backend.state.docs, uri);
        }
    } else if method == "textDocument/didSave"@ {
        if document_uri(v) is Some {
            let at = document_uri(v)->0;
            if lookup(t.shadow, at) is Some && lookup(docs, at) is Some {
                let own = lookup(t.shadow, at)->0;
                let shared = lookup(docs, at)->0;
                let version = shared.version.wrapping_add(1);
                lemma_put(docs, at, DocView { base: own.text, ..shared });
                lemma_put(
                    docs,
                    at,
                    DocView { base: own.text, loaded: own.text, version, ..shared },
                );
            }
        }
    } else if method == "textDocument/didClose"@ {
        if document_uri(v) is Some {
            let at = document_uri(v)->0;
            lemma_without(t.shadow, at);
            let after = match lookup(docs, at) {
                Some(doc) => if doc.refs.remove(t.id).is_empty() {
                    without(docs, at)
                } else {
                    put(docs, at, DocView { refs: doc.refs.remove(t.id), ..doc })
                },
                None => docs,
            };
            if let Some(doc) = lookup(docs, at) {
                lemma_without(docs, at);
                lemma_put(docs, at, DocView { refs: doc.refs.remove(t.id), ..doc });
                if c != t.id && doc.refs.contains(c) {
                    assert(doc.refs.remove(t.id).contains(c));
                }
            }
            let left = b.with_docs(after);
            lemma_release_restores_the_base(left.state, t.id);
            lemma_same_agreement(after, left.state.released(t.id).docs, uri);
        }
    } else {
        lemma_load_shows_own_view(t, b, now);
        lemma_same_agreement(docs, t.load(b, now, None).backend.state.docs, uri);
    }
}

/// A client that shuts down or exits leaves the shared server and its documents alone.
pub proof fn lemma_shutdown_is_per_client(s: SessionView, b: BackendView, v: JsonView, now: u64)
    requires
        msg::method_of(v) == "shutdown"@ || msg::method_of(v) == "exit"@,
    ensures
        s.handle(b, v, now).backend == b,
        forall|m: JsonView| ! #[trigger] s.handle(b, v, now).sent.contains(
            EffectView::ToServer(m),
        ),
        !b.state.dead && msg::method_of(v) == "shutdown"@ ==> s.handle(b, v, now).sent == seq![
            EffectView::ToClient(s.id, msg::response_json(v.field("id"@), JsonView::Null)),
        ],
        !b.state.dead ==> (s.handle(b, v, now).next is Exit <==> msg::method_of(v) == "exit"@),
{
    reveal_strlit("initialize");
    reveal_strlit("initialized");
    reveal_strlit("shutdown");
    reveal_strlit("exit");
    assert("initialize"@.len() == 10 && "initialized"@.len() == 11);
    assert("shutdown"@.len() == 8 && "exit"@.len() == 4);
}

// ---- thrashing ----------------------------------------------------------

/// After `n` more swaps, all at `now`.
pub open spec fn swapped_times(s: SessionView, now: u64, n: nat) -> SessionView
    decreases n,
{
    if n == 0 {
        s
    } else {
        swapped_times(s, now, (n - 1) as nat).swapped(now)
    }
}

/// A client whose window has just started can swap as often as the limit says without
/// forking, and the next swap inside the window makes it fork.
pub proof fn lemma_thrashing_forks(s: SessionView, now: u64, n: nat)
    requires
        s.swaps == 0,
        s.swap_window <= now,
        now - s.swap_window <= SWAP_WINDOW,
        n <= SWAP_THRASH_LIMIT,
    ensures
        swapped_times(s, now, n).swaps == n,
        swapped_times(s, now, n).swap_window == s.swap_window,
        swapped_times(s, now, n).thrashing(now) <==> n == SWAP_THRASH_LIMIT,
    decreases n,
{
    if n > 0 {
        lemma_thrashing_forks(s, now, (n - 1) as nat);
    }
}

/// Swaps that are further apart than the window never add up.
pub proof fn lemma_old_swaps_are_forgotten(s: SessionView, now: u64)
    requires
        now - s.swap_window > SWAP_WINDOW,
    ensures
        !s.thrashing(now),
        s.swapped(now).swaps == 1,
        s.swapped(now).swap_window == now,
{
}

} // verus!
