//! A single real language server process, shared by zero or more clients: the
//! documents it holds and where its messages go.

use std::collections::HashSet;
use vstd::prelude::*;
use vstd::string::*;
use vstd::std_specs::hash::*;
use crate::json::{empty_object, int_json, Json, JsonView};
use crate::msg;
use crate::strings::{decimal, decimal_text, same};
use crate::table::{distinct, find, lookup, table};
use crate::text::Text;

pub use crate::daemon::key::{BackendKey, KeyView};

verus! {

// ---- documents ----------------------------------------------------------

/// One open document, in two versions.
///
/// `base` is the text every client agrees on, which for agent workloads is almost
/// always what is on disk. `loaded` is what the server actually holds right now,
/// which is `base` overlaid with one client's unsaved edits.
///
/// Keeping them apart is what lets divergent clients share a process: instead of
/// forking a whole second server, `loaded` is swapped between clients.
pub struct SharedDoc {
    pub base: Text,
    pub loaded: Text,
    pub version: i64,
    pub refs: HashSet<u64>,
}

/// What a shared document holds.
#[verifier::ext_equal]
pub struct DocView {
    pub base: Seq<char>,
    pub loaded: Seq<char>,
    pub version: i64,
    pub refs: Set<u64>,
}

impl View for SharedDoc {
    type V = DocView;

    open spec fn view(&self) -> DocView {
        DocView {
            base: self.base@,
            loaded: self.loaded@,
            version: self.version,
            refs: self.refs@,
        }
    }
}

impl DocView {
    /// No client's unsaved edits are loaded.
    pub open spec fn is_clean(self) -> bool {
        self.base == self.loaded
    }
}

impl SharedDoc {
    /// True while no client has unsaved edits, so everyone can be served at once
    /// with no swapping.
    pub fn is_clean(&self) -> (r: bool)
        ensures
            r == self@.is_clean(),
    {
        same(self.base.content.as_str(), self.loaded.content.as_str())
    }
}

/// A table of documents by URI.
pub type Docs = Seq<(Seq<char>, DocView)>;

/// Every document is at its base text.
pub open spec fn all_clean(docs: Docs) -> bool {
    forall|i: int| 0 <= i < docs.len() ==> (#[trigger] docs[i]).1.is_clean()
}

// ---- effects ------------------------------------------------------------

/// A message to be sent.
pub enum Effect {
    ToServer(Json),
    ToClient(u64, Json),
}

/// A message to be sent.
#[verifier::ext_equal]
pub enum EffectView {
    ToServer(JsonView),
    ToClient(u64, JsonView),
}

impl View for Effect {
    type V = EffectView;

    open spec fn view(&self) -> EffectView {
        match self {
            Effect::ToServer(v) => EffectView::ToServer(v@),
            Effect::ToClient(c, v) => EffectView::ToClient(*c, v@),
        }
    }
}

/// The messages to be sent, in order.
pub open spec fn effects(list: Seq<Effect>) -> Seq<EffectView> {
    Seq::new(list.len(), |i: int| list[i]@)
}

/// Messages for the server, in order.
pub open spec fn to_server(list: Seq<JsonView>) -> Seq<EffectView> {
    Seq::new(list.len(), |i: int| EffectView::ToServer(list[i]))
}

/// What a list of messages says.
pub open spec fn messages(list: Seq<Json>) -> Seq<JsonView> {
    Seq::new(list.len(), |i: int| list[i]@)
}

// ---- state --------------------------------------------------------------

/// How many server requests are held while no client is attached.
pub const MAX_PENDING: usize = 64;

/// What the clients of one server share.
pub struct BackendState {
    /// Open documents by URI.
    pub docs: Vec<(String, SharedDoc)>,
    /// Attached clients, in the order in which they attached.
    pub clients: Vec<u64>,
    /// Server-initiated requests that arrived before any client was attached.
    ///
    /// This window is real and it matters: `initialized` is sent during spawn, and
    /// rust-analyzer answers it by immediately pulling its settings with
    /// `workspace/configuration`. Refusing that would leave the server running on
    /// defaults for its whole life. So they are held until someone can answer.
    pub pending_requests: Vec<Json>,
    /// Which client's overlay the server currently holds. `None` means every
    /// document is at its base text, which serves all clients at once.
    pub loaded_for: Option<u64>,
    /// How many times state was swapped. Used to spot thrashing, and to decide who
    /// diagnostics belong to.
    pub generation: u64,
    /// Set when the child dies, so sessions fail fast instead of hanging.
    pub dead: bool,
}

/// What the clients of one server share.
#[verifier::ext_equal]
pub struct StateView {
    pub docs: Docs,
    pub clients: Seq<u64>,
    pub pending: Seq<JsonView>,
    pub loaded_for: Option<u64>,
    pub generation: u64,
    pub dead: bool,
}

impl View for BackendState {
    type V = StateView;

    open spec fn view(&self) -> StateView {
        StateView {
            docs: table(self.docs@),
            clients: self.clients@,
            pending: messages(self.pending_requests@),
            loaded_for: self.loaded_for,
            generation: self.generation,
            dead: self.dead,
        }
    }
}

impl StateView {
    /// Every document and every client stands once, every document has a holder,
    /// and no more requests are held than may be.
    pub open spec fn wf(self) -> bool {
        &&& distinct(self.docs)
        &&& self.clients.no_duplicates()
        &&& forall|i: int| 0 <= i < self.docs.len() ==> !(#[trigger] self.docs[i]).1.refs.is_empty()
        &&& self.pending.len() <= MAX_PENDING
    }

    /// While no client's overlay is loaded, every document is at its base text.
    pub open spec fn settled(self) -> bool {
        self.loaded_for is None ==> all_clean(self.docs)
    }
}

impl Default for BackendState {
    fn default() -> (r: Self)
        ensures
            r@ == (StateView {
                docs: Seq::empty(),
                clients: Seq::empty(),
                pending: Seq::empty(),
                loaded_for: None,
                generation: 0,
                dead: false,
            }),
            r@.wf(),
            r@.settled(),
    {
        let r = BackendState {
            docs: Vec::new(),
            clients: Vec::new(),
            pending_requests: Vec::new(),
            loaded_for: None,
            generation: 0,
            dead: false,
        };
        assert(r@.docs =~= Seq::empty());
        assert(r@.pending =~= Seq::empty());
        r
    }
}

/// Whether `client` is among `clients`.
pub fn has_client(clients: &Vec<u64>, client: u64) -> (r: bool)
    ensures
        r == clients@.contains(client),
{
    let mut i: usize = 0;
    while i < clients.len()
        invariant
            i <= clients@.len(),
            forall|k: int| 0 <= k < i ==> clients@[k] != client,
        decreases clients@.len() - i,
    {
        if clients[i] == client {
            return true;
        }
        i += 1;
    }
    false
}

/// Whether every document is at its base text.
pub fn are_clean(docs: &Vec<(String, SharedDoc)>) -> (r: bool)
    ensures
        r == all_clean(table(docs@)),
{
    let mut i: usize = 0;
    while i < docs.len()
        invariant
            i <= docs@.len(),
            forall|k: int| 0 <= k < i ==> (#[trigger] table(docs@)[k]).1.is_clean(),
        decreases docs@.len() - i,
    {
        assert(table(docs@)[i as int].1 == docs@[i as int].1@);
        if !docs[i].1.is_clean() {
            return false;
        }
        i += 1;
    }
    true
}

// ---- the backend --------------------------------------------------------

/// A running server.
pub struct Backend {
    /// What the daemon knows this process by.
    pub handle: u64,
    pub key: BackendKey,
    /// `Some(client_id)` for a forked backend serving exactly one client.
    pub private_to: Option<u64>,
    pub init_result: Json,
    pub pid: u32,
    /// When it was started, in nanoseconds of the daemon's clock.
    pub started: u64,
    pub state: BackendState,
    /// When the last client detached, for idle eviction.
    pub idle_since: Option<u64>,
    pub next_internal: u64,
}

/// A running server.
#[verifier::ext_equal]
pub struct BackendView {
    pub handle: u64,
    pub key: KeyView,
    pub private_to: Option<u64>,
    pub init_result: JsonView,
    pub pid: u32,
    pub started: u64,
    pub state: StateView,
    pub idle_since: Option<u64>,
    pub next_internal: u64,
}

impl View for Backend {
    type V = BackendView;

    open spec fn view(&self) -> BackendView {
        BackendView {
            handle: self.handle,
            key: self.key@,
            private_to: self.private_to,
            init_result: self.init_result@,
            pid: self.pid,
            started: self.started,
            state: self.state@,
            idle_since: self.idle_since,
            next_internal: self.next_internal,
        }
    }
}

// ---- routing ------------------------------------------------------------

/// The lowest of the client ids.
pub open spec fn lowest(clients: Seq<u64>) -> Option<u64>
    decreases clients.len(),
{
    if clients.len() == 0 {
        None
    } else {
        match lowest(clients.drop_last()) {
            Some(c) => if clients.last() < c {
                Some(clients.last())
            } else {
                Some(c)
            },
            None => Some(clients.last()),
        }
    }
}

/// `v` to everyone attached.
pub open spec fn broadcast_to(clients: Seq<u64>, v: JsonView) -> Seq<EffectView> {
    Seq::new(clients.len(), |i: int| EffectView::ToClient(clients[i], v))
}

/// `v` to those attached clients that are among `holders`.
pub open spec fn deliver_to(clients: Seq<u64>, holders: Set<u64>, v: JsonView) -> Seq<EffectView>
    decreases clients.len(),
{
    if clients.len() == 0 {
        Seq::empty()
    } else {
        let before = deliver_to(clients.drop_last(), holders, v);
        if holders.contains(clients.last()) {
            before.push(EffectView::ToClient(clients.last(), v))
        } else {
            before
        }
    }
}

/// The document that diagnostics are about.
pub open spec fn diagnostics_uri(v: JsonView) -> Seq<char> {
    match v.field("params"@).field("uri"@) {
        JsonView::Str(s) => s,
        _ => Seq::empty(),
    }
}

/// The answer to a request that nobody will ever answer.
pub open spec fn unanswerable(v: JsonView) -> JsonView {
    msg::error_response_json(v.field("id"@), -32603, "drey: no client attached to answer"@)
}

impl StateView {
    /// Where a response goes: to the client whose request it answers, under the id
    /// that the client gave it. Answers to the proxy's own requests go nowhere.
    pub open spec fn route_response(self, v: JsonView) -> Seq<EffectView> {
        let id = v.field("id"@);
        if msg::internal_id(id) {
            Seq::empty()
        } else {
            match msg::decoded_id(id) {
                Some((client, original)) => if self.clients.contains(client) {
                    seq![EffectView::ToClient(client, v.with("id"@, original))]
                } else {
                    Seq::empty()
                },
                None => Seq::empty(),
            }
        }
    }

    /// Where a request of the server goes: to exactly one client, or, if nobody is
    /// attached and no more can be held, back with an error.
    pub open spec fn route_request(self, v: JsonView) -> Seq<EffectView> {
        match lowest(self.clients) {
            Some(c) => seq![EffectView::ToClient(c, v)],
            None => if self.pending.len() < MAX_PENDING {
                Seq::empty()
            } else {
                seq![EffectView::ToServer(unanswerable(v))]
            },
        }
    }

    /// Where a notification goes. Diagnostics belong only to clients holding that
    /// document, and to one client alone if they were computed against its unsaved
    /// edits; everything else goes to everyone.
    pub open spec fn route_notification(self, v: JsonView) -> Seq<EffectView> {
        if msg::method_of(v) == "textDocument/publishDiagnostics"@ {
            match lookup(self.docs, diagnostics_uri(v)) {
                Some(doc) => if doc.is_clean() {
                    deliver_to(self.clients, doc.refs, v)
                } else {
                    match self.loaded_for {
                        Some(owner) => if self.clients.contains(owner) {
                            seq![EffectView::ToClient(owner, v)]
                        } else {
                            Seq::empty()
                        },
                        None => Seq::empty(),
                    }
                },
                None => broadcast_to(self.clients, v),
            }
        } else {
            broadcast_to(self.clients, v)
        }
    }

    /// Where a message from the server goes.
    pub open spec fn route(self, v: JsonView) -> Seq<EffectView> {
        if msg::response_shaped(v) {
            self.route_response(v)
        } else if msg::request_shaped(v) {
            self.route_request(v)
        } else {
            self.route_notification(v)
        }
    }

    /// What a message from the server leaves: a request that nobody can answer yet
    /// is held, as long as there is room.
    pub open spec fn after_route(self, v: JsonView) -> StateView {
        if msg::request_shaped(v) && self.clients.len() == 0 && self.pending.len() < MAX_PENDING {
            StateView { pending: self.pending.push(v), ..self }
        } else {
            self
        }
    }

    /// What the death of the server leaves.
    pub open spec fn after_death(self) -> StateView {
        StateView { dead: true, clients: Seq::empty(), ..self }
    }
}

/// What clients are told when their server dies.
pub open spec fn death_notice() -> JsonView {
    msg::notification_json(
        "window/logMessage"@,
        empty_object().with("type"@, int_json(1)).with(
            "message"@,
            JsonView::Str("drey: language server exited"@),
        ),
    )
}

/// The id of the proxy's own request number `n`.
pub open spec fn own_id(n: u64) -> JsonView {
    JsonView::Str(msg::INTERNAL@ + decimal_text(n as nat))
}

fn find_lowest(clients: &Vec<u64>) -> (r: Option<u64>)
    ensures
        r == lowest(clients@),
{
    let mut best: Option<u64> = None;
    let mut i: usize = 0;
    while i < clients.len()
        invariant
            i <= clients@.len(),
            best == lowest(clients@.take(i as int)),
        decreases clients@.len() - i,
    {
        assert(clients@.take(i + 1).drop_last() =~= clients@.take(i as int));
        best = match best {
            Some(c) => if clients[i] < c {
                Some(clients[i])
            } else {
                Some(c)
            },
            None => Some(clients[i]),
        };
        i += 1;
    }
    assert(clients@.take(i as int) =~= clients@);
    best
}

fn send_to_all(clients: &Vec<u64>, v: &Json) -> (r: Vec<Effect>)
    ensures
        effects(r@) == broadcast_to(clients@, v@),
{
    let mut out: Vec<Effect> = Vec::new();
    let mut i: usize = 0;
    while i < clients.len()
        invariant
            i <= clients@.len(),
            out@.len() == i,
            forall|k: int| 0 <= k < i ==> (#[trigger] out@[k])@ == EffectView::ToClient(
                clients@[k],
                v@,
            ),
        decreases clients@.len() - i,
    {
        out.push(Effect::ToClient(clients[i], v.duplicate()));
        i += 1;
    }
    assert(effects(out@) =~= broadcast_to(clients@, v@));
    out
}

fn send_to_holders(clients: &Vec<u64>, holders: &HashSet<u64>, v: &Json) -> (r: Vec<Effect>)
    ensures
        effects(r@) == deliver_to(clients@, holders@, v@),
{
    broadcast use group_hash_axioms;

    let mut out: Vec<Effect> = Vec::new();
    let mut i: usize = 0;
    assert(effects(out@) =~= deliver_to(clients@.take(0), holders@, v@));
    while i < clients.len()
        invariant
            i <= clients@.len(),
            effects(out@) == deliver_to(clients@.take(i as int), holders@, v@),
        decreases clients@.len() - i,
    {
        assert(clients@.take(i + 1).drop_last() =~= clients@.take(i as int));
        let ghost held = effects(out@);
        if holders.contains(&clients[i]) {
            out.push(Effect::ToClient(clients[i], v.duplicate()));
            assert(effects(out@) =~= held.push(EffectView::ToClient(clients@[i as int], v@)));
        }
        i += 1;
    }
    assert(clients@.take(i as int) =~= clients@);
    out
}

/// One message.
pub fn one(e: Effect) -> (r: Vec<Effect>)
    ensures
        effects(r@) == seq![e@],
{
    let mut out: Vec<Effect> = Vec::new();
    out.push(e);
    assert(effects(out@) =~= seq![e@]);
    out
}

/// No message.
pub fn no_effects() -> (r: Vec<Effect>)
    ensures
        effects(r@) == Seq::<EffectView>::empty(),
{
    let out: Vec<Effect> = Vec::new();
    assert(effects(out@) =~= Seq::empty());
    out
}

impl Backend {
    /// A server that has just completed its handshake.
    pub fn new(
        handle: u64,
        key: BackendKey,
        private_to: Option<u64>,
        init_result: Json,
        pid: u32,
        now: u64,
    ) -> (r: Self)
        ensures
            r@.handle == handle,
            r@.key == key@,
            r@.private_to == private_to,
            r@.init_result == init_result@,
            r@.pid == pid,
            r@.started == now,
            r@.idle_since == Some(now),
            r@.next_internal == 0,
            r@.state == (StateView {
                docs: Seq::empty(),
                clients: Seq::empty(),
                pending: Seq::empty(),
                loaded_for: None,
                generation: 0,
                dead: false,
            }),
            r@.state.wf(),
            r@.state.settled(),
    {
        Backend {
            handle,
            key,
            private_to,
            init_result,
            pid,
            started: now,
            state: BackendState::default(),
            idle_since: Some(now),
            next_internal: 0,
        }
    }

    pub fn is_dead(&self) -> (r: bool)
        ensures
            r == self@.state.dead,
    {
        self.state.dead
    }

    pub fn client_count(&self) -> (r: usize)
        ensures
            r == self@.state.clients.len(),
    {
        self.state.clients.len()
    }

    /// The server died. Telling every client lets their sessions notice and restart
    /// cleanly rather than waiting forever on a reply that is never coming.
    pub fn mark_dead(&mut self) -> (r: Vec<Effect>)
        ensures
            final(self)@ == (BackendView { state: old(self)@.state.after_death(), ..old(self)@ }),
            effects(r@) == broadcast_to(old(self)@.state.clients, death_notice()),
    {
        let notice = msg::notification(
            "window/logMessage",
            Json::object().with("type", Json::signed(1)).with(
                "message",
                Json::string("drey: language server exited"),
            ),
        );
        let out = send_to_all(&self.state.clients, &notice);
        self.state.dead = true;
        self.state.clients = Vec::new();
        assert(self@.state =~= old(self)@.state.after_death());
        out
    }

    /// A fresh id for a request of the proxy's own.
    pub fn internal_id(&mut self) -> (r: Json)
        ensures
            r@ == own_id(old(self)@.next_internal),
            msg::internal_id(r@),
            final(self)@ == (BackendView {
                next_internal: old(self)@.next_internal.wrapping_add(1),
                ..old(self)@
            }),
    {
        let n = self.next_internal;
        self.next_internal = n.wrapping_add(1);
        let mut s = msg::INTERNAL.to_owned();
        let digits = decimal(n);
        s.append(digits.as_str());
        assert(s@.take(msg::INTERNAL@.len() as int) =~= msg::INTERNAL@);
        Json::Str(s)
    }

    /// Decides where a message from the server goes.
    pub fn route_from_server(&mut self, v: Json) -> (r: Vec<Effect>)
        ensures
            effects(r@) == old(self)@.state.route(v@),
            final(self)@ == (BackendView {
                state: old(self)@.state.after_route(v@),
                ..old(self)@
            }),
    {
        if msg::is_response(&v) {
            return self.route_response(v);
        }
        if msg::is_request(&v) {
            // Server-to-client requests are the thing other multiplexers drop. They
            // matter: rust-analyzer pulls its settings through
            // `workspace/configuration`, so dropping them silently runs the server
            // on defaults. Exactly one client may answer, or the server sees
            // duplicate replies to one id. Lowest client id is a stable choice and
            // survives other clients coming and going.
            proof {
                lemma_lowest(self.state.clients@);
            }
            return match find_lowest(&self.state.clients) {
                Some(c) => one(Effect::ToClient(c, v)),
                None => {
                    // Cap the queue so a server that talks to nobody forever cannot
                    // grow the daemon without bound.
                    if self.state.pending_requests.len() < MAX_PENDING {
                        let ghost held = self.state.pending_requests@;
                        self.state.pending_requests.push(v);
                        assert(messages(self.state.pending_requests@) =~= messages(held).push(v@));
                        no_effects()
                    } else {
                        one(
                            Effect::ToServer(
                                msg::error_response(
                                    v.field("id"),
                                    -32603,
                                    "drey: no client attached to answer",
                                ),
                            ),
                        )
                    }
                },
            };
        }
        self.route_notification(v)
    }

    fn route_response(&self, v: Json) -> (r: Vec<Effect>)
        requires
            msg::response_shaped(v@),
        ensures
            effects(r@) == self@.state.route_response(v@),
    {
        let id = v.field("id");
        if msg::is_internal_id(&id) {
            return no_effects();
        }
        match msg::decode_id(&id) {
            Some((client, original)) => if has_client(&self.state.clients, client) {
                one(Effect::ToClient(client, v.with("id", original)))
            } else {
                no_effects()
            },
            None => no_effects(),
        }
    }

    fn route_notification(&self, v: Json) -> (r: Vec<Effect>)
        ensures
            effects(r@) == self@.state.route_notification(v@),
    {
        if same(msg::method(&v), "textDocument/publishDiagnostics") {
            proof {
                reveal_strlit("");
                assert(""@ =~= Seq::empty());
            }
            let uri = match v.get("params") {
                Some(p) => match p.get("uri") {
                    Some(u) => match u.as_str() {
                        Some(s) => s,
                        None => "",
                    },
                    None => "",
                },
                None => "",
            };
            if let Some(i) = find(&self.state.docs, uri) {
                let doc = &self.state.docs[i].1;
                return if doc.is_clean() {
                    // Everyone agrees on this file, so the diagnostics are true for
                    // all of them.
                    send_to_holders(&self.state.clients, &doc.refs, &v)
                } else {
                    match self.state.loaded_for {
                        // These were computed against one client's unsaved edits.
                        // Sending them to anyone else would report errors about text
                        // that client never wrote.
                        Some(owner) => if has_client(&self.state.clients, owner) {
                            one(Effect::ToClient(owner, v))
                        } else {
                            no_effects()
                        },
                        None => no_effects(),
                    }
                };
            }
            // Unknown document (server volunteering diagnostics for a file nobody
            // opened): everyone is told.
        }
        send_to_all(&self.state.clients, &v)
    }
}

// ---- laws ---------------------------------------------------------------

/// The lowest id is one of them, and none is lower.
pub proof fn lemma_lowest(clients: Seq<u64>)
    ensures
        match lowest(clients) {
            Some(c) => clients.contains(c) && forall|i: int|
                0 <= i < clients.len() ==> c <= #[trigger] clients[i],
            None => clients.len() == 0,
        },
    decreases clients.len(),
{
    if clients.len() > 0 {
        let before = clients.drop_last();
        lemma_lowest(before);
        let c = lowest(clients)->0;
        assert(clients[clients.len() - 1] == clients.last());
        if before.contains(c) {
            let k = choose|k: int| 0 <= k < before.len() && before[k] == c;
            assert(clients[k] == c);
        }
        assert forall|i: int| 0 <= i < clients.len() implies c <= #[trigger] clients[i] by {
            if i < before.len() {
                assert(before[i] == clients[i]);
            }
        }
    }
}

/// The answer to a client's request reaches that client, and no other, under the
/// id that the client gave. This holds of every id that decodes as it was encoded,
/// as `msg::encode_id` promises of ids without fractions.
pub proof fn lemma_answers_reach_the_asker(
    st: StateView,
    client: u64,
    id: JsonView,
    answer: JsonView,
)
    requires
        st.clients.contains(client),
        msg::decoded_id(msg::encoded_id(client, id)) == Some((client, id)),
        msg::response_shaped(answer),
        answer.field("id"@) == msg::encoded_id(client, id),
    ensures
        st.route(answer) == seq![EffectView::ToClient(client, answer.with("id"@, id))],
        answer.with("id"@, id).field("id"@) == id,
{
    msg::lemma_encoded_ids_are_not_internal(client, id);
}

/// The answer to a request of the proxy's own goes to nobody.
pub proof fn lemma_own_answers_go_nowhere(st: StateView, answer: JsonView)
    requires
        msg::response_shaped(answer),
        msg::internal_id(answer.field("id"@)),
    ensures
        st.route(answer) == Seq::<EffectView>::empty(),
        st.after_route(answer) == st,
{
}

/// While anyone is attached, exactly one client is asked what the server asks: the
/// one with the lowest id.
pub proof fn lemma_one_client_answers(st: StateView, v: JsonView)
    requires
        msg::request_shaped(v),
        st.clients.len() > 0,
    ensures
        exists|c: u64|
            st.clients.contains(c) && (forall|i: int|
                0 <= i < st.clients.len() ==> c <= #[trigger] st.clients[i]) && st.route(v)
                == #[trigger] seq![EffectView::ToClient(c, v)],
        st.after_route(v) == st,
{
    lemma_lowest(st.clients);
    let c = lowest(st.clients)->0;
    assert(st.route(v) == seq![EffectView::ToClient(c, v)]);
}

/// While nobody is attached, what the server asks is held, or, once as much is held as may be,
/// answered with an error under the server's own id.
pub proof fn lemma_requests_without_clients(st: StateView, v: JsonView)
    requires
        msg::request_shaped(v),
        st.clients.len() == 0,
    ensures
        st.pending.len() < MAX_PENDING ==> st.route(v) == Seq::<EffectView>::empty()
            && st.after_route(v).pending == st.pending.push(v),
        st.pending.len() >= MAX_PENDING ==> st.route(v) == seq![
            EffectView::ToServer(unanswerable(v)),
        ] && st.after_route(v) == st,
        msg::response_shaped(unanswerable(v)),
        unanswerable(v).field("id"@) == v.field("id"@),
{
    msg::lemma_message_shapes(
        v.field("id"@),
        Seq::empty(),
        JsonView::Null,
        JsonView::Null,
        -32603,
        "drey: no client attached to answer"@,
    );
}

/// A delivery goes to attached holders, each of them, and to nobody else.
pub proof fn lemma_deliver_to(clients: Seq<u64>, holders: Set<u64>, v: JsonView)
    ensures
        forall|c: u64, m: JsonView| #[trigger]
            deliver_to(clients, holders, v).contains(EffectView::ToClient(c, m)) <==> m == v
                && clients.contains(c) && holders.contains(c),
        forall|m: JsonView| ! #[trigger] deliver_to(clients, holders, v).contains(
            EffectView::ToServer(m),
        ),
    decreases clients.len(),
{
    let all = deliver_to(clients, holders, v);
    if clients.len() > 0 {
        let rest = clients.drop_last();
        let before = deliver_to(rest, holders, v);
        lemma_deliver_to(rest, holders, v);
        let last = clients.last();
        assert(clients[clients.len() - 1] == last);
        assert forall|e: EffectView| all.contains(e) <==> before.contains(e) || (holders.contains(
            last,
        ) && e == EffectView::ToClient(last, v)) by {
            if all.contains(e) {
                let k = choose|k: int| 0 <= k < all.len() && all[k] == e;
                if k < before.len() {
                    assert(before[k] == e);
                }
            }
            if before.contains(e) {
                let k = choose|k: int| 0 <= k < before.len() && before[k] == e;
                assert(all[k] == e);
            }
            if holders.contains(last) {
                assert(all[all.len() - 1] == EffectView::ToClient(last, v));
            }
        }
        assert forall|c: u64| clients.contains(c) <==> rest.contains(c) || c == last by {
            if clients.contains(c) {
                let j = choose|j: int| 0 <= j < clients.len() && clients[j] == c;
                if j < rest.len() {
                    assert(rest[j] == c);
                }
            }
            if rest.contains(c) {
                let j = choose|j: int| 0 <= j < rest.len() && rest[j] == c;
                assert(clients[j] == c);
            }
        }
    }
}

/// Diagnostics for a file everyone agrees on reach every attached holder and nobody
/// else; diagnostics computed against one client's unsaved edits reach at most that
/// client.
pub proof fn lemma_diagnostics_do_not_leak(st: StateView, v: JsonView, doc: DocView)
    requires
        !msg::response_shaped(v),
        !msg::request_shaped(v),
        msg::method_of(v) == "textDocument/publishDiagnostics"@,
        lookup(st.docs, diagnostics_uri(v)) == Some(doc),
    ensures
        doc.is_clean() ==> forall|c: u64| #[trigger]
            st.route(v).contains(EffectView::ToClient(c, v)) <==> st.clients.contains(c)
                && doc.refs.contains(c),
        !doc.is_clean() ==> forall|c: u64, m: JsonView| #[trigger]
            st.route(v).contains(EffectView::ToClient(c, m)) ==> st.loaded_for == Some(c),
{
    lemma_deliver_to(st.clients, doc.refs, v);
}

/// An answer to a client that is no longer attached, or under an id that is nobody's, goes to
/// nobody.
pub proof fn lemma_answers_to_nobody(st: StateView, answer: JsonView)
    requires
        answer.get("id"@) is Some,
        answer.get("method"@) is None,
        match msg::decoded_id(answer.field("id"@)) {
            Some((client, _)) => !st.clients.contains(client),
            None => true,
        },
    ensures
        st.route(answer).len() == 0,
        st.after_route(answer) == st,
{
}

/// What the server tells nobody in particular, everyone attached is told, once each and as it
/// was told: every notification but diagnostics for a document that is open.
pub proof fn lemma_notifications_reach_everyone(st: StateView, v: JsonView)
    requires
        v.get("id"@) is None,
        v.field("method"@) != JsonView::Str("textDocument/publishDiagnostics"@) || (v.field(
            "params"@,
        ).field("uri"@) is Str && lookup(
            st.docs,
            v.field("params"@).field("uri"@)->Str_0,
        ) is None),
    ensures
        st.route(v).len() == st.clients.len(),
        forall|i: int|
            0 <= i < st.clients.len() ==> #[trigger] st.route(v)[i] == EffectView::ToClient(
                st.clients[i],
                v,
            ),
        st.after_route(v) == st,
{
    reveal_strlit("textDocument/publishDiagnostics");
    assert("textDocument/publishDiagnostics"@.len() > 0);
    assert(st.route(v) == broadcast_to(st.clients, v));
}

/// Diagnostics for a document at its agreed text go to its holders, in the order in which
/// they attached; diagnostics for any other go to the client whose text the server shows, if
/// it is attached, and to nobody else.
pub proof fn lemma_diagnostics_go_to_holders(st: StateView, v: JsonView, uri: Seq<char>, doc: DocView)
    requires
        v.get("id"@) is None,
        v.field("method"@) == JsonView::Str("textDocument/publishDiagnostics"@),
        v.field("params"@).field("uri"@) == JsonView::Str(uri),
        lookup(st.docs, uri) == Some(doc),
    ensures
        doc.base == doc.loaded ==> forall|e: EffectView| #[trigger]
            st.route(v).contains(e) <==> exists|c: u64|
                st.clients.contains(c) && doc.refs.contains(c) && e == #[trigger] told(c, v),
        doc.base != doc.loaded ==> st.route(v) == (match st.loaded_for {
            Some(owner) => if st.clients.contains(owner) {
                seq![EffectView::ToClient(owner, v)]
            } else {
                Seq::empty()
            },
            None => Seq::empty(),
        }),
{
    if doc.base == doc.loaded {
        let all = deliver_to(st.clients, doc.refs, v);
        lemma_deliver_to(st.clients, doc.refs, v);
        assert(st.route(v) == all);
        assert forall|e: EffectView| #[trigger] all.contains(e) <==> exists|c: u64|
            st.clients.contains(c) && doc.refs.contains(c) && e == #[trigger] told(c, v) by {
            match e {
                EffectView::ToClient(c, m) => {
                    assert(all.contains(EffectView::ToClient(c, m)) <==> m == v
                        && st.clients.contains(c) && doc.refs.contains(c));
                    assert(told(c, v) == EffectView::ToClient(c, v));
                },
                EffectView::ToServer(m) => {
                    assert(!all.contains(EffectView::ToServer(m)));
                },
            }
        }
    }
}

/// A message for one client.
pub open spec fn told(client: u64, v: JsonView) -> EffectView {
    EffectView::ToClient(client, v)
}

/// What clients are told when their server dies: a log message, marked as an error, with no
/// answer expected.
pub proof fn lemma_death_notice()
    ensures
        msg::method_of(death_notice()) == "window/logMessage"@,
        death_notice().get("id"@) is None,
        death_notice().field("params"@).field("type"@) == int_json(1),
        death_notice().field("params"@).field("message"@) is Str,
{
    msg::lemma_names_differ();
    reveal_strlit("type");
    reveal_strlit("message");
    assert("type"@.len() == 4 && "message"@.len() == 7);
}

/// The proxy's own requests have ids of their own, no two alike.
pub proof fn lemma_own_ids(a: u64, b: u64)
    ensures
        msg::internal_id(own_id(a)),
        own_id(a) == own_id(b) ==> a == b,
{
    let p = msg::INTERNAL@;
    let x = p + decimal_text(a as nat);
    let y = p + decimal_text(b as nat);
    assert(x.take(p.len() as int) =~= p);
    crate::strings::lemma_decimal_round_trips(a as nat, u64::MAX as nat);
    crate::strings::lemma_decimal_round_trips(b as nat, u64::MAX as nat);
    assert(x.skip(p.len() as int) =~= decimal_text(a as nat));
    assert(y.skip(p.len() as int) =~= decimal_text(b as nat));
}

/// Nothing that the server says disturbs the documents, and no more than the
/// allowed number of its requests is ever held.
pub proof fn lemma_routing_keeps_state(st: StateView, v: JsonView)
    ensures
        st.after_route(v).docs == st.docs,
        st.after_route(v).clients == st.clients,
        st.after_route(v).loaded_for == st.loaded_for,
        st.wf() ==> st.after_route(v).wf(),
        st.settled() ==> st.after_route(v).settled(),
        st.pending.len() <= MAX_PENDING ==> st.after_route(v).pending.len() <= MAX_PENDING,
{
}

/// A server's death detaches everyone and leaves the documents as they are.
pub proof fn lemma_death_keeps_documents(st: StateView)
    ensures
        st.after_death().dead,
        st.after_death().docs == st.docs,
        st.after_death().clients.len() == 0,
        st.after_death().pending == st.pending,
        st.after_death().loaded_for == st.loaded_for,
        st.wf() ==> st.after_death().wf(),
        st.settled() ==> st.after_death().settled(),
{
}

/// Clients are told one by one, in the order in which they attached, and each at most once.
pub proof fn lemma_delivery(
    client: u64,
    first: Seq<u64>,
    second: Seq<u64>,
    holders: Set<u64>,
    v: JsonView,
)
    ensures
        deliver_to(Seq::empty(), holders, v).len() == 0,
        deliver_to(seq![client], holders, v) == (if holders.contains(client) {
            seq![EffectView::ToClient(client, v)]
        } else {
            Seq::empty()
        }),
        deliver_to(first + second, holders, v) == deliver_to(first, holders, v) + deliver_to(
            second,
            holders,
            v,
        ),
    decreases second.len(),
{
    let one = seq![client];
    assert(one.drop_last() =~= Seq::empty());
    assert(one.last() == client);
    reveal_with_fuel(deliver_to, 2);
    assert(deliver_to(one, holders, v) =~= if holders.contains(client) {
        seq![EffectView::ToClient(client, v)]
    } else {
        Seq::empty()
    });
    if second.len() == 0 {
        assert(first + second =~= first);
        assert(deliver_to(first, holders, v) + deliver_to(second, holders, v) =~= deliver_to(
            first,
            holders,
            v,
        ));
    } else {
        assert((first + second).drop_last() =~= first + second.drop_last());
        lemma_delivery(client, first, second.drop_last(), holders, v);
        assert(deliver_to(first + second, holders, v) =~= deliver_to(first, holders, v)
            + deliver_to(second, holders, v));
    }
}

/// Up to sixty-four requests of a server that nobody listens to are held.
pub proof fn lemma_how_much_is_held(st: StateView, v: JsonView)
    requires
        v.get("id"@) is Some,
        v.get("method"@) is Some,
        st.clients.len() == 0,
    ensures
        st.pending.len() < 64 ==> st.after_route(v).pending == st.pending.push(v) && st.route(
            v,
        ).len() == 0,
        st.pending.len() >= 64 ==> st.after_route(v) == st && st.route(v).len() == 1,
{
}

} // verus!
