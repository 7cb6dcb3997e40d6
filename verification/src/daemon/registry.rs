//! The pool of live backends, and the policy for who shares what.

use vstd::prelude::*;
use vstd::string::*;
use crate::config::{Config, ConfigView, ServerConfig, UnknownServer};
use crate::daemon::backend::{
    messages, own_id, Backend, BackendKey, BackendView, Docs, KeyView, SharedDoc,
};
use crate::daemon::Control;
use crate::json::{empty_object, int_json, items_view, lemma_items_view, Json, JsonView};
use crate::msg;
use crate::strings::{copy_list, sorted_list, views};
use crate::table::{keys, lookup, table};

verus! {

/// The clock counts nanoseconds.
pub const SECOND: u64 = 1_000_000_000;

/// The pool of live backends.
pub struct Registry {
    pub cfg: Config,
    /// In the order in which they were started.
    pub backends: Vec<Backend>,
}

/// What a list of backends holds.
pub open spec fn pool(list: Seq<Backend>) -> Seq<BackendView> {
    Seq::new(list.len(), |i: int| list[i]@)
}

/// The pool of live backends.
#[verifier::ext_equal]
pub struct RegistryView {
    pub cfg: ConfigView,
    pub backends: Seq<BackendView>,
}

impl View for Registry {
    type V = RegistryView;

    open spec fn view(&self) -> RegistryView {
        RegistryView { cfg: self.cfg@, backends: pool(self.backends@) }
    }
}

// ---- sharing ------------------------------------------------------------

/// A backend that a client asking for `key` may share.
pub open spec fn shareable(b: BackendView, key: KeyView) -> bool {
    b.private_to is None && !b.state.dead && b.key.covers(key)
}

/// Which backend a client asking for `key` shares: of those that it may share the one with
/// the fewest roots, and of several such the one that was started first.
pub open spec fn best_match(list: Seq<BackendView>, key: KeyView) -> Option<int>
    decreases list.len(),
{
    if list.len() == 0 {
        None
    } else {
        let before = best_match(list.drop_last(), key);
        let last = list.len() - 1;
        if !shareable(list.last(), key) {
            before
        } else {
            match before {
                Some(i) => if list.last().key.roots.len() < list[i].key.roots.len() {
                    Some(last)
                } else {
                    Some(i)
                },
                None => Some(last),
            }
        }
    }
}

/// What attaching comes to.
pub enum Attachment {
    /// The backend with this handle is shared.
    Existing(u64),
    /// A backend has to be started, with this configuration.
    Spawn(ServerConfig),
}

// ---- leaving ------------------------------------------------------------

/// A backend that left the pool, and what its server is told.
pub struct Evicted {
    pub backend: Backend,
    pub farewell: Vec<Json>,
}

/// A backend that left the pool, and what its server is told.
#[verifier::ext_equal]
pub struct EvictedView {
    pub backend: BackendView,
    pub farewell: Seq<JsonView>,
}

impl View for Evicted {
    type V = EvictedView;

    open spec fn view(&self) -> EvictedView {
        EvictedView { backend: self.backend@, farewell: messages(self.farewell@) }
    }
}

/// What a list of evicted backends holds.
pub open spec fn evictions(list: Seq<Evicted>) -> Seq<EvictedView> {
    Seq::new(list.len(), |i: int| list[i]@)
}

/// The request that asks a server to shut down.
pub open spec fn shutdown_json(b: BackendView) -> JsonView {
    msg::request_json(own_id(b.next_internal), "shutdown"@, JsonView::Null)
}

/// The notification that tells a server to exit.
pub open spec fn exit_json() -> JsonView {
    msg::notification_json("exit"@, JsonView::Null)
}

/// A server is asked to shut down, then told to exit.
pub open spec fn shut_down(b: BackendView) -> EvictedView {
    EvictedView {
        backend: BackendView { next_internal: b.next_internal.wrapping_add(1), ..b },
        farewell: seq![shutdown_json(b), exit_json()],
    }
}

/// Nobody is attached, and nobody has been for longer than the timeout.
pub open spec fn overdue(b: BackendView, now: u64, timeout_secs: u64) -> bool {
    b.state.clients.len() == 0 && match b.idle_since {
        Some(since) => now as int - since as int > timeout_secs as int * SECOND as int,
        None => false,
    }
}

/// Dead, or idle past the timeout.
pub open spec fn released(b: BackendView, now: u64, timeout_secs: u64) -> bool {
    b.state.dead || overdue(b, now, timeout_secs)
}

/// Those that stay after a sweep.
pub open spec fn swept(list: Seq<BackendView>, now: u64, timeout_secs: u64) -> Seq<BackendView>
    decreases list.len(),
{
    if list.len() == 0 {
        Seq::empty()
    } else {
        let before = swept(list.drop_last(), now, timeout_secs);
        if released(list.last(), now, timeout_secs) {
            before
        } else {
            before.push(list.last())
        }
    }
}

/// Those that a sweep releases. The dead ones are told nothing.
pub open spec fn sweepings(list: Seq<BackendView>, now: u64, timeout_secs: u64) -> Seq<EvictedView>
    decreases list.len(),
{
    if list.len() == 0 {
        Seq::empty()
    } else {
        let before = sweepings(list.drop_last(), now, timeout_secs);
        let last = list.last();
        if last.state.dead {
            before.push(EvictedView { backend: last, farewell: Seq::empty() })
        } else if overdue(last, now, timeout_secs) {
            before.push(shut_down(last))
        } else {
            before
        }
    }
}

/// Was idle before: one whose idle clock does not run comes first.
pub open spec fn idle_before(a: Option<u64>, b: Option<u64>) -> bool {
    match (a, b) {
        (None, Some(_)) => true,
        (Some(x), Some(y)) => x < y,
        _ => false,
    }
}

/// Which backend gives way first: of those that nobody is attached to the one that has been
/// idle for longest, and of several such the one that was started first.
pub open spec fn longest_idle(list: Seq<BackendView>) -> Option<int>
    decreases list.len(),
{
    if list.len() == 0 {
        None
    } else {
        let before = longest_idle(list.drop_last());
        let last = list.len() - 1;
        if list.last().state.clients.len() > 0 {
            before
        } else {
            match before {
                Some(i) => if idle_before(list.last().idle_since, list[i].idle_since) {
                    Some(last)
                } else {
                    Some(i)
                },
                None => Some(last),
            }
        }
    }
}

/// Those that stay when no more than `cap` may. Where all are busy the cap yields.
pub open spec fn capped(list: Seq<BackendView>, cap: nat) -> Seq<BackendView>
    decreases list.len(),
{
    if list.len() <= cap {
        list
    } else {
        match longest_idle(list) {
            Some(i) => if 0 <= i < list.len() {
                capped(list.remove(i), cap)
            } else {
                list
            },
            None => list,
        }
    }
}

/// Those that give way when no more than `cap` may stay, in that order.
pub open spec fn overflow(list: Seq<BackendView>, cap: nat) -> Seq<EvictedView>
    decreases list.len(),
{
    if list.len() <= cap {
        Seq::empty()
    } else {
        match longest_idle(list) {
            Some(i) => if 0 <= i < list.len() {
                seq![EvictedView { backend: list[i], farewell: seq![exit_json()] }] + overflow(
                    list.remove(i),
                    cap,
                )
            } else {
                Seq::empty()
            },
            None => Seq::empty(),
        }
    }
}

/// Everyone is told to leave.
pub open spec fn all_shut_down(list: Seq<BackendView>) -> Seq<EvictedView> {
    Seq::new(list.len(), |i: int| shut_down(list[i]))
}

/// The answer to a control question.
pub struct Answer {
    pub reply: Json,
    /// Those that left the pool.
    pub evicted: Vec<Evicted>,
    /// Whether the daemon is to go down once the reply has landed.
    pub stop: bool,
}

// ---- status -------------------------------------------------------------

/// What is told of a backend.
#[derive(Debug)]
pub struct BackendInfo {
    pub server: String,
    pub roots: Vec<String>,
    pub pid: u32,
    pub clients: usize,
    pub open_docs: usize,
    /// Documents where some client holds unsaved edits. Zero means every client is served
    /// at once with no swapping.
    pub dirty_docs: usize,
    /// Total state swaps. Rising fast against a low client count means clients are fighting
    /// over the same files.
    pub swaps: u64,
    pub uptime_secs: u64,
    pub private: bool,
    pub dead: bool,
}

/// How many documents hold unsaved edits.
pub open spec fn dirty_count(docs: Docs) -> nat
    decreases docs.len(),
{
    if docs.len() == 0 {
        0
    } else {
        dirty_count(docs.drop_last()) + if docs.last().1.is_clean() {
            0nat
        } else {
            1nat
        }
    }
}

/// How long ago, in whole seconds.
pub open spec fn seconds_since(then: u64, now: u64) -> int {
    if now >= then {
        (now - then) / SECOND as int
    } else {
        0
    }
}

impl BackendInfo {
    /// Tells of `b` what is so at `now`.
    pub open spec fn describes(self, b: BackendView, now: u64) -> bool {
        &&& self.server@ == b.key.server
        &&& views(self.roots@) == b.key.roots
        &&& self.pid == b.pid
        &&& self.clients == b.state.clients.len()
        &&& self.open_docs == b.state.docs.len()
        &&& self.dirty_docs == dirty_count(b.state.docs)
        &&& self.swaps == b.state.generation
        &&& self.uptime_secs == seconds_since(b.started, now)
        &&& self.private == b.private_to is Some
        &&& self.dead == b.state.dead
    }
}

/// A backend as it is reported.
pub open spec fn info_json(b: BackendView, now: u64) -> JsonView {
    empty_object().with("server"@, JsonView::Str(b.key.server)).with(
        "roots"@,
        JsonView::Array(Seq::new(b.key.roots.len(), |i: int| JsonView::Str(b.key.roots[i]))),
    ).with("pid"@, int_json(b.pid as int)).with(
        "clients"@,
        int_json(b.state.clients.len() as int),
    ).with("open_docs"@, int_json(b.state.docs.len() as int)).with(
        "dirty_docs"@,
        int_json(dirty_count(b.state.docs) as int),
    ).with("swaps"@, int_json(b.state.generation as int)).with(
        "uptime_secs"@,
        int_json(seconds_since(b.started, now)),
    ).with("private"@, JsonView::Bool(b.private_to is Some)).with(
        "dead"@,
        JsonView::Bool(b.state.dead),
    )
}

/// The pool as it is reported.
pub open spec fn pool_json(list: Seq<BackendView>, now: u64) -> JsonView {
    JsonView::Array(Seq::new(list.len(), |i: int| info_json(list[i], now)))
}

/// A list of texts.
fn texts_json(list: &Vec<String>) -> (r: Json)
    ensures
        r@ == JsonView::Array(
            Seq::new(list@.len(), |i: int| JsonView::Str(views(list@)[i])),
        ),
{
    let mut out: Vec<Json> = Vec::new();
    let mut i: usize = 0;
    while i < list.len()
        invariant
            i <= list@.len(),
            out@.len() == i,
            forall|k: int| 0 <= k < i ==> (#[trigger] out@[k])@ == JsonView::Str(list@[k]@),
        decreases list@.len() - i,
    {
        out.push(Json::string(list[i].as_str()));
        i += 1;
    }
    proof {
        lemma_items_view(out@);
        assert(items_view(out@) =~= Seq::new(
            list@.len(),
            |i: int| JsonView::Str(views(list@)[i]),
        ));
    }
    Json::Array(out)
}

impl BackendInfo {
    /// This, as it is reported.
    pub open spec fn shown(self) -> JsonView {
        empty_object().with("server"@, JsonView::Str(self.server@)).with(
            "roots"@,
            JsonView::Array(
                Seq::new(self.roots@.len(), |i: int| JsonView::Str(views(self.roots@)[i])),
            ),
        ).with("pid"@, int_json(self.pid as int)).with(
            "clients"@,
            int_json(self.clients as int),
        ).with("open_docs"@, int_json(self.open_docs as int)).with(
            "dirty_docs"@,
            int_json(self.dirty_docs as int),
        ).with("swaps"@, int_json(self.swaps as int)).with(
            "uptime_secs"@,
            int_json(self.uptime_secs as int),
        ).with("private"@, JsonView::Bool(self.private)).with("dead"@, JsonView::Bool(self.dead))
    }

    /// This, as it is reported.
    pub fn json(&self) -> (r: Json)
        ensures
            r@ == self.shown(),
    {
        Json::object().with("server", Json::string(self.server.as_str())).with(
            "roots",
            texts_json(&self.roots),
        ).with("pid", Json::unsigned(self.pid as u64)).with(
            "clients",
            Json::unsigned(self.clients as u64),
        ).with("open_docs", Json::unsigned(self.open_docs as u64)).with(
            "dirty_docs",
            Json::unsigned(self.dirty_docs as u64),
        ).with("swaps", Json::unsigned(self.swaps)).with(
            "uptime_secs",
            Json::unsigned(self.uptime_secs),
        ).with("private", Json::Bool(self.private)).with("dead", Json::Bool(self.dead))
    }
}

proof fn lemma_shown(info: BackendInfo, b: BackendView, now: u64)
    requires
        info.describes(b, now),
    ensures
        info.shown() == info_json(b, now),
{
    assert(views(info.roots@).len() == info.roots@.len());
    assert(Seq::new(info.roots@.len(), |i: int| JsonView::Str(views(info.roots@)[i])) =~= Seq::new(
        b.key.roots.len(),
        |i: int| JsonView::Str(b.key.roots[i]),
    ));
}

fn count_dirty(docs: &Vec<(String, SharedDoc)>) -> (r: usize)
    ensures
        r == dirty_count(table(docs@)),
{
    let ghost t = table(docs@);
    let mut n: usize = 0;
    let mut i: usize = 0;
    while i < docs.len()
        invariant
            i <= docs@.len(),
            n <= i,
            t == table(docs@),
            n == dirty_count(t.take(i as int)),
        decreases docs@.len() - i,
    {
        assert(t.take(i + 1).drop_last() =~= t.take(i as int));
        assert(t.take(i + 1).last() == t[i as int]);
        if !docs[i].1.is_clean() {
            n += 1;
        }
        i += 1;
    }
    assert(t.take(i as int) =~= t);
    n
}

fn exit_message() -> (r: Json)
    ensures
        r@ == exit_json(),
{
    msg::notification("exit", Json::Null)
}

/// Asks a server to shut down, then tells it to exit.
fn dismiss(backend: Backend) -> (r: Evicted)
    ensures
        r@ == shut_down(backend@),
{
    let ghost before = backend@;
    let mut backend = backend;
    let id = backend.internal_id();
    let mut farewell: Vec<Json> = Vec::new();
    farewell.push(msg::request(id, "shutdown", Json::Null));
    farewell.push(exit_message());
    let r = Evicted { backend, farewell };
    assert(messages(r.farewell@) =~= shut_down(before).farewell);
    r
}

impl Registry {
    pub fn new(cfg: Config) -> (r: Self)
        ensures
            r@ == (RegistryView { cfg: cfg@, backends: Seq::empty() }),
    {
        let r = Registry { cfg, backends: Vec::new() };
        assert(r@.backends =~= Seq::empty());
        r
    }

    /// Where the backend with a handle stands.
    pub fn position(&self, handle: u64) -> (r: Option<usize>)
        ensures
            match r {
                Some(i) => i < self@.backends.len() && self@.backends[i as int].handle == handle
                    && forall|k: int|
                    0 <= k < i ==> (#[trigger] self@.backends[k]).handle != handle,
                None => forall|k: int|
                    0 <= k < self@.backends.len() ==> (#[trigger] self@.backends[k]).handle
                        != handle,
            },
    {
        let mut i: usize = 0;
        while i < self.backends.len()
            invariant
                i <= self.backends@.len(),
                forall|k: int| 0 <= k < i ==> (#[trigger] self@.backends[k]).handle != handle,
            decreases self.backends@.len() - i,
        {
            assert(self@.backends[i as int] == self.backends@[i as int]@);
            if self.backends[i].handle == handle {
                return Some(i);
            }
            i += 1;
        }
        None
    }

    fn find_shareable(&self, key: &BackendKey) -> (r: Option<usize>)
        ensures
            match r {
                Some(i) => i < self@.backends.len() && best_match(self@.backends, key@) == Some(
                    i as int,
                ),
                None => best_match(self@.backends, key@) is None,
            },
    {
        let ghost all = self@.backends;
        let mut best: Option<usize> = None;
        let mut i: usize = 0;
        while i < self.backends.len()
            invariant
                i <= self.backends@.len(),
                all == self@.backends,
                match best {
                    Some(k) => k < i && best_match(all.take(i as int), key@) == Some(k as int),
                    None => best_match(all.take(i as int), key@) is None,
                },
            decreases self.backends@.len() - i,
        {
            let b = &self.backends[i];
            proof {
                assert(all.take(i + 1).drop_last() =~= all.take(i as int));
                assert(all.take(i + 1).last() == b@);
            }
            if b.private_to.is_none() && !b.is_dead() && b.key.covers(key) {
                best = match best {
                    // Prefer the tightest match, so a client asking for one crate does not
                    // get pinned to the widest workspace merely because it exists.
                    Some(k) => if b.key.roots.len() < self.backends[k].key.roots.len() {
                        Some(i)
                    } else {
                        Some(k)
                    },
                    None => Some(i),
                };
            }
            i += 1;
        }
        assert(all.take(i as int) =~= all);
        best
    }

    /// Finds a shareable backend for `key`, or says what has to be started.
    ///
    /// Sharing requires an exact server and settings match plus root containment, so a
    /// client opening a crate inside an already-indexed workspace costs nothing.
    pub fn attach(&self, key: &BackendKey) -> (r: Result<Attachment, UnknownServer>)
        ensures
            match (best_match(self@.backends, key@), lookup(self@.cfg.server, key@.server)) {
                (Some(i), _) => r == Ok::<Attachment, UnknownServer>(
                    Attachment::Existing(self@.backends[i].handle),
                ),
                (None, Some(server)) => r is Ok && r->Ok_0 is Spawn && r->Ok_0->Spawn_0@ == server,
                (None, None) => r is Err && r->Err_0.name@ == key@.server && views(
                    r->Err_0.known@,
                ) == sorted_list(keys(self@.cfg.server).to_set()),
            },
    {
        if let Some(i) = self.find_shareable(key) {
            return Ok(Attachment::Existing(self.backends[i].handle));
        }
        match self.fork(key) {
            Ok(server) => Ok(Attachment::Spawn(server)),
            Err(e) => Err(e),
        }
    }

    /// What has to be started for a backend dedicated to one client, used when that
    /// client's document state has diverged from the shared copy.
    pub fn fork(&self, key: &BackendKey) -> (r: Result<ServerConfig, UnknownServer>)
        ensures
            match r {
                Ok(server) => lookup(self@.cfg.server, key@.server) == Some(server@),
                Err(e) => lookup(self@.cfg.server, key@.server) is None && e.name@ == key@.server
                    && views(e.known@) == sorted_list(keys(self@.cfg.server).to_set()),
            },
    {
        match self.cfg.server(key.server.as_str()) {
            Ok(server) => Ok(server.duplicate()),
            Err(e) => Err(e),
        }
    }

    /// Takes a backend that was started into the pool. Returns those that gave way.
    pub fn adopt(&mut self, backend: Backend) -> (r: Vec<Evicted>)
        ensures
            ({
                let all = old(self)@.backends.push(backend@);
                let cap = old(self)@.cfg.daemon.max_backends;
                &&& final(self)@.cfg == old(self)@.cfg
                &&& final(self)@.backends == (if cap == 0 {
                    all
                } else {
                    capped(all, cap as nat)
                })
                &&& evictions(r@) == (if cap == 0 {
                    Seq::empty()
                } else {
                    overflow(all, cap as nat)
                })
            }),
    {
        self.backends.push(backend);
        assert(self@.backends =~= old(self)@.backends.push(backend@));
        self.enforce_cap()
    }

    /// Which backend gives way first.
    fn find_longest_idle(&self) -> (r: Option<usize>)
        ensures
            match r {
                Some(i) => i < self@.backends.len() && longest_idle(self@.backends) == Some(
                    i as int,
                ),
                None => longest_idle(self@.backends) is None,
            },
    {
        let ghost all = self@.backends;
        let mut best: Option<usize> = None;
        let mut i: usize = 0;
        while i < self.backends.len()
            invariant
                i <= self.backends@.len(),
                all == self@.backends,
                match best {
                    Some(k) => k < i && longest_idle(all.take(i as int)) == Some(k as int),
                    None => longest_idle(all.take(i as int)) is None,
                },
            decreases self.backends@.len() - i,
        {
            proof {
                assert(all.take(i + 1).drop_last() =~= all.take(i as int));
                assert(all.take(i + 1).last() == self.backends@[i as int]@);
            }
            if self.backends[i].client_count() == 0 {
                best = match best {
                    Some(k) => {
                        let earlier = match (
                            self.backends[i].idle_since,
                            self.backends[k].idle_since,
                        ) {
                            (None, Some(_)) => true,
                            (Some(x), Some(y)) => x < y,
                            _ => false,
                        };
                        if earlier {
                            Some(i)
                        } else {
                            Some(k)
                        }
                    },
                    None => Some(i),
                };
            }
            i += 1;
        }
        assert(all.take(i as int) =~= all);
        best
    }

    /// Enforces `max_backends` by releasing the longest-idle ones first. Backends with
    /// attached clients are never evicted.
    fn enforce_cap(&mut self) -> (r: Vec<Evicted>)
        ensures
            ({
                let all = old(self)@.backends;
                let cap = old(self)@.cfg.daemon.max_backends;
                &&& final(self)@.cfg == old(self)@.cfg
                &&& final(self)@.backends == (if cap == 0 {
                    all
                } else {
                    capped(all, cap as nat)
                })
                &&& evictions(r@) == (if cap == 0 {
                    Seq::empty()
                } else {
                    overflow(all, cap as nat)
                })
            }),
    {
        let cap = self.cfg.daemon.max_backends;
        let mut out: Vec<Evicted> = Vec::new();
        assert(evictions(out@) =~= Seq::empty());
        if cap == 0 {
            return out;
        }
        let ghost all = self@.backends;
        let ghost cfg = self@.cfg;
        assert(evictions(out@) + overflow(all, cap as nat) =~= overflow(all, cap as nat));
        while self.backends.len() > cap
            invariant
                self@.cfg == cfg,
                capped(self@.backends, cap as nat) == capped(all, cap as nat),
                evictions(out@) + overflow(self@.backends, cap as nat) == overflow(
                    all,
                    cap as nat,
                ),
                cap == cfg.daemon.max_backends,
                cap != 0,
                all == old(self)@.backends,
                cfg == old(self)@.cfg,
            decreases self.backends@.len(),
        {
            let victim = match self.find_longest_idle() {
                Some(i) => i,
                None => {
                    // All busy: the cap yields.
                    assert(evictions(out@) =~= overflow(all, cap as nat));
                    return out;
                },
            };
            let ghost before = self@.backends;
            let ghost held = evictions(out@);
            let backend = self.backends.remove(victim);
            let mut farewell: Vec<Json> = Vec::new();
            farewell.push(exit_message());
            let e = Evicted { backend, farewell };
            out.push(e);
            proof {
                assert(self@.backends =~= before.remove(victim as int));
                assert(messages(e.farewell@) =~= seq![exit_json()]);
                assert(evictions(out@) =~= held.push(e@));
                assert(evictions(out@) + overflow(self@.backends, cap as nat) =~= held + overflow(
                    before,
                    cap as nat,
                ));
            }
        }
        assert(evictions(out@) =~= overflow(all, cap as nat));
        out
    }

    /// Drops dead backends and those idle past the timeout. Returns those that were
    /// released.
    pub fn gc(&mut self, now: u64) -> (r: Vec<Evicted>)
        ensures
            final(self)@.cfg == old(self)@.cfg,
            final(self)@.backends == swept(
                old(self)@.backends,
                now,
                old(self)@.cfg.daemon.idle_timeout_secs,
            ),
            evictions(r@) == sweepings(
                old(self)@.backends,
                now,
                old(self)@.cfg.daemon.idle_timeout_secs,
            ),
    {
        let timeout = self.cfg.daemon.idle_timeout_secs;
        let mut out: Vec<Evicted> = Vec::new();
        let mut i: usize = 0;
        let ghost all = self@.backends;
        let ghost cfg = self@.cfg;
        let ghost mut done: int = 0;
        proof {
            assert(evictions(out@) =~= sweepings(all.take(0), now, timeout));
            assert(self@.backends.take(0) =~= swept(all.take(0), now, timeout));
            assert(self@.backends.skip(0) =~= all.skip(0));
        }
        while i < self.backends.len()
            invariant
                self@.cfg == cfg,
                timeout == cfg.daemon.idle_timeout_secs,
                i <= self.backends@.len(),
                0 <= done <= all.len(),
                self.backends@.len() - i == all.len() - done,
                self@.backends.take(i as int) == swept(all.take(done), now, timeout),
                self@.backends.skip(i as int) == all.skip(done),
                evictions(out@) == sweepings(all.take(done), now, timeout),
            decreases all.len() - done,
        {
            let ghost before = self@.backends;
            let ghost held = evictions(out@);
            let ghost b = all[done];
            proof {
                assert(all.take(done + 1).drop_last() =~= all.take(done));
                assert(all.take(done + 1).last() == b);
                assert(all.skip(done)[0] == b);
                assert(before.skip(i as int)[0] == before[i as int]);
                assert(all.skip(done).skip(1) =~= all.skip(done + 1));
                assert(self.backends@[i as int]@ == b);
            }
            if self.backends[i].is_dead() {
                let backend = self.backends.remove(i);
                let e = Evicted { backend, farewell: Vec::new() };
                out.push(e);
                proof {
                    assert(messages(e.farewell@) =~= Seq::empty());
                    assert(evictions(out@) =~= held.push(e@));
                    assert(self@.backends =~= before.remove(i as int));
                    assert(self@.backends.take(i as int) =~= before.take(i as int));
                    assert(self@.backends.skip(i as int) =~= before.skip(i as int).skip(1));
                }
            } else if self.is_overdue(i, now) {
                let backend = self.backends.remove(i);
                let e = dismiss(backend);
                out.push(e);
                proof {
                    assert(evictions(out@) =~= held.push(e@));
                    assert(self@.backends =~= before.remove(i as int));
                    assert(self@.backends.take(i as int) =~= before.take(i as int));
                    assert(self@.backends.skip(i as int) =~= before.skip(i as int).skip(1));
                }
            } else {
                proof {
                    assert(before.take(i + 1) =~= before.take(i as int).push(b));
                    assert(before.skip(i + 1) =~= before.skip(i as int).skip(1));
                }
                i += 1;
            }
            proof {
                done = done + 1;
            }
        }
        proof {
            assert(all.take(done) =~= all);
            assert(self@.backends.take(i as int) =~= self@.backends);
        }
        out
    }

    fn is_overdue(&self, i: usize, now: u64) -> (r: bool)
        requires
            i < self@.backends.len(),
        ensures
            r == overdue(self@.backends[i as int], now, self@.cfg.daemon.idle_timeout_secs),
    {
        if self.backends[i].client_count() > 0 {
            return false;
        }
        match self.backends[i].idle_since {
            Some(since) => {
                let timeout: u128 = self.cfg.daemon.idle_timeout_secs as u128 * SECOND as u128;
                now > since && (now - since) as u128 > timeout
            },
            None => false,
        }
    }

    /// What is running, and who is attached.
    pub fn list(&self, now: u64) -> (r: Vec<BackendInfo>)
        ensures
            r@.len() == self@.backends.len(),
            forall|i: int|
                0 <= i < r@.len() ==> (#[trigger] r@[i]).describes(self@.backends[i], now),
    {
        let mut out: Vec<BackendInfo> = Vec::new();
        let mut i: usize = 0;
        while i < self.backends.len()
            invariant
                i <= self.backends@.len(),
                out@.len() == i,
                forall|k: int|
                    0 <= k < i ==> (#[trigger] out@[k]).describes(self@.backends[k], now),
            decreases self.backends@.len() - i,
        {
            let b = &self.backends[i];
            let uptime_secs: u64 = if now >= b.started {
                (now - b.started) / SECOND
            } else {
                0
            };
            assert(self@.backends[i as int] == b@);
            out.push(
                BackendInfo {
                    server: b.key.server.clone(),
                    roots: copy_list(&b.key.roots),
                    pid: b.pid,
                    clients: b.state.clients.len(),
                    open_docs: b.state.docs.len(),
                    dirty_docs: count_dirty(&b.state.docs),
                    swaps: b.state.generation,
                    uptime_secs,
                    private: b.private_to.is_some(),
                    dead: b.state.dead,
                },
            );
            i += 1;
        }
        out
    }

    /// Answers a control question.
    pub fn control(&mut self, op: Control, now: u64) -> (r: Answer)
        ensures
            final(self)@.cfg == old(self)@.cfg,
            match op {
                Control::Status => {
                    &&& r.reply@ == pool_json(old(self)@.backends, now)
                    &&& final(self)@ == old(self)@
                    &&& r.evicted@.len() == 0
                    &&& !r.stop
                },
                Control::Gc => {
                    let timeout = old(self)@.cfg.daemon.idle_timeout_secs;
                    let gone = sweepings(old(self)@.backends, now, timeout);
                    &&& r.reply@ == empty_object().with("released"@, int_json(gone.len() as int))
                    &&& final(self)@.backends == swept(old(self)@.backends, now, timeout)
                    &&& evictions(r.evicted@) == gone
                    &&& !r.stop
                },
                Control::Stop => {
                    &&& r.reply@ == empty_object().with("stopped"@, JsonView::Bool(true))
                    &&& final(self)@.backends.len() == 0
                    &&& evictions(r.evicted@) == all_shut_down(old(self)@.backends)
                    &&& r.stop
                },
            },
    {
        match op {
            Control::Status => {
                let list = self.list(now);
                let mut out: Vec<Json> = Vec::new();
                let mut i: usize = 0;
                let ghost all = self@.backends;
                while i < list.len()
                    invariant
                        i <= list@.len(),
                        list@.len() == all.len(),
                        forall|k: int|
                            0 <= k < list@.len() ==> (#[trigger] list@[k]).describes(all[k], now),
                        out@.len() == i,
                        forall|k: int| 0 <= k < i ==> (#[trigger] out@[k])@ == info_json(all[k], now),
                    decreases list@.len() - i,
                {
                    proof {
                        lemma_shown(list@[i as int], all[i as int], now);
                    }
                    out.push(list[i].json());
                    i += 1;
                }
                proof {
                    lemma_items_view(out@);
                    assert(items_view(out@) =~= Seq::new(
                        all.len(),
                        |i: int| info_json(all[i], now),
                    ));
                }
                Answer { reply: Json::Array(out), evicted: Vec::new(), stop: false }
            },
            Control::Gc => {
                let evicted = self.gc(now);
                assert(evictions(evicted@).len() == evicted@.len());
                let reply = Json::object().with("released", Json::unsigned(evicted.len() as u64));
                Answer { reply, evicted, stop: false }
            },
            Control::Stop => {
                let evicted = self.shutdown_all();
                let reply = Json::object().with("stopped", Json::Bool(true));
                Answer { reply, evicted, stop: true }
            },
        }
    }

    /// Empties the pool. Returns those that were in it, in order.
    pub fn shutdown_all(&mut self) -> (r: Vec<Evicted>)
        ensures
            final(self)@ == (RegistryView { cfg: old(self)@.cfg, backends: Seq::empty() }),
            evictions(r@) == all_shut_down(old(self)@.backends),
    {
        let mut out: Vec<Evicted> = Vec::new();
        let ghost all = self@.backends;
        let ghost cfg = self@.cfg;
        assert(self@.backends =~= all.skip(out@.len() as int));
        while self.backends.len() > 0
            invariant
                self@.cfg == cfg,
                out@.len() <= all.len(),
                self@.backends == all.skip(out@.len() as int),
                forall|k: int| 0 <= k < out@.len() ==> (#[trigger] out@[k])@ == shut_down(all[k]),
            decreases self.backends@.len(),
        {
            let ghost before = self@.backends;
            let backend = self.backends.remove(0);
            assert(backend@ == before[0]);
            out.push(dismiss(backend));
            assert(self@.backends =~= before.remove(0));
            assert(self@.backends =~= all.skip(out@.len() as int));
        }
        assert(self@.backends.len() == 0);
        assert(evictions(out@) =~= all_shut_down(all));
        assert(self@.backends =~= Seq::empty());
        out
    }
}

// ---- laws ---------------------------------------------------------------

/// What is shared is alive, private to nobody, and covers what the client asked for; and
/// nothing else that could be shared has fewer roots. Only where nothing can be shared is
/// anything started.
pub proof fn lemma_best_match(list: Seq<BackendView>, key: KeyView)
    ensures
        match best_match(list, key) {
            Some(i) => {
                &&& 0 <= i < list.len()
                &&& shareable(list[i], key)
                &&& forall|k: int|
                    0 <= k < list.len() && shareable(#[trigger] list[k], key)
                        ==> list[i].key.roots.len() <= list[k].key.roots.len()
                &&& forall|k: int|
                    0 <= k < i && shareable(#[trigger] list[k], key) ==> list[i].key.roots.len()
                        < list[k].key.roots.len()
            },
            None => forall|k: int|
                0 <= k < list.len() ==> !shareable(#[trigger] list[k], key),
        },
    decreases list.len(),
{
    if list.len() > 0 {
        let rest = list.drop_last();
        lemma_best_match(rest, key);
        assert forall|k: int| 0 <= k < rest.len() implies #[trigger] rest[k] == list[k] by {}
        assert(list[list.len() - 1] == list.last());
        assert forall|k: int| 0 <= k < list.len() - 1 implies #[trigger] list[k] == rest[k] by {}
    }
}

/// A backend that was forked for one client is never shared.
pub proof fn lemma_private_is_never_shared(list: Seq<BackendView>, key: KeyView)
    ensures
        best_match(list, key) is Some ==> list[best_match(list, key)->0].private_to is None,
{
    lemma_best_match(list, key);
}

proof fn lemma_longest_idle(list: Seq<BackendView>)
    ensures
        match longest_idle(list) {
            Some(i) => {
                &&& 0 <= i < list.len()
                &&& list[i].state.clients.len() == 0
                &&& forall|k: int|
                    0 <= k < list.len() && (#[trigger] list[k]).state.clients.len() == 0
                        ==> !idle_before(list[k].idle_since, list[i].idle_since)
            },
            None => forall|k: int|
                0 <= k < list.len() ==> (#[trigger] list[k]).state.clients.len() > 0,
        },
    decreases list.len(),
{
    if list.len() > 0 {
        let rest = list.drop_last();
        lemma_longest_idle(rest);
        assert forall|k: int| 0 <= k < list.len() - 1 implies #[trigger] list[k] == rest[k] by {}
        assert(list[list.len() - 1] == list.last());
    }
}

/// The cap is kept, or everyone left is busy; nobody is added; and whoever gives way was
/// attached to by nobody, has been idle for at least as long as anyone left who could have
/// gone instead, and is told to exit.
pub proof fn lemma_cap(list: Seq<BackendView>, cap: nat)
    ensures
        capped(list, cap).len() <= cap || forall|k: int|
            0 <= k < capped(list, cap).len() ==> (#[trigger] capped(
                list,
                cap,
            )[k]).state.clients.len() > 0,
        capped(list, cap).len() + overflow(list, cap).len() == list.len(),
        forall|k: int|
            0 <= k < overflow(list, cap).len() ==> (#[trigger] overflow(
                list,
                cap,
            )[k]).backend.state.clients.len() == 0 && overflow(list, cap)[k].farewell == seq![
                exit_json(),
            ],
        forall|i: int|
            0 <= i < list.len() && (#[trigger] list[i]).state.clients.len() > 0 ==> capped(
                list,
                cap,
            ).contains(list[i]),
        forall|j: int|
            0 <= j < capped(list, cap).len() ==> list.contains(#[trigger] capped(list, cap)[j]),
        forall|k: int, j: int|
            0 <= k < overflow(list, cap).len() && 0 <= j < capped(list, cap).len() && capped(
                list,
                cap,
            )[j].state.clients.len() == 0 ==> !idle_before(
                (#[trigger] capped(list, cap)[j]).idle_since,
                (#[trigger] overflow(list, cap)[k]).backend.idle_since,
            ),
    decreases list.len(),
{
    lemma_longest_idle(list);
    if list.len() > cap && longest_idle(list) is Some {
        let v = longest_idle(list)->0;
        let rest = list.remove(v);
        lemma_cap(rest, cap);
        let all = overflow(list, cap);
        assert forall|k: int| 0 <= k < all.len() implies (
        #[trigger] all[k]).backend.state.clients.len() == 0 && all[k].farewell == seq![
            exit_json(),
        ] by {
            if k > 0 {
                assert(all[k] == overflow(rest, cap)[k - 1]);
            }
        }
        assert forall|i: int|
            0 <= i < list.len() && (#[trigger] list[i]).state.clients.len() > 0 implies capped(
            list,
            cap,
        ).contains(list[i]) by {
            let j = if i < v {
                i
            } else {
                i - 1
            };
            assert(rest[j] == list[i]);
        }
        let kept = capped(list, cap);
        assert forall|j: int| 0 <= j < kept.len() implies list.contains(#[trigger] kept[j]) by {
            let i = choose|i: int| 0 <= i < rest.len() && rest[i] == kept[j];
            assert(rest.contains(capped(rest, cap)[j]));
            assert(list[if i < v {
                i
            } else {
                i + 1
            }] == kept[j]);
        }
        assert forall|k: int, j: int|
            0 <= k < all.len() && 0 <= j < kept.len() && kept[j].state.clients.len()
                == 0 implies !idle_before(
            (#[trigger] kept[j]).idle_since,
            (#[trigger] all[k]).backend.idle_since,
        ) by {
            if k > 0 {
                assert(all[k] == overflow(rest, cap)[k - 1]);
                assert(kept[j] == capped(rest, cap)[j]);
            } else {
                assert(list.contains(kept[j]));
                let i = choose|i: int| 0 <= i < list.len() && list[i] == kept[j];
                assert(all[0].backend == list[v]);
                assert(list[i].state.clients.len() == 0);
            }
        }
    } else {
        assert forall|i: int| 0 <= i < list.len() implies list.contains(#[trigger] list[i]) by {}
    }
}

/// The first to give way has been idle for at least as long as anyone who could have gone.
pub proof fn lemma_longest_idle_goes_first(list: Seq<BackendView>, cap: nat)
    requires
        list.len() > cap,
        overflow(list, cap).len() > 0,
    ensures
        forall|k: int|
            0 <= k < list.len() && (#[trigger] list[k]).state.clients.len() == 0 ==> !idle_before(
                list[k].idle_since,
                overflow(list, cap)[0].backend.idle_since,
            ),
{
    lemma_longest_idle(list);
}

/// A sweep splits the pool: what stays is alive, and attached to or within its idle window;
/// what goes is dead, or attached to by nobody.
pub proof fn lemma_sweep(list: Seq<BackendView>, now: u64, timeout_secs: u64)
    ensures
        swept(list, now, timeout_secs).len() + sweepings(list, now, timeout_secs).len()
            == list.len(),
        forall|k: int|
            0 <= k < swept(list, now, timeout_secs).len() ==> !released(
                #[trigger] swept(list, now, timeout_secs)[k],
                now,
                timeout_secs,
            ),
        forall|k: int|
            0 <= k < sweepings(list, now, timeout_secs).len() ==> (#[trigger] sweepings(
                list,
                now,
                timeout_secs,
            )[k]).backend.state.dead || sweepings(
                list,
                now,
                timeout_secs,
            )[k].backend.state.clients.len() == 0,
        forall|i: int|
            0 <= i < list.len() && !released(#[trigger] list[i], now, timeout_secs) ==> swept(
                list,
                now,
                timeout_secs,
            ).contains(list[i]),
    decreases list.len(),
{
    if list.len() > 0 {
        let rest = list.drop_last();
        lemma_sweep(rest, now, timeout_secs);
        let kept = swept(list, now, timeout_secs);
        let before = swept(rest, now, timeout_secs);
        assert(list[list.len() - 1] == list.last());
        assert forall|i: int|
            0 <= i < list.len() && !released(#[trigger] list[i], now, timeout_secs) implies
            kept.contains(list[i]) by {
            if i < rest.len() {
                assert(rest[i] == list[i]);
                let k = choose|k: int| 0 <= k < before.len() && before[k] == list[i];
                assert(kept[k] == list[i]);
            } else {
                assert(kept[kept.len() - 1] == list[i]);
            }
        }
        let gone = sweepings(list, now, timeout_secs);
        let earlier = sweepings(rest, now, timeout_secs);
        assert forall|k: int| 0 <= k < gone.len() implies (#[trigger] gone[k]).backend.state.dead
            || gone[k].backend.state.clients.len() == 0 by {
            if k < earlier.len() {
                assert(gone[k] == earlier[k]);
            }
        }
    }
}

/// A client shares a server only if that is alive, was forked for nobody, and was started for
/// the same server, settings and flags with roots that hold all of the client's; and it does
/// share one where there is such a server.
pub proof fn lemma_what_is_shared(list: Seq<BackendView>, key: KeyView)
    ensures
        best_match(list, key) is Some <==> exists|k: int|
            0 <= k < list.len() && !(#[trigger] list[k]).state.dead && list[k].private_to is None
                && list[k].key.covers(key),
        best_match(list, key) is Some ==> {
            let b = list[best_match(list, key)->0];
            &&& !b.state.dead
            &&& b.private_to is None
            &&& b.key.server == key.server
            &&& b.key.init_hash == key.init_hash
            &&& b.key.extra_args == key.extra_args
            &&& forall|i: int| 0 <= i < key.roots.len() ==> b.key.holds_root(#[trigger] key.roots[i])
        },
{
    lemma_best_match(list, key);
    if best_match(list, key) is Some {
        let i = best_match(list, key)->0;
        assert(shareable(list[i], key));
    } else {
        assert forall|k: int| 0 <= k < list.len() implies !(!(#[trigger] list[k]).state.dead
            && list[k].private_to is None && list[k].key.covers(key)) by {
            assert(!shareable(list[k], key));
        }
    }
}

/// In use, or idle for no longer than the timeout, which is in seconds where clocks are in
/// nanoseconds.
pub open spec fn is_wanted(b: BackendView, now: u64, timeout_secs: u64) -> bool {
    b.state.clients.len() > 0 || b.idle_since is None || now - b.idle_since->0 <= timeout_secs
        * 1_000_000_000
}

/// A sweep looks at each backend by itself, in order. One that is alive and wanted stays as it
/// is; any other goes. A server that is alive is asked to shut down, under an id of the
/// proxy's own, and then told to exit; a dead one is told nothing.
pub proof fn lemma_sweeping(
    b: BackendView,
    first: Seq<BackendView>,
    second: Seq<BackendView>,
    now: u64,
    timeout_secs: u64,
)
    ensures
        swept(first + second, now, timeout_secs) == swept(first, now, timeout_secs) + swept(
            second,
            now,
            timeout_secs,
        ),
        sweepings(first + second, now, timeout_secs) == sweepings(first, now, timeout_secs)
            + sweepings(second, now, timeout_secs),
        swept(Seq::empty(), now, timeout_secs).len() == 0,
        sweepings(Seq::empty(), now, timeout_secs).len() == 0,
        ({
            let kept = swept(seq![b], now, timeout_secs);
            let gone = sweepings(seq![b], now, timeout_secs);
            if !b.state.dead && is_wanted(b, now, timeout_secs) {
                kept == seq![b] && gone.len() == 0
            } else {
                &&& kept.len() == 0
                &&& gone.len() == 1
                &&& gone[0].backend.handle == b.handle
                &&& gone[0].backend.key == b.key
                &&& gone[0].backend.state == b.state
                &&& b.state.dead ==> gone[0].farewell.len() == 0
                &&& !b.state.dead ==> {
                    &&& gone[0].farewell.len() == 2
                    &&& msg::method_of(gone[0].farewell[0]) == "shutdown"@
                    &&& msg::request_shaped(gone[0].farewell[0])
                    &&& msg::internal_id(gone[0].farewell[0].field("id"@))
                    &&& msg::method_of(gone[0].farewell[1]) == "exit"@
                    &&& !msg::request_shaped(gone[0].farewell[1])
                }
            }
        }),
    decreases second.len(),
{
    let one = seq![b];
    assert(one.drop_last() =~= Seq::empty());
    assert(one.last() == b);
    reveal_with_fuel(swept, 2);
    reveal_with_fuel(sweepings, 2);
    lemma_farewell(b);
    if !b.state.dead && is_wanted(b, now, timeout_secs) {
        assert(swept(one, now, timeout_secs) =~= one);
    }
    if second.len() == 0 {
        assert(first + second =~= first);
        assert(swept(first, now, timeout_secs) + swept(second, now, timeout_secs) =~= swept(
            first,
            now,
            timeout_secs,
        ));
        assert(sweepings(first, now, timeout_secs) + sweepings(second, now, timeout_secs)
            =~= sweepings(first, now, timeout_secs));
    } else {
        let rest = second.drop_last();
        let all = first + second;
        assert(all.drop_last() =~= first + rest);
        assert(all.last() == second.last());
        lemma_sweeping(b, first, rest, now, timeout_secs);
        assert(swept(all, now, timeout_secs) =~= swept(first, now, timeout_secs) + swept(
            second,
            now,
            timeout_secs,
        ));
        assert(sweepings(all, now, timeout_secs) =~= sweepings(first, now, timeout_secs)
            + sweepings(second, now, timeout_secs));
    }
}

/// What a server is told before it goes.
proof fn lemma_farewell(b: BackendView)
    ensures
        msg::method_of(shutdown_json(b)) == "shutdown"@,
        msg::request_shaped(shutdown_json(b)),
        msg::internal_id(shutdown_json(b).field("id"@)),
        msg::method_of(exit_json()) == "exit"@,
        !msg::request_shaped(exit_json()),
{
    msg::lemma_message_shapes(
        own_id(b.next_internal),
        "shutdown"@,
        JsonView::Null,
        JsonView::Null,
        0,
        Seq::empty(),
    );
    msg::lemma_message_shapes(JsonView::Null, "exit"@, JsonView::Null, JsonView::Null, 0, Seq::empty());
    let id = own_id(b.next_internal)->Str_0;
    assert(id.take(msg::INTERNAL@.len() as int) =~= msg::INTERNAL@);
}

/// Stopping the daemon tells every server, in order, to shut down and to exit.
pub proof fn lemma_stopping(list: Seq<BackendView>, i: int)
    requires
        0 <= i < list.len(),
    ensures
        ({
            let gone = all_shut_down(list);
            &&& gone.len() == list.len()
            &&& gone[i].backend.handle == list[i].handle
            &&& gone[i].farewell.len() == 2
            &&& msg::method_of(gone[i].farewell[0]) == "shutdown"@
            &&& msg::request_shaped(gone[i].farewell[0])
            &&& msg::internal_id(gone[i].farewell[0].field("id"@))
            &&& msg::method_of(gone[i].farewell[1]) == "exit"@
            &&& !msg::request_shaped(gone[i].farewell[1])
        }),
{
    lemma_farewell(list[i]);
}

/// Documents count one by one: each that the server holds another text of than the agreed
/// one counts once.
pub proof fn lemma_dirty_documents(
    uri: Seq<char>,
    doc: crate::daemon::backend::DocView,
    first: Docs,
    second: Docs,
)
    ensures
        dirty_count(Seq::empty()) == 0,
        dirty_count(seq![(uri, doc)]) == if doc.base == doc.loaded {
            0nat
        } else {
            1nat
        },
        dirty_count(first + second) == dirty_count(first) + dirty_count(second),
    decreases second.len(),
{
    reveal_with_fuel(dirty_count, 2);
    assert(seq![(uri, doc)].drop_last() =~= Seq::empty());
    assert(seq![(uri, doc)].last() == (uri, doc));
    if second.len() == 0 {
        assert(first + second =~= first);
    } else {
        assert((first + second).drop_last() =~= first + second.drop_last());
        lemma_dirty_documents(uri, doc, first, second.drop_last());
    }
}

/// A report tells, of every backend in turn, its server, roots and process, how many clients
/// and documents it has and how many of those are dirty, its swaps, the whole seconds that it
/// has been up, and whether it is private or dead.
pub proof fn lemma_report(list: Seq<BackendView>, now: u64, i: int)
    requires
        0 <= i < list.len(),
    ensures
        ({
            let all = pool_json(list, now);
            let b = list[i];
            let r = all->Array_0[i];
            let up = r.field("uptime_secs"@)->Number_0->Int_0;
            &&& all is Array
            &&& all->Array_0.len() == list.len()
            &&& r.field("server"@) == JsonView::Str(b.key.server)
            &&& r.field("roots"@) is Array
            &&& r.field("roots"@)->Array_0.len() == b.key.roots.len()
            &&& forall|k: int|
                0 <= k < b.key.roots.len() ==> #[trigger] r.field("roots"@)->Array_0[k]
                    == JsonView::Str(b.key.roots[k])
            &&& r.field("pid"@) == int_json(b.pid as int)
            &&& r.field("clients"@) == int_json(b.state.clients.len() as int)
            &&& r.field("open_docs"@) == int_json(b.state.docs.len() as int)
            &&& r.field("dirty_docs"@) == int_json(dirty_count(b.state.docs) as int)
            &&& r.field("swaps"@) == int_json(b.state.generation as int)
            &&& r.field("uptime_secs"@) == int_json(up)
            &&& now >= b.started ==> up * 1_000_000_000 <= now - b.started < (up + 1)
                * 1_000_000_000
            &&& now < b.started ==> up == 0
            &&& r.field("private"@) == JsonView::Bool(b.private_to is Some)
            &&& r.field("dead"@) == JsonView::Bool(b.state.dead)
        }),
{
    reveal_strlit("server");
    reveal_strlit("roots");
    reveal_strlit("pid");
    reveal_strlit("clients");
    reveal_strlit("open_docs");
    reveal_strlit("dirty_docs");
    reveal_strlit("swaps");
    reveal_strlit("uptime_secs");
    reveal_strlit("private");
    reveal_strlit("dead");
    assert("server"@.len() == 6 && "pid"@.len() == 3 && "open_docs"@.len() == 9 && "dirty_docs"@.len()
        == 10 && "uptime_secs"@.len() == 11 && "dead"@.len() == 4);
    assert("roots"@.len() == 5 && "swaps"@.len() == 5 && "roots"@[0] != "swaps"@[0]);
    assert("clients"@.len() == 7 && "private"@.len() == 7 && "clients"@[0] != "private"@[0]);
}

/// The cap makes nobody leave who need not: where no more are there than may be, everyone
/// stays, and otherwise no fewer stay than may.
pub proof fn lemma_cap_is_no_stricter(list: Seq<BackendView>, cap: nat)
    ensures
        list.len() <= cap ==> capped(list, cap) == list && overflow(list, cap).len() == 0,
        list.len() > cap ==> capped(list, cap).len() >= cap,
        forall|i: int, j: int|
            0 <= i < j < capped(list, cap).len() ==> stands_before(
                list,
                #[trigger] capped(list, cap)[i],
                #[trigger] capped(list, cap)[j],
            ),
    decreases list.len(),
{
    lemma_longest_idle(list);
    let kept = capped(list, cap);
    if list.len() > cap && longest_idle(list) is Some {
        let v = longest_idle(list)->0;
        let rest = list.remove(v);
        lemma_cap_is_no_stricter(rest, cap);
        assert forall|i: int, j: int| 0 <= i < j < kept.len() implies stands_before(
            list,
            #[trigger] kept[i],
            #[trigger] kept[j],
        ) by {
            assert(stands_before(rest, capped(rest, cap)[i], capped(rest, cap)[j]));
            let (x, y) = choose|x: int, y: int|
                0 <= x < y < rest.len() && #[trigger] rest[x] == kept[i] && #[trigger] rest[y]
                    == kept[j];
            let p = if x < v {
                x
            } else {
                x + 1
            };
            let q = if y < v {
                y
            } else {
                y + 1
            };
            assert(list[p] == kept[i] && list[q] == kept[j]);
        }
    } else {
        assert forall|i: int, j: int| 0 <= i < j < kept.len() implies stands_before(
            list,
            #[trigger] kept[i],
            #[trigger] kept[j],
        ) by {
            assert(list[i] == kept[i] && list[j] == kept[j]);
        }
    }
}

/// One of them stands before the other.
pub open spec fn stands_before(list: Seq<BackendView>, a: BackendView, b: BackendView) -> bool {
    exists|x: int, y: int|
        0 <= x < y < list.len() && #[trigger] list[x] == a && #[trigger] list[y] == b
}

} // verus!
