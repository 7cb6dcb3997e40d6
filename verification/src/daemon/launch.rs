//! How a real language server is started, and the handshake with it.

use vstd::prelude::*;
use vstd::string::*;
use crate::config::{ServerConfig, ServerView};
use crate::daemon::key::{BackendKey, KeyView};
use crate::json::{empty_object, json_text, Json, JsonView};
use crate::msg;
use crate::paths::{
    components, join_path, joined_path, lemma_bare_names, lemma_has_components,
    lemma_join_components, lemma_parent, parent, path_parent, same_path, same_place,
};
use crate::strings::{
    copy_list, join, joined, lemma_join_split, lemma_pieces_free, opt_str_view, opt_view,
    pieces, same, split, views,
};
use crate::table::{
    distinct, insert, lemma_place, lemma_place_is, lemma_put, lookup, place, put, table,
};

verus! {

// ---- keeping wrappers out -----------------------------------------------

/// The directories that hold drey itself or its wrappers: nothing in them may be run as a
/// server.
pub open spec fn own_dirs(exe: Option<Seq<char>>, home: Option<Seq<char>>) -> Seq<Seq<char>> {
    let beside = match exe {
        Some(e) => match path_parent(e) {
            Some(dir) => seq![dir],
            None => Seq::empty(),
        },
        None => Seq::empty(),
    };
    match home {
        Some(h) => beside.push(joined_path(h, ".drey/bin"@)),
        None => beside,
    }
}

/// The directories that hold drey, which runs as `exe`, and its wrappers.
pub fn banned_dirs(exe: Option<&str>, home: Option<&str>) -> (r: Vec<String>)
    ensures
        views(r@) == own_dirs(opt_str_view(exe), opt_str_view(home)),
{
    let mut banned: Vec<String> = Vec::new();
    assert(views(banned@) =~= Seq::empty());
    if let Some(e) = exe {
        if let Some(dir) = parent(e) {
            banned.push(dir);
            assert(views(banned@) =~= seq![dir@]);
        }
    }
    if let Some(h) = home {
        let ghost held = views(banned@);
        let dir = join_path(h, ".drey/bin");
        banned.push(dir);
        assert(views(banned@) =~= held.push(dir@));
    }
    banned
}

/// `dir` is one of the banned directories.
pub open spec fn banned_in(dir: Seq<char>, banned: Seq<Seq<char>>) -> bool {
    exists|i: int| 0 <= i < banned.len() && same_place(#[trigger] banned[i], dir)
}

/// Whether `dir` is one of the banned directories.
pub fn is_banned(dir: &str, banned: &Vec<String>) -> (r: bool)
    ensures
        r == banned_in(dir@, views(banned@)),
{
    let mut i: usize = 0;
    while i < banned.len()
        invariant
            i <= banned@.len(),
            forall|k: int| 0 <= k < i ==> !same_place(#[trigger] views(banned@)[k], dir@),
        decreases banned@.len() - i,
    {
        assert(views(banned@)[i as int] == banned@[i as int]@);
        if same_path(banned[i].as_str(), dir) {
            return true;
        }
        i += 1;
    }
    false
}

/// The entries that are not banned.
pub open spec fn unbanned(entries: Seq<Seq<char>>, banned: Seq<Seq<char>>) -> Seq<Seq<char>>
    decreases entries.len(),
{
    if entries.len() == 0 {
        Seq::empty()
    } else {
        let before = unbanned(entries.drop_last(), banned);
        if banned_in(entries.last(), banned) {
            before
        } else {
            before.push(entries.last())
        }
    }
}

/// A search path without the banned directories.
pub open spec fn sanitised(path: Seq<char>, banned: Seq<Seq<char>>) -> Seq<char> {
    joined(unbanned(pieces(path, ':'), banned), seq![':'])
}

/// The `PATH` a real language server is spawned with, minus the directory holding drey's
/// wrappers.
///
/// Configuring an absolute path to the real binary is not enough on its own. Version
/// managers install *proxies* under those absolute paths: asdf's `rust-analyzer` is a script
/// that looks `rust-analyzer` up on `PATH` and execs it. With the wrapper directory still on
/// `PATH`, that resolves straight back to drey, and the daemon forkbombs itself. Removing
/// the directory from the child's environment defeats the whole class of proxy.
pub fn sanitised_path(path: &str, banned: &Vec<String>) -> (r: String)
    ensures
        r@ == sanitised(path@, views(banned@)),
{
    let entries = split(path, ':');
    let ghost all = views(entries@);
    let ghost b = views(banned@);
    let mut kept: Vec<String> = Vec::new();
    let mut i: usize = 0;
    assert(views(kept@) =~= unbanned(all.take(0), b));
    while i < entries.len()
        invariant
            i <= entries@.len(),
            all == views(entries@),
            b == views(banned@),
            views(kept@) == unbanned(all.take(i as int), b),
        decreases entries@.len() - i,
    {
        let ghost held = views(kept@);
        assert(all.take(i + 1).drop_last() =~= all.take(i as int));
        assert(all.take(i + 1).last() == entries@[i as int]@);
        if !is_banned(entries[i].as_str(), banned) {
            kept.push(entries[i].clone());
            assert(views(kept@) =~= held.push(entries@[i as int]@));
        }
        i += 1;
    }
    proof {
        assert(all.take(i as int) =~= all);
        reveal_strlit(":");
        assert(":"@ =~= seq![':']);
    }
    join(&kept, ":")
}

/// A command that lies in a banned directory. A bare name does not: for that the search
/// path is sanitised.
pub open spec fn own_wrapper(command: Seq<char>, banned: Seq<Seq<char>>) -> bool {
    match path_parent(command) {
        Some(dir) => dir.len() > 0 && banned_in(dir, banned),
        None => false,
    }
}

/// True if `command` resolves to something inside drey's wrapper directory.
pub fn is_own_wrapper(command: &str, banned: &Vec<String>) -> (r: bool)
    ensures
        r == own_wrapper(command@, views(banned@)),
{
    match parent(command) {
        Some(dir) => dir.as_str().unicode_len() > 0 && is_banned(dir.as_str(), banned),
        None => false,
    }
}

// ---- starting -----------------------------------------------------------

/// A process to be started.
#[derive(Debug)]
pub struct Launch {
    pub command: String,
    pub args: Vec<String>,
    /// What is set in the environment, on top of the daemon's own.
    pub env: Vec<(String, String)>,
    /// The working directory, if it is to be another than the daemon's own.
    pub dir: Option<String>,
}

/// A process to be started.
#[verifier::ext_equal]
pub struct LaunchView {
    pub command: Seq<char>,
    pub args: Seq<Seq<char>>,
    pub env: Seq<(Seq<char>, Seq<char>)>,
    pub dir: Option<Seq<char>>,
}

impl View for Launch {
    type V = LaunchView;

    open spec fn view(&self) -> LaunchView {
        LaunchView {
            command: self.command@,
            args: views(self.args@),
            env: table(self.env@),
            dir: opt_view(self.dir),
        }
    }
}

/// Why no server is started.
#[derive(Debug)]
pub enum LaunchError {
    /// The command is one of drey's own wrappers.
    OwnWrapper { command: String },
    /// The server went away during the handshake.
    Exited { command: String },
    /// The server answered the handshake with an error.
    Refused { command: String, error: String },
}

impl LaunchError {
    /// The error in words.
    pub open spec fn words(self) -> Seq<char> {
        match self {
            LaunchError::OwnWrapper { command } => "`"@ + command@
                + "` points at a drey wrapper, which would recurse; set `command` to the real server binary"@,
            LaunchError::Exited { command } => "`"@ + command@ + "` exited during initialize"@,
            LaunchError::Refused { command, error } => "`"@ + command@ + "` failed to initialize: "@
                + error@,
        }
    }

    /// The error in words.
    pub fn message(&self) -> (r: String)
        ensures
            r@ == self.words(),
    {
        let mut r = "`".to_owned();
        match self {
            LaunchError::OwnWrapper { command } => {
                r.append(command.as_str());
                r.append(
                    "` points at a drey wrapper, which would recurse; set `command` to the real server binary",
                );
            },
            LaunchError::Exited { command } => {
                r.append(command.as_str());
                r.append("` exited during initialize");
            },
            LaunchError::Refused { command, error } => {
                r.append(command.as_str());
                r.append("` failed to initialize: ");
                r.append(error.as_str());
            },
        }
        r
    }
}

/// An environment with more settings on top.
pub open spec fn overlaid(
    env: Seq<(Seq<char>, Seq<char>)>,
    more: Seq<(Seq<char>, Seq<char>)>,
) -> Seq<(Seq<char>, Seq<char>)>
    decreases more.len(),
{
    if more.len() == 0 {
        env
    } else {
        put(overlaid(env, more.drop_last()), more.last().0, more.last().1)
    }
}

/// The process that serves `key`: the configured arguments, then the client's; the search
/// path sanitised, unless the configuration sets another; in the first root.
pub open spec fn launch_of(
    cfg: ServerView,
    key: KeyView,
    path: Seq<char>,
    banned: Seq<Seq<char>>,
) -> LaunchView {
    LaunchView {
        command: cfg.command,
        args: cfg.args + key.extra_args,
        env: overlaid(seq![("PATH"@, sanitised(path, banned))], cfg.env),
        dir: if key.roots.len() > 0 {
            Some(key.roots[0])
        } else {
            None
        },
    }
}

/// Says how to start the server for `key`, where the daemon's own search path is `path`.
/// Refuses to run one of drey's own wrappers: without this, a misconfigured `command` makes
/// the daemon spawn itself without limit.
pub fn plan_launch(
    cfg: &ServerConfig,
    key: &BackendKey,
    path: &str,
    banned: &Vec<String>,
) -> (r: Result<Launch, LaunchError>)
    ensures
        match r {
            Ok(launch) => !own_wrapper(cfg@.command, views(banned@)) && launch@ == launch_of(
                cfg@,
                key@,
                path@,
                views(banned@),
            ),
            Err(e) => own_wrapper(cfg@.command, views(banned@)) && e is OwnWrapper
                && e->OwnWrapper_command@ == cfg@.command,
        },
{
    if is_own_wrapper(cfg.command.as_str(), banned) {
        return Err(LaunchError::OwnWrapper { command: cfg.command.clone() });
    }
    let mut args = copy_list(&cfg.args);
    let mut extra = copy_list(&key.extra_args);
    let ghost first = views(args@);
    let ghost second = views(extra@);
    args.append(&mut extra);
    assert(views(args@) =~= first + second);
    let mut env: Vec<(String, String)> = Vec::new();
    env.push(("PATH".to_owned(), sanitised_path(path, banned)));
    let ghost start = table(env@);
    assert(start =~= seq![("PATH"@, sanitised(path@, views(banned@)))]);
    let ghost more = table(cfg.env@);
    let mut i: usize = 0;
    assert(table(env@) == overlaid(start, more.take(0)));
    while i < cfg.env.len()
        invariant
            i <= cfg.env@.len(),
            more == table(cfg.env@),
            table(env@) == overlaid(start, more.take(i as int)),
        decreases cfg.env@.len() - i,
    {
        assert(more.take(i + 1).drop_last() =~= more.take(i as int));
        assert(more.take(i + 1).last() == (cfg.env@[i as int].0@, cfg.env@[i as int].1@));
        insert(&mut env, cfg.env[i].0.as_str(), cfg.env[i].1.clone());
        i += 1;
    }
    assert(more.take(i as int) =~= more);
    let dir = if key.roots.len() > 0 {
        Some(key.roots[0].clone())
    } else {
        None
    };
    let launch = Launch { command: cfg.command.clone(), args, env, dir };
    assert(launch@ =~= launch_of(cfg@, key@, path@, views(banned@)));
    Ok(launch)
}

// ---- the handshake ------------------------------------------------------

/// The id of the proxy's own initialize request.
pub open spec fn init_id() -> JsonView {
    JsonView::Str(msg::INTERNAL@ + "initialize"@)
}

fn own_init_id() -> (r: Json)
    ensures
        r@ == init_id(),
{
    let mut s = msg::INTERNAL.to_owned();
    s.append("initialize");
    Json::Str(s)
}

/// The first message to a server.
pub fn init_request(init_params: Json) -> (r: Json)
    ensures
        r@ == msg::request_json(init_id(), "initialize"@, init_params@),
        msg::internal_id(init_id()),
{
    proof {
        assert((msg::INTERNAL@ + "initialize"@).take(msg::INTERNAL@.len() as int)
            =~= msg::INTERNAL@);
    }
    msg::request(own_init_id(), "initialize", init_params)
}

/// The message that completes the handshake.
pub fn initialized() -> (r: Json)
    ensures
        r@ == msg::notification_json("initialized"@, empty_object()),
{
    msg::notification("initialized", Json::object())
}

/// What a message of the server means during the handshake.
pub enum Handshake {
    /// Not the answer. Servers may log before responding. Nothing is attached yet, so there
    /// is nobody to deliver it to.
    Waiting,
    /// What the server answered.
    Done(Json),
    Failed(LaunchError),
}

/// What a message of the server, or the end of its stream, means during the handshake.
pub fn handshake(command: &str, v: Option<&Json>) -> (r: Handshake)
    ensures
        match v {
            None => r is Failed && r->Failed_0 is Exited && r->Failed_0->Exited_command@
                == command@,
            Some(v) => if v@.get("id"@) != Some(init_id()) {
                r is Waiting
            } else {
                match v@.get("error"@) {
                    Some(error) => r is Failed && r->Failed_0 is Refused
                        && r->Failed_0->Refused_command@ == command@
                        && r->Failed_0->Refused_error@ == json_text(error),
                    None => r is Done && r->Done_0@ == v@.field("result"@),
                }
            },
        },
{
    let v = match v {
        Some(v) => v,
        None => return Handshake::Failed(LaunchError::Exited { command: command.to_owned() }),
    };
    let mut own = msg::INTERNAL.to_owned();
    own.append("initialize");
    let answers = match v.get("id") {
        Some(id) => match id.as_str() {
            Some(s) => same(s, own.as_str()),
            None => false,
        },
        None => false,
    };
    if !answers {
        return Handshake::Waiting;
    }
    match v.get("error") {
        Some(error) => Handshake::Failed(
            LaunchError::Refused { command: command.to_owned(), error: error.text() },
        ),
        None => Handshake::Done(v.field("result")),
    }
}

// ---- laws ---------------------------------------------------------------

proof fn lemma_unbanned(entries: Seq<Seq<char>>, banned: Seq<Seq<char>>)
    ensures
        forall|i: int|
            0 <= i < unbanned(entries, banned).len() ==> !banned_in(
                #[trigger] unbanned(entries, banned)[i],
                banned,
            ) && entries.contains(unbanned(entries, banned)[i]),
        forall|i: int|
            0 <= i < entries.len() && !banned_in(#[trigger] entries[i], banned) ==> unbanned(
                entries,
                banned,
            ).contains(entries[i]),
        (forall|i: int| 0 <= i < entries.len() ==> !banned_in(#[trigger] entries[i], banned))
            ==> unbanned(entries, banned) == entries,
    decreases entries.len(),
{
    if entries.len() > 0 {
        let rest = entries.drop_last();
        let before = unbanned(rest, banned);
        let all = unbanned(entries, banned);
        lemma_unbanned(rest, banned);
        assert(entries[entries.len() - 1] == entries.last());
        assert forall|i: int| 0 <= i < rest.len() implies #[trigger] rest[i] == entries[i] by {}
        assert forall|i: int| 0 <= i < all.len() implies !banned_in(#[trigger] all[i], banned)
            && entries.contains(all[i]) by {
            if i < before.len() {
                assert(all[i] == before[i]);
                let k = choose|k: int| 0 <= k < rest.len() && rest[k] == before[i];
                assert(entries[k] == all[i]);
            }
        }
        assert forall|i: int|
            0 <= i < entries.len() && !banned_in(#[trigger] entries[i], banned) implies
            all.contains(entries[i]) by {
            if i < rest.len() {
                assert(rest[i] == entries[i]);
                let k = choose|k: int| 0 <= k < before.len() && before[k] == entries[i];
                assert(all[k] == entries[i]);
            } else {
                assert(all[all.len() - 1] == entries[i]);
            }
        }
        if forall|i: int| 0 <= i < entries.len() ==> !banned_in(#[trigger] entries[i], banned) {
            assert forall|i: int| 0 <= i < rest.len() implies !banned_in(
                #[trigger] rest[i],
                banned,
            ) by {
                assert(!banned_in(entries[i], banned));
            }
            assert(all =~= entries);
        }
    }
}

/// A server's search path holds no banned directory, and every entry of the daemon's own
/// search path that is not banned. Where nothing is left, the search path is empty.
pub proof fn lemma_wrappers_are_stripped(path: Seq<char>, banned: Seq<Seq<char>>)
    ensures
        ({
            let left = pieces(sanitised(path, banned), ':');
            let had = pieces(path, ':');
            &&& sanitised(path, banned).len() == 0 || forall|i: int|
                0 <= i < left.len() ==> !banned_in(#[trigger] left[i], banned)
            &&& forall|i: int|
                0 <= i < had.len() && !banned_in(#[trigger] had[i], banned) ==> left.contains(
                    had[i],
                )
        }),
{
    let had = pieces(path, ':');
    let kept = unbanned(had, banned);
    lemma_pieces_free(path, ':');
    lemma_unbanned(had, banned);
    if kept.len() > 0 {
        assert forall|i: int| 0 <= i < kept.len() implies !(#[trigger] kept[i]).contains(':') by {
            assert(had.contains(kept[i]));
            let k = choose|k: int| 0 <= k < had.len() && had[k] == kept[i];
            assert(!had[k].contains(':'));
        }
        lemma_join_split(kept, ':');
    } else {
        assert(sanitised(path, banned) =~= Seq::empty());
        assert forall|i: int| 0 <= i < had.len() implies banned_in(#[trigger] had[i], banned) by {
            if !banned_in(had[i], banned) {
                assert(kept.contains(had[i]));
            }
        }
    }
}

/// A search path without banned directories is left as it is.
pub proof fn lemma_unrelated_entries_stay(path: Seq<char>, banned: Seq<Seq<char>>)
    requires
        forall|i: int|
            0 <= i < pieces(path, ':').len() ==> !banned_in(#[trigger] pieces(path, ':')[i], banned),
    ensures
        sanitised(path, banned) == path,
{
    lemma_unbanned(pieces(path, ':'), banned);
    crate::strings::lemma_split_join(path, ':');
}

/// The entries of a search path are looked at one by one, in order: a banned one goes, any
/// other stays.
pub proof fn lemma_entries_keep_their_order(
    entry: Seq<char>,
    first: Seq<Seq<char>>,
    second: Seq<Seq<char>>,
    banned: Seq<Seq<char>>,
)
    ensures
        unbanned(Seq::empty(), banned).len() == 0,
        unbanned(seq![entry], banned) == (if exists|i: int|
            0 <= i < banned.len() && components(#[trigger] banned[i]) == components(entry) {
            Seq::empty()
        } else {
            seq![entry]
        }),
        unbanned(first + second, banned) == unbanned(first, banned) + unbanned(second, banned),
    decreases second.len(),
{
    let one = seq![entry];
    assert(one.drop_last() =~= Seq::empty());
    assert(one.last() == entry);
    reveal_with_fuel(unbanned, 2);
    if banned_in(entry, banned) {
        let i = choose|i: int| 0 <= i < banned.len() && same_place(#[trigger] banned[i], entry);
        assert(components(banned[i]) == components(entry));
        assert(unbanned(one, banned) =~= Seq::empty());
    } else {
        assert forall|i: int| 0 <= i < banned.len() implies components(#[trigger] banned[i])
            != components(entry) by {
            assert(!same_place(banned[i], entry));
        }
        assert(unbanned(one, banned) =~= one);
    }
    if second.len() == 0 {
        assert(first + second =~= first);
        assert(unbanned(first, banned) + unbanned(second, banned) =~= unbanned(first, banned));
    } else {
        let rest = second.drop_last();
        assert((first + second).drop_last() =~= first + rest);
        lemma_entries_keep_their_order(entry, first, rest, banned);
        assert(unbanned(first + second, banned) =~= unbanned(first, banned) + unbanned(
            second,
            banned,
        ));
    }
}

/// What stands on top counts: a name that is set there has the value that it has there, any
/// other the one that it had.
proof fn lemma_overlaid(env: Seq<(Seq<char>, Seq<char>)>, more: Seq<(Seq<char>, Seq<char>)>)
    requires
        distinct(env),
        distinct(more),
    ensures
        distinct(overlaid(env, more)),
        forall|name: Seq<char>| #[trigger]
            lookup(overlaid(env, more), name) == (match lookup(more, name) {
                Some(value) => Some(value),
                None => lookup(env, name),
            }),
    decreases more.len(),
{
    if more.len() > 0 {
        let rest = more.drop_last();
        let (key, value) = more.last();
        let before = overlaid(env, rest);
        assert(more[more.len() - 1] == more.last());
        assert forall|i: int| 0 <= i < rest.len() implies #[trigger] rest[i] == more[i] by {}
        lemma_overlaid(env, rest);
        lemma_put(before, key, value);
        lemma_place_is(more, key, more.len() - 1);
        assert forall|name: Seq<char>| #[trigger]
            lookup(overlaid(env, more), name) == (match lookup(more, name) {
                Some(value) => Some(value),
                None => lookup(env, name),
            }) by {
            if name != key {
                assert(lookup(before, name) == lookup(overlaid(env, rest), name));
                lemma_place(more, name);
                lemma_place(rest, name);
                if place(more, name) is Some {
                    let i = place(more, name)->0;
                    assert(rest[i] == more[i]);
                    lemma_place_is(rest, name, i);
                } else if place(rest, name) is Some {
                    let i = place(rest, name)->0;
                    assert(more[i] == rest[i]);
                }
            }
        }
    } else {
        assert forall|name: Seq<char>| lookup(more, name) is None by {
            lemma_place(more, name);
        }
    }
}

/// A server is started as it is configured: that command, with the configured arguments and
/// then the client's flags, in the first of the client's roots. What the configuration sets
/// in the environment is set; beside that only the search path is, which then holds no banned
/// directory.
pub proof fn lemma_launching(
    cfg: ServerView,
    key: KeyView,
    path: Seq<char>,
    banned: Seq<Seq<char>>,
)
    requires
        distinct(cfg.env),
    ensures
        ({
            let l = launch_of(cfg, key, path, banned);
            let n = cfg.args.len() as int;
            &&& l.command == cfg.command
            &&& l.args.len() == n + key.extra_args.len()
            &&& l.args.take(n) == cfg.args
            &&& l.args.skip(n) == key.extra_args
            &&& forall|name: Seq<char>| #[trigger]
                lookup(l.env, name) == (match lookup(cfg.env, name) {
                    Some(value) => Some(value),
                    None => if name == "PATH"@ {
                        Some(sanitised(path, banned))
                    } else {
                        None
                    },
                })
            &&& key.roots.len() > 0 ==> l.dir == Some(key.roots[0])
            &&& key.roots.len() == 0 ==> l.dir is None
        }),
{
    let l = launch_of(cfg, key, path, banned);
    let n = cfg.args.len() as int;
    assert(l.args.take(n) =~= cfg.args);
    assert(l.args.skip(n) =~= key.extra_args);
    let start = seq![("PATH"@, sanitised(path, banned))];
    lemma_overlaid(start, cfg.env);
    lemma_place_is(start, "PATH"@, 0);
    assert forall|name: Seq<char>| #[trigger]
        lookup(l.env, name) == (match lookup(cfg.env, name) {
            Some(value) => Some(value),
            None => if name == "PATH"@ {
                Some(sanitised(path, banned))
            } else {
                None
            },
        }) by {
        lemma_place(start, name);
        assert(lookup(overlaid(start, cfg.env), name) == lookup(l.env, name));
    }
}

/// A command in the wrapper directory, or beside drey itself, is refused; a bare name is not.
pub proof fn lemma_own_wrappers_are_refused(
    exe: Option<Seq<char>>,
    home: Seq<char>,
    name: Seq<char>,
    dir: Seq<char>,
)
    requires
        name.len() > 0,
        !name.contains('/'),
        name != seq!['.'],
        dir.len() > 0,
        components(dir) == components(joined_path(home, ".drey/bin"@)) || (exe is Some
            && path_parent(exe->0) is Some && components(dir) == components(
            path_parent(exe->0)->0,
        )),
    ensures
        own_wrapper(joined_path(dir, name), own_dirs(exe, Some(home))),
        !own_wrapper(name, own_dirs(exe, Some(home))),
{
    let banned = own_dirs(exe, Some(home));
    let command = joined_path(dir, name);
    lemma_join_components(dir, name);
    lemma_parent(command);
    let at = components(dir).push(name);
    assert(components(command) == at);
    assert(at.drop_last() =~= components(dir));
    lemma_has_components(dir);
    let p = path_parent(command)->0;
    lemma_has_components(p);
    lemma_bare_names(name);
    if components(dir) == components(joined_path(home, ".drey/bin"@)) {
        assert(same_place(banned[banned.len() - 1], p));
    } else {
        assert(same_place(banned[0], p));
    }
}

} // verus!
