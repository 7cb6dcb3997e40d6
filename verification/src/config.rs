//! User configuration: which real language server backs each logical name.

use vstd::prelude::*;
use vstd::string::*;
use crate::paths::{
    absolute, components, join_path, joined_path, lemma_absolute, lemma_has_components,
    lemma_parent, lemma_root, parent, path_parent, same_path, same_place,
};
use crate::strings::{
    copy_list, is_listed, join, joined, list1, list2, list3, none, opt_str_view,
    sort_unique, sorted_list, views,
};
use crate::table::{
    distinct, find, insert, keys, lemma_place, lemma_place_is, lemma_put, lookup, place, put, table,
};

verus! {

// ---- types --------------------------------------------------------------

#[derive(Debug)]
pub struct Config {
    /// The servers by logical name.
    pub server: Vec<(String, ServerConfig)>,
    pub daemon: DaemonConfig,
}

#[derive(Debug)]
pub struct ServerConfig {
    /// Executable to run, e.g. `rust-analyzer`.
    pub command: String,
    pub args: Vec<String>,
    pub env: Vec<(String, String)>,
    /// Marker files used to widen a client's root to the true workspace root, e.g.
    /// `["Cargo.toml"]`. The outermost match wins, so opening one crate inside a
    /// workspace attaches to the workspace's existing backend.
    pub root_markers: Vec<String>,
}

#[derive(Debug, Clone, Copy)]
pub struct DaemonConfig {
    /// Evict a backend this long after its last client detaches.
    pub idle_timeout_secs: u64,
    /// Evict the least recently used idle backend once this many are live. 0 disables
    /// the cap.
    pub max_backends: usize,
}

/// How one server is run.
#[verifier::ext_equal]
pub struct ServerView {
    pub command: Seq<char>,
    pub args: Seq<Seq<char>>,
    pub env: Seq<(Seq<char>, Seq<char>)>,
    pub root_markers: Seq<Seq<char>>,
}

impl View for ServerConfig {
    type V = ServerView;

    open spec fn view(&self) -> ServerView {
        ServerView {
            command: self.command@,
            args: views(self.args@),
            env: table(self.env@),
            root_markers: views(self.root_markers@),
        }
    }
}

/// The servers by logical name.
pub type Servers = Seq<(Seq<char>, ServerView)>;

/// A configuration.
#[verifier::ext_equal]
pub struct ConfigView {
    pub server: Servers,
    pub daemon: DaemonConfig,
}

impl View for Config {
    type V = ConfigView;

    open spec fn view(&self) -> ConfigView {
        ConfigView { server: table(self.server@), daemon: self.daemon }
    }
}

// ---- defaults -----------------------------------------------------------

/// How long a backend may be idle unless the user says otherwise.
pub const DEFAULT_IDLE_SECS: u64 = 1800;

fn default_idle_secs() -> (r: u64)
    ensures
        r == DEFAULT_IDLE_SECS,
{
    30 * 60
}

impl Default for DaemonConfig {
    fn default() -> (r: Self)
        ensures
            r == (DaemonConfig { idle_timeout_secs: DEFAULT_IDLE_SECS, max_backends: 0 }),
    {
        Self { idle_timeout_secs: default_idle_secs(), max_backends: 0 }
    }
}

/// A server without environment of its own.
pub open spec fn plain_server(
    command: Seq<char>,
    args: Seq<Seq<char>>,
    root_markers: Seq<Seq<char>>,
) -> ServerView {
    ServerView { command, args, env: Seq::empty(), root_markers }
}

/// Defaults so drey is useful before anyone writes a config file.
pub open spec fn builtins() -> Servers {
    seq![
        ("rust-analyzer"@, plain_server("rust-analyzer"@, Seq::empty(), seq!["Cargo.toml"@, "rust-project.json"@])),
        ("gopls"@, plain_server("gopls"@, Seq::empty(), seq!["go.work"@, "go.mod"@])),
        ("typescript"@, plain_server("typescript-language-server"@, seq!["--stdio"@], seq!["pnpm-workspace.yaml"@, "package.json"@, "tsconfig.json"@])),
        ("pyright"@, plain_server("pyright-langserver"@, seq!["--stdio"@], seq!["pyproject.toml"@, "setup.py"@, "requirements.txt"@])),
        ("ruff"@, plain_server("ruff"@, seq!["server"@], seq!["pyproject.toml"@, "ruff.toml"@])),
        ("clangd"@, plain_server("clangd"@, Seq::empty(), seq!["compile_commands.json"@, "CMakeLists.txt"@])),
        ("zls"@, plain_server("zls"@, Seq::empty(), seq!["build.zig"@])),
        ("lua"@, plain_server("lua-language-server"@, Seq::empty(), seq![".luarc.json"@])),
        ("elixir"@, plain_server("elixir-ls"@, Seq::empty(), seq!["mix.exs"@])),
        ("jdtls"@, plain_server("jdtls"@, Seq::empty(), seq!["pom.xml"@, "build.gradle"@, "settings.gradle"@])),
    ]
}

fn plain(command: &str, args: Vec<String>, root_markers: Vec<String>) -> (r: ServerConfig)
    ensures
        r@ == plain_server(command@, views(args@), views(root_markers@)),
{
    let r = ServerConfig { command: command.to_owned(), args, env: Vec::new(), root_markers };
    assert(table(r.env@) =~= Seq::empty());
    r
}

fn add_server(out: &mut Vec<(String, ServerConfig)>, name: &str, server: ServerConfig)
    ensures
        table(final(out)@) == table(old(out)@).push((name@, server@)),
{
    out.push((name.to_owned(), server));
    assert(table(out@) =~= table(old(out)@).push((name@, server@)));
}

/// Defaults so drey is useful before anyone writes a config file. Every entry is
/// overridable, and unknown names are an error rather than a guess.
pub fn builtin_servers() -> (r: Vec<(String, ServerConfig)>)
    ensures
        table(r@) == builtins(),
{
    let mut out: Vec<(String, ServerConfig)> = Vec::new();
    assert(table(out@) =~= Seq::empty());
    add_server(
        &mut out,
        "rust-analyzer",
        plain("rust-analyzer", none(), list2("Cargo.toml", "rust-project.json")),
    );
    add_server(
        &mut out,
        "gopls",
        plain("gopls", none(), list2("go.work", "go.mod")),
    );
    add_server(
        &mut out,
        "typescript",
        plain("typescript-language-server", list1("--stdio"), list3("pnpm-workspace.yaml", "package.json", "tsconfig.json")),
    );
    add_server(
        &mut out,
        "pyright",
        plain("pyright-langserver", list1("--stdio"), list3("pyproject.toml", "setup.py", "requirements.txt")),
    );
    add_server(
        &mut out,
        "ruff",
        plain("ruff", list1("server"), list2("pyproject.toml", "ruff.toml")),
    );
    add_server(
        &mut out,
        "clangd",
        plain("clangd", none(), list2("compile_commands.json", "CMakeLists.txt")),
    );
    add_server(
        &mut out,
        "zls",
        plain("zls", none(), list1("build.zig")),
    );
    add_server(
        &mut out,
        "lua",
        plain("lua-language-server", none(), list1(".luarc.json")),
    );
    add_server(
        &mut out,
        "elixir",
        plain("elixir-ls", none(), list1("mix.exs")),
    );
    add_server(
        &mut out,
        "jdtls",
        plain("jdtls", none(), list3("pom.xml", "build.gradle", "settings.gradle")),
    );
    assert(table(out@) =~= builtins());
    out
}

impl Default for Config {
    fn default() -> (r: Self)
        ensures
            r@ == (ConfigView {
                server: builtins(),
                daemon: DaemonConfig { idle_timeout_secs: DEFAULT_IDLE_SECS, max_backends: 0 },
            }),
    {
        Self { server: builtin_servers(), daemon: DaemonConfig::default() }
    }
}

// ---- loading ------------------------------------------------------------

/// `user` with those of `more` that it does not name.
pub open spec fn merged(user: Servers, more: Servers) -> Servers
    decreases more.len(),
{
    if more.len() == 0 {
        user
    } else {
        let before = merged(user, more.drop_last());
        if lookup(before, more.last().0) is Some {
            before
        } else {
            put(before, more.last().0, more.last().1)
        }
    }
}

/// User entries win; unlisted builtins stay available.
pub proof fn lemma_merged(user: Servers, more: Servers, name: Seq<char>)
    requires
        distinct(user),
        distinct(more),
    ensures
        distinct(merged(user, more)),
        lookup(merged(user, more), name) == (match lookup(user, name) {
            Some(server) => Some(server),
            None => lookup(more, name),
        }),
    decreases more.len(),
{
    lemma_place(more, name);
    if more.len() > 0 {
        let rest = more.drop_last();
        let (last, server) = more.last();
        let before = merged(user, rest);
        assert forall|i: int| 0 <= i < rest.len() implies #[trigger] rest[i] == more[i] by {}
        assert(more[more.len() - 1] == more.last());
        lemma_merged(user, rest, name);
        lemma_merged(user, rest, last);
        lemma_place(rest, last);
        lemma_place(rest, name);
        if place(rest, last) is Some {
            let i = place(rest, last)->0;
            assert(more[i].0 != more[more.len() - 1].0);
        }
        if lookup(before, last) is None {
            lemma_put(before, last, server);
        }
        if name == last {
            lemma_place_is(more, name, more.len() - 1);
        } else if place(more, name) is Some {
            let i = place(more, name)->0;
            assert(rest[i] == more[i]);
            lemma_place_is(rest, name, i);
        } else if place(rest, name) is Some {
            let i = place(rest, name)->0;
            assert(more[i] == rest[i]);
        }
    }
}

/// Every builtin has a command, markers by which sibling projects can share, and a name
/// of its own.
pub proof fn lemma_builtins()
    ensures
        distinct(builtins()),
        forall|i: int|
            0 <= i < builtins().len() ==> (#[trigger] builtins()[i]).1.command.len() > 0
                && builtins()[i].1.root_markers.len() > 0,
{
    reveal_strlit("rust-analyzer");
    reveal_strlit("gopls");
    reveal_strlit("typescript");
    reveal_strlit("typescript-language-server");
    reveal_strlit("pyright");
    reveal_strlit("pyright-langserver");
    reveal_strlit("ruff");
    reveal_strlit("clangd");
    reveal_strlit("zls");
    reveal_strlit("lua");
    reveal_strlit("lua-language-server");
    reveal_strlit("elixir");
    reveal_strlit("elixir-ls");
    reveal_strlit("jdtls");
    let b = builtins();
    assert(b[0].0 == "rust-analyzer"@ && b[0].1.command == "rust-analyzer"@);
    assert(b[1].0 == "gopls"@ && b[1].1.command == "gopls"@);
    assert(b[2].0 == "typescript"@ && b[2].1.command == "typescript-language-server"@);
    assert(b[3].0 == "pyright"@ && b[3].1.command == "pyright-langserver"@);
    assert(b[4].0 == "ruff"@ && b[4].1.command == "ruff"@);
    assert(b[5].0 == "clangd"@ && b[5].1.command == "clangd"@);
    assert(b[6].0 == "zls"@ && b[6].1.command == "zls"@);
    assert(b[7].0 == "lua"@ && b[7].1.command == "lua-language-server"@);
    assert(b[8].0 == "elixir"@ && b[8].1.command == "elixir-ls"@);
    assert(b[9].0 == "jdtls"@ && b[9].1.command == "jdtls"@);
    assert("rust-analyzer"@.len() == 13);
    assert("gopls"@[0] == 'g' && "gopls"@[1] == 'o');
    assert("jdtls"@[0] == 'j' && "jdtls"@[1] == 'd');
    assert("typescript"@.len() == 10);
    assert("pyright"@.len() == 7);
    assert("ruff"@.len() == 4);
    assert("clangd"@[0] == 'c' && "clangd"@[1] == 'l');
    assert("elixir"@[0] == 'e' && "elixir"@[1] == 'l');
    assert("zls"@[0] == 'z' && "zls"@[1] == 'l');
    assert("lua"@[0] == 'l' && "lua"@[1] == 'u');
}

/// A name that no server has.
#[derive(Debug)]
pub struct UnknownServer {
    pub name: String,
    /// The names that there are, in order.
    pub known: Vec<String>,
}

impl UnknownServer {
    /// The error in words.
    pub open spec fn words(self, config_path: Seq<char>) -> Seq<char> {
        "no server named `"@ + self.name@ + "`; known servers: "@ + joined(
            views(self.known@),
            ", "@,
        ) + ". Define it in "@ + config_path
    }

    /// The error in words, for a configuration that is read from `config_path`.
    pub fn message(&self, config_path: &str) -> (r: String)
        ensures
            r@ == self.words(config_path@),
    {
        let mut r = "no server named `".to_owned();
        r.append(self.name.as_str());
        r.append("`; known servers: ");
        let known = join(&self.known, ", ");
        r.append(known.as_str());
        r.append(". Define it in ");
        r.append(config_path);
        r
    }
}

impl ServerConfig {
    /// A configuration that says the same.
    pub fn duplicate(&self) -> (r: Self)
        ensures
            r@ == self@,
    {
        let mut env: Vec<(String, String)> = Vec::new();
        let mut i: usize = 0;
        while i < self.env.len()
            invariant
                i <= self.env@.len(),
                env@.len() == i,
                forall|k: int|
                    0 <= k < i ==> (#[trigger] env@[k]).0@ == self.env@[k].0@ && env@[k].1@
                        == self.env@[k].1@,
            decreases self.env@.len() - i,
        {
            env.push((self.env[i].0.clone(), self.env[i].1.clone()));
            i += 1;
        }
        assert(table(env@) =~= table(self.env@));
        ServerConfig {
            command: self.command.clone(),
            args: copy_list(&self.args),
            env,
            root_markers: copy_list(&self.root_markers),
        }
    }
}

impl Config {
    /// The configuration in force, from what the config file says if there is one.
    pub fn load(parsed: Option<Config>) -> (r: Config)
        ensures
            match parsed {
                Some(user) => r@ == (ConfigView {
                    server: merged(user@.server, builtins()),
                    daemon: user@.daemon,
                }),
                None => r@ == (ConfigView {
                    server: builtins(),
                    daemon: DaemonConfig { idle_timeout_secs: DEFAULT_IDLE_SECS, max_backends: 0 },
                }),
            },
    {
        let mut cfg = match parsed {
            Some(cfg) => cfg,
            None => return Config::default(),
        };
        let ghost user = table(cfg.server@);
        let ghost daemon = cfg.daemon;
        let more = builtin_servers();
        let ghost all = table(more@);
        let mut i: usize = 0;
        assert(table(cfg.server@) == merged(user, all.take(0)));
        while i < more.len()
            invariant
                i <= more@.len(),
                all == table(more@),
                cfg.daemon == daemon,
                table(cfg.server@) == merged(user, all.take(i as int)),
            decreases more@.len() - i,
        {
            assert(all.take(i + 1).drop_last() =~= all.take(i as int));
            assert(all.take(i + 1).last() == (more@[i as int].0@, more@[i as int].1@));
            let name = more[i].0.as_str();
            if find(&cfg.server, name).is_none() {
                insert(&mut cfg.server, name, more[i].1.duplicate());
            }
            i += 1;
        }
        assert(all.take(i as int) =~= all);
        cfg
    }

    /// The server called `name`. Unknown names are an error that lists the known ones.
    pub fn server(&self, name: &str) -> (r: Result<&ServerConfig, UnknownServer>)
        ensures
            match r {
                Ok(server) => lookup(self@.server, name@) == Some(server@),
                Err(e) => lookup(self@.server, name@) is None && e.name@ == name@ && views(e.known@)
                    == sorted_list(keys(self@.server).to_set()),
            },
    {
        match find(&self.server, name) {
            Some(i) => Ok(&self.server[i].1),
            None => {
                let mut names: Vec<String> = Vec::new();
                let mut i: usize = 0;
                while i < self.server.len()
                    invariant
                        i <= self.server@.len(),
                        names@.len() == i,
                        forall|k: int| 0 <= k < i ==> (#[trigger] names@[k])@ == self.server@[k].0@,
                    decreases self.server@.len() - i,
                {
                    names.push(self.server[i].0.clone());
                    i += 1;
                }
                assert(views(names@) =~= keys(self@.server));
                Err(UnknownServer { name: name.to_owned(), known: sort_unique(&names) })
            },
        }
    }
}

// ---- places -------------------------------------------------------------

/// Where the configuration is read from.
pub open spec fn config_place(named: Option<Seq<char>>, config_dir: Option<Seq<char>>) -> Seq<char> {
    match named {
        Some(p) => p,
        None => joined_path(
            match config_dir {
                Some(d) => d,
                None => "."@,
            },
            "drey/config.toml"@,
        ),
    }
}

/// Where the configuration is read from: where `DREY_CONFIG` says, or below the user's
/// configuration directory.
pub fn config_path(named: Option<&str>, config_dir: Option<&str>) -> (r: String)
    ensures
        r@ == config_place(opt_str_view(named), opt_str_view(config_dir)),
{
    match named {
        Some(p) => p.to_owned(),
        None => join_path(
            match config_dir {
                Some(d) => d,
                None => ".",
            },
            "drey/config.toml",
        ),
    }
}

/// Runtime directory holding the socket, lock and log.
pub open spec fn runtime_place(
    named: Option<Seq<char>>,
    xdg: Option<Seq<char>>,
    state_dir: Option<Seq<char>>,
    cache_dir: Option<Seq<char>>,
    temp_dir: Seq<char>,
) -> Seq<char> {
    match (named, xdg, state_dir, cache_dir) {
        (Some(p), _, _, _) => p,
        (None, Some(x), _, _) => joined_path(x, "drey"@),
        (None, None, Some(s), _) => joined_path(s, "drey"@),
        (None, None, None, Some(c)) => joined_path(c, "drey"@),
        (None, None, None, None) => joined_path(temp_dir, "drey"@),
    }
}

/// Runtime directory holding the socket, lock and log: where `DREY_RUNTIME_DIR` says, else
/// below `XDG_RUNTIME_DIR`, else below the user's state, cache or temporary directory.
pub fn runtime_dir(
    named: Option<&str>,
    xdg: Option<&str>,
    state_dir: Option<&str>,
    cache_dir: Option<&str>,
    temp_dir: &str,
) -> (r: String)
    ensures
        r@ == runtime_place(
            opt_str_view(named),
            opt_str_view(xdg),
            opt_str_view(state_dir),
            opt_str_view(cache_dir),
            temp_dir@,
        ),
{
    if let Some(p) = named {
        return p.to_owned();
    }
    if let Some(x) = xdg {
        return join_path(x, "drey");
    }
    let base = match state_dir {
        Some(s) => s,
        None => match cache_dir {
            Some(c) => c,
            None => temp_dir,
        },
    };
    join_path(base, "drey")
}

/// The socket in the runtime directory `dir`.
pub fn socket_path(dir: &str) -> (r: String)
    ensures
        r@ == joined_path(dir@, "daemon.sock"@),
{
    join_path(dir, "daemon.sock")
}

/// The log in the runtime directory `dir`.
pub fn log_path(dir: &str) -> (r: String)
    ensures
        r@ == joined_path(dir@, "daemon.log"@),
{
    join_path(dir, "daemon.log")
}

// ---- widening -----------------------------------------------------------

/// The walk from `cur` up to `parent` stops here: there is nothing to adopt, or home or the
/// root of the file system is reached. Both sides matter for home: `parent` must not be
/// adopted, and a client that opened home itself must not climb above it.
pub open spec fn stops_at(cur: Seq<char>, parent: Seq<char>, home: Option<Seq<char>>) -> bool {
    ||| parent.len() == 0
    ||| same_place(parent, "/"@)
    ||| home is Some && (same_place(parent, home->0) || same_place(cur, home->0))
}

/// The directories above `cur` that may be adopted, innermost first.
pub open spec fn climb(cur: Seq<char>, home: Option<Seq<char>>) -> Seq<Seq<char>>
    decreases cur.len(),
{
    match path_parent(cur) {
        None => Seq::empty(),
        Some(parent) => if stops_at(cur, parent, home) {
            Seq::empty()
        } else {
            proof {
                lemma_parent(cur);
            }
            seq![parent] + climb(parent, home)
        },
    }
}

/// A directory carries one of the markers.
pub open spec fn is_marked(dir: Seq<char>, markers: Seq<Seq<char>>, existing: Set<Seq<char>>) -> bool {
    exists|j: int|
        0 <= j < markers.len() && existing.contains(joined_path(dir, #[trigger] markers[j]))
}

/// The outermost of `dirs` that carries a marker, or `start`.
pub open spec fn outermost(
    start: Seq<char>,
    dirs: Seq<Seq<char>>,
    markers: Seq<Seq<char>>,
    existing: Set<Seq<char>>,
) -> Seq<char>
    decreases dirs.len(),
{
    if dirs.len() == 0 {
        start
    } else if is_marked(dirs.last(), markers, existing) {
        dirs.last()
    } else {
        outermost(start, dirs.drop_last(), markers, existing)
    }
}

/// The root that a client is given which asked for `start`.
pub open spec fn widened(
    start: Seq<char>,
    markers: Seq<Seq<char>>,
    home: Option<Seq<char>>,
    existing: Set<Seq<char>>,
) -> Seq<char> {
    outermost(start, climb(start, home), markers, existing)
}

/// Whether the walk from `cur` up to `parent` stops here.
pub fn is_boundary(cur: &str, parent: &str, home: Option<&str>) -> (r: bool)
    ensures
        r == stops_at(cur@, parent@, opt_str_view(home)),
{
    let at_home = match home {
        Some(h) => same_path(parent, h) || same_path(cur, h),
        None => false,
    };
    parent.unicode_len() == 0 || same_path(parent, "/") || at_home
}

/// The directories above `start` that may be adopted, innermost first.
pub fn ancestors(start: &str, home: Option<&str>) -> (r: Vec<String>)
    ensures
        views(r@) == climb(start@, opt_str_view(home)),
{
    let ghost h = opt_str_view(home);
    let ghost all = climb(start@, h);
    let mut out: Vec<String> = Vec::new();
    let mut cur = start.to_owned();
    assert(views(out@) + climb(cur@, h) =~= all);
    loop
        invariant
            h == opt_str_view(home),
            views(out@) + climb(cur@, h) == all,
            all == climb(start@, h),
        decreases cur@.len(),
    {
        let ghost held = views(out@);
        let above = match parent(cur.as_str()) {
            Some(p) => p,
            None => {
                assert(views(out@) =~= all);
                return out;
            },
        };
        if is_boundary(cur.as_str(), above.as_str(), home) {
            assert(views(out@) =~= all);
            return out;
        }
        out.push(above.clone());
        assert(views(out@) =~= held.push(above@));
        assert(views(out@) + climb(above@, h) =~= held + climb(cur@, h));
        cur = above;
    }
}

/// The paths at which a marker of `dir` may stand.
pub fn marker_paths(dir: &str, markers: &Vec<String>) -> (r: Vec<String>)
    ensures
        views(r@) == Seq::new(markers@.len(), |j: int| joined_path(dir@, views(markers@)[j])),
{
    let mut out: Vec<String> = Vec::new();
    let mut j: usize = 0;
    while j < markers.len()
        invariant
            j <= markers@.len(),
            out@.len() == j,
            forall|k: int| 0 <= k < j ==> (#[trigger] out@[k])@ == joined_path(dir@, markers@[k]@),
        decreases markers@.len() - j,
    {
        out.push(join_path(dir, markers[j].as_str()));
        j += 1;
    }
    assert(views(out@) =~= Seq::new(
        markers@.len(),
        |j: int| joined_path(dir@, views(markers@)[j]),
    ));
    out
}

/// Whether `dir` carries one of the markers, going by the paths that exist.
fn carries_marker(dir: &str, markers: &Vec<String>, existing: &Vec<String>) -> (r: bool)
    ensures
        r == is_marked(dir@, views(markers@), views(existing@).to_set()),
{
    let paths = marker_paths(dir, markers);
    let ghost e = views(existing@);
    let mut j: usize = 0;
    assert(views(paths@).len() == markers@.len());
    while j < paths.len()
        invariant
            j <= paths@.len(),
            paths@.len() == markers@.len(),
            e == views(existing@),
            views(paths@) == Seq::new(
                markers@.len(),
                |j: int| joined_path(dir@, views(markers@)[j]),
            ),
            forall|k: int|
                0 <= k < j ==> !e.contains(joined_path(dir@, #[trigger] views(markers@)[k])),
        decreases paths@.len() - j,
    {
        assert(views(paths@)[j as int] == paths@[j as int]@);
        let ghost path = paths@[j as int]@;
        assert(path == joined_path(dir@, views(markers@)[j as int]));
        if is_listed(existing, paths[j].as_str()) {
            assert(e.to_set().contains(path));
            return true;
        }
        j += 1;
    }
    assert forall|k: int| 0 <= k < views(markers@).len() implies !e.to_set().contains(
        joined_path(dir@, #[trigger] views(markers@)[k]),
    ) by {
        assert(!e.contains(joined_path(dir@, views(markers@)[k])));
    }
    false
}

/// Widens a client-supplied root to the outermost directory still carrying one of the
/// server's markers, where `existing` lists those of the paths at which a marker may stand
/// that exist. Two clients that opened different crates of the same Cargo workspace
/// therefore land on one backend and one index.
///
/// The walk never reaches the home directory. A stray `Cargo.toml` or `package.json` in
/// `$HOME` is common enough, and widening to it would merge every project underneath into
/// one backend indexing the entire home directory. Nor does it adopt the root of the file
/// system. Stopping short costs a little sharing in a case nobody has; not stopping costs
/// everything in a case people really do have.
///
/// `.git` is deliberately *not* a stopping marker: git worktrees are legitimately separate
/// workspaces and must not be merged.
pub fn widen_root_bounded(
    start: &str,
    markers: &Vec<String>,
    home: Option<&str>,
    existing: &Vec<String>,
) -> (r: String)
    ensures
        r@ == widened(start@, views(markers@), opt_str_view(home), views(existing@).to_set()),
{
    let dirs = ancestors(start, home);
    widen_along(start, &dirs, markers, existing)
}

/// Widens each of the roots that a client asked for, which are canonical paths, by itself.
pub fn widen_roots(
    asked: &Vec<String>,
    markers: &Vec<String>,
    home: Option<&str>,
    existing: &Vec<String>,
) -> (r: Vec<String>)
    ensures
        r@.len() == asked@.len(),
        forall|i: int|
            0 <= i < r@.len() ==> (#[trigger] r@[i])@ == widened(
                asked@[i]@,
                views(markers@),
                opt_str_view(home),
                views(existing@).to_set(),
            ),
{
    let mut out: Vec<String> = Vec::new();
    let mut i: usize = 0;
    while i < asked.len()
        invariant
            i <= asked@.len(),
            out@.len() == i,
            forall|k: int|
                0 <= k < i ==> (#[trigger] out@[k])@ == widened(
                    asked@[k]@,
                    views(markers@),
                    opt_str_view(home),
                    views(existing@).to_set(),
                ),
        decreases asked@.len() - i,
    {
        out.push(widen_root_bounded(asked[i].as_str(), markers, home, existing));
        i += 1;
    }
    out
}

/// The outermost of `dirs`, which are in order from the inside out, that carries a marker,
/// or `start`.
pub fn widen_along(
    start: &str,
    dirs: &Vec<String>,
    markers: &Vec<String>,
    existing: &Vec<String>,
) -> (r: String)
    ensures
        r@ == outermost(start@, views(dirs@), views(markers@), views(existing@).to_set()),
{
    let ghost d = views(dirs@);
    let ghost m = views(markers@);
    let ghost e = views(existing@).to_set();
    let mut i: usize = dirs.len();
    assert(d.take(i as int) =~= d);
    while i > 0
        invariant
            i <= dirs@.len(),
            d == views(dirs@),
            m == views(markers@),
            e == views(existing@).to_set(),
            outermost(start@, d, m, e) == outermost(start@, d.take(i as int), m, e),
        decreases i,
    {
        assert(d.take(i as int).drop_last() =~= d.take(i - 1));
        assert(d.take(i as int).last() == dirs@[i - 1]@);
        if carries_marker(dirs[i - 1].as_str(), markers, existing) {
            return dirs[i - 1].clone();
        }
        i -= 1;
    }
    start.to_owned()
}

proof fn lemma_outermost(
    start: Seq<char>,
    dirs: Seq<Seq<char>>,
    markers: Seq<Seq<char>>,
    existing: Set<Seq<char>>,
)
    ensures
        outermost(start, dirs, markers, existing) == start || (dirs.contains(
            outermost(start, dirs, markers, existing),
        ) && is_marked(outermost(start, dirs, markers, existing), markers, existing)),
        forall|i: int|
            0 <= i < dirs.len() && is_marked(#[trigger] dirs[i], markers, existing) ==> exists|
                j: int,
            |
                i <= j < dirs.len() && #[trigger] dirs[j] == outermost(
                    start,
                    dirs,
                    markers,
                    existing,
                ),
    decreases dirs.len(),
{
    if dirs.len() > 0 {
        let rest = dirs.drop_last();
        let best = outermost(start, dirs, markers, existing);
        lemma_outermost(start, rest, markers, existing);
        assert(dirs[dirs.len() - 1] == dirs.last());
        if is_marked(dirs.last(), markers, existing) {
            assert(dirs[dirs.len() - 1] == best);
        } else {
            if rest.contains(best) {
                let j = choose|j: int| 0 <= j < rest.len() && rest[j] == best;
                assert(dirs[j] == best);
            }
            assert forall|i: int|
                0 <= i < dirs.len() && is_marked(#[trigger] dirs[i], markers, existing) implies
                exists|j: int| i <= j < dirs.len() && #[trigger] dirs[j] == best by {
                assert(rest[i] == dirs[i]);
                let j = choose|j: int| i <= j < rest.len() && #[trigger] rest[j] == best;
                assert(dirs[j] == best);
            }
        }
    }
}

proof fn lemma_climb_avoids(cur: Seq<char>, home: Option<Seq<char>>)
    ensures
        forall|i: int|
            0 <= i < climb(cur, home).len() ==> !same_place(
                #[trigger] climb(cur, home)[i],
                "/"@,
            ) && (home is Some ==> !same_place(climb(cur, home)[i], home->0)),
    decreases cur.len(),
{
    if path_parent(cur) is Some {
        let above = path_parent(cur)->0;
        lemma_parent(cur);
        if !stops_at(cur, above, home) {
            lemma_climb_avoids(above, home);
            let all = climb(cur, home);
            assert forall|i: int| 0 <= i < all.len() implies !same_place(#[trigger] all[i], "/"@)
                && (home is Some ==> !same_place(all[i], home->0)) by {
                if i > 0 {
                    assert(all[i] == climb(above, home)[i - 1]);
                }
            }
        }
    }
}

/// Widening adopts a directory only if it carries a marker, and no directory further out
/// that may be adopted carries one. It adopts neither home nor the root of the file system.
pub proof fn lemma_widening(
    start: Seq<char>,
    markers: Seq<Seq<char>>,
    home: Option<Seq<char>>,
    existing: Set<Seq<char>>,
)
    ensures
        ({
            let root = widened(start, markers, home, existing);
            let dirs = climb(start, home);
            &&& root == start || (dirs.contains(root) && is_marked(root, markers, existing)
                && !same_place(root, "/"@) && (home is Some ==> !same_place(root, home->0)))
            &&& forall|i: int|
                0 <= i < dirs.len() && is_marked(#[trigger] dirs[i], markers, existing)
                    ==> exists|j: int| i <= j < dirs.len() && #[trigger] dirs[j] == root
        }),
{
    let dirs = climb(start, home);
    let root = widened(start, markers, home, existing);
    lemma_outermost(start, dirs, markers, existing);
    lemma_climb_avoids(start, home);
    if root != start {
        let j = choose|j: int| 0 <= j < dirs.len() && dirs[j] == root;
        assert(!same_place(dirs[j], "/"@));
    }
}

/// Without markers, widening gives back what it was given.
pub proof fn lemma_no_markers_no_widening(
    start: Seq<char>,
    home: Option<Seq<char>>,
    existing: Set<Seq<char>>,
)
    ensures
        widened(start, Seq::empty(), home, existing) == start,
{
    lemma_outermost(start, climb(start, home), Seq::empty(), existing);
}

/// A client that opened home itself gets home, whatever stands above it.
pub proof fn lemma_home_is_not_left(
    home: Seq<char>,
    markers: Seq<Seq<char>>,
    existing: Set<Seq<char>>,
)
    ensures
        widened(home, markers, Some(home), existing) == home,
{
}

proof fn lemma_climb_goes_on(cur: Seq<char>, home: Option<Seq<char>>, i: int)
    requires
        0 <= i < climb(cur, home).len(),
    ensures
        climb(cur, home).skip(i + 1) == climb(climb(cur, home)[i], home),
        climb(cur, home)[i].len() < cur.len(),
    decreases cur.len(),
{
    let above = path_parent(cur)->0;
    let all = climb(cur, home);
    lemma_parent(cur);
    if i == 0 {
        assert(all.skip(1) =~= climb(above, home));
    } else {
        assert(all[i] == climb(above, home)[i - 1]);
        lemma_climb_goes_on(above, home, i - 1);
        assert(all.skip(i + 1) =~= climb(above, home).skip(i));
    }
}

/// Clients that opened different directories of one workspace agree on its root: if the
/// walk from each of them passes a directory that carries a marker, and nothing further out
/// does, then that directory is what each of them gets.
pub proof fn lemma_siblings_agree(
    a: Seq<char>,
    b: Seq<char>,
    workspace: Seq<char>,
    markers: Seq<Seq<char>>,
    home: Option<Seq<char>>,
    existing: Set<Seq<char>>,
)
    requires
        a == workspace || climb(a, home).contains(workspace),
        b == workspace || climb(b, home).contains(workspace),
        is_marked(workspace, markers, existing),
        forall|i: int|
            0 <= i < climb(workspace, home).len() ==> !is_marked(
                #[trigger] climb(workspace, home)[i],
                markers,
                existing,
            ),
    ensures
        widened(a, markers, home, existing) == workspace,
        widened(b, markers, home, existing) == workspace,
{
    lemma_widens_to(a, workspace, markers, home, existing);
    lemma_widens_to(b, workspace, markers, home, existing);
}

proof fn lemma_widens_to(
    a: Seq<char>,
    workspace: Seq<char>,
    markers: Seq<Seq<char>>,
    home: Option<Seq<char>>,
    existing: Set<Seq<char>>,
)
    requires
        a == workspace || climb(a, home).contains(workspace),
        is_marked(workspace, markers, existing),
        forall|i: int|
            0 <= i < climb(workspace, home).len() ==> !is_marked(
                #[trigger] climb(workspace, home)[i],
                markers,
                existing,
            ),
    ensures
        widened(a, markers, home, existing) == workspace,
{
    let dirs = climb(a, home);
    if a == workspace {
        lemma_outermost_is(a, dirs, markers, existing, -1);
    } else {
        let i = choose|i: int| 0 <= i < dirs.len() && dirs[i] == workspace;
        lemma_climb_goes_on(a, home, i);
        assert forall|j: int| i < j < dirs.len() implies !is_marked(
            #[trigger] dirs[j],
            markers,
            existing,
        ) by {
            assert(dirs.skip(i + 1)[j - i - 1] == dirs[j]);
            assert(!is_marked(climb(workspace, home)[j - i - 1], markers, existing));
        }
        lemma_outermost_is(a, dirs, markers, existing, i);
    }
}

proof fn lemma_outermost_is(
    start: Seq<char>,
    dirs: Seq<Seq<char>>,
    markers: Seq<Seq<char>>,
    existing: Set<Seq<char>>,
    i: int,
)
    requires
        -1 <= i < dirs.len(),
        i >= 0 ==> is_marked(dirs[i], markers, existing),
        forall|j: int| i < j < dirs.len() ==> !is_marked(#[trigger] dirs[j], markers, existing),
    ensures
        outermost(start, dirs, markers, existing) == (if i >= 0 {
            dirs[i]
        } else {
            start
        }),
    decreases dirs.len(),
{
    if dirs.len() > 0 && i < dirs.len() - 1 {
        let rest = dirs.drop_last();
        assert(dirs[dirs.len() - 1] == dirs.last());
        assert forall|j: int| i < j < rest.len() implies !is_marked(
            #[trigger] rest[j],
            markers,
            existing,
        ) by {
            assert(rest[j] == dirs[j]);
        }
        lemma_outermost_is(start, rest, markers, existing, i);
    }
}

/// How many directories above `path`, which has the components `c`, may be adopted: all but
/// the root of the file system, or, below home, those below home.
pub open spec fn steps_up(c: Seq<Seq<char>>, home: Option<Seq<char>>) -> int {
    let below = match home {
        Some(h) => if components(h).len() > 0 && components(h).is_prefix_of(c) {
            c.len() - components(h).len() - 1
        } else {
            c.len() - 2
        },
        None => c.len() - 2,
    };
    if below > 0 {
        below
    } else {
        0
    }
}

/// The walk up from an absolute path goes one directory at a time, and passes every one of
/// them up to the root of the file system or, below home, up to home; it adopts neither.
pub proof fn lemma_climb_passes_every_directory(start: Seq<char>, home: Option<Seq<char>>)
    requires
        absolute(start),
    ensures
        ({
            let c = components(start);
            let dirs = climb(start, home);
            &&& dirs.len() == steps_up(c, home)
            &&& forall|i: int|
                0 <= i < dirs.len() ==> components(#[trigger] dirs[i]) == c.take(
                    c.len() - 1 - i,
                )
        }),
    decreases start.len(),
{
    let c = components(start);
    let n = c.len() as int;
    let dirs = climb(start, home);
    lemma_parent(start);
    lemma_absolute(start);
    reveal_strlit("/");
    assert("/"@ =~= seq!['/']);
    lemma_root();
    if path_parent(start) is Some {
        let above = path_parent(start)->0;
        let d = components(above);
        assert(d == c.drop_last());
        assert(n >= 2);
        assert(d[0] == c[0]);
        lemma_absolute(above);
        lemma_has_components(above);
        if home is Some {
            let h = components(home->0);
            if h.len() > 0 && h.is_prefix_of(c) && h.len() < n {
                assert(h =~= d.subrange(0, h.len() as int)) by {
                    assert(h =~= c.subrange(0, h.len() as int));
                }
            }
            if h.len() > 0 && h.is_prefix_of(d) {
                assert(h =~= c.subrange(0, h.len() as int)) by {
                    assert(h =~= d.subrange(0, h.len() as int));
                }
            }
            if h.len() == n && h.is_prefix_of(c) {
                assert(h =~= c);
            }
            if h.len() == n - 1 && h.is_prefix_of(d) {
                assert(h =~= d);
            }
            if h == c {
                assert(h.is_prefix_of(c));
            }
            if h == d {
                assert(h.is_prefix_of(d));
            }
        }
        if d == seq![seq!['/']] {
            assert(n == 2);
        }
        if n == 2 {
            assert(d =~= seq![seq!['/']]);
        }
        if !stops_at(start, above, home) {
            lemma_climb_passes_every_directory(above, home);
            assert forall|i: int| 0 <= i < dirs.len() implies components(#[trigger] dirs[i])
                == c.take(n - 1 - i) by {
                if i > 0 {
                    assert(dirs[i] == climb(above, home)[i - 1]);
                    assert(d.take(d.len() - 1 - (i - 1)) =~= c.take(n - 1 - i));
                } else {
                    assert(dirs[0] == above);
                    assert(d =~= c.take(n - 1));
                }
            }
        }
    } else {
        assert(n <= 1);
    }
}

/// A file that carries a marker's name decides: where one stands in a directory that the walk
/// passes, that directory or one further out is what the client gets; and the client gets
/// another directory than it asked for only where such a file stands in it.
pub proof fn lemma_marker_files_decide(
    start: Seq<char>,
    markers: Seq<Seq<char>>,
    home: Option<Seq<char>>,
    existing: Set<Seq<char>>,
    i: int,
    j: int,
)
    requires
        0 <= i < climb(start, home).len(),
        0 <= j < markers.len(),
    ensures
        ({
            let root = widened(start, markers, home, existing);
            let dirs = climb(start, home);
            &&& existing.contains(joined_path(dirs[i], markers[j])) ==> exists|k: int|
                i <= k < dirs.len() && #[trigger] dirs[k] == root
            &&& root != start ==> dirs.contains(root) && exists|m: int|
                0 <= m < markers.len() && existing.contains(
                    joined_path(root, #[trigger] markers[m]),
                )
        }),
{
    let root = widened(start, markers, home, existing);
    let dirs = climb(start, home);
    lemma_widening(start, markers, home, existing);
    if existing.contains(joined_path(dirs[i], markers[j])) {
        assert(is_marked(dirs[i], markers, existing));
    }
}

/// What is named counts before everything else, and what comes first before what comes later:
/// the later places make no difference where an earlier one is known.
pub proof fn lemma_places(
    named: Seq<char>,
    a: Option<Seq<char>>,
    b: Option<Seq<char>>,
    c: Option<Seq<char>>,
    dir: Seq<char>,
    temp: Seq<char>,
)
    ensures
        config_place(Some(named), a) == named,
        config_place(None, Some(dir)) == joined_path(dir, "drey/config.toml"@),
        runtime_place(Some(named), a, b, c, temp) == named,
        runtime_place(None, Some(dir), b, c, temp) == joined_path(dir, "drey"@),
        runtime_place(None, None, Some(dir), c, temp) == joined_path(dir, "drey"@),
        runtime_place(None, None, None, Some(dir), temp) == joined_path(dir, "drey"@),
        runtime_place(None, None, None, None, temp) == joined_path(temp, "drey"@),
{
}

/// The builtins are the ten servers that drey knows without a configuration, under their
/// names. Each is started as itself, those that need it with a flag for it, in no environment
/// of its own, and has the markers of its language's workspaces.
pub proof fn lemma_builtin_commands()
    ensures
        builtins().len() == 10,
        ({
            let s = |name: Seq<char>| lookup(builtins(), name)->0;
            &&& s("rust-analyzer"@).command == "rust-analyzer"@ && s("rust-analyzer"@).args.len() == 0
            &&& s("gopls"@).command == "gopls"@ && s("gopls"@).args.len() == 0
            &&& s("typescript"@).command == "typescript-language-server"@
            &&& s("typescript"@).args == seq!["--stdio"@]
            &&& s("pyright"@).command == "pyright-langserver"@
            &&& s("pyright"@).args == seq!["--stdio"@]
            &&& s("ruff"@).command == "ruff"@ && s("ruff"@).args == seq!["server"@]
            &&& s("clangd"@).command == "clangd"@ && s("clangd"@).args.len() == 0
            &&& s("zls"@).command == "zls"@ && s("zls"@).args.len() == 0
            &&& s("lua"@).command == "lua-language-server"@ && s("lua"@).args.len() == 0
            &&& s("elixir"@).command == "elixir-ls"@ && s("elixir"@).args.len() == 0
            &&& s("jdtls"@).command == "jdtls"@ && s("jdtls"@).args.len() == 0
        }),
        ({
            let m = |name: Seq<char>| lookup(builtins(), name)->0.root_markers;
            &&& m("rust-analyzer"@) == seq!["Cargo.toml"@, "rust-project.json"@]
            &&& m("gopls"@) == seq!["go.work"@, "go.mod"@]
            &&& m("typescript"@) == seq!["pnpm-workspace.yaml"@, "package.json"@, "tsconfig.json"@]
            &&& m("pyright"@) == seq!["pyproject.toml"@, "setup.py"@, "requirements.txt"@]
            &&& m("ruff"@) == seq!["pyproject.toml"@, "ruff.toml"@]
            &&& m("clangd"@) == seq!["compile_commands.json"@, "CMakeLists.txt"@]
            &&& m("zls"@) == seq!["build.zig"@]
            &&& m("lua"@) == seq![".luarc.json"@]
            &&& m("elixir"@) == seq!["mix.exs"@]
            &&& m("jdtls"@) == seq!["pom.xml"@, "build.gradle"@, "settings.gradle"@]
        }),
        forall|i: int| 0 <= i < builtins().len() ==> (#[trigger] builtins()[i]).1.env.len() == 0,
{
    let b = builtins();
    lemma_builtins();
    lemma_place_is(b, "rust-analyzer"@, 0);
    lemma_place_is(b, "gopls"@, 1);
    lemma_place_is(b, "typescript"@, 2);
    lemma_place_is(b, "pyright"@, 3);
    lemma_place_is(b, "ruff"@, 4);
    lemma_place_is(b, "clangd"@, 5);
    lemma_place_is(b, "zls"@, 6);
    lemma_place_is(b, "lua"@, 7);
    lemma_place_is(b, "elixir"@, 8);
    lemma_place_is(b, "jdtls"@, 9);
}

} // verus!
