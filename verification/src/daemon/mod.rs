//! The daemon: what a client asks for when it connects, and the backend pool.

pub mod backend;
pub mod client;
pub mod key;
pub mod launch;
pub mod mirror;
pub mod registry;
pub mod session;
pub mod settings;
pub mod sharing;
pub mod uri;

use vstd::prelude::*;
use vstd::string::*;
use crate::daemon::key::{BackendKey, KeyView};
use crate::daemon::session::items_or_none;
use crate::daemon::uri::{folder_paths, read_folders, uri_path};
use crate::json::{Json, JsonView};
use crate::msg;
use crate::strings::{copy_list, list1, none, opt_str_view, same, views};

pub use crate::daemon::uri::uri_to_path;

verus! {

/// The shim's opening message, sent before any LSP traffic.
#[derive(Debug)]
pub struct Hello {
    /// Logical server name from the config, e.g. `rust-analyzer`.
    pub server: String,
    /// The shim's working directory, used when the client sends no root.
    pub cwd: Option<String>,
    /// Arguments the client passed to the shim, forwarded to the real server.
    pub args: Vec<String>,
    /// Control connections ask a question and disconnect.
    pub control: Option<Control>,
}

#[derive(Debug, Clone, Copy, PartialEq, Eq, Structural)]
pub enum Control {
    Status,
    Stop,
    Gc,
}

pub const HELLO_METHOD: &'static str = "$/drey.hello";

// ---- a client connects --------------------------------------------------

/// Why a connection is refused.
#[derive(Debug)]
pub enum Refusal {
    /// The first message is not a hello.
    NoHello,
    /// The message after the hello is not `initialize` but this.
    NoInitialize { method: String },
}

impl Refusal {
    /// The refusal in words.
    pub open spec fn words(self) -> Seq<char> {
        match self {
            Refusal::NoHello => "expected "@ + HELLO_METHOD@ + " as the first message"@,
            Refusal::NoInitialize { method } => "expected initialize, got `"@ + method@ + "`"@,
        }
    }

    /// The refusal in words.
    pub fn message(&self) -> (r: String)
        ensures
            r@ == self.words(),
    {
        match self {
            Refusal::NoHello => {
                let mut r = "expected ".to_owned();
                r.append(HELLO_METHOD);
                r.append(" as the first message");
                r
            },
            Refusal::NoInitialize { method } => {
                let mut r = "expected initialize, got `".to_owned();
                r.append(method.as_str());
                r.append("`");
                r
            },
        }
    }
}

/// What a hello carries. The first message of a connection must be one.
pub fn expect_hello(first: &Json) -> (r: Result<Json, Refusal>)
    ensures
        match r {
            Ok(params) => msg::method_of(first@) == HELLO_METHOD@ && params@ == first@.field(
                "params"@,
            ),
            Err(e) => msg::method_of(first@) != HELLO_METHOD@ && e is NoHello,
        },
{
    if same(msg::method(first), HELLO_METHOD) {
        Ok(first.field("params"))
    } else {
        Err(Refusal::NoHello)
    }
}

/// What `initialize` carries, which is also where the workspace roots are learnt.
/// Everything after the hello is ordinary LSP, and it must begin so.
pub fn expect_initialize(init: &Json) -> (r: Result<Json, Refusal>)
    ensures
        match r {
            Ok(params) => msg::method_of(init@) == "initialize"@ && params@ == init@.field(
                "params"@,
            ),
            Err(e) => msg::method_of(init@) != "initialize"@ && e is NoInitialize
                && e->NoInitialize_method@ == msg::method_of(init@),
        },
{
    if same(msg::method(init), "initialize") {
        Ok(init.field("params"))
    } else {
        Err(Refusal::NoInitialize { method: msg::method(init).to_owned() })
    }
}

/// The key of a client that greeted with `hello` and initialized with `params`, once its
/// roots are known.
pub fn client_key(hello: &Hello, params: &Json, roots: Vec<String>) -> (r: BackendKey)
    ensures
        r@ == KeyView::of(
            hello.server@,
            views(roots@),
            params@.get("initializationOptions"@),
            views(hello.args@),
        ),
{
    BackendKey::with_args(
        hello.server.as_str(),
        roots,
        params.get("initializationOptions"),
        copy_list(&hello.args),
    )
}

/// The answer to a client's `initialize`, from what the server answered when it was
/// initialized: once, by whoever got there first.
pub fn welcome(init: &Json, init_result: &Json) -> (r: Json)
    ensures
        r@ == msg::response_json(init@.field("id"@), init_result@),
{
    msg::response(init.field("id"), init_result.duplicate())
}

// ---- roots --------------------------------------------------------------

/// The roots a client asks for: its workspace folders, else its root URI, else its root
/// path, else the directory it was started in.
pub open spec fn requested_roots(params: JsonView, cwd: Option<Seq<char>>) -> Seq<Seq<char>> {
    let folders = folder_paths(items_or_none(params.field("workspaceFolders"@)));
    if folders.len() > 0 {
        folders
    } else {
        match (params.field("rootUri"@).as_str(), params.field("rootPath"@).as_str(), cwd) {
            (Some(uri), _, _) => seq![uri_path(uri)],
            (None, Some(path), _) => seq![path],
            (None, None, Some(dir)) => seq![dir],
            (None, None, None) => Seq::empty(),
        }
    }
}

/// What a client names goes before where it was started: the directory counts only where the
/// client names no root. Workspace folders that have a path go before a root URI, and are
/// taken as they stand; a root URI goes before a root path, and either is the only root.
pub proof fn lemma_roots(params: JsonView, cwd: Option<Seq<char>>, folders: Seq<JsonView>)
    requires
        params.field("workspaceFolders"@) == JsonView::Array(folders)
            || !(params.field("workspaceFolders"@) is Array) && folders.len() == 0,
    ensures
        ({
            let r = requested_roots(params, cwd);
            let paths = folder_paths(folders);
            let uri = params.field("rootUri"@);
            let path = params.field("rootPath"@);
            &&& paths.len() > 0 || uri is Str || path is Str ==> r == requested_roots(params, None)
            &&& paths.len() > 0 ==> r == paths
            &&& paths.len() == 0 && uri is Str ==> r == seq![uri_path(uri->Str_0)]
            &&& paths.len() == 0 && !(uri is Str) && path is Str ==> r == seq![path->Str_0]
            &&& paths.len() == 0 && !(uri is Str) && !(path is Str) ==> (match cwd {
                Some(dir) => r == seq![dir],
                None => r.len() == 0,
            })
        }),
{
}

/// Extracts workspace roots from `initialize` params.
pub fn resolve_roots(params: &Json, cwd: Option<&str>) -> (r: Vec<String>)
    ensures
        views(r@) == requested_roots(params@, opt_str_view(cwd)),
{
    let mut raw = none();
    assert(views(raw@) =~= folder_paths(Seq::empty()));
    if let Some(folders) = params.get("workspaceFolders") {
        if let Some(folders) = folders.as_array() {
            raw = read_folders(folders);
        }
    }
    assert(views(raw@).len() == raw@.len());
    if raw.len() > 0 {
        return raw;
    }
    if let Some(uri) = params.get("rootUri") {
        if let Some(uri) = uri.as_str() {
            return list1(uri_to_path(uri).as_str());
        }
    }
    if let Some(path) = params.get("rootPath") {
        if let Some(path) = path.as_str() {
            return list1(path);
        }
    }
    match cwd {
        Some(dir) => list1(dir),
        None => none(),
    }
}

} // verus!
