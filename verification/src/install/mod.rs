//! `drey install` / `drey uninstall`: interposing drey in front of every language server on
//! this machine, for every LSP client at once.

pub mod plan;
pub mod rc;
pub mod report;

use vstd::prelude::*;
use vstd::string::*;
use crate::paths::{
    absolute, components, components_of, is_inside, join_path, joined_path,
    lemma_has_components, lemma_join_components, lemma_parent, lies_in, parent, path_parent,
    same_path, same_place,
};
use crate::strings::{
    begins_with, contains, copy_list, free_of, from_utf8_lossy, has_part, is_listed, join, joined,
    is_space, lemma_join_split, lemma_sorted_list_exists, lemma_text_order, lemma_trimmed, list1, list2, list3,
    lossy_text, opt_str_view, opt_view, same, sort_unique, pieces, sorted_list, text_lt, trim, trimmed, views,
};
use crate::install::rc::lines;
use crate::table::{find, lemma_place, lookup, table};

pub use crate::calendar::{civil_from_days, timestamp};
pub use crate::install::rc::{
    append_path_block, strip_path_block, MARK_BEGIN, MARK_END,
};

verus! {

/// Every wrapper carries this line, so uninstall can tell the files it wrote from anything
/// else that happens to live in the same directory.
pub const WRAPPER_MARK: &'static str = "# Installed by drey.";

// ---- known servers ------------------------------------------------------

/// A language server we know how to look for: the name it gets in the config, the executable
/// to find on `PATH`, and the markers that widen a client's root to the real workspace root.
#[derive(Debug)]
pub struct Known {
    pub name: String,
    pub binary: String,
    pub root_markers: Vec<String>,
}

/// A language server we know how to look for.
#[verifier::ext_equal]
pub struct KnownView {
    pub name: Seq<char>,
    pub binary: Seq<char>,
    pub root_markers: Seq<Seq<char>>,
}

impl View for Known {
    type V = KnownView;

    open spec fn view(&self) -> KnownView {
        KnownView {
            name: self.name@,
            binary: self.binary@,
            root_markers: views(self.root_markers@),
        }
    }
}

/// What a list of known servers holds.
pub open spec fn known_views(list: Seq<Known>) -> Seq<KnownView> {
    Seq::new(list.len(), |i: int| list[i]@)
}

/// The language servers we know how to look for, in order.
pub open spec fn known() -> Seq<KnownView> {
    seq![
        KnownView {
            name: "rust-analyzer"@,
            binary: "rust-analyzer"@,
            root_markers: seq!["Cargo.toml"@, "rust-project.json"@],
        },
        KnownView {
            name: "gopls"@,
            binary: "gopls"@,
            root_markers: seq!["go.work"@, "go.mod"@],
        },
        KnownView {
            name: "typescript-language-server"@,
            binary: "typescript-language-server"@,
            root_markers: seq!["pnpm-workspace.yaml"@, "package.json"@, "tsconfig.json"@],
        },
        KnownView {
            name: "pyright-langserver"@,
            binary: "pyright-langserver"@,
            root_markers: seq!["pyproject.toml"@, "setup.py"@],
        },
        KnownView {
            name: "ruff"@,
            binary: "ruff"@,
            root_markers: seq!["pyproject.toml"@, "ruff.toml"@],
        },
        KnownView {
            name: "clangd"@,
            binary: "clangd"@,
            root_markers: seq!["compile_commands.json"@, "CMakeLists.txt"@],
        },
        KnownView {
            name: "lua-language-server"@,
            binary: "lua-language-server"@,
            root_markers: seq![".luarc.json"@],
        },
        KnownView {
            name: "jdtls"@,
            binary: "jdtls"@,
            root_markers: seq!["pom.xml"@, "build.gradle"@],
        },
        KnownView {
            name: "ruby-lsp"@,
            binary: "ruby-lsp"@,
            root_markers: seq!["Gemfile"@, ".ruby-lsp"@],
        },
        KnownView {
            name: "intelephense"@,
            binary: "intelephense"@,
            root_markers: seq!["composer.json"@],
        },
        KnownView {
            name: "kotlin-lsp"@,
            binary: "kotlin-lsp"@,
            root_markers: seq!["build.gradle.kts"@, "settings.gradle.kts"@],
        },
        KnownView {
            name: "sourcekit-lsp"@,
            binary: "sourcekit-lsp"@,
            root_markers: seq!["Package.swift"@],
        },
        KnownView {
            name: "zls"@,
            binary: "zls"@,
            root_markers: seq!["build.zig"@],
        },
        KnownView {
            name: "solargraph"@,
            binary: "solargraph"@,
            root_markers: seq!["Gemfile"@],
        },
        KnownView {
            name: "omnisharp"@,
            binary: "OmniSharp"@,
            root_markers: seq!["*.sln"@],
        },
    ]
}

fn add_known(out: &mut Vec<Known>, name: &str, binary: &str, root_markers: Vec<String>)
    ensures
        known_views(final(out)@) == known_views(old(out)@).push(
            KnownView { name: name@, binary: binary@, root_markers: views(root_markers@) },
        ),
{
    let k = Known { name: name.to_owned(), binary: binary.to_owned(), root_markers };
    out.push(k);
    assert(known_views(out@) =~= known_views(old(out)@).push(k@));
}

/// The language servers we know how to look for, in order.
pub fn known_servers() -> (r: Vec<Known>)
    ensures
        known_views(r@) == known(),
{
    let mut out: Vec<Known> = Vec::new();
    assert(known_views(out@) =~= Seq::empty());
    add_known(&mut out, "rust-analyzer", "rust-analyzer", list2("Cargo.toml", "rust-project.json"));
    add_known(&mut out, "gopls", "gopls", list2("go.work", "go.mod"));
    add_known(&mut out, "typescript-language-server", "typescript-language-server", list3("pnpm-workspace.yaml", "package.json", "tsconfig.json"));
    add_known(&mut out, "pyright-langserver", "pyright-langserver", list2("pyproject.toml", "setup.py"));
    add_known(&mut out, "ruff", "ruff", list2("pyproject.toml", "ruff.toml"));
    add_known(&mut out, "clangd", "clangd", list2("compile_commands.json", "CMakeLists.txt"));
    add_known(&mut out, "lua-language-server", "lua-language-server", list1(".luarc.json"));
    add_known(&mut out, "jdtls", "jdtls", list2("pom.xml", "build.gradle"));
    add_known(&mut out, "ruby-lsp", "ruby-lsp", list2("Gemfile", ".ruby-lsp"));
    add_known(&mut out, "intelephense", "intelephense", list1("composer.json"));
    add_known(&mut out, "kotlin-lsp", "kotlin-lsp", list2("build.gradle.kts", "settings.gradle.kts"));
    add_known(&mut out, "sourcekit-lsp", "sourcekit-lsp", list1("Package.swift"));
    add_known(&mut out, "zls", "zls", list1("build.zig"));
    add_known(&mut out, "solargraph", "solargraph", list1("Gemfile"));
    add_known(&mut out, "omnisharp", "OmniSharp", list1("*.sln"));
    assert(known_views(out@) =~= known());
    out
}

// ---- finding them -------------------------------------------------------

/// A language server found on this machine, with the absolute path the config will point at.
#[derive(Debug, PartialEq, Eq)]
pub struct Found {
    /// Logical name, used for both the config section and the wrapper filename.
    pub name: String,
    /// Absolute path to the real executable.
    pub command: String,
    pub root_markers: Vec<String>,
}

/// A language server found on this machine.
#[verifier::ext_equal]
pub struct FoundView {
    pub name: Seq<char>,
    pub command: Seq<char>,
    pub root_markers: Seq<Seq<char>>,
}

impl View for Found {
    type V = FoundView;

    open spec fn view(&self) -> FoundView {
        FoundView {
            name: self.name@,
            command: self.command@,
            root_markers: views(self.root_markers@),
        }
    }
}

/// What a list of servers holds.
pub open spec fn found_views(list: Seq<Found>) -> Seq<FoundView> {
    Seq::new(list.len(), |i: int| list[i]@)
}

/// Where the wrapper scripts go.
pub open spec fn wrapper_place(home: Option<Seq<char>>) -> Seq<char> {
    joined_path(
        match home {
            Some(h) => h,
            None => "."@,
        },
        ".drey/bin"@,
    )
}

/// Where the wrapper scripts go. Hardcoded rather than XDG-derived because the `PATH` line
/// written into the shell rc files has to name it literally.
pub fn wrapper_dir(home: Option<&str>) -> (r: String)
    ensures
        r@ == wrapper_place(opt_str_view(home)),
{
    join_path(
        match home {
            Some(h) => h,
            None => ".",
        },
        ".drey/bin",
    )
}

/// The first of `entries`, but for those inside `skip_dir`, in which the executable stands.
pub open spec fn first_hit(
    binary: Seq<char>,
    entries: Seq<Seq<char>>,
    skip_dir: Seq<char>,
    executable: Set<Seq<char>>,
) -> Option<Seq<char>>
    decreases entries.len(),
{
    if entries.len() == 0 {
        None
    } else {
        let candidate = joined_path(entries[0], binary);
        if !lies_in(entries[0], skip_dir) && executable.contains(candidate) {
            Some(candidate)
        } else {
            first_hit(binary, entries.skip(1), skip_dir, executable)
        }
    }
}

/// The paths at which `binary` may stand: in each of `entries`, but for those inside
/// `skip_dir`, in order.
pub open spec fn possible_places(
    binary: Seq<char>,
    entries: Seq<Seq<char>>,
    skip_dir: Seq<char>,
) -> Seq<Seq<char>>
    decreases entries.len(),
{
    if entries.len() == 0 {
        Seq::empty()
    } else {
        let before = possible_places(binary, entries.drop_last(), skip_dir);
        if lies_in(entries.last(), skip_dir) {
            before
        } else {
            before.push(joined_path(entries.last(), binary))
        }
    }
}

/// The paths at which `binary` may stand: in each of `entries`, but for those inside
/// `skip_dir`, in order.
pub fn candidates(binary: &str, entries: &Vec<String>, skip_dir: &str) -> (r: Vec<String>)
    ensures
        views(r@) == possible_places(binary@, views(entries@), skip_dir@),
{
    let ghost e = views(entries@);
    let mut out: Vec<String> = Vec::new();
    let mut i: usize = 0;
    assert(views(out@) =~= possible_places(binary@, e.take(0), skip_dir@));
    while i < entries.len()
        invariant
            i <= entries@.len(),
            e == views(entries@),
            views(out@) == possible_places(binary@, e.take(i as int), skip_dir@),
        decreases entries@.len() - i,
    {
        let ghost held = views(out@);
        assert(e.take(i + 1).drop_last() =~= e.take(i as int));
        assert(e.take(i + 1).last() == entries@[i as int]@);
        if !is_inside(entries[i].as_str(), skip_dir) {
            let candidate = join_path(entries[i].as_str(), binary);
            out.push(candidate);
            assert(views(out@) =~= held.push(candidate@));
        }
        i += 1;
    }
    assert(e.take(i as int) =~= e);
    out
}

/// First executable named `binary` in `entries`, skipping anything inside `skip_dir`. Our
/// own wrappers live there and resolving to one would make the config point drey at itself.
/// `executable` lists those of the candidates that are executable.
pub fn resolve_on_path(
    binary: &str,
    entries: &Vec<String>,
    skip_dir: &str,
    executable: &Vec<String>,
) -> (r: Option<String>)
    ensures
        opt_view(r) == first_hit(
            binary@,
            views(entries@),
            skip_dir@,
            views(executable@).to_set(),
        ),
{
    let ghost e = views(entries@);
    let ghost x = views(executable@);
    let mut i: usize = 0;
    assert(e.skip(0) =~= e);
    while i < entries.len()
        invariant
            i <= entries@.len(),
            e == views(entries@),
            x == views(executable@),
            first_hit(binary@, e, skip_dir@, x.to_set()) == first_hit(
                binary@,
                e.skip(i as int),
                skip_dir@,
                x.to_set(),
            ),
        decreases entries@.len() - i,
    {
        assert(e.skip(i as int)[0] == entries@[i as int]@);
        assert(e.skip(i as int).skip(1) =~= e.skip(i + 1));
        if !is_inside(entries[i].as_str(), skip_dir) {
            let candidate = join_path(entries[i].as_str(), binary);
            if is_listed(executable, candidate.as_str()) {
                assert(x.to_set().contains(candidate@));
                return Some(candidate);
            }
            assert(!x.to_set().contains(candidate@));
        }
        i += 1;
    }
    None
}

/// A shim of asdf, which dispatches by the current directory.
pub open spec fn asdf_shim(path: Seq<char>) -> bool {
    has_part(path, "/.asdf/shims/"@)
}

/// asdf puts a shell shim on `PATH` that dispatches by the current directory. Recording the
/// shim would make every workspace resolve to whatever version asdf picked at daemon start,
/// so asdf has to be asked for the real binary instead.
pub fn is_asdf_shim(path: &str) -> (r: bool)
    ensures
        r == asdf_shim(path@),
{
    contains(path, "/.asdf/shims/")
}

/// The path that asdf answered, if it did.
pub fn read_asdf_answer(success: bool, stdout: &[u8]) -> (r: Option<String>)
    ensures
        opt_view(r) == asdf_path(success, lossy_text(stdout@)),
{
    let text = from_utf8_lossy(stdout);
    asdf_answer(success, text.as_str())
}

/// The path in what asdf answered, if it succeeded and said anything.
pub open spec fn asdf_path(success: bool, text: Seq<char>) -> Option<Seq<char>> {
    if success && trimmed(text).len() > 0 {
        Some(trimmed(text))
    } else {
        None
    }
}

/// The path in what asdf answered, if it succeeded and said anything.
pub fn asdf_answer(success: bool, text: &str) -> (r: Option<String>)
    ensures
        opt_view(r) == asdf_path(success, text@),
{
    let answer = trim(text);
    if success && answer.as_str().unicode_len() > 0 {
        Some(answer)
    } else {
        None
    }
}

/// Where the real binary is, given what asdf answered for it.
pub open spec fn real_path(hit: Seq<char>, answer: Option<Seq<char>>) -> Seq<char> {
    match answer {
        Some(path) => if asdf_shim(hit) {
            path
        } else {
            hit
        },
        None => hit,
    }
}

/// The servers that were found, of those in `k`, in order.
pub open spec fn discovered(
    k: Seq<KnownView>,
    entries: Seq<Seq<char>>,
    bin_dir: Seq<char>,
    executable: Set<Seq<char>>,
    asdf: Seq<(Seq<char>, Seq<char>)>,
) -> Seq<FoundView>
    decreases k.len(),
{
    if k.len() == 0 {
        Seq::empty()
    } else {
        let before = discovered(k.drop_last(), entries, bin_dir, executable, asdf);
        let last = k.last();
        match first_hit(last.binary, entries, bin_dir, executable) {
            Some(hit) => before.push(
                FoundView {
                    name: last.name,
                    command: real_path(hit, lookup(asdf, last.binary)),
                    root_markers: last.root_markers,
                },
            ),
            None => before,
        }
    }
}

/// The known servers that are on the search path `entries`, where `executable` lists those of
/// the candidates that are executable and `asdf` what asdf answered for which binary.
pub fn discover(
    entries: &Vec<String>,
    bin_dir: &str,
    executable: &Vec<String>,
    asdf: &Vec<(String, String)>,
) -> (r: Vec<Found>)
    ensures
        found_views(r@) == discovered(
            known(),
            views(entries@),
            bin_dir@,
            views(executable@).to_set(),
            table(asdf@),
        ),
{
    let list = known_servers();
    let ghost k = known_views(list@);
    let ghost e = views(entries@);
    let ghost x = views(executable@).to_set();
    let ghost a = table(asdf@);
    let mut out: Vec<Found> = Vec::new();
    let mut i: usize = 0;
    assert(found_views(out@) =~= discovered(k.take(0), e, bin_dir@, x, a));
    while i < list.len()
        invariant
            i <= list@.len(),
            k == known_views(list@),
            e == views(entries@),
            x == views(executable@).to_set(),
            a == table(asdf@),
            found_views(out@) == discovered(k.take(i as int), e, bin_dir@, x, a),
        decreases list@.len() - i,
    {
        let ghost held = found_views(out@);
        let server = &list[i];
        proof {
            assert(k.take(i + 1).drop_last() =~= k.take(i as int));
            assert(k.take(i + 1).last() == server@);
        }
        if let Some(hit) = resolve_on_path(server.binary.as_str(), entries, bin_dir, executable) {
            let command = match find(asdf, server.binary.as_str()) {
                Some(j) => if is_asdf_shim(hit.as_str()) {
                    asdf[j].1.clone()
                } else {
                    hit
                },
                None => hit,
            };
            let f = Found {
                name: server.name.clone(),
                command,
                root_markers: copy_list(&server.root_markers),
            };
            out.push(f);
            assert(found_views(out@) =~= held.push(f@));
        }
        i += 1;
    }
    assert(k.take(i as int) =~= k);
    out
}

// ---- the binary ---------------------------------------------------------

/// Running as a wrapper: inside the wrapper directory, under another name than drey's own.
pub open spec fn runs_as_wrapper(exe: Seq<char>, bin_dir: Seq<char>) -> bool {
    match path_parent(exe) {
        Some(dir) => same_place(dir, bin_dir) && components(exe).last() != "drey"@,
        None => false,
    }
}

/// The running binary is a wrapper.
#[derive(Debug)]
pub struct InWrapperDir {
    pub exe: String,
    pub bin_dir: String,
}

impl InWrapperDir {
    /// The error in words.
    pub open spec fn words(self) -> Seq<char> {
        "the running binary "@ + self.exe@ + " is inside the wrapper directory "@ + self.bin_dir@
            + "; wrappers pointing there would exec themselves"@
    }

    /// The error in words.
    pub fn message(&self) -> (r: String)
        ensures
            r@ == self.words(),
    {
        let mut r = "the running binary ".to_owned();
        r.append(self.exe.as_str());
        r.append(" is inside the wrapper directory ");
        r.append(self.bin_dir.as_str());
        r.append("; wrappers pointing there would exec themselves");
        r
    }
}

/// Whether wrappers may exec `exe`, the binary that is running.
///
/// `~/.drey/bin/drey` is fine: wrappers are named after servers, never `drey`. Any *other*
/// name inside the wrapper directory means we are running as a wrapper, and a wrapper
/// pointing at itself would exec forever, so refuse rather than write that out.
pub fn check_exe(exe: &str, bin_dir: &str) -> (r: Result<(), InWrapperDir>)
    ensures
        match r {
            Ok(()) => !runs_as_wrapper(exe@, bin_dir@),
            Err(e) => runs_as_wrapper(exe@, bin_dir@) && e.exe@ == exe@ && e.bin_dir@ == bin_dir@,
        },
{
    let dir = match parent(exe) {
        Some(dir) => dir,
        None => return Ok(()),
    };
    let parts = components_of(exe);
    assert(views(parts@).len() == parts@.len());
    let n = parts.len();
    assert(n > 0);
    assert(components(exe@).last() == parts@[n - 1]@);
    if same_path(dir.as_str(), bin_dir) && !same(parts[n - 1].as_str(), "drey") {
        return Err(InWrapperDir { exe: exe.to_owned(), bin_dir: bin_dir.to_owned() });
    }
    Ok(())
}

// ---- what is written ----------------------------------------------------

/// What a config file begins with.
pub const CONFIG_HEAD: &'static str =
    "# Generated by `drey install`.\n# Commands are ABSOLUTE paths to the real servers, so the PATH wrappers\n# in ~/.drey/bin can never cause drey to re-enter itself.\n\n[daemon]\nidle_timeout_secs = 1800\n\n";

/// The markers, each between quotes.
pub open spec fn quoted(markers: Seq<Seq<char>>) -> Seq<Seq<char>> {
    Seq::new(markers.len(), |i: int| "\""@ + markers[i] + "\""@)
}

/// The section of one server.
pub open spec fn section(f: FoundView) -> Seq<char> {
    "[server."@ + f.name + "]\n"@ + "command = \""@ + f.command + "\"\n"@ + (if f.root_markers.len()
        > 0 {
        "root_markers = ["@ + joined(quoted(f.root_markers), ", "@) + "]\n"@
    } else {
        Seq::empty()
    }) + "\n"@
}

/// Which of the servers counts under a name: the one found last.
pub open spec fn last_named(found: Seq<FoundView>, name: Seq<char>) -> Option<FoundView>
    decreases found.len(),
{
    if found.len() == 0 {
        None
    } else if found.last().name == name {
        Some(found.last())
    } else {
        last_named(found.drop_last(), name)
    }
}

/// The names of the servers.
pub open spec fn names(found: Seq<FoundView>) -> Seq<Seq<char>> {
    Seq::new(found.len(), |i: int| found[i].name)
}

/// The sections of the servers called `order`, in that order.
pub open spec fn sections(found: Seq<FoundView>, order: Seq<Seq<char>>) -> Seq<char>
    decreases order.len(),
{
    if order.len() == 0 {
        Seq::empty()
    } else {
        sections(found, order.drop_last()) + match last_named(found, order.last()) {
            Some(f) => section(f),
            None => Seq::empty(),
        }
    }
}

/// The whole config file: the servers in the order of their names.
pub open spec fn config_text(found: Seq<FoundView>) -> Seq<char> {
    CONFIG_HEAD@ + sections(found, sorted_list(names(found).to_set()))
}

fn quote_all(markers: &Vec<String>) -> (r: Vec<String>)
    ensures
        views(r@) == quoted(views(markers@)),
{
    let mut out: Vec<String> = Vec::new();
    let mut i: usize = 0;
    while i < markers.len()
        invariant
            i <= markers@.len(),
            out@.len() == i,
            forall|k: int| 0 <= k < i ==> (#[trigger] out@[k])@ == "\""@ + markers@[k]@ + "\""@,
        decreases markers@.len() - i,
    {
        let mut q = "\"".to_owned();
        q.append(markers[i].as_str());
        q.append("\"");
        out.push(q);
        i += 1;
    }
    assert(views(out@) =~= quoted(views(markers@)));
    out
}

fn push_section(out: &mut String, f: &Found)
    ensures
        final(out)@ == old(out)@ + section(f@),
{
    out.append("[server.");
    out.append(f.name.as_str());
    out.append("]\n");
    out.append("command = \"");
    out.append(f.command.as_str());
    out.append("\"\n");
    if f.root_markers.len() > 0 {
        let markers = quote_all(&f.root_markers);
        out.append("root_markers = [");
        let list = join(&markers, ", ");
        out.append(list.as_str());
        out.append("]\n");
    }
    out.append("\n");
    assert(out@ =~= old(out)@ + section(f@));
}

fn find_last(found: &Vec<Found>, name: &str) -> (r: Option<usize>)
    ensures
        match r {
            Some(i) => i < found@.len() && last_named(found_views(found@), name@) == Some(
                found@[i as int]@,
            ),
            None => last_named(found_views(found@), name@) is None,
        },
{
    let ghost f = found_views(found@);
    let mut i: usize = found.len();
    assert(f.take(i as int) =~= f);
    while i > 0
        invariant
            i <= found@.len(),
            f == found_views(found@),
            last_named(f, name@) == last_named(f.take(i as int), name@),
        decreases i,
    {
        assert(f.take(i as int).drop_last() =~= f.take(i - 1));
        assert(f.take(i as int).last() == found@[i - 1]@);
        if same(found[i - 1].name.as_str(), name) {
            return Some(i - 1);
        }
        i -= 1;
    }
    None
}

/// Renders the whole config file. Commands are absolute paths, so the wrappers on `PATH` can
/// never make drey re-enter itself. The order is that of the names, so re-running install
/// produces a byte-identical file and diffs against the backup stay small.
pub fn render_config(found: &Vec<Found>) -> (r: String)
    ensures
        r@ == config_text(found_views(found@)),
{
    let ghost f = found_views(found@);
    let mut out = CONFIG_HEAD.to_owned();
    let mut list: Vec<String> = Vec::new();
    let mut i: usize = 0;
    while i < found.len()
        invariant
            i <= found@.len(),
            list@.len() == i,
            forall|k: int| 0 <= k < i ==> (#[trigger] list@[k])@ == found@[k].name@,
        decreases found@.len() - i,
    {
        list.push(found[i].name.clone());
        i += 1;
    }
    assert(views(list@) =~= names(f));
    let sorted = sort_unique(&list);
    let ghost order = views(sorted@);
    let mut i: usize = 0;
    assert(out@ =~= CONFIG_HEAD@ + sections(f, order.take(0)));
    while i < sorted.len()
        invariant
            i <= sorted@.len(),
            f == found_views(found@),
            order == views(sorted@),
            out@ == CONFIG_HEAD@ + sections(f, order.take(i as int)),
        decreases sorted@.len() - i,
    {
        let ghost held = out@;
        assert(order.take(i + 1).drop_last() =~= order.take(i as int));
        assert(order.take(i + 1).last() == sorted@[i as int]@);
        if let Some(k) = find_last(found, sorted[i].as_str()) {
            push_section(&mut out, &found[k]);
        }
        assert(out@ =~= CONFIG_HEAD@ + sections(f, order.take(i + 1)));
        i += 1;
    }
    assert(order.take(i as int) =~= order);
    out
}

/// The script that a client executes in place of the server called `name`.
pub open spec fn wrapper_text(name: Seq<char>, exe: Seq<char>) -> Seq<char> {
    "#!/bin/sh\n"@ + WRAPPER_MARK@
        + " Routes this language server through the shared daemon.\n# Remove this file (or run `drey uninstall`) to go back to the\n# real `"@
        + name + "` on PATH.\nexec \""@ + exe + "\" serve \""@ + name + "\" \"$@\"\n"@
}

/// The `sh` wrapper a client actually executes.
pub fn render_wrapper(name: &str, exe: &str) -> (r: String)
    ensures
        r@ == wrapper_text(name@, exe@),
{
    let mut r = "#!/bin/sh\n".to_owned();
    r.append(WRAPPER_MARK);
    r.append(
        " Routes this language server through the shared daemon.\n# Remove this file (or run `drey uninstall`) to go back to the\n# real `",
    );
    r.append(name);
    r.append("` on PATH.\nexec \"");
    r.append(exe);
    r.append("\" serve \"");
    r.append(name);
    r.append("\" \"$@\"\n");
    r
}

/// Whether a file is a wrapper, going by its text if it could be read.
pub fn is_drey_wrapper(text: Option<&str>) -> (r: bool)
    ensures
        r == (text is Some && has_part(text->0@, WRAPPER_MARK@)),
{
    match text {
        Some(t) => contains(t, WRAPPER_MARK),
        None => false,
    }
}

/// Whether a wrapper may be written where there is a file already, if there is one. A file we
/// did not write is somebody else's; replacing it silently would remove a real binary from
/// their PATH.
pub fn may_write_wrapper(force: bool, present: bool, text: Option<&str>) -> (r: bool)
    ensures
        r == (force || !present || (text is Some && has_part(text->0@, WRAPPER_MARK@))),
{
    force || !present || is_drey_wrapper(text)
}

/// A file and its text, if it could be read.
pub struct File {
    pub path: String,
    pub text: Option<String>,
}

/// Carries drey's marker.
pub open spec fn is_ours(f: File) -> bool {
    f.text is Some && has_part(f.text->0@, WRAPPER_MARK@)
}

/// The paths of the files that carry drey's marker.
pub open spec fn our_paths(files: Seq<File>) -> Set<Seq<char>> {
    Set::new(
        |path: Seq<char>| exists|i: int|
            0 <= i < files.len() && is_ours(#[trigger] files[i]) && files[i].path@ == path,
    )
}

/// The wrappers among the files of a directory, in order: only files carrying the marker
/// count.
pub fn drey_wrappers(files: &Vec<File>) -> (r: Vec<String>)
    ensures
        views(r@) == sorted_list(our_paths(files@)),
{
    let mut out: Vec<String> = Vec::new();
    let mut i: usize = 0;
    while i < files.len()
        invariant
            i <= files@.len(),
            forall|path: Seq<char>| #[trigger]
                views(out@).contains(path) <==> exists|k: int|
                    0 <= k < i && is_ours(#[trigger] files@[k]) && files@[k].path@ == path,
        decreases files@.len() - i,
    {
        let ours = match &files[i].text {
            Some(t) => contains(t.as_str(), WRAPPER_MARK),
            None => false,
        };
        let ghost held = views(out@);
        if ours {
            out.push(files[i].path.clone());
            proof {
                let now = views(out@);
                let new = files@[i as int].path@;
                assert(now =~= held.push(new));
                assert forall|path: Seq<char>| #[trigger] now.contains(path) <==> exists|k: int|
                    0 <= k < i + 1 && is_ours(#[trigger] files@[k]) && files@[k].path@ == path by {
                    assert(now.contains(path) <==> held.contains(path) || path == new) by {
                        if now.contains(path) {
                            let j = choose|j: int| 0 <= j < now.len() && now[j] == path;
                            if j < held.len() {
                                assert(held[j] == path);
                            }
                        }
                        if held.contains(path) {
                            let j = choose|j: int| 0 <= j < held.len() && held[j] == path;
                            assert(now[j] == path);
                        }
                        assert(now[now.len() - 1] == new);
                    }
                    if path == new {
                        assert(is_ours(files@[i as int]));
                    }
                }
            }
        }
        i += 1;
    }
    proof {
        assert(views(out@).to_set() =~= our_paths(files@));
    }
    sort_unique(&out)
}

/// The name of a file's backup.
pub fn backup_path(path: &str, stamp: &str) -> (r: String)
    ensures
        r@ == path@ + ".backup-"@ + stamp@,
{
    let mut r = path.to_owned();
    r.append(".backup-");
    r.append(stamp);
    r
}

// ---- laws ---------------------------------------------------------------

/// What is found on the search path is executable, does not come from inside the directory
/// that is skipped, where our own wrappers live, and nothing that comes earlier on the search
/// path would have done.
pub proof fn lemma_first_hit(
    binary: Seq<char>,
    entries: Seq<Seq<char>>,
    skip_dir: Seq<char>,
    executable: Set<Seq<char>>,
)
    ensures
        match first_hit(binary, entries, skip_dir, executable) {
            Some(hit) => executable.contains(hit) && exists|i: int|
                0 <= i < entries.len() && !lies_in(entries[i], skip_dir) && hit == joined_path(
                    #[trigger] entries[i],
                    binary,
                ) && forall|k: int|
                    0 <= k < i ==> lies_in(#[trigger] entries[k], skip_dir) || !executable.contains(
                        joined_path(entries[k], binary),
                    ),
            None => forall|i: int|
                0 <= i < entries.len() ==> lies_in(#[trigger] entries[i], skip_dir)
                    || !executable.contains(joined_path(entries[i], binary)),
        },
    decreases entries.len(),
{
    if entries.len() > 0 {
        let candidate = joined_path(entries[0], binary);
        if !lies_in(entries[0], skip_dir) && executable.contains(candidate) {
            assert(candidate == joined_path(entries[0], binary));
        } else {
            let rest = entries.skip(1);
            lemma_first_hit(binary, rest, skip_dir, executable);
            match first_hit(binary, rest, skip_dir, executable) {
                Some(hit) => {
                    let j = choose|i: int|
                        0 <= i < rest.len() && !lies_in(rest[i], skip_dir) && hit == joined_path(
                            #[trigger] rest[i],
                            binary,
                        ) && forall|k: int|
                            0 <= k < i ==> lies_in(#[trigger] rest[k], skip_dir)
                                || !executable.contains(joined_path(rest[k], binary));
                    assert(entries[j + 1] == rest[j]);
                    assert forall|k: int| 0 <= k < j + 1 implies lies_in(#[trigger] entries[k], skip_dir)
                        || !executable.contains(joined_path(entries[k], binary)) by {
                        if k > 0 {
                            assert(entries[k] == rest[k - 1]);
                        }
                    }
                },
                None => {
                    assert forall|i: int| 0 <= i < entries.len() implies lies_in(#[trigger] entries[i], skip_dir) || !executable.contains(joined_path(entries[i], binary)) by {
                        if i > 0 {
                            assert(entries[i] == rest[i - 1]);
                        }
                    }
                },
            }
        }
    }
}

/// Every wrapper that is written counts as one.
pub proof fn lemma_wrappers_carry_the_mark(name: Seq<char>, exe: Seq<char>)
    ensures
        has_part(wrapper_text(name, exe), WRAPPER_MARK@),
{
    let text = wrapper_text(name, exe);
    reveal_strlit("#!/bin/sh\n");
    assert(text.skip(10).take(WRAPPER_MARK@.len() as int) =~= WRAPPER_MARK@);
    assert(crate::strings::begins_with(text.skip(10), WRAPPER_MARK@));
}

/// The line by which a wrapper hands over.
pub open spec fn exec_line(name: Seq<char>, exe: Seq<char>) -> Seq<char> {
    "exec \""@ + exe + "\" serve \""@ + name + "\" \"$@\""@
}

/// A wrapper is a shell script that does one thing, on its last line: it replaces itself by
/// the binary that it was given, asked to serve the server that it is named after, with all
/// of its own arguments. Every line before is a comment, the first one naming the shell. This
/// holds of names and paths without line ends.
pub proof fn lemma_wrappers_hand_over(name: Seq<char>, exe: Seq<char>)
    requires
        !name.contains('\n'),
        !exe.contains('\n'),
    ensures
        ({
            let text = wrapper_text(name, exe);
            let l = lines(text);
            &&& l.len() > 1
            &&& l[0] == "#!/bin/sh"@
            &&& l.last() == "exec \""@ + exe + "\" serve \""@ + name + "\" \"$@\""@
            &&& forall|i: int|
                0 <= i < l.len() - 1 ==> (#[trigger] l[i]).len() > 0 && l[i][0] == '#'
            &&& text.last() == '\n'
        }),
{
    let text = wrapper_text(name, exe);
    let one = "#!/bin/sh"@;
    let two = WRAPPER_MARK@ + " Routes this language server through the shared daemon."@;
    let three = "# Remove this file (or run `drey uninstall`) to go back to the"@;
    let four = "# real `"@ + name + "` on PATH."@;
    let five = exec_line(name, exe);
    let blank = Seq::<char>::empty();
    lemma_wrapper_pieces(name, exe);
    let parts = seq![one, two, three, four, five, blank];
    assert(free_of(parts, '\n')) by {
        lemma_wrapper_lines(name, exe);
    }
    lemma_join_split(parts, '\n');
    lemma_wrapper_lines(name, exe);
    let p = pieces(text, '\n');
    assert(p == parts);
    let l = lines(text);
    assert(l =~= seq![one, two, three, four, five]);
}

/// None of a wrapper's lines holds a line end, and all but the last are comments.
proof fn lemma_wrapper_lines(name: Seq<char>, exe: Seq<char>)
    requires
        !name.contains('\n'),
        !exe.contains('\n'),
    ensures
        ({
            let one = "#!/bin/sh"@;
            let two = WRAPPER_MARK@ + " Routes this language server through the shared daemon."@;
            let three = "# Remove this file (or run `drey uninstall`) to go back to the"@;
            let four = "# real `"@ + name + "` on PATH."@;
            let five = exec_line(name, exe);
            &&& !one.contains('\n') && one[0] == '#' && one.last() != '\r'
            &&& !two.contains('\n') && two[0] == '#' && two.last() != '\r'
            &&& !three.contains('\n') && three[0] == '#' && three.last() != '\r'
            &&& !four.contains('\n') && four[0] == '#' && four.last() != '\r'
            &&& !five.contains('\n') && five.len() > 0 && five.last() != '\r'
            &&& one.len() > 0 && two.len() > 0 && three.len() > 0 && four.len() > 0
        }),
{
    reveal_strlit("#!/bin/sh");
    reveal_strlit("# Installed by drey.");
    reveal_strlit(" Routes this language server through the shared daemon.");
    reveal_strlit("# Remove this file (or run `drey uninstall`) to go back to the");
    reveal_strlit("# real `");
    reveal_strlit("` on PATH.");
    reveal_strlit("exec \"");
    reveal_strlit("\" serve \"");
    reveal_strlit("\" \"$@\"");
    let four = "# real `"@ + name + "` on PATH."@;
    assert forall|i: int| 0 <= i < four.len() implies four[i] != '\n' by {
        if 8 <= i < 8 + name.len() {
            assert(name.contains(name[i - 8]));
        }
    }
    let five = exec_line(name, exe);
    assert forall|i: int| 0 <= i < five.len() implies five[i] != '\n' by {
        let a = 6 + exe.len();
        if 6 <= i < a {
            assert(exe.contains(exe[i - 6]));
        } else if a + 9 <= i < a + 9 + name.len() {
            assert(name.contains(name[i - a - 9]));
        }
    }
}

/// A wrapper is its lines, each with its end.
proof fn lemma_wrapper_pieces(name: Seq<char>, exe: Seq<char>)
    ensures
        wrapper_text(name, exe) == joined(
            seq![
                "#!/bin/sh"@,
                WRAPPER_MARK@ + " Routes this language server through the shared daemon."@,
                "# Remove this file (or run `drey uninstall`) to go back to the"@,
                "# real `"@ + name + "` on PATH."@,
                exec_line(name, exe),
                Seq::empty(),
            ],
            seq!['\n'],
        ),
        wrapper_text(name, exe).last() == '\n',
{
    reveal_strlit("#!/bin/sh\n");
    reveal_strlit("#!/bin/sh");
    reveal_strlit(" Routes this language server through the shared daemon.");
    reveal_strlit("# Remove this file (or run `drey uninstall`) to go back to the");
    reveal_strlit("# real `");
    reveal_strlit(
        " Routes this language server through the shared daemon.\n# Remove this file (or run `drey uninstall`) to go back to the\n# real `",
    );
    reveal_strlit("` on PATH.");
    reveal_strlit("` on PATH.\nexec \"");
    reveal_strlit("exec \"");
    reveal_strlit("\" \"$@\"\n");
    reveal_strlit("\" \"$@\"");
    let feed = seq!['\n'];
    assert("#!/bin/sh\n"@ =~= "#!/bin/sh"@ + feed);
    let long =
        " Routes this language server through the shared daemon.\n# Remove this file (or run `drey uninstall`) to go back to the\n# real `"@;
    assert(long =~= " Routes this language server through the shared daemon."@ + feed
        + "# Remove this file (or run `drey uninstall`) to go back to the"@ + feed + "# real `"@);
    assert("` on PATH.\nexec \""@ =~= "` on PATH."@ + feed + "exec \""@);
    assert("\" \"$@\"\n"@ =~= "\" \"$@\""@ + feed);
    let one = "#!/bin/sh"@;
    let two = WRAPPER_MARK@ + " Routes this language server through the shared daemon."@;
    let three = "# Remove this file (or run `drey uninstall`) to go back to the"@;
    let four = "# real `"@ + name + "` on PATH."@;
    let five = exec_line(name, exe);
    let blank = Seq::<char>::empty();
    let parts = seq![one, two, three, four, five, blank];
    lemma_joined_six(one, two, three, four, five, feed);
    assert(wrapper_text(name, exe) =~= one + feed + two + feed + three + feed + four + feed + five
        + feed);
}

proof fn lemma_joined_six(
    a: Seq<char>,
    b: Seq<char>,
    c: Seq<char>,
    d: Seq<char>,
    e: Seq<char>,
    sep: Seq<char>,
)
    ensures
        joined(seq![a, b, c, d, e, Seq::empty()], sep) == a + sep + b + sep + c + sep + d + sep + e
            + sep,
{
    let blank = Seq::<char>::empty();
    let p6 = seq![a, b, c, d, e, blank];
    let p5 = seq![a, b, c, d, e];
    let p4 = seq![a, b, c, d];
    let p3 = seq![a, b, c];
    let p2 = seq![a, b];
    assert(p6.drop_last() =~= p5);
    assert(p5.drop_last() =~= p4);
    assert(p4.drop_last() =~= p3);
    assert(p3.drop_last() =~= p2);
    assert(p2.drop_last() =~= seq![a]);
    reveal_with_fuel(joined, 7);
    assert(joined(p6, sep) =~= a + sep + b + sep + c + sep + d + sep + e + sep);
}

proof fn lemma_last_named(found: Seq<FoundView>, name: Seq<char>, i: int)
    requires
        0 <= i < found.len(),
        found[i].name == name,
        forall|a: int, b: int|
            0 <= a < b < found.len() ==> (#[trigger] found[a]).name != (#[trigger] found[b]).name,
    ensures
        last_named(found, name) == Some(found[i]),
    decreases found.len(),
{
    if i < found.len() - 1 {
        let rest = found.drop_last();
        assert(found[i].name != found[found.len() - 1].name);
        assert(rest[i] == found[i]);
        assert forall|a: int, b: int| 0 <= a < b < rest.len() implies (#[trigger] rest[a]).name != (
        #[trigger] rest[b]).name by {
            assert(found[a].name != found[b].name);
        }
        lemma_last_named(rest, name, i);
    }
}

proof fn lemma_sections_agree(a: Seq<FoundView>, b: Seq<FoundView>, order: Seq<Seq<char>>)
    requires
        forall|i: int|
            0 <= i < order.len() ==> last_named(a, #[trigger] order[i]) == last_named(b, order[i]),
    ensures
        sections(a, order) == sections(b, order),
    decreases order.len(),
{
    if order.len() > 0 {
        let rest = order.drop_last();
        assert(order[order.len() - 1] == order.last());
        assert forall|i: int| 0 <= i < rest.len() implies last_named(a, #[trigger] rest[i])
            == last_named(b, rest[i]) by {
            assert(rest[i] == order[i]);
        }
        lemma_sections_agree(a, b, rest);
    }
}

/// The config file does not depend on the order in which the servers were found.
pub proof fn lemma_config_order_is_irrelevant(a: Seq<FoundView>, b: Seq<FoundView>)
    requires
        a.to_set() == b.to_set(),
        forall|i: int, j: int|
            0 <= i < j < a.len() ==> (#[trigger] a[i]).name != (#[trigger] a[j]).name,
        forall|i: int, j: int|
            0 <= i < j < b.len() ==> (#[trigger] b[i]).name != (#[trigger] b[j]).name,
    ensures
        config_text(a) == config_text(b),
{
    assert forall|name: Seq<char>| #[trigger] names(a).to_set().contains(name) implies names(
        b,
    ).to_set().contains(name) && last_named(a, name) == last_named(b, name) by {
        let i = choose|i: int| 0 <= i < names(a).len() && names(a)[i] == name;
        assert(a.to_set().contains(a[i]));
        assert(b.contains(a[i]));
        let j = choose|j: int| 0 <= j < b.len() && b[j] == a[i];
        assert(names(b)[j] == name);
        lemma_last_named(a, name, i);
        lemma_last_named(b, name, j);
    }
    assert forall|name: Seq<char>| #[trigger] names(b).to_set().contains(name) implies names(
        a,
    ).to_set().contains(name) by {
        let j = choose|j: int| 0 <= j < names(b).len() && names(b)[j] == name;
        assert(b.to_set().contains(b[j]));
        assert(a.contains(b[j]));
        let i = choose|i: int| 0 <= i < a.len() && a[i] == b[j];
        assert(names(a)[i] == name);
    }
    assert(names(a).to_set() =~= names(b).to_set());
    let order = sorted_list(names(a).to_set());
    lemma_sorted_names(a);
    assert forall|i: int| 0 <= i < order.len() implies last_named(a, #[trigger] order[i])
        == last_named(b, order[i]) by {
        assert(order.to_set().contains(order[i]));
    }
    lemma_sections_agree(a, b, order);
}

/// The names in order are the names.
proof fn lemma_sorted_names(found: Seq<FoundView>)
    ensures
        sorted_list(names(found).to_set()).to_set() == names(found).to_set(),
{
    crate::strings::lemma_sorted_list_exists(names(found));
}

/// Every known server has markers, and a name that can be a file's.
pub proof fn lemma_known_servers()
    ensures
        forall|i: int|
            0 <= i < known().len() ==> (#[trigger] known()[i]).root_markers.len() > 0
                && !known()[i].name.contains('/') && known()[i].name.len() > 0,
{
    reveal_strlit("rust-analyzer");
    reveal_strlit("gopls");
    reveal_strlit("typescript-language-server");
    reveal_strlit("pyright-langserver");
    reveal_strlit("ruff");
    reveal_strlit("clangd");
    reveal_strlit("lua-language-server");
    reveal_strlit("jdtls");
    reveal_strlit("ruby-lsp");
    reveal_strlit("intelephense");
    reveal_strlit("kotlin-lsp");
    reveal_strlit("sourcekit-lsp");
    reveal_strlit("zls");
    reveal_strlit("solargraph");
    reveal_strlit("omnisharp");
}

/// Where the search path and what asdf answers are absolute, the config points at absolute
/// paths only.
pub proof fn lemma_commands_are_absolute(
    k: Seq<KnownView>,
    entries: Seq<Seq<char>>,
    bin_dir: Seq<char>,
    executable: Set<Seq<char>>,
    asdf: Seq<(Seq<char>, Seq<char>)>,
)
    requires
        forall|i: int| 0 <= i < entries.len() ==> absolute(#[trigger] entries[i]),
        forall|i: int| 0 <= i < asdf.len() ==> absolute((#[trigger] asdf[i]).1),
    ensures
        forall|i: int|
            0 <= i < discovered(k, entries, bin_dir, executable, asdf).len() ==> absolute(
                (#[trigger] discovered(k, entries, bin_dir, executable, asdf)[i]).command,
            ),
    decreases k.len(),
{
    if k.len() > 0 {
        lemma_commands_are_absolute(k.drop_last(), entries, bin_dir, executable, asdf);
        let binary = k.last().binary;
        lemma_first_hit(binary, entries, bin_dir, executable);
        if first_hit(binary, entries, bin_dir, executable) is Some {
            let hit = first_hit(binary, entries, bin_dir, executable)->0;
            let j = choose|i: int|
                0 <= i < entries.len() && !lies_in(entries[i], bin_dir) && hit == joined_path(
                    #[trigger] entries[i],
                    binary,
                ) && forall|q: int|
                    0 <= q < i ==> lies_in(#[trigger] entries[q], bin_dir) || !executable.contains(
                        joined_path(entries[q], binary),
                    );
            assert(absolute(entries[j]));
            assert(absolute(hit));
            lemma_place(asdf, binary);
            assert(absolute(real_path(hit, lookup(asdf, binary))));
        }
        let before = discovered(k.drop_last(), entries, bin_dir, executable, asdf);
        let all = discovered(k, entries, bin_dir, executable, asdf);
        assert forall|i: int| 0 <= i < all.len() implies absolute((#[trigger] all[i]).command) by {
            if i < before.len() {
                assert(all[i] == before[i]);
            }
        }
    }
}

/// The known servers are looked for one by one, in order. A server is found where its binary
/// is on the search path, and only there, under its own name and with its own markers; the
/// command is the binary that stands there, unless that is a shim of asdf's and asdf says
/// which binary it stands for.
pub proof fn lemma_discovery(
    server: KnownView,
    first: Seq<KnownView>,
    second: Seq<KnownView>,
    entries: Seq<Seq<char>>,
    bin_dir: Seq<char>,
    executable: Set<Seq<char>>,
    asdf: Seq<(Seq<char>, Seq<char>)>,
)
    ensures
        discovered(first + second, entries, bin_dir, executable, asdf) == discovered(
            first,
            entries,
            bin_dir,
            executable,
            asdf,
        ) + discovered(second, entries, bin_dir, executable, asdf),
        discovered(Seq::empty(), entries, bin_dir, executable, asdf).len() == 0,
        ({
            let found = discovered(seq![server], entries, bin_dir, executable, asdf);
            let answer = lookup(asdf, server.binary);
            match first_hit(server.binary, entries, bin_dir, executable) {
                None => found.len() == 0,
                Some(hit) => {
                    &&& found.len() == 1
                    &&& found[0].name == server.name
                    &&& found[0].root_markers == server.root_markers
                    &&& found[0].command == if has_part(hit, "/.asdf/shims/"@) && answer is Some {
                        answer->0
                    } else {
                        hit
                    }
                },
            }
        }),
    decreases second.len(),
{
    let one = seq![server];
    assert(one.drop_last() =~= Seq::empty());
    assert(one.last() == server);
    reveal_with_fuel(discovered, 2);
    let a = discovered(first, entries, bin_dir, executable, asdf);
    let b = discovered(second, entries, bin_dir, executable, asdf);
    let all = discovered(first + second, entries, bin_dir, executable, asdf);
    if second.len() == 0 {
        assert(first + second =~= first);
        assert(a + b =~= a);
    } else {
        assert((first + second).drop_last() =~= first + second.drop_last());
        assert((first + second).last() == second.last());
        lemma_discovery(
            server,
            first,
            second.drop_last(),
            entries,
            bin_dir,
            executable,
            asdf,
        );
        assert(all =~= a + b);
    }
}

/// Where asdf succeeded and answered more than white space, the answer without the white
/// space around it is the path; otherwise there is none.
pub proof fn lemma_asdf_answers(before: Seq<char>, path: Seq<char>, after: Seq<char>)
    requires
        path.len() > 0,
        !is_space(path[0]),
        !is_space(path.last()),
        forall|i: int| 0 <= i < before.len() ==> is_space(#[trigger] before[i]),
        forall|i: int| 0 <= i < after.len() ==> is_space(#[trigger] after[i]),
    ensures
        asdf_path(true, before + path + after) == Some(path),
        asdf_path(false, before + path + after) is None,
        asdf_path(true, before) is None,
{
    lemma_trimmed(before, path, after);
    lemma_trimmed(before, Seq::empty(), Seq::empty());
    assert(before + Seq::<char>::empty() + Seq::<char>::empty() =~= before);
}

/// A binary that runs under any name but drey's own from the wrapper directory, however that
/// is written, is taken for a wrapper; drey itself may stand there, and whatever runs from
/// another directory may, too.
pub proof fn lemma_which_binaries_are_refused(
    dir: Seq<char>,
    name: Seq<char>,
    bin_dir: Seq<char>,
)
    requires
        dir.len() > 0,
        name.len() > 0,
        !name.contains('/'),
        name != seq!['.'],
    ensures
        runs_as_wrapper(joined_path(dir, name), bin_dir) <==> components(dir) == components(bin_dir)
            && name != "drey"@,
{
    let exe = joined_path(dir, name);
    lemma_join_components(dir, name);
    lemma_parent(exe);
    lemma_has_components(dir);
    assert(components(dir).push(name).drop_last() =~= components(dir));
}

/// The config holds, for every server that was found under a name of its own, a section with
/// the server's name, its command between quotes, and its markers in order, if it has any.
pub proof fn lemma_config_names_every_server(found: Seq<FoundView>, i: int)
    requires
        0 <= i < found.len(),
        forall|j: int| 0 <= j < found.len() && j != i ==> (#[trigger] found[j]).name != found[i].name,
    ensures
        ({
            let f = found[i];
            let list = Seq::new(f.root_markers.len(), |k: int| "\""@ + f.root_markers[k] + "\""@);
            let markers = if f.root_markers.len() > 0 {
                "root_markers = ["@ + joined(list, ", "@) + "]\n"@
            } else {
                Seq::empty()
            };
            has_part(
                config_text(found),
                "[server."@ + f.name + "]\n"@ + "command = \""@ + f.command + "\"\n"@ + markers
                    + "\n"@,
            )
        }),
        has_part(config_text(found), "[daemon]\nidle_timeout_secs = 1800\n"@),
{
    let f = found[i];
    let names_list = names(found);
    let order = sorted_list(names_list.to_set());
    lemma_sorted_list_exists(names_list);
    assert(names_list[i] == f.name);
    assert(names_list.to_set().contains(f.name));
    assert(order.to_set().contains(f.name));
    let k = choose|k: int| 0 <= k < order.len() && order[k] == f.name;
    lemma_last_is(found, i);
    lemma_sections_hold(found, order, k);
    let body = sections(found, order);
    let list = Seq::new(f.root_markers.len(), |k: int| "\""@ + f.root_markers[k] + "\""@);
    assert(quoted(f.root_markers) =~= list);
    let text = config_text(found);
    let part = section(f);
    let at = choose|at: int| 0 <= at <= body.len() && #[trigger] begins_with(body.skip(at), part);
    let n = CONFIG_HEAD@.len() as int;
    assert(text.skip(n + at) =~= body.skip(at));
    assert(begins_with(text.skip(n + at), part));
    lemma_config_head();
    let small = "[daemon]\nidle_timeout_secs = 1800\n"@;
    let m = choose|m: int|
        0 <= m <= CONFIG_HEAD@.len() && #[trigger] begins_with(CONFIG_HEAD@.skip(m), small);
    assert(text.skip(m).take(small.len() as int) =~= CONFIG_HEAD@.skip(m).take(small.len() as int));
    assert(begins_with(text.skip(m), small));
}

proof fn lemma_config_head()
    ensures
        has_part(CONFIG_HEAD@, "[daemon]\nidle_timeout_secs = 1800\n"@),
{
    reveal_strlit(
        "# Generated by `drey install`.\n# Commands are ABSOLUTE paths to the real servers, so the PATH wrappers\n# in ~/.drey/bin can never cause drey to re-enter itself.\n\n[daemon]\nidle_timeout_secs = 1800\n\n",
    );
    reveal_strlit("[daemon]\nidle_timeout_secs = 1800\n");
    let small = "[daemon]\nidle_timeout_secs = 1800\n"@;
    let n = (CONFIG_HEAD@.len() - small.len() - 1) as int;
    assert(CONFIG_HEAD@.skip(n).take(small.len() as int) =~= small);
    assert(begins_with(CONFIG_HEAD@.skip(n), small));
}

proof fn lemma_last_is(found: Seq<FoundView>, i: int)
    requires
        0 <= i < found.len(),
        forall|j: int| 0 <= j < found.len() && j != i ==> (#[trigger] found[j]).name != found[i].name,
    ensures
        last_named(found, found[i].name) == Some(found[i]),
    decreases found.len(),
{
    if i < found.len() - 1 {
        let rest = found.drop_last();
        assert(found[found.len() - 1].name != found[i].name);
        assert forall|j: int| 0 <= j < rest.len() && j != i implies (#[trigger] rest[j]).name
            != rest[i].name by {
            assert(found[j].name != found[i].name);
        }
        lemma_last_is(rest, i);
    }
}

proof fn lemma_sections_hold(found: Seq<FoundView>, order: Seq<Seq<char>>, k: int)
    requires
        0 <= k < order.len(),
        last_named(found, order[k]) is Some,
    ensures
        has_part(sections(found, order), section(last_named(found, order[k])->0)),
    decreases order.len(),
{
    let part = section(last_named(found, order[k])->0);
    let before = sections(found, order.drop_last());
    let all = sections(found, order);
    if k == order.len() - 1 {
        let n = before.len() as int;
        assert(all.skip(n) =~= part);
        assert(part.take(part.len() as int) =~= part);
        assert(begins_with(all.skip(n), part));
    } else {
        lemma_sections_hold(found, order.drop_last(), k);
        let at = choose|at: int|
            0 <= at <= before.len() && #[trigger] begins_with(before.skip(at), part);
        assert(all.skip(at).take(part.len() as int) =~= before.skip(at).take(part.len() as int));
        assert(begins_with(all.skip(at), part));
    }
}

/// The wrappers go below the home directory, where the block in the startup files says.
pub proof fn lemma_where_wrappers_go(home: Seq<char>)
    requires
        home.len() > 0,
        home.last() != '/',
    ensures
        wrapper_place(Some(home)) == home + "/.drey/bin"@,
{
    reveal_strlit(".drey/bin");
    reveal_strlit("/.drey/bin");
    assert(home.push('/') + ".drey/bin"@ =~= home + "/.drey/bin"@);
}

/// The places where a binary is looked for are those in the entries of the search path, one by
/// one and in order, but for the entries inside the directory that is skipped; and what is
/// found stands in one of them.
pub proof fn lemma_where_binaries_are_looked_for(
    binary: Seq<char>,
    entry: Seq<char>,
    first: Seq<Seq<char>>,
    second: Seq<Seq<char>>,
    skip_dir: Seq<char>,
    executable: Set<Seq<char>>,
)
    ensures
        possible_places(binary, Seq::empty(), skip_dir).len() == 0,
        possible_places(binary, seq![entry], skip_dir) == (if lies_in(entry, skip_dir) {
            Seq::empty()
        } else {
            seq![joined_path(entry, binary)]
        }),
        possible_places(binary, first + second, skip_dir) == possible_places(
            binary,
            first,
            skip_dir,
        ) + possible_places(binary, second, skip_dir),
        first_hit(binary, second, skip_dir, executable) is Some ==> possible_places(
            binary,
            second,
            skip_dir,
        ).contains(first_hit(binary, second, skip_dir, executable)->0),
    decreases second.len(),
{
    let one = seq![entry];
    assert(one.drop_last() =~= Seq::empty());
    assert(one.last() == entry);
    reveal_with_fuel(possible_places, 2);
    assert(possible_places(binary, one, skip_dir) =~= if lies_in(entry, skip_dir) {
        Seq::empty()
    } else {
        seq![joined_path(entry, binary)]
    });
    let a = possible_places(binary, first, skip_dir);
    let b = possible_places(binary, second, skip_dir);
    if second.len() == 0 {
        assert(first + second =~= first);
        assert(a + b =~= a);
    } else {
        let rest = second.drop_last();
        assert((first + second).drop_last() =~= first + rest);
        assert((first + second).last() == second.last());
        lemma_where_binaries_are_looked_for(binary, entry, first, rest, skip_dir, executable);
        assert(possible_places(binary, first + second, skip_dir) =~= a + b);
    }
    if first_hit(binary, second, skip_dir, executable) is Some {
        let hit = first_hit(binary, second, skip_dir, executable)->0;
        lemma_first_hit(binary, second, skip_dir, executable);
        let i = choose|i: int|
            0 <= i < second.len() && !lies_in(second[i], skip_dir) && hit == joined_path(
                #[trigger] second[i],
                binary,
            ) && forall|k: int|
                0 <= k < i ==> lies_in(#[trigger] second[k], skip_dir) || !executable.contains(
                    joined_path(second[k], binary),
                );
        lemma_place_is_possible(binary, second, skip_dir, i);
    }
}

proof fn lemma_place_is_possible(
    binary: Seq<char>,
    entries: Seq<Seq<char>>,
    skip_dir: Seq<char>,
    i: int,
)
    requires
        0 <= i < entries.len(),
        !lies_in(entries[i], skip_dir),
    ensures
        possible_places(binary, entries, skip_dir).contains(joined_path(entries[i], binary)),
    decreases entries.len(),
{
    let all = possible_places(binary, entries, skip_dir);
    let path = joined_path(entries[i], binary);
    if i == entries.len() - 1 {
        assert(all[all.len() - 1] == path);
    } else {
        let rest = entries.drop_last();
        let before = possible_places(binary, rest, skip_dir);
        lemma_place_is_possible(binary, rest, skip_dir, i);
        let k = choose|k: int| 0 <= k < before.len() && before[k] == path;
        assert(all[k] == path);
    }
}

/// Sections are written one by one, in the order in which their servers' names stand in a
/// dictionary: of two servers the one whose name comes first comes first.
pub proof fn lemma_config_is_in_order(found: Seq<FoundView>, i: int, j: int)
    requires
        0 <= i < found.len(),
        0 <= j < found.len(),
        text_lt(found[i].name, found[j].name),
        forall|k: int|
            0 <= k < found.len() && k != i ==> (#[trigger] found[k]).name != found[i].name,
        forall|k: int|
            0 <= k < found.len() && k != j ==> (#[trigger] found[k]).name != found[j].name,
    ensures
        exists|x: int, y: int|
            0 <= x && x + section(found[i]).len() <= y && y + section(found[j]).len()
                <= config_text(found).len() && #[trigger] config_text(found).subrange(
                x,
                x + section(found[i]).len(),
            ) == section(found[i]) && #[trigger] config_text(found).subrange(
                y,
                y + section(found[j]).len(),
            ) == section(found[j]),
{
    let list = names(found);
    let order = sorted_list(list.to_set());
    lemma_sorted_list_exists(list);
    assert(list[i] == found[i].name && list[j] == found[j].name);
    assert(list.to_set().contains(found[i].name) && list.to_set().contains(found[j].name));
    assert(order.to_set().contains(found[i].name) && order.to_set().contains(found[j].name));
    let p = choose|p: int| 0 <= p < order.len() && order[p] == found[i].name;
    let q = choose|q: int| 0 <= q < order.len() && order[q] == found[j].name;
    lemma_text_order(Seq::empty(), 'a', 'b', found[i].name, found[j].name);
    if q < p {
        assert(text_lt(order[q], order[p]));
    }
    assert(p != q) by {
        lemma_text_order(Seq::empty(), 'a', 'b', found[i].name, found[i].name);
    }
    lemma_last_is(found, i);
    lemma_last_is(found, j);
    let n = CONFIG_HEAD@.len() as int;
    let text = config_text(found);
    let body = sections(found, order);
    let a = sections(found, order.take(p));
    let b = sections(found, order.take(q));
    lemma_sections_stand(found, order, p);
    lemma_sections_stand(found, order, q);
    assert(order.take(q).take(p) =~= order.take(p));
    lemma_sections_stand(found, order.take(q), p);
    let x = n + a.len();
    let y = n + b.len();
    assert(text.subrange(x, x + section(found[i]).len()) =~= body.subrange(
        a.len() as int,
        (a.len() + section(found[i]).len()) as int,
    ));
    assert(text.subrange(y, y + section(found[j]).len()) =~= body.subrange(
        b.len() as int,
        (b.len() + section(found[j]).len()) as int,
    ));
}

proof fn lemma_sections_stand(found: Seq<FoundView>, order: Seq<Seq<char>>, k: int)
    requires
        0 <= k < order.len(),
        last_named(found, order[k]) is Some,
    ensures
        ({
            let before = sections(found, order.take(k));
            let all = sections(found, order);
            let part = section(last_named(found, order[k])->0);
            &&& before.len() + part.len() <= all.len()
            &&& all.subrange(before.len() as int, (before.len() + part.len()) as int) == part
        }),
    decreases order.len(),
{
    let before = sections(found, order.take(k));
    let all = sections(found, order);
    let part = section(last_named(found, order[k])->0);
    let rest = order.drop_last();
    if k == order.len() - 1 {
        assert(rest =~= order.take(k));
        assert(all.subrange(before.len() as int, (before.len() + part.len()) as int) =~= part);
    } else {
        lemma_sections_stand(found, rest, k);
        assert(rest.take(k) =~= order.take(k));
        assert(all.subrange(before.len() as int, (before.len() + part.len()) as int) =~= sections(
            found,
            rest,
        ).subrange(before.len() as int, (before.len() + part.len()) as int));
    }
}

/// The files that uninstalling takes for drey's own are those whose text holds drey's mark.
pub proof fn lemma_which_files_are_ours(files: Seq<File>, path: Seq<char>)
    ensures
        our_paths(files).contains(path) <==> exists|i: int|
            0 <= i < files.len() && (#[trigger] files[i]).path@ == path && files[i].text is Some
                && has_part(files[i].text->0@, "# Installed by drey."@),
{
    if our_paths(files).contains(path) {
        let i = choose|i: int|
            0 <= i < files.len() && is_ours(#[trigger] files[i]) && files[i].path@ == path;
        assert(files[i].path@ == path && has_part(files[i].text->0@, "# Installed by drey."@));
    }
    if exists|i: int|
        0 <= i < files.len() && (#[trigger] files[i]).path@ == path && files[i].text is Some
            && has_part(files[i].text->0@, "# Installed by drey."@) {
        let i = choose|i: int|
            0 <= i < files.len() && (#[trigger] files[i]).path@ == path && files[i].text is Some
                && has_part(files[i].text->0@, "# Installed by drey."@);
        assert(is_ours(files[i]));
    }
}

/// The fifteen servers that are looked for, in this order, each under the name of its binary
/// in small letters.
pub proof fn lemma_known_names()
    ensures
        known().len() == 15,
        names_of(known()) == seq![
            "rust-analyzer"@,
            "gopls"@,
            "typescript-language-server"@,
            "pyright-langserver"@,
            "ruff"@,
            "clangd"@,
            "lua-language-server"@,
            "jdtls"@,
            "ruby-lsp"@,
            "intelephense"@,
            "kotlin-lsp"@,
            "sourcekit-lsp"@,
            "zls"@,
            "solargraph"@,
            "omnisharp"@,
        ],
        binaries_of(known()) == seq![
            "rust-analyzer"@,
            "gopls"@,
            "typescript-language-server"@,
            "pyright-langserver"@,
            "ruff"@,
            "clangd"@,
            "lua-language-server"@,
            "jdtls"@,
            "ruby-lsp"@,
            "intelephense"@,
            "kotlin-lsp"@,
            "sourcekit-lsp"@,
            "zls"@,
            "solargraph"@,
            "OmniSharp"@,
        ],
{
    assert(names_of(known()) =~= seq![
        "rust-analyzer"@,
        "gopls"@,
        "typescript-language-server"@,
        "pyright-langserver"@,
        "ruff"@,
        "clangd"@,
        "lua-language-server"@,
        "jdtls"@,
        "ruby-lsp"@,
        "intelephense"@,
        "kotlin-lsp"@,
        "sourcekit-lsp"@,
        "zls"@,
        "solargraph"@,
        "omnisharp"@,
    ]);
    assert(binaries_of(known()) =~= seq![
        "rust-analyzer"@,
        "gopls"@,
        "typescript-language-server"@,
        "pyright-langserver"@,
        "ruff"@,
        "clangd"@,
        "lua-language-server"@,
        "jdtls"@,
        "ruby-lsp"@,
        "intelephense"@,
        "kotlin-lsp"@,
        "sourcekit-lsp"@,
        "zls"@,
        "solargraph"@,
        "OmniSharp"@,
    ]);
}

/// The names of known servers.
pub open spec fn names_of(list: Seq<KnownView>) -> Seq<Seq<char>> {
    Seq::new(list.len(), |i: int| list[i].name)
}

/// The binaries of known servers.
pub open spec fn binaries_of(list: Seq<KnownView>) -> Seq<Seq<char>> {
    Seq::new(list.len(), |i: int| list[i].binary)
}

} // verus!
