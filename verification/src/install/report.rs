//! What `drey install` and `drey uninstall` do step by step, and what they say about it.

use vstd::prelude::*;
use vstd::string::*;
use crate::install::rc::{
    add_path_block, strip_path_block, with_block, without_block, MARK_BEGIN,
};
use crate::install::{found_views, Found, FoundView};
use crate::strings::{contains, decimal, decimal_text, has_part, lemma_parts, views};

verus! {

/// One thing that was done, or would be.
#[derive(Debug)]
pub enum Step {
    WouldWriteConfig { path: String },
    WouldWriteWrappers { count: usize, dir: String },
    WouldAddPath { rc: String },
    PathPresent { rc: String },
    NothingChanged,
    BackedUpConfig { to: String },
    WroteConfig { path: String },
    SkippedWrapper { path: String },
    WroteWrappers { count: usize, dir: String },
    AddedPath { rc: String },
    WouldRemove { path: String },
    Removed { path: String },
    NoWrappers,
    WouldRemovePath { rc: String },
    RemovedPath { rc: String },
    LeftConfig { path: String },
}

impl Step {
    /// The step in words.
    pub open spec fn words(self) -> Seq<char> {
        match self {
            Step::WouldWriteConfig { path } => "  would write "@ + path@,
            Step::WouldWriteWrappers { count, dir } => "  would write "@ + decimal_text(
                count as nat,
            ) + " wrapper(s) to "@ + dir@,
            Step::WouldAddPath { rc } => "  would add PATH entry to "@ + rc@,
            Step::PathPresent { rc } => "  PATH entry already present in "@ + rc@,
            Step::NothingChanged => "  nothing was changed"@,
            Step::BackedUpConfig { to } => "  backed up existing config to "@ + to@,
            Step::WroteConfig { path } => "  wrote "@ + path@,
            Step::SkippedWrapper { path } => "  skipping "@ + path@
                + " (not a drey wrapper; use --force to replace)"@,
            Step::WroteWrappers { count, dir } => "  wrote "@ + decimal_text(count as nat)
                + " wrapper(s) to "@ + dir@,
            Step::AddedPath { rc } => "  added PATH entry to "@ + rc@,
            Step::WouldRemove { path } => "  would remove "@ + path@,
            Step::Removed { path } => "  removed "@ + path@,
            Step::NoWrappers => "  no wrappers to remove"@,
            Step::WouldRemovePath { rc } => "  would remove PATH entry from "@ + rc@,
            Step::RemovedPath { rc } => "  removed PATH entry from "@ + rc@
                + " (backup alongside it)"@,
            Step::LeftConfig { path } => "  left "@ + path@
                + " in place; delete it yourself if you want it gone"@,
        }
    }

    /// The step in words.
    pub fn message(&self) -> (r: String)
        ensures
            r@ == self.words(),
    {
        match self {
            Step::WouldWriteConfig { path } => sentence("  would write ", path.as_str(), ""),
            Step::WouldWriteWrappers { count, dir } => {
                let mut r = sentence("  would write ", decimal(*count as u64).as_str(), "");
                r.append(" wrapper(s) to ");
                r.append(dir.as_str());
                r
            },
            Step::WouldAddPath { rc } => sentence("  would add PATH entry to ", rc.as_str(), ""),
            Step::PathPresent { rc } => sentence(
                "  PATH entry already present in ",
                rc.as_str(),
                "",
            ),
            Step::NothingChanged => "  nothing was changed".to_owned(),
            Step::BackedUpConfig { to } => sentence(
                "  backed up existing config to ",
                to.as_str(),
                "",
            ),
            Step::WroteConfig { path } => sentence("  wrote ", path.as_str(), ""),
            Step::SkippedWrapper { path } => sentence(
                "  skipping ",
                path.as_str(),
                " (not a drey wrapper; use --force to replace)",
            ),
            Step::WroteWrappers { count, dir } => {
                let mut r = sentence("  wrote ", decimal(*count as u64).as_str(), "");
                r.append(" wrapper(s) to ");
                r.append(dir.as_str());
                r
            },
            Step::AddedPath { rc } => sentence("  added PATH entry to ", rc.as_str(), ""),
            Step::WouldRemove { path } => sentence("  would remove ", path.as_str(), ""),
            Step::Removed { path } => sentence("  removed ", path.as_str(), ""),
            Step::NoWrappers => "  no wrappers to remove".to_owned(),
            Step::WouldRemovePath { rc } => sentence(
                "  would remove PATH entry from ",
                rc.as_str(),
                "",
            ),
            Step::RemovedPath { rc } => sentence(
                "  removed PATH entry from ",
                rc.as_str(),
                " (backup alongside it)",
            ),
            Step::LeftConfig { path } => sentence(
                "  left ",
                path.as_str(),
                " in place; delete it yourself if you want it gone",
            ),
        }
    }
}

/// Three pieces of text, one after the other; an empty last one makes no difference.
fn sentence(a: &str, b: &str, c: &str) -> (r: String)
    ensures
        r@ == a@ + b@ + c@,
        c@.len() == 0 ==> r@ == a@ + b@,
        c@ == ""@ ==> r@ == a@ + b@,
{
    let mut r = a.to_owned();
    r.append(b);
    r.append(c);
    proof {
        reveal_strlit("");
        if c@.len() == 0 {
            assert(a@ + b@ + c@ =~= a@ + b@);
        }
    }
    r
}

// ---- startup files ------------------------------------------------------

/// What is done about a startup file.
#[derive(Debug)]
pub struct RcChange {
    pub step: Step,
    /// What the file is to hold, if it is to change.
    pub text: Option<String>,
}

/// What is done about a startup file when installing.
pub fn install_rc(rc: &str, text: Option<&str>, dry_run: bool) -> (r: RcChange)
    ensures
        ({
            let present = text is Some && has_part(text->0@, MARK_BEGIN@);
            let before = match text {
                Some(t) => t@,
                None => Seq::empty(),
            };
            if present {
                r.step is PathPresent && r.step->PathPresent_rc@ == rc@ && r.text is None
            } else if dry_run {
                r.step is WouldAddPath && r.step->WouldAddPath_rc@ == rc@ && r.text is None
            } else {
                r.step is AddedPath && r.step->AddedPath_rc@ == rc@ && r.text is Some
                    && r.text->0@ == with_block(before)
            }
        }),
{
    match add_path_block(text) {
        None => RcChange { step: Step::PathPresent { rc: rc.to_owned() }, text: None },
        Some(new) => if dry_run {
            RcChange { step: Step::WouldAddPath { rc: rc.to_owned() }, text: None }
        } else {
            RcChange { step: Step::AddedPath { rc: rc.to_owned() }, text: Some(new) }
        },
    }
}

/// What is done about a startup file when uninstalling, if anything.
pub fn uninstall_rc(rc: &str, text: Option<&str>, dry_run: bool) -> (r: Option<RcChange>)
    ensures
        match r {
            None => text is None || !has_part(text->0@, MARK_BEGIN@),
            Some(c) => text is Some && has_part(text->0@, MARK_BEGIN@) && if dry_run {
                c.step is WouldRemovePath && c.step->WouldRemovePath_rc@ == rc@ && c.text is None
            } else {
                c.step is RemovedPath && c.step->RemovedPath_rc@ == rc@ && c.text is Some
                    && c.text->0@ == without_block(text->0@)
            },
        },
{
    let text = match text {
        Some(t) => t,
        None => return None,
    };
    if !contains(text, MARK_BEGIN) {
        return None;
    }
    if dry_run {
        Some(RcChange { step: Step::WouldRemovePath { rc: rc.to_owned() }, text: None })
    } else {
        Some(
            RcChange {
                step: Step::RemovedPath { rc: rc.to_owned() },
                text: Some(strip_path_block(text)),
            },
        )
    }
}

// ---- what is said before and after --------------------------------------

/// The title line.
pub open spec fn title(what: Seq<char>, dry_run: bool) -> Seq<char> {
    if dry_run {
        what + " (dry run)"@
    } else {
        what
    }
}

/// A server that was found.
pub open spec fn found_line(f: FoundView) -> Seq<char> {
    "  found "@ + f.name + " -> "@ + f.command
}

/// The servers that were found.
pub open spec fn found_lines(found: Seq<FoundView>) -> Seq<Seq<char>> {
    if found.len() == 0 {
        seq!["  no language servers found on PATH; nothing to interpose"@]
    } else {
        Seq::new(found.len(), |i: int| found_line(found[i]))
    }
}

/// What is said before anything is installed.
pub open spec fn install_opening(
    dry_run: bool,
    exe: Seq<char>,
    found: Seq<FoundView>,
) -> Seq<Seq<char>> {
    seq![""@, title("drey install"@, dry_run), ""@, "  using binary: "@ + exe, ""@] + found_lines(
        found,
    ) + seq![""@]
}

/// What is said at the end of an installation.
pub open spec fn install_closing(dry_run: bool, bin_dir: Seq<char>) -> Seq<Seq<char>> {
    if dry_run {
        seq![""@, "  nothing was changed"@, ""@]
    } else {
        installed_closing(bin_dir)
    }
}

/// What is said once everything is installed.
pub open spec fn installed_closing(bin_dir: Seq<char>) -> Seq<Seq<char>> {
    seq![
        ""@,
        "Done. Open a new shell, or run:"@,
        "    export PATH=\"$HOME/.drey/bin:$PATH\""@,
        ""@,
        "Check it is working:"@,
        "    which rust-analyzer      # should be "@ + bin_dir + "/rust-analyzer"@,
        "    drey status              # shows shared servers once a client connects"@,
        ""@,
        "To revert everything:"@,
        "    drey uninstall"@,
        ""@,
    ]
}

/// What is said before anything is removed.
pub open spec fn uninstall_opening(dry_run: bool) -> Seq<Seq<char>> {
    seq![""@, title("drey uninstall"@, dry_run), ""@]
}

/// What is said once everything is removed.
pub open spec fn uninstall_closing() -> Seq<Seq<char>> {
    seq![
        ""@,
        "Open a new shell so PATH is rebuilt, then confirm:"@,
        "    which rust-analyzer     # should be the real one again"@,
        ""@,
    ]
}

fn add_line(out: &mut Vec<String>, line: &str)
    ensures
        views(final(out)@) == views(old(out)@).push(line@),
{
    out.push(line.to_owned());
    assert(views(out@) =~= views(old(out)@).push(line@));
}

fn title_line(what: &str, dry_run: bool) -> (r: String)
    ensures
        r@ == title(what@, dry_run),
{
    let mut r = what.to_owned();
    if dry_run {
        r.append(" (dry run)");
    }
    r
}

/// What is said before anything is installed.
pub fn install_intro(dry_run: bool, exe: &str, found: &Vec<Found>) -> (r: Vec<String>)
    ensures
        views(r@) == install_opening(dry_run, exe@, found_views(found@)),
{
    let ghost f = found_views(found@);
    let mut out: Vec<String> = Vec::new();
    add_line(&mut out, "");
    add_line(&mut out, title_line("drey install", dry_run).as_str());
    add_line(&mut out, "");
    add_line(&mut out, sentence("  using binary: ", exe, "").as_str());
    add_line(&mut out, "");
    let ghost head = views(out@);
    assert(head =~= seq![
        ""@,
        title("drey install"@, dry_run),
        ""@,
        "  using binary: "@ + exe@,
        ""@,
    ]);
    if found.len() == 0 {
        add_line(&mut out, "  no language servers found on PATH; nothing to interpose");
        assert(views(out@) =~= head + found_lines(f));
    } else {
        let mut i: usize = 0;
        while i < found.len()
            invariant
                i <= found@.len(),
                f == found_views(found@),
                views(out@) == head + Seq::new(i as nat, |k: int| found_line(f[k])),
            decreases found@.len() - i,
        {
            let ghost held = views(out@);
            let mut line = sentence("  found ", found[i].name.as_str(), " -> ");
            line.append(found[i].command.as_str());
            assert(line@ =~= found_line(f[i as int]));
            add_line(&mut out, line.as_str());
            assert(views(out@) =~= head + Seq::new((i + 1) as nat, |k: int| found_line(f[k])));
            i += 1;
        }
        assert(views(out@) =~= head + found_lines(f));
    }
    add_line(&mut out, "");
    assert(views(out@) =~= install_opening(dry_run, exe@, f));
    out
}

/// What is said at the end of an installation.
pub fn install_outro(dry_run: bool, bin_dir: &str) -> (r: Vec<String>)
    ensures
        views(r@) == install_closing(dry_run, bin_dir@),
{
    let mut out: Vec<String> = Vec::new();
    if dry_run {
        add_line(&mut out, "");
        add_line(&mut out, Step::NothingChanged.message().as_str());
        add_line(&mut out, "");
        assert(views(out@) =~= install_closing(dry_run, bin_dir@));
        return out;
    }
    add_line(&mut out, "");
    add_line(&mut out, "Done. Open a new shell, or run:");
    add_line(&mut out, "    export PATH=\"$HOME/.drey/bin:$PATH\"");
    add_line(&mut out, "");
    add_line(&mut out, "Check it is working:");
    add_line(
        &mut out,
        sentence("    which rust-analyzer      # should be ", bin_dir, "/rust-analyzer").as_str(),
    );
    add_line(
        &mut out,
        "    drey status              # shows shared servers once a client connects",
    );
    add_line(&mut out, "");
    add_line(&mut out, "To revert everything:");
    add_line(&mut out, "    drey uninstall");
    add_line(&mut out, "");
    assert(views(out@) =~= install_closing(dry_run, bin_dir@));
    out
}

/// What is said before anything is removed.
pub fn uninstall_intro(dry_run: bool) -> (r: Vec<String>)
    ensures
        views(r@) == uninstall_opening(dry_run),
{
    let mut out: Vec<String> = Vec::new();
    add_line(&mut out, "");
    add_line(&mut out, title_line("drey uninstall", dry_run).as_str());
    add_line(&mut out, "");
    assert(views(out@) =~= uninstall_opening(dry_run));
    out
}

/// What is said once everything is removed.
pub fn uninstall_outro() -> (r: Vec<String>)
    ensures
        views(r@) == uninstall_closing(),
{
    let mut out: Vec<String> = Vec::new();
    add_line(&mut out, "");
    add_line(&mut out, "Open a new shell so PATH is rebuilt, then confirm:");
    add_line(&mut out, "    which rust-analyzer     # should be the real one again");
    add_line(&mut out, "");
    assert(views(out@) =~= uninstall_closing());
    out
}

// ---- laws ---------------------------------------------------------------

impl Step {
    /// The file or directory that the step is about.
    pub open spec fn subject(self) -> Option<Seq<char>> {
        match self {
            Step::WouldWriteConfig { path } => Some(path@),
            Step::WouldWriteWrappers { count, dir } => Some(dir@),
            Step::WouldAddPath { rc } => Some(rc@),
            Step::PathPresent { rc } => Some(rc@),
            Step::NothingChanged => None,
            Step::BackedUpConfig { to } => Some(to@),
            Step::WroteConfig { path } => Some(path@),
            Step::SkippedWrapper { path } => Some(path@),
            Step::WroteWrappers { count, dir } => Some(dir@),
            Step::AddedPath { rc } => Some(rc@),
            Step::WouldRemove { path } => Some(path@),
            Step::Removed { path } => Some(path@),
            Step::NoWrappers => None,
            Step::WouldRemovePath { rc } => Some(rc@),
            Step::RemovedPath { rc } => Some(rc@),
            Step::LeftConfig { path } => Some(path@),
        }
    }
}

/// Every step names the file or directory that it is about, and one that counts wrappers their
/// number.
pub proof fn lemma_steps_name_their_subjects(step: Step)
    ensures
        step.subject() is Some ==> has_part(step.words(), step.subject()->0),
        step is WroteWrappers ==> has_part(
            step.words(),
            decimal_text(step->WroteWrappers_count as nat),
        ),
        step is WouldWriteWrappers ==> has_part(
            step.words(),
            decimal_text(step->WouldWriteWrappers_count as nat),
        ),
{
    let none = Seq::<char>::empty();
    match step {
        Step::WouldWriteConfig { path } => lemma_last_part("  would write "@, path@),
        Step::WouldWriteWrappers { count, dir } => {
            let n = decimal_text(count as nat);
            lemma_last_part("  would write "@ + n + " wrapper(s) to "@, dir@);
            lemma_parts("  would write "@, n, " wrapper(s) to "@ + dir@);
            assert(step.words() =~= "  would write "@ + n + (" wrapper(s) to "@ + dir@));
        },
        Step::WouldAddPath { rc } => lemma_last_part("  would add PATH entry to "@, rc@),
        Step::PathPresent { rc } => lemma_last_part("  PATH entry already present in "@, rc@),
        Step::NothingChanged => {},
        Step::BackedUpConfig { to } => lemma_last_part("  backed up existing config to "@, to@),
        Step::WroteConfig { path } => lemma_last_part("  wrote "@, path@),
        Step::SkippedWrapper { path } => {
            lemma_parts(
                "  skipping "@,
                path@,
                " (not a drey wrapper; use --force to replace)"@,
            );
        },
        Step::WroteWrappers { count, dir } => {
            let n = decimal_text(count as nat);
            lemma_last_part("  wrote "@ + n + " wrapper(s) to "@, dir@);
            lemma_parts("  wrote "@, n, " wrapper(s) to "@ + dir@);
            assert(step.words() =~= "  wrote "@ + n + (" wrapper(s) to "@ + dir@));
        },
        Step::AddedPath { rc } => lemma_last_part("  added PATH entry to "@, rc@),
        Step::WouldRemove { path } => lemma_last_part("  would remove "@, path@),
        Step::Removed { path } => lemma_last_part("  removed "@, path@),
        Step::NoWrappers => {},
        Step::WouldRemovePath { rc } => lemma_last_part("  would remove PATH entry from "@, rc@),
        Step::RemovedPath { rc } => {
            lemma_parts("  removed PATH entry from "@, rc@, " (backup alongside it)"@);
        },
        Step::LeftConfig { path } => {
            lemma_parts(
                "  left "@,
                path@,
                " in place; delete it yourself if you want it gone"@,
            );
        },
    }
}

proof fn lemma_last_part(before: Seq<char>, part: Seq<char>)
    ensures
        has_part(before + part, part),
{
    let none = Seq::<char>::empty();
    lemma_parts(before, part, none);
    assert(before + part + none =~= before + part);
}

/// Every server that was found is told of, in order, with its name and its command, between
/// the head and the blank line at the end; where none was, one line says so.
pub proof fn lemma_intro_names_every_server(
    dry_run: bool,
    exe: Seq<char>,
    found: Seq<FoundView>,
    i: int,
)
    requires
        0 <= i < found.len(),
    ensures
        ({
            let l = install_opening(dry_run, exe, found);
            &&& l.len() == found.len() + 6
            &&& has_part(l[3], exe)
            &&& has_part(l[5 + i], found[i].name)
            &&& has_part(l[5 + i], found[i].command)
            &&& l[1] == if dry_run {
                "drey install (dry run)"@
            } else {
                "drey install"@
            }
        }),
        install_opening(dry_run, exe, Seq::empty()).len() == 7,
{
    let l = install_opening(dry_run, exe, found);
    let f = found[i];
    assert(l[5 + i] == found_line(f));
    lemma_last_part("  using binary: "@, exe);
    lemma_parts("  found "@, f.name, " -> "@ + f.command);
    assert(found_line(f) =~= "  found "@ + f.name + (" -> "@ + f.command));
    lemma_last_part("  found "@ + f.name + " -> "@, f.command);
    lemma_title(dry_run);
    assert(l[1] == title("drey install"@, dry_run));
}

/// The title says of a dry run that it is one.
proof fn lemma_title(dry_run: bool)
    ensures
        title("drey install"@, dry_run) == if dry_run {
            "drey install (dry run)"@
        } else {
            "drey install"@
        },
{
    reveal_strlit(" (dry run)");
    reveal_strlit("drey install");
    reveal_strlit("drey install (dry run)");
    if dry_run {
        assert("drey install"@ + " (dry run)"@ =~= "drey install (dry run)"@);
    }
}

} // verus!
