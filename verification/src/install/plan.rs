//! What `drey install` and `drey uninstall` change on the machine, and what they report of
//! it, told from what is there.

use vstd::prelude::*;
use vstd::string::*;
use crate::install::rc::{
    lemma_block_is_added_once, with_block, without_block, MARK_BEGIN,
};
use crate::install::report::{install_rc, uninstall_rc, Step};
use crate::install::{
    backup_path, config_text, drey_wrappers, found_views, is_ours, may_write_wrapper, our_paths,
    render_config, render_wrapper, wrapper_text, File, Found, FoundView,
};
use crate::paths::{join_path, joined_path, parent, path_parent};
use crate::strings::{
    decimal_text, has_part, lemma_parts, lemma_sorted_list_exists, same, sorted_list, views,
};

verus! {

/// One change to the machine.
#[derive(Debug)]
pub enum Change {
    /// Creates a directory and those above it, where they are missing.
    MakeDir { path: String },
    /// Copies a file.
    Backup { path: String, to: String },
    /// Writes a file, and makes it executable if it is to be.
    Write { path: String, text: String, executable: bool },
    /// Removes a file.
    Remove { path: String },
}

/// One change to the machine.
#[verifier::ext_equal]
pub enum ChangeView {
    MakeDir { path: Seq<char> },
    Backup { path: Seq<char>, to: Seq<char> },
    Write { path: Seq<char>, text: Seq<char>, executable: bool },
    Remove { path: Seq<char> },
}

impl View for Change {
    type V = ChangeView;

    open spec fn view(&self) -> ChangeView {
        match self {
            Change::MakeDir { path } => ChangeView::MakeDir { path: path@ },
            Change::Backup { path, to } => ChangeView::Backup { path: path@, to: to@ },
            Change::Write { path, text, executable } => ChangeView::Write {
                path: path@,
                text: text@,
                executable: *executable,
            },
            Change::Remove { path } => ChangeView::Remove { path: path@ },
        }
    }
}

/// What a list of changes says.
pub open spec fn changes(list: Seq<Change>) -> Seq<ChangeView> {
    Seq::new(list.len(), |i: int| list[i]@)
}

/// What a list of steps says.
pub open spec fn said(list: Seq<Step>) -> Seq<Seq<char>> {
    Seq::new(list.len(), |i: int| list[i].words())
}

/// What `drey install` finds on the machine.
pub struct Setup {
    /// The running binary, which the wrappers are to run.
    pub exe: String,
    /// Where the wrappers go.
    pub bin_dir: String,
    pub config: String,
    pub config_present: bool,
    pub found: Vec<Found>,
    /// The files that stand where wrappers may go.
    pub wrappers: Vec<File>,
    /// The startup files, those without a text being absent.
    pub rcs: Vec<File>,
    /// What tells this run's backups from others.
    pub stamp: String,
}

/// The name of a file's backup.
pub open spec fn backup_name(path: Seq<char>, stamp: Seq<char>) -> Seq<char> {
    path + ".backup-"@ + stamp
}

/// Somebody else's file stands at `path`.
pub open spec fn taken(files: Seq<File>, path: Seq<char>) -> bool {
    exists|i: int| 0 <= i < files.len() && (#[trigger] files[i]).path@ == path && !is_ours(files[i])
}

/// A file with another text than `text` stands at `path`.
pub open spec fn differs(files: Seq<File>, path: Seq<char>, text: Seq<char>) -> bool {
    exists|i: int|
        0 <= i < files.len() && (#[trigger] files[i]).path@ == path && !(files[i].text is Some
            && files[i].text->0@ == text)
}

/// The config is written, the one that was there having been backed up.
pub open spec fn config_changes(
    config: Seq<char>,
    present: bool,
    found: Seq<FoundView>,
    stamp: Seq<char>,
) -> Seq<ChangeView> {
    let dir = match path_parent(config) {
        Some(path) => seq![ChangeView::MakeDir { path }],
        None => Seq::empty(),
    };
    let saved = if present {
        seq![ChangeView::Backup { path: config, to: backup_name(config, stamp) }]
    } else {
        Seq::empty()
    };
    dir + saved + seq![
        ChangeView::Write { path: config, text: config_text(found), executable: false },
    ]
}

/// A wrapper is written for every server that was found, but over somebody else's file only
/// if that is forced; and what stood there with another text has been backed up.
pub open spec fn wrapper_changes(
    force: bool,
    exe: Seq<char>,
    bin_dir: Seq<char>,
    found: Seq<FoundView>,
    files: Seq<File>,
    stamp: Seq<char>,
) -> Seq<ChangeView>
    decreases found.len(),
{
    if found.len() == 0 {
        Seq::empty()
    } else {
        let before = wrapper_changes(force, exe, bin_dir, found.drop_last(), files, stamp);
        let path = joined_path(bin_dir, found.last().name);
        let text = wrapper_text(found.last().name, exe);
        if !force && taken(files, path) {
            before
        } else {
            let saved = if differs(files, path, text) {
                before.push(ChangeView::Backup { path, to: backup_name(path, stamp) })
            } else {
                before
            };
            saved.push(ChangeView::Write { path, text, executable: true })
        }
    }
}

/// The `PATH` block goes into every startup file that lacks it, the file having been backed
/// up if there was one.
pub open spec fn rc_added(rcs: Seq<File>, stamp: Seq<char>) -> Seq<ChangeView>
    decreases rcs.len(),
{
    if rcs.len() == 0 {
        Seq::empty()
    } else {
        let before = rc_added(rcs.drop_last(), stamp);
        let rc = rcs.last().path@;
        match rcs.last().text {
            None => before.push(
                ChangeView::Write { path: rc, text: with_block(Seq::empty()), executable: false },
            ),
            Some(text) => if has_part(text@, MARK_BEGIN@) {
                before
            } else {
                before.push(ChangeView::Backup { path: rc, to: backup_name(rc, stamp) }).push(
                    ChangeView::Write { path: rc, text: with_block(text@), executable: false },
                )
            },
        }
    }
}

/// The `PATH` block goes out of every startup file that has it, the file having been backed
/// up.
pub open spec fn rc_removed(rcs: Seq<File>, stamp: Seq<char>) -> Seq<ChangeView>
    decreases rcs.len(),
{
    if rcs.len() == 0 {
        Seq::empty()
    } else {
        let before = rc_removed(rcs.drop_last(), stamp);
        let rc = rcs.last().path@;
        match rcs.last().text {
            None => before,
            Some(text) => if has_part(text@, MARK_BEGIN@) {
                before.push(ChangeView::Backup { path: rc, to: backup_name(rc, stamp) }).push(
                    ChangeView::Write { path: rc, text: without_block(text@), executable: false },
                )
            } else {
                before
            },
        }
    }
}

impl Setup {
    /// Everything that installing changes.
    pub open spec fn installed(self, force: bool) -> Seq<ChangeView> {
        config_changes(
            self.config@,
            self.config_present,
            found_views(self.found@),
            self.stamp@,
        ) + seq![ChangeView::MakeDir { path: self.bin_dir@ }] + wrapper_changes(
            force,
            self.exe@,
            self.bin_dir@,
            found_views(self.found@),
            self.wrappers@,
            self.stamp@,
        ) + rc_added(self.rcs@, self.stamp@)
    }
}

/// Everything that uninstalling changes.
pub open spec fn uninstalled(
    files: Seq<File>,
    rcs: Seq<File>,
    stamp: Seq<char>,
) -> Seq<ChangeView> {
    let ours = sorted_list(our_paths(files));
    Seq::new(ours.len(), |i: int| ChangeView::Remove { path: ours[i] }) + rc_removed(rcs, stamp)
}

fn is_taken(files: &Vec<File>, path: &str) -> (r: bool)
    ensures
        r == taken(files@, path@),
{
    let mut i: usize = 0;
    while i < files.len()
        invariant
            i <= files@.len(),
            forall|k: int|
                0 <= k < i ==> !((#[trigger] files@[k]).path@ == path@ && !is_ours(files@[k])),
        decreases files@.len() - i,
    {
        let free = match &files[i].text {
            Some(t) => may_write_wrapper(false, true, Some(t.as_str())),
            None => may_write_wrapper(false, true, None),
        };
        assert(free == is_ours(files@[i as int]));
        if same(files[i].path.as_str(), path) && !free {
            return true;
        }
        i += 1;
    }
    false
}

fn is_different(files: &Vec<File>, path: &str, text: &str) -> (r: bool)
    ensures
        r == differs(files@, path@, text@),
{
    let mut i: usize = 0;
    while i < files.len()
        invariant
            i <= files@.len(),
            forall|k: int|
                0 <= k < i ==> !((#[trigger] files@[k]).path@ == path@ && !(
                files@[k].text is Some && files@[k].text->0@ == text@)),
        decreases files@.len() - i,
    {
        let level = match &files[i].text {
            Some(t) => same(t.as_str(), text),
            None => false,
        };
        assert(level == (files@[i as int].text is Some && files@[i as int].text->0@ == text@));
        if same(files[i].path.as_str(), path) && !level {
            return true;
        }
        i += 1;
    }
    false
}

fn add_change(out: &mut Vec<Change>, change: Change)
    ensures
        changes(final(out)@) == changes(old(out)@).push(change@),
{
    out.push(change);
    assert(changes(out@) =~= changes(old(out)@).push(change@));
}

fn add_backup(out: &mut Vec<Change>, path: &str, stamp: &str)
    ensures
        changes(final(out)@) == changes(old(out)@).push(
            ChangeView::Backup { path: path@, to: backup_name(path@, stamp@) },
        ),
{
    add_change(out, Change::Backup { path: path.to_owned(), to: backup_path(path, stamp) });
}

fn add_write(out: &mut Vec<Change>, path: &str, text: String, executable: bool)
    ensures
        changes(final(out)@) == changes(old(out)@).push(
            ChangeView::Write { path: path@, text: text@, executable },
        ),
{
    add_change(out, Change::Write { path: path.to_owned(), text, executable });
}

/// What `drey install` changes: the config, the wrappers and the startup files. A dry run
/// changes nothing.
pub fn install_changes(dry_run: bool, force: bool, setup: &Setup) -> (r: Vec<Change>)
    ensures
        dry_run ==> r@.len() == 0,
        !dry_run ==> changes(r@) == setup.installed(force),
{
    let mut out: Vec<Change> = Vec::new();
    if dry_run {
        return out;
    }
    let stamp = setup.stamp.as_str();
    let config = setup.config.as_str();
    let ghost found = found_views(setup.found@);
    assert(changes(out@) =~= Seq::empty());
    if let Some(path) = parent(config) {
        add_change(&mut out, Change::MakeDir { path });
    }
    if setup.config_present {
        add_backup(&mut out, config, stamp);
    }
    add_write(&mut out, config, render_config(&setup.found), false);
    assert(changes(out@) =~= config_changes(config@, setup.config_present, found, stamp@));
    add_change(&mut out, Change::MakeDir { path: setup.bin_dir.clone() });
    let ghost head = changes(out@);
    let mut i: usize = 0;
    assert(head =~= head + wrapper_changes(
        force,
        setup.exe@,
        setup.bin_dir@,
        found.take(0),
        setup.wrappers@,
        stamp@,
    ));
    while i < setup.found.len()
        invariant
            i <= setup.found@.len(),
            found == found_views(setup.found@),
            changes(out@) == head + wrapper_changes(
                force,
                setup.exe@,
                setup.bin_dir@,
                found.take(i as int),
                setup.wrappers@,
                stamp@,
            ),
        decreases setup.found@.len() - i,
    {
        let name = setup.found[i].name.as_str();
        let path = join_path(setup.bin_dir.as_str(), name);
        let ghost mut before = wrapper_changes(
            force,
            setup.exe@,
            setup.bin_dir@,
            found.take(i as int),
            setup.wrappers@,
            stamp@,
        );
        proof {
            assert(found.take(i + 1).drop_last() =~= found.take(i as int));
            assert(found.take(i + 1).last() == setup.found@[i as int]@);
        }
        if force || !is_taken(&setup.wrappers, path.as_str()) {
            let text = render_wrapper(name, setup.exe.as_str());
            let ghost new = ChangeView::Write { path: path@, text: text@, executable: true };
            if is_different(&setup.wrappers, path.as_str(), text.as_str()) {
                add_backup(&mut out, path.as_str(), stamp);
                proof {
                    let copy = ChangeView::Backup {
                        path: path@,
                        to: backup_name(path@, stamp@),
                    };
                    assert(changes(out@) =~= head + before.push(copy));
                    before = before.push(copy);
                }
            }
            add_write(&mut out, path.as_str(), text, true);
            assert(changes(out@) =~= head + before.push(new));
        }
        i += 1;
    }
    assert(found.take(i as int) =~= found);
    let mut rest = add_to_rcs(&setup.rcs, stamp);
    let ghost wrote = changes(out@);
    let ghost added = changes(rest@);
    out.append(&mut rest);
    assert(changes(out@) =~= wrote + added);
    out
}

fn add_to_rcs(rcs: &Vec<File>, stamp: &str) -> (r: Vec<Change>)
    ensures
        changes(r@) == rc_added(rcs@, stamp@),
{
    let mut out: Vec<Change> = Vec::new();
    let mut i: usize = 0;
    assert(changes(out@) =~= rc_added(rcs@.take(0), stamp@));
    while i < rcs.len()
        invariant
            i <= rcs@.len(),
            changes(out@) == rc_added(rcs@.take(i as int), stamp@),
        decreases rcs@.len() - i,
    {
        proof {
            assert(rcs@.take(i + 1).drop_last() =~= rcs@.take(i as int));
            assert(rcs@.take(i + 1).last() == rcs@[i as int]);
        }
        let rc = rcs[i].path.as_str();
        match &rcs[i].text {
            Some(text) => {
                if let Some(new) = install_rc(rc, Some(text.as_str()), false).text {
                    add_backup(&mut out, rc, stamp);
                    add_write(&mut out, rc, new, false);
                }
            },
            None => {
                if let Some(new) = install_rc(rc, None, false).text {
                    add_write(&mut out, rc, new, false);
                }
            },
        }
        i += 1;
    }
    assert(rcs@.take(i as int) =~= rcs@);
    out
}

/// What `drey uninstall` changes, of the files in the wrapper directory and of the startup
/// files: only wrappers that carry drey's marker are removed. A dry run changes nothing.
pub fn uninstall_changes(
    dry_run: bool,
    files: &Vec<File>,
    rcs: &Vec<File>,
    stamp: &str,
) -> (r: Vec<Change>)
    ensures
        dry_run ==> r@.len() == 0,
        !dry_run ==> changes(r@) == uninstalled(files@, rcs@, stamp@),
{
    let mut out: Vec<Change> = Vec::new();
    if dry_run {
        return out;
    }
    let wrappers = drey_wrappers(files);
    let ghost ours = sorted_list(our_paths(files@));
    let mut i: usize = 0;
    assert(changes(out@) =~= Seq::new(0, |k: int| ChangeView::Remove { path: ours[k] }));
    while i < wrappers.len()
        invariant
            i <= wrappers@.len(),
            ours == views(wrappers@),
            changes(out@) == Seq::new(i as nat, |k: int| ChangeView::Remove { path: ours[k] }),
        decreases wrappers@.len() - i,
    {
        add_change(&mut out, Change::Remove { path: wrappers[i].clone() });
        i += 1;
        assert(changes(out@) =~= Seq::new(
            i as nat,
            |k: int| ChangeView::Remove { path: ours[k] },
        ));
    }
    let ghost head = changes(out@);
    assert(head =~= Seq::new(ours.len(), |k: int| ChangeView::Remove { path: ours[k] }));
    let mut i: usize = 0;
    assert(head =~= head + rc_removed(rcs@.take(0), stamp@));
    while i < rcs.len()
        invariant
            i <= rcs@.len(),
            changes(out@) == head + rc_removed(rcs@.take(i as int), stamp@),
        decreases rcs@.len() - i,
    {
        let ghost before = rc_removed(rcs@.take(i as int), stamp@);
        proof {
            assert(rcs@.take(i + 1).drop_last() =~= rcs@.take(i as int));
            assert(rcs@.take(i + 1).last() == rcs@[i as int]);
        }
        let rc = rcs[i].path.as_str();
        if let Some(text) = &rcs[i].text {
            if let Some(change) = uninstall_rc(rc, Some(text.as_str()), false) {
                if let Some(new) = change.text {
                    let ghost kept = new@;
                    add_backup(&mut out, rc, stamp);
                    add_write(&mut out, rc, new, false);
                    assert(changes(out@) =~= head + before.push(
                        ChangeView::Backup { path: rc@, to: backup_name(rc@, stamp@) },
                    ).push(ChangeView::Write { path: rc@, text: kept, executable: false }));
                }
            }
        }
        i += 1;
    }
    assert(rcs@.take(i as int) =~= rcs@);
    out
}

// ---- reports ------------------------------------------------------------

/// What is said of the wrappers that are not written.
pub open spec fn skipped_lines(
    force: bool,
    bin_dir: Seq<char>,
    found: Seq<FoundView>,
    files: Seq<File>,
) -> Seq<Seq<char>>
    decreases found.len(),
{
    if found.len() == 0 {
        Seq::empty()
    } else {
        let before = skipped_lines(force, bin_dir, found.drop_last(), files);
        let path = joined_path(bin_dir, found.last().name);
        if !force && taken(files, path) {
            before.push(
                "  skipping "@ + path + " (not a drey wrapper; use --force to replace)"@,
            )
        } else {
            before
        }
    }
}

/// What is said of a startup file when installing.
pub open spec fn rc_added_line(rc: File, dry_run: bool) -> Seq<char> {
    if rc.text is Some && has_part(rc.text->0@, MARK_BEGIN@) {
        "  PATH entry already present in "@ + rc.path@
    } else if dry_run {
        "  would add PATH entry to "@ + rc.path@
    } else {
        "  added PATH entry to "@ + rc.path@
    }
}

/// What is said of the startup files when uninstalling.
pub open spec fn rc_removed_lines(rcs: Seq<File>, dry_run: bool) -> Seq<Seq<char>>
    decreases rcs.len(),
{
    if rcs.len() == 0 {
        Seq::empty()
    } else {
        let before = rc_removed_lines(rcs.drop_last(), dry_run);
        let rc = rcs.last();
        if !(rc.text is Some && has_part(rc.text->0@, MARK_BEGIN@)) {
            before
        } else if dry_run {
            before.push("  would remove PATH entry from "@ + rc.path@)
        } else {
            before.push("  removed PATH entry from "@ + rc.path@ + " (backup alongside it)"@)
        }
    }
}

impl Setup {
    /// What is said of an installation.
    pub open spec fn install_lines(self, dry_run: bool, force: bool) -> Seq<Seq<char>> {
        let found = found_views(self.found@);
        let rcs = Seq::new(self.rcs@.len(), |i: int| rc_added_line(self.rcs@[i], dry_run));
        if dry_run {
            seq![
                "  would write "@ + self.config@,
                "  would write "@ + decimal_text(found.len()) + " wrapper(s) to "@
                    + self.bin_dir@,
            ] + rcs
        } else {
            let saved = if self.config_present {
                seq![
                    "  backed up existing config to "@ + backup_name(self.config@, self.stamp@),
                ]
            } else {
                Seq::empty()
            };
            let skipped = skipped_lines(force, self.bin_dir@, found, self.wrappers@);
            let written = (found.len() - skipped.len()) as nat;
            saved + seq!["  wrote "@ + self.config@] + skipped + seq![
                "  wrote "@ + decimal_text(written) + " wrapper(s) to "@ + self.bin_dir@,
            ] + rcs
        }
    }
}

/// What is said of a removal.
pub open spec fn uninstall_lines(
    dry_run: bool,
    files: Seq<File>,
    rcs: Seq<File>,
) -> Seq<Seq<char>> {
    let ours = sorted_list(our_paths(files));
    let removed = if ours.len() == 0 {
        seq!["  no wrappers to remove"@]
    } else if dry_run {
        Seq::new(ours.len(), |i: int| "  would remove "@ + ours[i])
    } else {
        Seq::new(ours.len(), |i: int| "  removed "@ + ours[i])
    };
    removed + rc_removed_lines(rcs, dry_run)
}

fn add_step(out: &mut Vec<Step>, step: Step)
    ensures
        said(final(out)@) == said(old(out)@).push(step.words()),
{
    out.push(step);
    assert(said(out@) =~= said(old(out)@).push(step.words()));
}

/// What `drey install` says of what it does, or would do.
pub fn install_steps(dry_run: bool, force: bool, setup: &Setup) -> (r: Vec<Step>)
    ensures
        said(r@) == setup.install_lines(dry_run, force),
{
    let mut out: Vec<Step> = Vec::new();
    let ghost found = found_views(setup.found@);
    assert(said(out@) =~= Seq::empty());
    if dry_run {
        add_step(&mut out, Step::WouldWriteConfig { path: setup.config.clone() });
        add_step(
            &mut out,
            Step::WouldWriteWrappers { count: setup.found.len(), dir: setup.bin_dir.clone() },
        );
    } else {
        if setup.config_present {
            let to = backup_path(setup.config.as_str(), setup.stamp.as_str());
            add_step(&mut out, Step::BackedUpConfig { to });
        }
        add_step(&mut out, Step::WroteConfig { path: setup.config.clone() });
        let ghost head = said(out@);
        let mut written: usize = 0;
        let mut i: usize = 0;
        assert(head =~= head + skipped_lines(
            force,
            setup.bin_dir@,
            found.take(0),
            setup.wrappers@,
        ));
        while i < setup.found.len()
            invariant
                written <= i <= setup.found@.len(),
                found == found_views(setup.found@),
                written + skipped_lines(
                    force,
                    setup.bin_dir@,
                    found.take(i as int),
                    setup.wrappers@,
                ).len() == i,
                said(out@) == head + skipped_lines(
                    force,
                    setup.bin_dir@,
                    found.take(i as int),
                    setup.wrappers@,
                ),
            decreases setup.found@.len() - i,
        {
            let path = join_path(setup.bin_dir.as_str(), setup.found[i].name.as_str());
            let ghost before = skipped_lines(
                force,
                setup.bin_dir@,
                found.take(i as int),
                setup.wrappers@,
            );
            proof {
                assert(found.take(i + 1).drop_last() =~= found.take(i as int));
                assert(found.take(i + 1).last() == setup.found@[i as int]@);
            }
            if force || !is_taken(&setup.wrappers, path.as_str()) {
                written += 1;
            } else {
                let step = Step::SkippedWrapper { path };
                let ghost line = step.words();
                add_step(&mut out, step);
                assert(said(out@) =~= head + before.push(line));
            }
            i += 1;
        }
        assert(found.take(i as int) =~= found);
        add_step(&mut out, Step::WroteWrappers { count: written, dir: setup.bin_dir.clone() });
    }
    let ghost head = said(out@);
    let ghost rcs = setup.rcs@;
    let mut i: usize = 0;
    assert(head =~= head + Seq::new(0, |k: int| rc_added_line(rcs[k], dry_run)));
    while i < setup.rcs.len()
        invariant
            i <= setup.rcs@.len(),
            rcs == setup.rcs@,
            said(out@) == head + Seq::new(i as nat, |k: int| rc_added_line(rcs[k], dry_run)),
        decreases setup.rcs@.len() - i,
    {
        let rc = setup.rcs[i].path.as_str();
        let change = match &setup.rcs[i].text {
            Some(text) => install_rc(rc, Some(text.as_str()), dry_run),
            None => install_rc(rc, None, dry_run),
        };
        add_step(&mut out, change.step);
        i += 1;
        assert(said(out@) =~= head + Seq::new(
            i as nat,
            |k: int| rc_added_line(rcs[k], dry_run),
        ));
    }
    assert(said(out@) =~= setup.install_lines(dry_run, force));
    out
}

/// What `drey uninstall` says of what it does, or would do.
pub fn uninstall_steps(dry_run: bool, files: &Vec<File>, rcs: &Vec<File>) -> (r: Vec<Step>)
    ensures
        said(r@) == uninstall_lines(dry_run, files@, rcs@),
{
    let mut out: Vec<Step> = Vec::new();
    let wrappers = drey_wrappers(files);
    let ghost ours = sorted_list(our_paths(files@));
    let ghost first = if dry_run {
        "  would remove "@
    } else {
        "  removed "@
    };
    let mut i: usize = 0;
    assert(said(out@) =~= Seq::new(0, |k: int| first + ours[k]));
    while i < wrappers.len()
        invariant
            i <= wrappers@.len(),
            ours == views(wrappers@),
            first == (if dry_run {
                "  would remove "@
            } else {
                "  removed "@
            }),
            said(out@) == Seq::new(i as nat, |k: int| first + ours[k]),
        decreases wrappers@.len() - i,
    {
        let path = wrappers[i].clone();
        if dry_run {
            add_step(&mut out, Step::WouldRemove { path });
        } else {
            add_step(&mut out, Step::Removed { path });
        }
        i += 1;
        assert(said(out@) =~= Seq::new(i as nat, |k: int| first + ours[k]));
    }
    if wrappers.len() == 0 {
        add_step(&mut out, Step::NoWrappers);
    }
    let ghost head = said(out@);
    let mut i: usize = 0;
    assert(head =~= head + rc_removed_lines(rcs@.take(0), dry_run));
    while i < rcs.len()
        invariant
            i <= rcs@.len(),
            said(out@) == head + rc_removed_lines(rcs@.take(i as int), dry_run),
        decreases rcs@.len() - i,
    {
        let ghost before = rc_removed_lines(rcs@.take(i as int), dry_run);
        proof {
            assert(rcs@.take(i + 1).drop_last() =~= rcs@.take(i as int));
            assert(rcs@.take(i + 1).last() == rcs@[i as int]);
        }
        let rc = rcs[i].path.as_str();
        if let Some(text) = &rcs[i].text {
            if let Some(change) = uninstall_rc(rc, Some(text.as_str()), dry_run) {
                let ghost line = change.step.words();
                add_step(&mut out, change.step);
                assert(said(out@) =~= head + before.push(line));
            }
        }
        i += 1;
    }
    assert(rcs@.take(i as int) =~= rcs@);
    assert(said(out@) =~= uninstall_lines(dry_run, files@, rcs@));
    out
}

// ---- laws ---------------------------------------------------------------

/// The text of a startup file once drey is installed.
pub open spec fn rc_after(rc: File) -> Seq<char> {
    match rc.text {
        None => with_block(Seq::empty()),
        Some(text) => if has_part(text@, MARK_BEGIN@) {
            text@
        } else {
            with_block(text@)
        },
    }
}

/// Installing twice changes the startup files once.
pub proof fn lemma_startup_files_change_once(
    rcs: Seq<File>,
    again: Seq<File>,
    stamp: Seq<char>,
)
    requires
        again.len() == rcs.len(),
        forall|i: int|
            0 <= i < rcs.len() ==> (#[trigger] again[i]).text is Some && again[i].text->0@
                == rc_after(rcs[i]),
    ensures
        rc_added(again, stamp).len() == 0,
    decreases rcs.len(),
{
    if rcs.len() > 0 {
        let k = rcs.len() - 1;
        assert forall|i: int| 0 <= i < k implies (#[trigger] again.drop_last()[i]).text is Some
            && again.drop_last()[i].text->0@ == rc_after(rcs.drop_last()[i]) by {
            assert(again[i].text is Some);
        }
        lemma_startup_files_change_once(rcs.drop_last(), again.drop_last(), stamp);
        assert(again[k].text is Some);
        lemma_block_is_added_once(Seq::empty());
        if let Some(text) = rcs[k].text {
            lemma_block_is_added_once(text@);
        }
    }
}

/// Uninstalling where nothing carries a mark of drey's changes nothing.
pub proof fn lemma_nothing_to_uninstall(files: Seq<File>, rcs: Seq<File>, stamp: Seq<char>)
    requires
        forall|i: int| 0 <= i < files.len() ==> !is_ours(#[trigger] files[i]),
        forall|i: int|
            0 <= i < rcs.len() ==> !((#[trigger] rcs[i]).text is Some && has_part(
                rcs[i].text->0@,
                MARK_BEGIN@,
            )),
    ensures
        uninstalled(files, rcs, stamp).len() == 0,
    decreases rcs.len(),
{
    let none = Seq::<Seq<char>>::empty();
    lemma_sorted_list_exists(none);
    assert(our_paths(files) =~= none.to_set());
    let ours = sorted_list(our_paths(files));
    if ours.len() > 0 {
        assert(ours.to_set().contains(ours[0]));
    }
    if rcs.len() > 0 {
        let k = rcs.len() - 1;
        assert forall|i: int| 0 <= i < k implies !((
        #[trigger] rcs.drop_last()[i]).text is Some && has_part(
            rcs.drop_last()[i].text->0@,
            MARK_BEGIN@,
        )) by {
            assert(!(rcs[i].text is Some && has_part(rcs[i].text->0@, MARK_BEGIN@)));
        }
        lemma_nothing_to_uninstall(files, rcs.drop_last(), stamp);
        assert(!(rcs[k].text is Some && has_part(rcs[k].text->0@, MARK_BEGIN@)));
    }
}

/// What a change creates, replaces or removes.
pub open spec fn target(c: ChangeView) -> Seq<char> {
    match c {
        ChangeView::MakeDir { path } => path,
        ChangeView::Backup { path, to } => to,
        ChangeView::Write { path, .. } => path,
        ChangeView::Remove { path } => path,
    }
}

/// `path` is `own` or its backup.
pub open spec fn itself_or_backup(path: Seq<char>, own: Seq<char>, stamp: Seq<char>) -> bool {
    path == own || path == backup_name(own, stamp)
}

impl Setup {
    /// `path` is the config or its directory.
    pub open spec fn is_config(self, path: Seq<char>) -> bool {
        itself_or_backup(path, self.config@, self.stamp@) || Some(path) == path_parent(
            self.config@,
        )
    }

    /// `path` is the wrapper directory or a wrapper in it.
    pub open spec fn is_wrapper(self, path: Seq<char>) -> bool {
        path == self.bin_dir@ || exists|k: int|
            0 <= k < self.found@.len() && itself_or_backup(
                path,
                joined_path(self.bin_dir@, (#[trigger] self.found@[k]).name@),
                self.stamp@,
            )
    }

    /// `path` is a startup file.
    pub open spec fn is_rc(self, path: Seq<char>) -> bool {
        exists|k: int|
            0 <= k < self.rcs@.len() && itself_or_backup(
                path,
                (#[trigger] self.rcs@[k]).path@,
                self.stamp@,
            )
    }
}

/// Installing removes nothing, and touches nothing but the config, the wrapper directory and
/// the startup files.
pub proof fn lemma_nothing_else_is_touched(s: Setup, force: bool)
    ensures
        forall|i: int|
            #![trigger s.installed(force)[i]]
            0 <= i < s.installed(force).len() ==> !(s.installed(force)[i] is Remove) && (
            s.is_config(target(s.installed(force)[i])) || s.is_wrapper(
                target(s.installed(force)[i]),
            ) || s.is_rc(target(s.installed(force)[i]))),
{
    let found = found_views(s.found@);
    let config = config_changes(s.config@, s.config_present, found, s.stamp@);
    let dir = seq![ChangeView::MakeDir { path: s.bin_dir@ }];
    let wrappers = wrapper_changes(force, s.exe@, s.bin_dir@, found, s.wrappers@, s.stamp@);
    let rcs = rc_added(s.rcs@, s.stamp@);
    let all = s.installed(force);
    lemma_wrapper_targets(s, force, found.len());
    assert(found.take(found.len() as int) =~= found);
    lemma_rc_targets(s, s.rcs@.len());
    assert(s.rcs@.take(s.rcs@.len() as int) =~= s.rcs@);
    assert forall|i: int| #![trigger all[i]] 0 <= i < all.len() implies !(all[i] is Remove) && (
    s.is_config(target(all[i])) || s.is_wrapper(target(all[i])) || s.is_rc(target(all[i]))) by {
        let a = config.len();
        let b = wrappers.len();
        if i < a {
            assert(all[i] == config[i]);
        } else if i == a {
            assert(all[i] == dir[0]);
        } else if i < a + 1 + b {
            assert(all[i] == wrappers[i - a - 1]);
        } else {
            assert(all[i] == rcs[i - a - 1 - b]);
        }
    }
}

proof fn lemma_wrapper_targets(s: Setup, force: bool, n: nat)
    requires
        n <= s.found@.len(),
    ensures
        ({
            let all = wrapper_changes(
                force,
                s.exe@,
                s.bin_dir@,
                found_views(s.found@).take(n as int),
                s.wrappers@,
                s.stamp@,
            );
            forall|i: int|
                #![trigger all[i]]
                0 <= i < all.len() ==> !(all[i] is Remove) && s.is_wrapper(target(all[i]))
        }),
    decreases n,
{
    if n > 0 {
        let found = found_views(s.found@).take(n as int);
        let rest = found_views(s.found@).take(n - 1);
        assert(found.drop_last() =~= rest);
        lemma_wrapper_targets(s, force, (n - 1) as nat);
        let all = wrapper_changes(force, s.exe@, s.bin_dir@, found, s.wrappers@, s.stamp@);
        let before = wrapper_changes(force, s.exe@, s.bin_dir@, rest, s.wrappers@, s.stamp@);
        assert(found.last().name == s.found@[n - 1].name@);
        assert forall|i: int| #![trigger all[i]] 0 <= i < all.len() implies !(all[i] is Remove)
            && s.is_wrapper(target(all[i])) by {
            if i < before.len() {
                assert(all[i] == before[i]);
            } else {
                assert(itself_or_backup(
                    target(all[i]),
                    joined_path(s.bin_dir@, s.found@[n - 1].name@),
                    s.stamp@,
                ));
            }
        }
    }
}

proof fn lemma_rc_targets(s: Setup, n: nat)
    requires
        n <= s.rcs@.len(),
    ensures
        ({
            let all = rc_added(s.rcs@.take(n as int), s.stamp@);
            forall|i: int|
                #![trigger all[i]]
                0 <= i < all.len() ==> !(all[i] is Remove) && s.is_rc(target(all[i]))
        }),
    decreases n,
{
    if n > 0 {
        let rcs = s.rcs@.take(n as int);
        let rest = s.rcs@.take(n - 1);
        assert(rcs.drop_last() =~= rest);
        lemma_rc_targets(s, (n - 1) as nat);
        let all = rc_added(rcs, s.stamp@);
        let before = rc_added(rest, s.stamp@);
        assert(rcs.last() == s.rcs@[n - 1]);
        assert forall|i: int| #![trigger all[i]] 0 <= i < all.len() implies !(all[i] is Remove)
            && s.is_rc(target(all[i])) by {
            if i < before.len() {
                assert(all[i] == before[i]);
            } else {
                assert(itself_or_backup(target(all[i]), s.rcs@[n - 1].path@, s.stamp@));
            }
        }
    }
}

/// The file at `path` was copied aside right before the change at `i`.
pub open spec fn saved_first(
    list: Seq<ChangeView>,
    i: int,
    path: Seq<char>,
    stamp: Seq<char>,
) -> bool {
    i > 0 && list[i - 1] == (ChangeView::Backup { path, to: backup_name(path, stamp) })
}

/// Installing writes over no file before it was backed up under this run's stamp: neither
/// over a config, nor over a startup file, nor over anything that stands where a wrapper
/// goes, unless that says the same already.
pub proof fn lemma_files_are_backed_up(s: Setup, force: bool)
    ensures
        ({
            let found = found_views(s.found@);
            let config = config_changes(s.config@, s.config_present, found, s.stamp@);
            let wrappers = wrapper_changes(
                force,
                s.exe@,
                s.bin_dir@,
                found,
                s.wrappers@,
                s.stamp@,
            );
            let rcs = rc_added(s.rcs@, s.stamp@);
            &&& s.config_present ==> saved_first(config, config.len() - 1, s.config@, s.stamp@)
            &&& forall|i: int|
                #![trigger wrappers[i]]
                0 <= i < wrappers.len() && wrappers[i] is Write && differs(
                    s.wrappers@,
                    wrappers[i]->Write_path,
                    wrappers[i]->Write_text,
                ) ==> saved_first(wrappers, i, wrappers[i]->Write_path, s.stamp@)
            &&& (forall|i: int| 0 <= i < s.rcs@.len() ==> (#[trigger] s.rcs@[i]).text is Some)
                ==> forall|i: int|
                #![trigger rcs[i]]
                0 <= i < rcs.len() && rcs[i] is Write ==> saved_first(
                    rcs,
                    i,
                    rcs[i]->Write_path,
                    s.stamp@,
                )
        }),
{
    let found = found_views(s.found@);
    lemma_wrappers_are_backed_up(force, s.exe@, s.bin_dir@, found, s.wrappers@, s.stamp@);
    if forall|i: int| 0 <= i < s.rcs@.len() ==> (#[trigger] s.rcs@[i]).text is Some {
        lemma_startup_files_are_backed_up(s.rcs@, s.stamp@);
    }
}

proof fn lemma_wrappers_are_backed_up(
    force: bool,
    exe: Seq<char>,
    bin_dir: Seq<char>,
    found: Seq<FoundView>,
    files: Seq<File>,
    stamp: Seq<char>,
)
    ensures
        ({
            let all = wrapper_changes(force, exe, bin_dir, found, files, stamp);
            forall|i: int|
                #![trigger all[i]]
                0 <= i < all.len() && all[i] is Write && differs(
                    files,
                    all[i]->Write_path,
                    all[i]->Write_text,
                ) ==> saved_first(all, i, all[i]->Write_path, stamp)
        }),
    decreases found.len(),
{
    if found.len() > 0 {
        let rest = found.drop_last();
        let all = wrapper_changes(force, exe, bin_dir, found, files, stamp);
        let before = wrapper_changes(force, exe, bin_dir, rest, files, stamp);
        lemma_wrappers_are_backed_up(force, exe, bin_dir, rest, files, stamp);
        assert forall|i: int|
            #![trigger all[i]]
            0 <= i < all.len() && all[i] is Write && differs(
                files,
                all[i]->Write_path,
                all[i]->Write_text,
            ) implies saved_first(all, i, all[i]->Write_path, stamp) by {
            if i < before.len() {
                assert(all[i] == before[i]);
                assert(saved_first(before, i, before[i]->Write_path, stamp));
            }
        }
    }
}

/// No startup file that is there is rewritten before it was backed up, be it on installing
/// or on uninstalling.
pub proof fn lemma_startup_files_are_backed_up(rcs: Seq<File>, stamp: Seq<char>)
    requires
        forall|i: int| 0 <= i < rcs.len() ==> (#[trigger] rcs[i]).text is Some,
    ensures
        ({
            let a = rc_added(rcs, stamp);
            forall|i: int|
                #![trigger a[i]]
                0 <= i < a.len() && a[i] is Write ==> saved_first(a, i, a[i]->Write_path, stamp)
        }),
        ({
            let r = rc_removed(rcs, stamp);
            forall|i: int|
                #![trigger r[i]]
                0 <= i < r.len() && r[i] is Write ==> saved_first(r, i, r[i]->Write_path, stamp)
        }),
    decreases rcs.len(),
{
    if rcs.len() > 0 {
        let rest = rcs.drop_last();
        assert forall|i: int| 0 <= i < rest.len() implies (#[trigger] rest[i]).text is Some by {
            assert(rcs[i].text is Some);
        }
        lemma_startup_files_are_backed_up(rest, stamp);
        assert(rcs[rcs.len() - 1].text is Some);
        let a = rc_added(rcs, stamp);
        let held = rc_added(rest, stamp);
        assert forall|i: int|
            #![trigger a[i]]
            0 <= i < a.len() && a[i] is Write implies saved_first(
            a,
            i,
            a[i]->Write_path,
            stamp,
        ) by {
            if i < held.len() {
                assert(a[i] == held[i]);
                assert(saved_first(held, i, held[i]->Write_path, stamp));
            }
        }
        let r = rc_removed(rcs, stamp);
        let left = rc_removed(rest, stamp);
        assert forall|i: int|
            #![trigger r[i]]
            0 <= i < r.len() && r[i] is Write implies saved_first(
            r,
            i,
            r[i]->Write_path,
            stamp,
        ) by {
            if i < left.len() {
                assert(r[i] == left[i]);
                assert(saved_first(left, i, left[i]->Write_path, stamp));
            }
        }
    }
}

/// Uninstalling removes files that carry drey's marker, each of them, and no others.
pub proof fn lemma_only_marked_files_are_removed(
    files: Seq<File>,
    rcs: Seq<File>,
    stamp: Seq<char>,
)
    ensures
        forall|path: Seq<char>| #[trigger]
            removes(uninstalled(files, rcs, stamp), path) <==> our_paths(files).contains(path),
{
    let ours = sorted_list(our_paths(files));
    let all = uninstalled(files, rcs, stamp);
    let rest = rc_removed(rcs, stamp);
    lemma_our_paths(files);
    lemma_startup_files_stay(rcs, stamp);
    assert forall|path: Seq<char>| #[trigger] removes(all, path) <==> our_paths(files).contains(
        path,
    ) by {
        if removes(all, path) {
            let i = choose|i: int|
                0 <= i < all.len() && (#[trigger] all[i]) is Remove && all[i]->Remove_path == path;
            if i < ours.len() {
                assert(ours[i] == path);
                assert(ours.to_set().contains(path));
            } else {
                assert(all[i] == rest[i - ours.len()]);
            }
        }
        if our_paths(files).contains(path) {
            assert(ours.to_set().contains(path));
            let i = choose|i: int| 0 <= i < ours.len() && ours[i] == path;
            assert(all[i] is Remove);
        }
    }
}

/// The file at `path` is removed.
pub open spec fn removes(list: Seq<ChangeView>, path: Seq<char>) -> bool {
    exists|i: int| 0 <= i < list.len() && (#[trigger] list[i]) is Remove && list[i]->Remove_path == path
}

proof fn lemma_startup_files_stay(rcs: Seq<File>, stamp: Seq<char>)
    ensures
        forall|i: int|
            0 <= i < rc_removed(rcs, stamp).len() ==> !((#[trigger] rc_removed(
                rcs,
                stamp,
            )[i]) is Remove),
    decreases rcs.len(),
{
    if rcs.len() > 0 {
        let all = rc_removed(rcs, stamp);
        let before = rc_removed(rcs.drop_last(), stamp);
        lemma_startup_files_stay(rcs.drop_last(), stamp);
        assert forall|i: int| 0 <= i < all.len() implies !((#[trigger] all[i]) is Remove) by {
            if i < before.len() {
                assert(all[i] == before[i]);
            }
        }
    }
}

proof fn lemma_our_paths(files: Seq<File>)
    ensures
        sorted_list(our_paths(files)).to_set() == our_paths(files),
{
    let list = marked_paths(files);
    lemma_marked_paths(files);
    assert(list.to_set() =~= our_paths(files));
    lemma_sorted_list_exists(list);
}

/// The paths of the files that carry drey's marker, as they come.
spec fn marked_paths(files: Seq<File>) -> Seq<Seq<char>>
    decreases files.len(),
{
    if files.len() == 0 {
        Seq::empty()
    } else if is_ours(files.last()) {
        marked_paths(files.drop_last()).push(files.last().path@)
    } else {
        marked_paths(files.drop_last())
    }
}

proof fn lemma_marked_paths(files: Seq<File>)
    ensures
        forall|path: Seq<char>| #[trigger]
            marked_paths(files).contains(path) <==> our_paths(files).contains(path),
    decreases files.len(),
{
    if files.len() > 0 {
        let rest = files.drop_last();
        let last = files.last();
        let all = marked_paths(files);
        let before = marked_paths(rest);
        lemma_marked_paths(rest);
        assert forall|path: Seq<char>| #[trigger] all.contains(path) <==> our_paths(
            files,
        ).contains(path) by {
            assert(before.contains(path) <==> our_paths(rest).contains(path));
            if all.contains(path) {
                let k = choose|k: int| 0 <= k < all.len() && all[k] == path;
                if k < before.len() {
                    assert(before[k] == path);
                    let i = choose|i: int|
                        0 <= i < rest.len() && is_ours(#[trigger] rest[i]) && rest[i].path@ == path;
                    assert(files[i] == rest[i]);
                } else {
                    assert(files[files.len() - 1] == last);
                }
            }
            if our_paths(files).contains(path) {
                let i = choose|i: int|
                    0 <= i < files.len() && is_ours(#[trigger] files[i]) && files[i].path@ == path;
                if i < rest.len() {
                    assert(rest[i] == files[i]);
                    assert(our_paths(rest).contains(path));
                    let k = choose|k: int| 0 <= k < before.len() && before[k] == path;
                    assert(all[k] == path);
                } else {
                    assert(all[all.len() - 1] == path);
                }
            }
        }
    }
}

/// Servers get their wrappers one by one, in order: an executable file in the wrapper
/// directory under the server's name, which runs the given binary. Somebody else's file there
/// is left alone unless its replacement is forced.
pub proof fn lemma_wrappers_are_written(
    server: FoundView,
    first: Seq<FoundView>,
    second: Seq<FoundView>,
    force: bool,
    exe: Seq<char>,
    bin_dir: Seq<char>,
    files: Seq<File>,
    stamp: Seq<char>,
)
    ensures
        wrapper_changes(force, exe, bin_dir, first + second, files, stamp) == wrapper_changes(
            force,
            exe,
            bin_dir,
            first,
            files,
            stamp,
        ) + wrapper_changes(force, exe, bin_dir, second, files, stamp),
        wrapper_changes(force, exe, bin_dir, Seq::empty(), files, stamp).len() == 0,
        ({
            let c = wrapper_changes(force, exe, bin_dir, seq![server], files, stamp);
            let path = joined_path(bin_dir, server.name);
            let strange = exists|i: int|
                0 <= i < files.len() && (#[trigger] files[i]).path@ == path && !(
                files[i].text is Some && has_part(files[i].text->0@, "# Installed by drey."@));
            if strange && !force {
                c.len() == 0
            } else {
                c.len() > 0 && c.last() == (ChangeView::Write {
                    path,
                    text: wrapper_text(server.name, exe),
                    executable: true,
                })
            }
        }),
    decreases second.len(),
{
    let one = seq![server];
    assert(one.drop_last() =~= Seq::empty());
    assert(one.last() == server);
    reveal_with_fuel(wrapper_changes, 2);
    let path = joined_path(bin_dir, server.name);
    let strange = exists|i: int|
        0 <= i < files.len() && (#[trigger] files[i]).path@ == path && !(files[i].text is Some
            && has_part(files[i].text->0@, "# Installed by drey."@));
    assert(strange == taken(files, path)) by {
        assert forall|i: int| is_ours(#[trigger] files[i]) == (files[i].text is Some && has_part(
            files[i].text->0@,
            "# Installed by drey."@,
        )) by {}
        if strange {
            let i = choose|i: int|
                0 <= i < files.len() && (#[trigger] files[i]).path@ == path && !(
                files[i].text is Some && has_part(files[i].text->0@, "# Installed by drey."@));
            assert(!is_ours(files[i]));
        }
        if taken(files, path) {
            let i = choose|i: int|
                0 <= i < files.len() && (#[trigger] files[i]).path@ == path && !is_ours(files[i]);
            assert(!(files[i].text is Some && has_part(
                files[i].text->0@,
                "# Installed by drey."@,
            )));
        }
    }
    let a = wrapper_changes(force, exe, bin_dir, first, files, stamp);
    let b = wrapper_changes(force, exe, bin_dir, second, files, stamp);
    let all = wrapper_changes(force, exe, bin_dir, first + second, files, stamp);
    if second.len() == 0 {
        assert(first + second =~= first);
        assert(a + b =~= a);
    } else {
        assert((first + second).drop_last() =~= first + second.drop_last());
        assert((first + second).last() == second.last());
        lemma_wrappers_are_written(
            server,
            first,
            second.drop_last(),
            force,
            exe,
            bin_dir,
            files,
            stamp,
        );
        assert(all =~= a + b);
    }
}

/// Startup files are looked at one by one, in order. Installing appends the block to one that
/// lacks it and creates one that is missing; uninstalling takes the block out of one that has
/// it; and any other is left alone.
pub proof fn lemma_startup_files_are_changed(
    rc: File,
    first: Seq<File>,
    second: Seq<File>,
    stamp: Seq<char>,
)
    ensures
        rc_added(first + second, stamp) == rc_added(first, stamp) + rc_added(second, stamp),
        rc_removed(first + second, stamp) == rc_removed(first, stamp) + rc_removed(second, stamp),
        rc_added(Seq::empty(), stamp).len() == 0,
        rc_removed(Seq::empty(), stamp).len() == 0,
        ({
            let added = rc_added(seq![rc], stamp);
            let removed = rc_removed(seq![rc], stamp);
            match rc.text {
                None => {
                    &&& removed.len() == 0
                    &&& added.len() == 1
                    &&& added[0] == (ChangeView::Write {
                        path: rc.path@,
                        text: with_block(Seq::empty()),
                        executable: false,
                    })
                },
                Some(text) => if has_part(text@, "# >>> drey >>>"@) {
                    &&& added.len() == 0
                    &&& removed.len() == 2
                    &&& removed[1] == (ChangeView::Write {
                        path: rc.path@,
                        text: without_block(text@),
                        executable: false,
                    })
                } else {
                    &&& removed.len() == 0
                    &&& added.len() == 2
                    &&& added[1] == (ChangeView::Write {
                        path: rc.path@,
                        text: with_block(text@),
                        executable: false,
                    })
                },
            }
        }),
    decreases second.len(),
{
    let one = seq![rc];
    assert(one.drop_last() =~= Seq::empty());
    assert(one.last() == rc);
    reveal_with_fuel(rc_added, 2);
    reveal_with_fuel(rc_removed, 2);
    let all = first + second;
    if second.len() == 0 {
        assert(all =~= first);
        assert(rc_added(first, stamp) + rc_added(second, stamp) =~= rc_added(first, stamp));
        assert(rc_removed(first, stamp) + rc_removed(second, stamp) =~= rc_removed(first, stamp));
    } else {
        assert(all.drop_last() =~= first + second.drop_last());
        assert(all.last() == second.last());
        lemma_startup_files_are_changed(rc, first, second.drop_last(), stamp);
        assert(rc_added(all, stamp) =~= rc_added(first, stamp) + rc_added(second, stamp));
        assert(rc_removed(all, stamp) =~= rc_removed(first, stamp) + rc_removed(second, stamp));
    }
}

/// Installing writes the config, makes the wrapper directory, writes the wrappers, and changes
/// the startup files, in this order; uninstalling removes the wrappers and changes the startup
/// files.
pub proof fn lemma_what_is_changed(s: Setup, force: bool, files: Seq<File>, rcs: Seq<File>)
    ensures
        ({
            let all = s.installed(force);
            let found = found_views(s.found@);
            let wrappers = wrapper_changes(
                force,
                s.exe@,
                s.bin_dir@,
                found,
                s.wrappers@,
                s.stamp@,
            );
            let rest = rc_added(s.rcs@, s.stamp@);
            let n = all.len() - rest.len() - wrappers.len() - 1;
            &&& n > 0
            &&& all[n - 1] == (ChangeView::Write {
                path: s.config@,
                text: config_text(found),
                executable: false,
            })
            &&& all[n] == (ChangeView::MakeDir { path: s.bin_dir@ })
            &&& all.subrange(n + 1, n + 1 + wrappers.len()) == wrappers
            &&& all.skip(n + 1 + wrappers.len()) == rest
        }),
        ({
            let all = uninstalled(files, rcs, s.stamp@);
            let rest = rc_removed(rcs, s.stamp@);
            &&& all.len() >= rest.len()
            &&& all.skip(all.len() - rest.len()) == rest
        }),
{
    let all = s.installed(force);
    let found = found_views(s.found@);
    let wrappers = wrapper_changes(force, s.exe@, s.bin_dir@, found, s.wrappers@, s.stamp@);
    let rest = rc_added(s.rcs@, s.stamp@);
    let n = all.len() - rest.len() - wrappers.len() - 1;
    assert(all.subrange(n + 1, n + 1 + wrappers.len()) =~= wrappers);
    assert(all.skip(n + 1 + wrappers.len()) =~= rest);
    let gone = uninstalled(files, rcs, s.stamp@);
    let last = rc_removed(rcs, s.stamp@);
    assert(gone.skip(gone.len() - last.len()) =~= last);
}

/// What is said of an installation says of every wrapper that is not written that it is
/// skipped, and how many are written; and of every startup file, in order, what becomes of it.
pub proof fn lemma_report_of_skipped(
    server: FoundView,
    first: Seq<FoundView>,
    second: Seq<FoundView>,
    force: bool,
    bin_dir: Seq<char>,
    files: Seq<File>,
)
    ensures
        skipped_lines(force, bin_dir, first + second, files) == skipped_lines(
            force,
            bin_dir,
            first,
            files,
        ) + skipped_lines(force, bin_dir, second, files),
        skipped_lines(force, bin_dir, Seq::empty(), files).len() == 0,
        ({
            let l = skipped_lines(force, bin_dir, seq![server], files);
            let path = joined_path(bin_dir, server.name);
            if !force && taken(files, path) {
                l.len() == 1 && has_part(l[0], path) && has_part(l[0], "skipping"@)
            } else {
                l.len() == 0
            }
        }),
    decreases second.len(),
{
    let one = seq![server];
    assert(one.drop_last() =~= Seq::empty());
    assert(one.last() == server);
    reveal_with_fuel(skipped_lines, 2);
    let path = joined_path(bin_dir, server.name);
    let end = " (not a drey wrapper; use --force to replace)"@;
    lemma_parts("  skipping "@, path, end);
    reveal_strlit("  skipping ");
    reveal_strlit("skipping");
    reveal_strlit("  ");
    reveal_strlit(" ");
    lemma_parts("  "@, "skipping"@, " "@ + path + end);
    assert("  skipping "@ + path + end =~= "  "@ + "skipping"@ + (" "@ + path + end));
    let a = skipped_lines(force, bin_dir, first, files);
    let b = skipped_lines(force, bin_dir, second, files);
    if second.len() == 0 {
        assert(first + second =~= first);
        assert(a + b =~= a);
    } else {
        assert((first + second).drop_last() =~= first + second.drop_last());
        assert((first + second).last() == second.last());
        lemma_report_of_skipped(server, first, second.drop_last(), force, bin_dir, files);
        assert(skipped_lines(force, bin_dir, first + second, files) =~= a + b);
    }
}

} // verus!
