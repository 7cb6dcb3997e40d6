//! The marked block in shell startup files that puts the wrappers on `PATH`.

use vstd::prelude::*;
use vstd::string::*;
use crate::paths::{join_path, joined_path};
use crate::strings::{
    begins_with, chars_of, contains, free_of, has_part, join, joined, lemma_join_split,
    lemma_pieces_free, lemma_split_join, list1, none, opt_str_view, pieces, same, split, text_of,
    views,
};

verus! {

pub const MARK_BEGIN: &'static str = "# >>> drey >>>";

pub const MARK_END: &'static str = "# <<< drey <<<";

/// What the block says about itself.
pub const BLOCK_NOTE: &'static str =
    "# Shared language servers. Remove this block to disable drey.";

/// What the block does.
pub const BLOCK_EXPORT: &'static str = "export PATH=\"$HOME/.drey/bin:$PATH\"";

// ---- lines --------------------------------------------------------------

/// A line without the carriage return at its end.
pub open spec fn without_return(line: Seq<char>) -> Seq<char> {
    if line.len() > 0 && line.last() == '\r' {
        line.drop_last()
    } else {
        line
    }
}

/// The lines of a text, which end in a line feed or a carriage return and a line feed. The
/// end of the last one may be missing.
pub open spec fn lines(s: Seq<char>) -> Seq<Seq<char>> {
    let p = pieces(s, '\n');
    let ended = Seq::new((p.len() - 1) as nat, |i: int| without_return(p[i]));
    if p.last().len() == 0 {
        ended
    } else {
        ended.push(p.last())
    }
}

/// The lines of a text.
pub fn lines_of(s: &str) -> (r: Vec<String>)
    ensures
        views(r@) == lines(s@),
{
    let parts = split(s, '\n');
    let ghost p = views(parts@);
    proof {
        lemma_pieces_free(s@, '\n');
        assert(p.len() == parts@.len());
    }
    let mut out: Vec<String> = Vec::new();
    let mut i: usize = 0;
    while i < parts.len() - 1
        invariant
            i <= parts@.len() - 1,
            p == views(parts@),
            out@.len() == i,
            forall|k: int| 0 <= k < i ==> (#[trigger] out@[k])@ == without_return(p[k]),
        decreases parts@.len() - i,
    {
        assert(p[i as int] == parts@[i as int]@);
        let chars = chars_of(parts[i].as_str());
        let n = chars.len();
        let end: usize = if n > 0 && chars[n - 1] == '\r' {
            n - 1
        } else {
            n
        };
        let line = text_of(&chars, 0, end);
        assert(line@ =~= without_return(p[i as int]));
        out.push(line);
        i += 1;
    }
    let ghost ended = Seq::new((p.len() - 1) as nat, |i: int| without_return(p[i]));
    assert(views(out@) =~= ended);
    assert(p.last() == parts@[i as int]@);
    if parts[i].as_str().unicode_len() > 0 {
        out.push(parts[i].clone());
        assert(views(out@) =~= ended.push(p.last()));
    }
    out
}

// ---- appending ----------------------------------------------------------

/// A text with the block after it.
pub open spec fn with_block(existing: Seq<char>) -> Seq<char> {
    existing + "\n"@ + MARK_BEGIN@ + "\n"@ + BLOCK_NOTE@ + "\n"@ + BLOCK_EXPORT@ + "\n"@
        + MARK_END@ + "\n"@
}

/// Pure form of the append, so the shape of the block is testable without a real home
/// directory.
pub fn append_path_block(existing: &str) -> (r: String)
    ensures
        r@ == with_block(existing@),
{
    let mut r = existing.to_owned();
    r.append("\n");
    r.append(MARK_BEGIN);
    r.append("\n");
    r.append(BLOCK_NOTE);
    r.append("\n");
    r.append(BLOCK_EXPORT);
    r.append("\n");
    r.append(MARK_END);
    r.append("\n");
    r
}

/// What a startup file is to hold, if it is to change: the block is appended unless it is
/// already there.
pub fn add_path_block(text: Option<&str>) -> (r: Option<String>)
    ensures
        match text {
            Some(t) => if has_part(t@, MARK_BEGIN@) {
                r is None
            } else {
                r is Some && r->0@ == with_block(t@)
            },
            None => r is Some && r->0@ == with_block(Seq::empty()),
        },
{
    match text {
        Some(t) => if contains(t, MARK_BEGIN) {
            None
        } else {
            Some(append_path_block(t))
        },
        None => {
            proof {
                reveal_strlit("");
                assert(""@ =~= Seq::empty());
            }
            Some(append_path_block(""))
        },
    }
}

// ---- stripping ----------------------------------------------------------

/// What was kept so far, and whether the block is being skipped.
#[verifier::ext_equal]
pub struct Stripping {
    pub kept: Seq<Seq<char>>,
    pub skipping: bool,
}

/// What is kept of some lines: none from the beginning of a block to its end, nor the blank
/// line before it.
pub open spec fn stripping(l: Seq<Seq<char>>) -> Stripping
    decreases l.len(),
{
    if l.len() == 0 {
        Stripping { kept: Seq::empty(), skipping: false }
    } else {
        let before = stripping(l.drop_last());
        if l.last() == MARK_BEGIN@ {
            Stripping {
                kept: if before.kept.len() > 0 && before.kept.last().len() == 0 {
                    before.kept.drop_last()
                } else {
                    before.kept
                },
                skipping: true,
            }
        } else if l.last() == MARK_END@ {
            Stripping { skipping: false, ..before }
        } else if before.skipping {
            before
        } else {
            Stripping { kept: before.kept.push(l.last()), ..before }
        }
    }
}

/// Lines, each with its end.
pub open spec fn ended(l: Seq<Seq<char>>) -> Seq<char> {
    if l.len() == 0 {
        Seq::empty()
    } else {
        joined(l, seq!['\n']).push('\n')
    }
}

/// A text without the block.
pub open spec fn without_block(existing: Seq<char>) -> Seq<char> {
    ended(stripping(lines(existing)).kept)
}

/// Removes the marked block, and the blank line that preceded it.
pub fn strip_path_block(existing: &str) -> (r: String)
    ensures
        r@ == without_block(existing@),
{
    let list = lines_of(existing);
    let ghost l = views(list@);
    let mut out: Vec<String> = Vec::new();
    let mut skipping = false;
    let mut i: usize = 0;
    assert(views(out@) =~= stripping(l.take(0)).kept);
    while i < list.len()
        invariant
            i <= list@.len(),
            l == views(list@),
            views(out@) == stripping(l.take(i as int)).kept,
            skipping == stripping(l.take(i as int)).skipping,
        decreases list@.len() - i,
    {
        let line = list[i].as_str();
        let ghost held = views(out@);
        proof {
            assert(l.take(i + 1).drop_last() =~= l.take(i as int));
            assert(l.take(i + 1).last() == line@);
        }
        if same(line, MARK_BEGIN) {
            skipping = true;
            let n = out.len();
            if n > 0 && out[n - 1].as_str().unicode_len() == 0 {
                assert(held.last() == out@[n - 1]@);
                out.pop();
                assert(views(out@) =~= held.drop_last());
            } else if n > 0 {
                assert(held.last() == out@[n - 1]@);
            }
        } else if same(line, MARK_END) {
            skipping = false;
        } else if !skipping {
            out.push(list[i].clone());
            assert(views(out@) =~= held.push(line@));
        }
        i += 1;
    }
    assert(l.take(i as int) =~= l);
    if out.len() == 0 {
        let r = String::new();
        assert(views(out@).len() == 0);
        assert(r@ =~= ended(views(out@)));
        return r;
    }
    proof {
        reveal_strlit("\n");
        assert("\n"@ =~= seq!['\n']);
        assert(views(out@).len() > 0);
    }
    let mut text = join(&out, "\n");
    text.push('\n');
    text
}

// ---- which files --------------------------------------------------------

/// The startup files that get the block.
pub open spec fn block_places(
    home: Option<Seq<char>>,
    has_zshenv: bool,
    has_zshrc: bool,
    in_zsh: bool,
) -> Seq<Seq<char>> {
    match home {
        None => Seq::empty(),
        Some(h) => if has_zshenv || has_zshrc || in_zsh {
            seq![joined_path(h, ".zshenv"@), joined_path(h, ".zshrc"@)]
        } else {
            seq![joined_path(h, ".bashrc"@)]
        },
    }
}

/// The startup files that the block is looked for in.
pub open spec fn removal_places(home: Option<Seq<char>>) -> Seq<Seq<char>> {
    match home {
        None => Seq::empty(),
        Some(h) => seq![
            joined_path(h, ".zshenv"@),
            joined_path(h, ".zshrc"@),
            joined_path(h, ".bashrc"@),
            joined_path(h, ".profile"@),
        ],
    }
}

/// The startup files that get the block.
///
/// The block goes in BOTH zsh startup files, and it has to be in both:
///
///   `.zshenv` is read by every zsh, including the non-interactive ones that GUI editors,
///             launchd jobs and scripts use to spawn a language server. `.zshrc` alone would
///             miss all of those.
///   `.zshrc`  is read after `.zshenv` for interactive shells, and version managers (asdf,
///             rbenv, nvm) prepend their own shims there. Without a second prepend
///             afterwards, those shims sit in front of ours again.
///
/// Prepending twice is harmless: the duplicate PATH entry resolves identically.
pub fn rc_files(home: Option<&str>, has_zshenv: bool, has_zshrc: bool, in_zsh: bool) -> (r: Vec<
    String,
>)
    ensures
        views(r@) == block_places(opt_str_view(home), has_zshenv, has_zshrc, in_zsh),
{
    match home {
        None => none(),
        Some(h) => if has_zshenv || has_zshrc || in_zsh {
            crate::strings::list2(
                join_path(h, ".zshenv").as_str(),
                join_path(h, ".zshrc").as_str(),
            )
        } else {
            list1(join_path(h, ".bashrc").as_str())
        },
    }
}

/// The startup files that the block is looked for in. Uninstall looks wider than install
/// writes: an older install, or a different shell at the time, may have left the block
/// somewhere else.
pub fn rc_files_for_removal(home: Option<&str>) -> (r: Vec<String>)
    ensures
        views(r@) == removal_places(opt_str_view(home)),
{
    match home {
        None => none(),
        Some(h) => {
            let mut r = crate::strings::list3(
                join_path(h, ".zshenv").as_str(),
                join_path(h, ".zshrc").as_str(),
                join_path(h, ".bashrc").as_str(),
            );
            let ghost held = views(r@);
            let last = join_path(h, ".profile");
            r.push(last);
            assert(views(r@) =~= held.push(last@));
            r
        },
    }
}

// ---- laws ---------------------------------------------------------------

/// None of the lines begins or ends a block.
pub open spec fn unmarked(l: Seq<Seq<char>>) -> bool {
    forall|i: int| 0 <= i < l.len() ==> (#[trigger] l[i]) != MARK_BEGIN@ && l[i] != MARK_END@
}

/// Every line has its end, and it is a line feed alone.
pub open spec fn plain_ends(s: Seq<char>) -> bool {
    &&& s.len() == 0 || s.last() == '\n'
    &&& forall|i: int|
        0 <= i < s.len() - 1 && #[trigger] s[i] == '\r' ==> s[i + 1] != '\n'
}

proof fn lemma_unmarked_lines_stay(l: Seq<Seq<char>>)
    requires
        unmarked(l),
    ensures
        stripping(l) == (Stripping { kept: l, skipping: false }),
    decreases l.len(),
{
    if l.len() > 0 {
        let before = l.drop_last();
        assert forall|i: int| 0 <= i < before.len() implies (#[trigger] before[i]) != MARK_BEGIN@
            && before[i] != MARK_END@ by {
            assert(l[i] == before[i]);
        }
        lemma_unmarked_lines_stay(before);
        assert(l[l.len() - 1] == l.last());
        assert(stripping(l).kept =~= l);
    }
}

proof fn lemma_pieces_concat(a: Seq<char>, b: Seq<char>)
    ensures
        pieces(a.push('\n') + b, '\n') == pieces(a, '\n') + pieces(b, '\n'),
    decreases b.len(),
{
    let all = a.push('\n') + b;
    lemma_pieces_free(a, '\n');
    lemma_pieces_free(b, '\n');
    if b.len() == 0 {
        assert(all =~= a.push('\n'));
        assert(all.drop_last() =~= a);
        assert(pieces(all, '\n') =~= pieces(a, '\n') + pieces(b, '\n'));
    } else {
        let before = b.drop_last();
        lemma_pieces_concat(a, before);
        lemma_pieces_free(before, '\n');
        assert(all.drop_last() =~= a.push('\n') + before);
        assert(all.last() == b.last());
        assert(pieces(all, '\n') =~= pieces(a, '\n') + pieces(b, '\n'));
    }
}

/// The last piece ends as the text does.
proof fn lemma_last_piece(s: Seq<char>)
    ensures
        pieces(s, '\n').len() > 0,
        pieces(s, '\n').last().len() > 0 ==> s.len() > 0 && s.last() != '\n' && pieces(
            s,
            '\n',
        ).last().last() == s.last(),
        s.len() == 0 || s.last() == '\n' ==> pieces(s, '\n').last().len() == 0,
{
    lemma_pieces_free(s, '\n');
    if s.len() > 0 {
        lemma_pieces_free(s.drop_last(), '\n');
    }
}

/// Without carriage returns before line feeds, no line that has its end ends in one.
proof fn lemma_no_returns(s: Seq<char>)
    requires
        forall|i: int| 0 <= i < s.len() - 1 && #[trigger] s[i] == '\r' ==> s[i + 1] != '\n',
    ensures
        forall|k: int|
            0 <= k < pieces(s, '\n').len() - 1 ==> without_return(#[trigger] pieces(s, '\n')[k])
                == pieces(s, '\n')[k],
    decreases s.len(),
{
    if s.len() > 0 {
        let before = s.drop_last();
        assert forall|i: int| 0 <= i < before.len() - 1 && #[trigger] before[i] == '\r' implies
            before[i + 1] != '\n' by {
            assert(s[i] == '\r');
        }
        lemma_no_returns(before);
        lemma_last_piece(before);
        let p = pieces(before, '\n');
        let all = pieces(s, '\n');
        assert forall|k: int| 0 <= k < all.len() - 1 implies without_return(#[trigger] all[k])
            == all[k] by {
            assert(all[k] == p[k]);
            if k == p.len() - 1 {
                if p[k].len() > 0 && p[k].last() == '\r' {
                    assert(s[s.len() - 2] == '\r');
                }
            }
        }
    }
}

/// The lines of a text whose lines all end in a line feed alone, and the text of those lines.
proof fn lemma_plain_lines(s: Seq<char>)
    requires
        plain_ends(s),
    ensures
        pieces(s, '\n') == lines(s).push(Seq::empty()),
        ended(lines(s)) == s,
{
    lemma_no_returns(s);
    lemma_last_piece(s);
    let p = pieces(s, '\n');
    let l = lines(s);
    assert(l =~= p.drop_last());
    assert(p.last() =~= Seq::empty());
    assert(p =~= l.push(Seq::empty()));
    lemma_split_join(s, '\n');
    assert(p.drop_last() =~= l);
    if l.len() > 0 {
        assert(joined(p, seq!['\n']) =~= joined(l, seq!['\n']).push('\n'));
    } else {
        assert(p.len() == 1);
        assert(s =~= Seq::empty());
    }
}

proof fn lemma_ended_concat(a: Seq<Seq<char>>, b: Seq<Seq<char>>)
    ensures
        ended(a + b) == ended(a) + ended(b),
    decreases b.len(),
{
    if b.len() == 0 {
        assert(a + b =~= a);
        assert(ended(a) + ended(b) =~= ended(a));
    } else if a.len() == 0 {
        assert(a + b =~= b);
        assert(ended(a) + ended(b) =~= ended(b));
    } else {
        let before = b.drop_last();
        lemma_ended_concat(a, before);
        assert((a + b).drop_last() =~= a + before);
        assert((a + b).last() == b.last());
        assert(joined(a + b, seq!['\n']) =~= ended(a + before) + b.last());
        if before.len() == 0 {
            assert(joined(b, seq!['\n']) =~= b.last());
            assert(b =~= seq![b.last()]);
        } else {
            assert(joined(b, seq!['\n']) =~= ended(before) + b.last());
        }
        assert(ended(a + b) =~= ended(a) + ended(b));
    }
}

/// Lines that follow a block which is over are kept as they are.
proof fn lemma_stripping_goes_on(a: Seq<Seq<char>>, b: Seq<Seq<char>>)
    requires
        !stripping(a).skipping,
        unmarked(b),
    ensures
        stripping(a + b) == (Stripping { kept: stripping(a).kept + b, skipping: false }),
    decreases b.len(),
{
    if b.len() == 0 {
        assert(a + b =~= a);
        assert(stripping(a).kept + b =~= stripping(a).kept);
    } else {
        let before = b.drop_last();
        assert forall|i: int| 0 <= i < before.len() implies (#[trigger] before[i]) != MARK_BEGIN@
            && before[i] != MARK_END@ by {
            assert(b[i] == before[i]);
        }
        lemma_stripping_goes_on(a, before);
        assert(b[b.len() - 1] == b.last());
        assert((a + b).drop_last() =~= a + before);
        assert(stripping(a + b).kept =~= stripping(a).kept + b);
    }
}

proof fn lemma_block_lines()
    ensures
        !MARK_BEGIN@.contains('\n'),
        !BLOCK_NOTE@.contains('\n'),
        !BLOCK_EXPORT@.contains('\n'),
        !MARK_END@.contains('\n'),
        MARK_BEGIN@.len() > 0 && MARK_BEGIN@.last() != '\r',
        BLOCK_NOTE@.len() > 0 && BLOCK_NOTE@.last() != '\r',
        BLOCK_EXPORT@.len() > 0 && BLOCK_EXPORT@.last() != '\r',
        MARK_END@.len() > 0 && MARK_END@.last() != '\r',
        MARK_BEGIN@ != MARK_END@,
        BLOCK_NOTE@ != MARK_BEGIN@ && BLOCK_NOTE@ != MARK_END@,
        BLOCK_EXPORT@ != MARK_BEGIN@ && BLOCK_EXPORT@ != MARK_END@,
{
    reveal_strlit("# >>> drey >>>");
    reveal_strlit("# <<< drey <<<");
    reveal_strlit("# Shared language servers. Remove this block to disable drey.");
    reveal_strlit("export PATH=\"$HOME/.drey/bin:$PATH\"");
    assert(MARK_BEGIN@[2] == '>' && MARK_END@[2] == '<');
}

/// A text without line feeds is one piece.
proof fn lemma_one_piece(s: Seq<char>)
    requires
        !s.contains('\n'),
    ensures
        pieces(s, '\n') == seq![s],
{
    let parts = seq![s];
    assert(joined(parts, seq!['\n']) == s);
    assert(free_of(parts, '\n'));
    lemma_join_split(parts, '\n');
}

/// The lines of the block.
pub open spec fn block_lines() -> Seq<Seq<char>> {
    seq![MARK_BEGIN@, BLOCK_NOTE@, BLOCK_EXPORT@, MARK_END@]
}

proof fn lemma_lines_with_block(original: Seq<char>, later: Seq<char>)
    requires
        plain_ends(original),
        plain_ends(later),
    ensures
        lines(with_block(original) + later) == lines(original).push(Seq::empty()) + block_lines()
            + lines(later),
{
    let text = with_block(original) + later;
    reveal_strlit("\n");
    assert("\n"@ =~= seq!['\n']);
    lemma_block_lines();
    lemma_plain_lines(original);
    lemma_plain_lines(later);
    let p = lines(original);
    let t = lines(later);
    let e3 = MARK_END@.push('\n') + later;
    let e2 = BLOCK_EXPORT@.push('\n') + e3;
    let e1 = BLOCK_NOTE@.push('\n') + e2;
    let e0 = MARK_BEGIN@.push('\n') + e1;
    assert(text =~= original.push('\n') + e0);
    lemma_pieces_concat(original, e0);
    lemma_pieces_concat(MARK_BEGIN@, e1);
    lemma_pieces_concat(BLOCK_NOTE@, e2);
    lemma_pieces_concat(BLOCK_EXPORT@, e3);
    lemma_pieces_concat(MARK_END@, later);
    lemma_one_piece(MARK_BEGIN@);
    lemma_one_piece(BLOCK_NOTE@);
    lemma_one_piece(BLOCK_EXPORT@);
    lemma_one_piece(MARK_END@);
    let blank = Seq::<char>::empty();
    let all = pieces(text, '\n');
    let l = p.push(blank) + block_lines() + t;
    assert(all =~= l.push(blank));
    lemma_no_returns(original);
    lemma_no_returns(later);
    assert forall|k: int| 0 <= k < l.len() implies without_return(#[trigger] all[k]) == l[k] by {
        if k < p.len() {
            assert(pieces(original, '\n')[k] == p[k]);
        } else if k > p.len() + 4 {
            assert(pieces(later, '\n')[k - p.len() - 5] == t[k - p.len() - 5]);
        }
    }
    assert(lines(text) =~= l);
}

proof fn lemma_block_is_skipped(p: Seq<Seq<char>>, t: Seq<Seq<char>>)
    requires
        unmarked(p),
        unmarked(t),
    ensures
        stripping(p.push(Seq::empty()) + block_lines() + t).kept == p + t,
{
    lemma_block_lines();
    let first = p.push(Seq::empty());
    assert(unmarked(first));
    lemma_unmarked_lines_stay(first);
    let s1 = first.push(MARK_BEGIN@);
    let s2 = s1.push(BLOCK_NOTE@);
    let s3 = s2.push(BLOCK_EXPORT@);
    let s4 = s3.push(MARK_END@);
    assert(s1.drop_last() =~= first);
    assert(s2.drop_last() =~= s1);
    assert(s3.drop_last() =~= s2);
    assert(s4.drop_last() =~= s3);
    assert(first.drop_last() =~= p);
    assert(stripping(s1).kept == p && stripping(s1).skipping);
    assert(stripping(s2) == stripping(s1));
    assert(stripping(s3) == stripping(s2));
    assert(stripping(s4).kept == p && !stripping(s4).skipping);
    assert(s4 =~= first + block_lines());
    lemma_stripping_goes_on(s4, t);
}

/// Taking the block out again gives the file back as it was before the block was added, with
/// whatever was added after the block. This holds of files whose lines all end in a line feed
/// alone and of which none is a mark of the block.
pub proof fn lemma_stripping_restores(original: Seq<char>, later: Seq<char>)
    requires
        plain_ends(original),
        plain_ends(later),
        unmarked(lines(original)),
        unmarked(lines(later)),
    ensures
        without_block(with_block(original) + later) == original + later,
{
    lemma_lines_with_block(original, later);
    lemma_block_is_skipped(lines(original), lines(later));
    lemma_ended_concat(lines(original), lines(later));
    lemma_plain_lines(original);
    lemma_plain_lines(later);
}

/// A file without the block is left alone, if its lines all end in a line feed alone.
pub proof fn lemma_stripping_leaves_others_alone(original: Seq<char>)
    requires
        plain_ends(original),
        unmarked(lines(original)),
    ensures
        without_block(original) == original,
{
    lemma_plain_lines(original);
    lemma_unmarked_lines_stay(lines(original));
}

/// Whatever file it was, no mark of a block is left in what is kept of it.
pub proof fn lemma_nothing_marked_is_kept(l: Seq<Seq<char>>)
    ensures
        unmarked(stripping(l).kept),
    decreases l.len(),
{
    if l.len() > 0 {
        lemma_nothing_marked_is_kept(l.drop_last());
        let before = stripping(l.drop_last()).kept;
        let kept = stripping(l).kept;
        assert forall|i: int| 0 <= i < kept.len() implies (#[trigger] kept[i]) != MARK_BEGIN@
            && kept[i] != MARK_END@ by {
            if i < before.len() {
                assert(kept[i] == before[i]);
            }
        }
    }
}

/// The block is added once: what was added is found again.
pub proof fn lemma_block_is_added_once(existing: Seq<char>)
    ensures
        has_part(with_block(existing), MARK_BEGIN@),
        begins_with(with_block(existing), existing),
{
    let text = with_block(existing);
    let at = existing.len() + 1;
    reveal_strlit("\n");
    assert(text.skip(at as int).take(MARK_BEGIN@.len() as int) =~= MARK_BEGIN@);
    assert(begins_with(text.skip(at as int), MARK_BEGIN@));
    assert(text.take(existing.len() as int) =~= existing);
}

/// A line that is kept is one of the lines.
proof fn lemma_kept_lines_were_there(l: Seq<Seq<char>>)
    ensures
        forall|i: int| 0 <= i < stripping(l).kept.len() ==> l.contains(#[trigger] stripping(l).kept[i]),
    decreases l.len(),
{
    if l.len() > 0 {
        let rest = l.drop_last();
        lemma_kept_lines_were_there(rest);
        let before = stripping(rest).kept;
        let kept = stripping(l).kept;
        assert(l[l.len() - 1] == l.last());
        assert forall|i: int| 0 <= i < kept.len() implies l.contains(#[trigger] kept[i]) by {
            if i < before.len() {
                assert(kept[i] == before[i]);
                let k = choose|k: int| 0 <= k < rest.len() && rest[k] == before[i];
                assert(l[k] == kept[i]);
            }
        }
    }
}

/// A text without carriage returns has no piece with one.
proof fn lemma_pieces_without_returns(s: Seq<char>)
    requires
        !s.contains('\r'),
    ensures
        free_of(pieces(s, '\n'), '\r'),
    decreases s.len(),
{
    if s.len() > 0 {
        let rest = s.drop_last();
        assert forall|i: int| 0 <= i < rest.len() implies rest[i] != '\r' by {
            assert(s.contains(s[i]));
        }
        lemma_pieces_without_returns(rest);
        lemma_pieces_free(rest, '\n');
        assert(s.contains(s.last()));
        let before = pieces(rest, '\n');
        let all = pieces(s, '\n');
        assert forall|k: int| 0 <= k < all.len() implies !(#[trigger] all[k]).contains('\r') by {
            if k < before.len() {
                assert(!before[k].contains('\r'));
                assert forall|j: int| 0 <= j < all[k].len() implies all[k][j] != '\r' by {
                    if j < before[k].len() {
                        assert(before[k].contains(before[k][j]));
                    }
                }
            }
        }
    } else {
        assert(pieces(s, '\n')[0] =~= Seq::empty());
    }
}

/// Lines that hold neither line ends nor carriage returns are read back from their text.
proof fn lemma_lines_of_ended(l: Seq<Seq<char>>)
    requires
        free_of(l, '\n'),
        free_of(l, '\r'),
    ensures
        lines(ended(l)) == l,
{
    let blank = Seq::<char>::empty();
    if l.len() == 0 {
        assert(lines(ended(l)) =~= l);
    } else {
        let parts = l.push(blank);
        assert(parts.drop_last() =~= l);
        assert(joined(parts, seq!['\n']) =~= ended(l));
        assert forall|i: int| 0 <= i < parts.len() implies !(#[trigger] parts[i]).contains('\n') by {
            if i < l.len() {
                assert(parts[i] == l[i]);
            }
        }
        lemma_join_split(parts, '\n');
        let p = pieces(ended(l), '\n');
        assert(p == parts);
        assert forall|i: int| 0 <= i < l.len() implies without_return(#[trigger] l[i]) == l[i] by {
            if l[i].len() > 0 {
                assert(l[i].contains(l[i].last()));
            }
        }
        assert(lines(ended(l)) =~= l);
    }
}

/// Uninstalling twice does no more than uninstalling once: taking the block out of a text
/// without carriage returns leaves nothing that would be taken out.
pub proof fn lemma_stripping_twice(existing: Seq<char>)
    requires
        !existing.contains('\r'),
    ensures
        without_block(without_block(existing)) == without_block(existing),
{
    let l = lines(existing);
    let kept = stripping(l).kept;
    let p = pieces(existing, '\n');
    lemma_pieces_free(existing, '\n');
    lemma_pieces_without_returns(existing);
    assert forall|k: int| 0 <= k < l.len() implies #[trigger] l[k] == p[k] by {
        assert(!p[k].contains('\r'));
        if p[k].len() > 0 {
            assert(p[k].contains(p[k].last()));
        }
    }
    lemma_kept_lines_were_there(l);
    assert forall|i: int| 0 <= i < kept.len() implies !(#[trigger] kept[i]).contains('\n')
        && !kept[i].contains('\r') by {
        let k = choose|k: int| 0 <= k < l.len() && l[k] == kept[i];
        assert(l[k] == p[k]);
        assert(!p[k].contains('\n') && !p[k].contains('\r'));
    }
    lemma_lines_of_ended(kept);
    lemma_nothing_marked_is_kept(l);
    lemma_unmarked_lines_stay(kept);
}

/// The block is five lines after those that were there: a blank one, then between its marks a
/// note and the line that puts the wrapper directory in front of the search path. This holds
/// of files whose lines all end in a line feed alone.
pub proof fn lemma_block_puts_wrappers_first(original: Seq<char>)
    requires
        plain_ends(original),
    ensures
        ({
            let before = lines(original);
            let after = lines(with_block(original));
            let n = before.len() as int;
            &&& after.len() == n + 5
            &&& after.take(n) == before
            &&& after[n].len() == 0
            &&& after[n + 1] == "# >>> drey >>>"@
            &&& after[n + 2].len() > 0 && after[n + 2][0] == '#'
            &&& after[n + 3] == "export PATH=\"$HOME/.drey/bin:$PATH\""@
            &&& after[n + 4] == "# <<< drey <<<"@
        }),
{
    let none = Seq::<char>::empty();
    lemma_lines_with_block(original, none);
    assert(with_block(original) + none =~= with_block(original));
    let before = lines(original);
    let after = lines(with_block(original));
    reveal_strlit("# Shared language servers. Remove this block to disable drey.");
    assert(pieces(none, '\n') == seq![none]);
    assert(lines(none) =~= Seq::empty());
    assert(after =~= before.push(none) + block_lines());
    assert(after.take(before.len() as int) =~= before);
}

/// Where any of zsh's startup files is there, or zsh is running, both of them get the block,
/// the one for every shell first; otherwise bash's does. Without a home there is none.
/// Uninstalling looks into every file that installing may have written.
pub proof fn lemma_which_startup_files(
    home: Seq<char>,
    has_zshenv: bool,
    has_zshrc: bool,
    in_zsh: bool,
)
    requires
        home.len() > 0,
        home.last() != '/',
    ensures
        ({
            let r = block_places(Some(home), has_zshenv, has_zshrc, in_zsh);
            let all = removal_places(Some(home));
            &&& has_zshenv || has_zshrc || in_zsh ==> r == seq![
                home + "/.zshenv"@,
                home + "/.zshrc"@,
            ]
            &&& !has_zshenv && !has_zshrc && !in_zsh ==> r == seq![home + "/.bashrc"@]
            &&& forall|i: int| 0 <= i < r.len() ==> all.contains(#[trigger] r[i])
            &&& all.contains(home + "/.profile"@)
        }),
        block_places(None, has_zshenv, has_zshrc, in_zsh).len() == 0,
        removal_places(None).len() == 0,
{
    reveal_strlit(".zshenv");
    reveal_strlit(".zshrc");
    reveal_strlit(".bashrc");
    reveal_strlit(".profile");
    reveal_strlit("/.zshenv");
    reveal_strlit("/.zshrc");
    reveal_strlit("/.bashrc");
    reveal_strlit("/.profile");
    assert(home.push('/') + ".zshenv"@ =~= home + "/.zshenv"@);
    assert(home.push('/') + ".zshrc"@ =~= home + "/.zshrc"@);
    assert(home.push('/') + ".bashrc"@ =~= home + "/.bashrc"@);
    assert(home.push('/') + ".profile"@ =~= home + "/.profile"@);
    let all = removal_places(Some(home));
    assert(all[0] == home + "/.zshenv"@);
    assert(all[1] == home + "/.zshrc"@);
    assert(all[2] == home + "/.bashrc"@);
    assert(all[3] == home + "/.profile"@);
}

} // verus!
