//! Paths as text, separated by slashes.

use vstd::prelude::*;
use vstd::string::*;
use crate::strings::{
    join, joined, lemma_join_split, lemma_pieces_concat, lemma_pieces_free, lemma_split_join, opt_view, pieces, same,
    same_list, split, views,
};

verus! {

/// Whether the piece at `i` of a path counts: empty pieces do not, nor does a
/// dot, except at the very beginning.
pub open spec fn counts(parts: Seq<Seq<char>>, i: int) -> bool {
    parts[i].len() > 0 && (parts[i] != seq!['.'] || i == 0)
}

/// The pieces that count.
pub open spec fn counted(parts: Seq<Seq<char>>) -> Seq<Seq<char>>
    decreases parts.len(),
{
    if parts.len() == 0 {
        Seq::empty()
    } else {
        let before = counted(parts.drop_last());
        if counts(parts, parts.len() - 1) {
            before.push(parts.last())
        } else {
            before
        }
    }
}

/// Begins at the root.
pub open spec fn absolute(path: Seq<char>) -> bool {
    path.len() > 0 && path[0] == '/'
}

/// The components of a path. Repeated and trailing slashes and inner dots make no
/// difference; the root is a component of its own.
pub open spec fn components(path: Seq<char>) -> Seq<Seq<char>> {
    if absolute(path) {
        seq![seq!['/']] + counted(pieces(path, '/'))
    } else {
        counted(pieces(path, '/'))
    }
}

/// The components without the last one; `None` where the last one is the root or
/// there is none.
pub open spec fn parent_components(path: Seq<char>) -> Option<Seq<Seq<char>>> {
    let c = components(path);
    if c.len() == 0 || (absolute(path) && c.len() == 1) {
        None
    } else {
        Some(c.drop_last())
    }
}

/// Name the same place by the same components.
pub open spec fn same_place(a: Seq<char>, b: Seq<char>) -> bool {
    components(a) == components(b)
}

/// `path` names the directory `dir`, or something below it, by whole components.
pub open spec fn lies_in(path: Seq<char>, dir: Seq<char>) -> bool {
    same_place(path, dir) || (components(dir).len() > 0 && components(dir).is_prefix_of(
        components(path),
    ))
}

/// `part` under `base`; an absolute `part` stands alone.
pub open spec fn joined_path(base: Seq<char>, part: Seq<char>) -> Seq<char> {
    if absolute(part) {
        part
    } else if base.len() == 0 || base.last() == '/' {
        base + part
    } else {
        base.push('/') + part
    }
}

/// Where the last piece that counts stands.
pub open spec fn last_counted(parts: Seq<Seq<char>>) -> Option<int>
    decreases parts.len(),
{
    if parts.len() == 0 {
        None
    } else if counts(parts, parts.len() - 1) {
        Some(parts.len() - 1)
    } else {
        last_counted(parts.drop_last())
    }
}

/// The path without its final component, and without what stood between that and the one
/// before it; `None` for the root and for the empty path.
pub open spec fn path_parent(path: Seq<char>) -> Option<Seq<char>> {
    let parts = pieces(path, '/');
    match last_counted(parts) {
        None => None,
        Some(n) => match last_counted(parts.take(n)) {
            Some(k) => Some(joined(parts.take(k + 1), seq!['/'])),
            None => Some(
                if absolute(path) {
                    seq!['/']
                } else {
                    Seq::empty()
                },
            ),
        },
    }
}

fn is_absolute(path: &str) -> (r: bool)
    ensures
        r == absolute(path@),
{
    path.unicode_len() > 0 && path.get_char(0) == '/'
}

/// The components of a path.
pub fn components_of(path: &str) -> (r: Vec<String>)
    ensures
        views(r@) == components(path@),
{
    let parts = split(path, '/');
    let ghost p = views(parts@);
    let mut out: Vec<String> = Vec::new();
    if is_absolute(path) {
        out.push("/".to_owned());
    }
    let ghost head = views(out@);
    proof {
        reveal_strlit("/");
        reveal_strlit(".");
        assert("."@ =~= seq!['.']);
        if absolute(path@) {
            assert(head =~= seq![seq!['/']]) by {
                assert(head[0] =~= seq!['/']);
            }
        } else {
            assert(head =~= Seq::empty());
        }
        assert(head =~= head + counted(p.take(0)));
    }
    let mut i: usize = 0;
    while i < parts.len()
        invariant
            i <= parts@.len(),
            p == views(parts@),
            "."@ == seq!['.'],
            views(out@) == head + counted(p.take(i as int)),
        decreases parts@.len() - i,
    {
        let ghost held = views(out@);
        assert(p.take(i + 1).drop_last() =~= p.take(i as int));
        assert(p[i as int] == parts@[i as int]@);
        if parts[i].as_str().unicode_len() > 0 && (i == 0 || !same(parts[i].as_str(), ".")) {
            out.push(parts[i].clone());
            assert(views(out@) =~= held.push(p[i as int]));
        }
        assert(views(out@) =~= head + counted(p.take(i + 1)));
        i += 1;
    }
    assert(p.take(i as int) =~= p);
    assert(views(out@) =~= components(path@));
    out
}

/// Whether two paths name the same place by the same components.
pub fn same_path(a: &str, b: &str) -> (r: bool)
    ensures
        r == same_place(a@, b@),
{
    same_list(&components_of(a), &components_of(b))
}

/// Whether `path` names the directory `dir`, or something below it.
pub fn is_inside(path: &str, dir: &str) -> (r: bool)
    ensures
        r == lies_in(path@, dir@),
{
    let inner = components_of(path);
    let outer = components_of(dir);
    let ghost a = components(path@);
    let ghost b = components(dir@);
    if outer.len() == 0 {
        assert(a.len() == 0 ==> a =~= b);
        return inner.len() == 0;
    }
    if inner.len() < outer.len() {
        assert(a.len() < b.len());
        return false;
    }
    let mut i: usize = 0;
    while i < outer.len()
        invariant
            i <= outer@.len() <= inner@.len(),
            a == views(inner@),
            b == views(outer@),
            a == components(path@),
            b == components(dir@),
            forall|k: int| 0 <= k < i ==> (#[trigger] b[k]) == a[k],
        decreases outer@.len() - i,
    {
        if !same(inner[i].as_str(), outer[i].as_str()) {
            assert(b[i as int] != a[i as int]);
            assert(b[i as int] != a.subrange(0, b.len() as int)[i as int]);
            return false;
        }
        i += 1;
    }
    assert(b =~= a.subrange(0, b.len() as int));
    true
}

/// `part` under `base`.
pub fn join_path(base: &str, part: &str) -> (r: String)
    ensures
        r@ == joined_path(base@, part@),
{
    if is_absolute(part) {
        return part.to_owned();
    }
    let mut r = base.to_owned();
    let n = base.unicode_len();
    if n > 0 && base.get_char(n - 1) != '/' {
        r.push('/');
    }
    r.append(part);
    r
}

/// What `last_counted` finds.
proof fn lemma_last_counted(parts: Seq<Seq<char>>)
    ensures
        match last_counted(parts) {
            Some(n) => 0 <= n < parts.len() && counts(parts, n) && counted(parts) == counted(
                parts.take(n + 1),
            ),
            None => counted(parts).len() == 0,
        },
    decreases parts.len(),
{
    if parts.len() > 0 {
        let rest = parts.drop_last();
        if counts(parts, parts.len() - 1) {
            assert(parts.take(parts.len() as int) =~= parts);
        } else {
            lemma_last_counted(rest);
            if last_counted(rest) is Some {
                let n = last_counted(rest)->0;
                assert(rest.take(n + 1) =~= parts.take(n + 1));
                assert(counts(parts, n));
            }
        }
    }
}

/// Fewer pieces make a shorter text.
proof fn lemma_joined_shorter(parts: Seq<Seq<char>>, k: int)
    requires
        0 < k < parts.len(),
    ensures
        joined(parts.take(k), seq!['/']).len() < joined(parts, seq!['/']).len(),
    decreases parts.len(),
{
    let rest = parts.drop_last();
    if k < rest.len() {
        lemma_joined_shorter(rest, k);
        assert(rest.take(k) =~= parts.take(k));
    } else {
        assert(rest =~= parts.take(k));
    }
}

/// A text begins as its first piece does.
proof fn lemma_first_piece(path: Seq<char>)
    ensures
        pieces(path, '/').len() > 0,
        pieces(path, '/').len() == 1 ==> pieces(path, '/')[0] == path,
        absolute(path) <==> pieces(path, '/').len() > 1 && pieces(path, '/')[0].len() == 0,
    decreases path.len(),
{
    if path.len() > 0 {
        let rest = path.drop_last();
        lemma_first_piece(rest);
        assert(rest.push(path.last()) =~= path);
        if rest.len() > 0 {
            assert(rest[0] == path[0]);
        }
    } else {
        assert(pieces(path, '/')[0] =~= path);
    }
}

/// The parent has the components of the path without the last one, and is shorter.
pub proof fn lemma_parent(path: Seq<char>)
    ensures
        match path_parent(path) {
            Some(p) => parent_components(path) == Some(components(p)) && p.len() < path.len(),
            None => parent_components(path) is None,
        },
{
    let parts = pieces(path, '/');
    lemma_last_counted(parts);
    lemma_first_piece(path);
    lemma_split_join(path, '/');
    lemma_pieces_free(path, '/');
    if last_counted(parts) is Some {
        let n = last_counted(parts)->0;
        let before = parts.take(n);
        assert(parts.take(n + 1).drop_last() =~= before);
        assert(counted(parts) == counted(before).push(parts[n]));
        lemma_last_counted(before);
        match last_counted(before) {
            Some(k) => {
                let left = parts.take(k + 1);
                assert(before.take(k + 1) =~= left);
                assert forall|i: int| 0 <= i < left.len() implies !(#[trigger] left[i]).contains(
                    '/',
                ) by {
                    assert(left[i] == parts[i]);
                }
                lemma_join_split(left, '/');
                let p = joined(left, seq!['/']);
                lemma_first_piece(p);
                lemma_joined_shorter(parts, k + 1);
                assert(counted(before) == counted(left));
                assert(counted(parts).drop_last() =~= counted(left));
                if absolute(path) {
                    assert(parts[0].len() == 0);
                    assert(k > 0);
                    assert(left[0] == parts[0]);
                    assert(absolute(p));
                    assert(components(path).drop_last() =~= components(p));
                } else {
                    assert(!absolute(p)) by {
                        if absolute(p) {
                            assert(left[0] == parts[0]);
                        }
                    }
                    assert(components(path).drop_last() =~= components(p));
                }
            },
            None => {
                assert(counted(parts).drop_last() =~= Seq::empty());
                if absolute(path) {
                    let root = seq!['/'];
                    lemma_root();
                    assert(components(path).drop_last() =~= seq![root]);
                    assert(parts[n].len() > 0);
                    lemma_joined_longer(parts, n);
                } else {
                    let none = Seq::<char>::empty();
                    assert(components(none) =~= Seq::empty()) by {
                        assert(pieces(none, '/') =~= seq![none]);
                        lemma_blank();
                    }
                    assert(components(path).drop_last() =~= Seq::empty());
                    assert(path.len() > 0) by {
                        if path.len() == 0 {
                            assert(parts =~= seq![none]);
                        }
                    }
                }
            },
        }
    } else {
        assert(counted(parts) =~= Seq::empty());
        if absolute(path) {
            assert(components(path).len() == 1);
        }
    }
}

proof fn lemma_blank()
    ensures
        counted(seq![Seq::<char>::empty()]).len() == 0,
{
    let one = seq![Seq::<char>::empty()];
    assert(one.drop_last() =~= Seq::empty());
    reveal_with_fuel(counted, 2);
}

pub proof fn lemma_root()
    ensures
        components(seq!['/']) == seq![seq!['/']],
{
    let root = seq!['/'];
    let blank = Seq::<char>::empty();
    assert(root.drop_last() =~= blank);
    reveal_with_fuel(pieces, 2);
    assert(pieces(root, '/') =~= seq![blank, blank]);
    let two = seq![blank, blank];
    assert(two.drop_last() =~= seq![blank]);
    lemma_blank();
    assert(counted(two) =~= Seq::empty());
    assert(components(root) =~= seq![root]);
}

/// A text is at least as long as one of its pieces and the separators before it.
proof fn lemma_joined_longer(parts: Seq<Seq<char>>, n: int)
    requires
        0 <= n < parts.len(),
    ensures
        joined(parts, seq!['/']).len() >= n + parts[n].len(),
    decreases parts.len(),
{
    let rest = parts.drop_last();
    if parts.len() > 1 {
        if n < rest.len() {
            lemma_joined_longer(rest, n);
            assert(rest[n] == parts[n]);
        } else {
            lemma_joined_longer(rest, n - 1);
        }
    }
}

fn find_last_counted(parts: &Vec<String>, end: usize) -> (r: Option<usize>)
    requires
        end <= parts@.len(),
    ensures
        match r {
            Some(i) => i < end && last_counted(views(parts@).take(end as int)) == Some(i as int),
            None => last_counted(views(parts@).take(end as int)) is None,
        },
{
    proof {
        reveal_strlit(".");
        assert("."@ =~= seq!['.']);
    }
    let ghost p = views(parts@);
    let mut i: usize = end;
    while i > 0
        invariant
            i <= end,
            end <= parts@.len(),
            p == views(parts@),
            "."@ == seq!['.'],
            last_counted(p.take(end as int)) == last_counted(p.take(i as int)),
        decreases i,
    {
        assert(p.take(i as int).drop_last() =~= p.take(i - 1));
        assert(p.take(i as int)[i - 1] == parts@[i - 1]@);
        let part = parts[i - 1].as_str();
        if part.unicode_len() > 0 && (i == 1 || !same(part, ".")) {
            return Some(i - 1);
        }
        i -= 1;
    }
    None
}

/// The path without its final component.
pub fn parent(path: &str) -> (r: Option<String>)
    ensures
        opt_view(r) == path_parent(path@),
        match r {
            Some(p) => parent_components(path@) == Some(components(p@)) && p@.len() < path@.len(),
            None => parent_components(path@) is None,
        },
{
    proof {
        lemma_parent(path@);
        reveal_strlit("/");
        assert("/"@ =~= seq!['/']);
    }
    let parts = split(path, '/');
    let ghost p = views(parts@);
    assert(p.take(p.len() as int) =~= p);
    assert(p.len() == parts@.len());
    let n = match find_last_counted(&parts, parts.len()) {
        Some(n) => n,
        None => return None,
    };
    match find_last_counted(&parts, n) {
        Some(k) => {
            let mut left: Vec<String> = Vec::new();
            let mut i: usize = 0;
            assert(views(left@) =~= p.take(0));
            let end: usize = k + 1;
            while i < end
                invariant
                    i <= end,
                    end <= parts@.len(),
                    p == views(parts@),
                    views(left@) == p.take(i as int),
                decreases end - i,
            {
                let ghost held = views(left@);
                left.push(parts[i].clone());
                assert(views(left@) =~= held.push(parts@[i as int]@));
                assert(views(left@) =~= p.take(i + 1));
                i += 1;
            }
            Some(join(&left, "/"))
        },
        None => if is_absolute(path) {
            Some("/".to_owned())
        } else {
            Some(String::new())
        },
    }
}

/// What follows a slash leaves the pieces before it alone.
proof fn lemma_pieces_before(path: Seq<char>, rest: Seq<char>)
    ensures
        pieces(path.push('/') + rest, '/').len() > pieces(path, '/').len(),
        pieces(path.push('/') + rest, '/').take(pieces(path, '/').len() as int) == pieces(
            path,
            '/',
        ),
    decreases rest.len(),
{
    let all = path.push('/') + rest;
    let n = pieces(path, '/').len() as int;
    if rest.len() == 0 {
        assert(all =~= path.push('/'));
        assert(all.drop_last() =~= path);
        assert(pieces(all, '/').take(n) =~= pieces(path, '/'));
    } else {
        lemma_pieces_before(path, rest.drop_last());
        assert(all.drop_last() =~= path.push('/') + rest.drop_last());
        assert(all.last() == rest.last());
        assert(pieces(all, '/').take(n) =~= pieces(all.drop_last(), '/').take(n));
    }
}

/// The pieces that count among the first `n` are the first of those that count.
proof fn lemma_counted_before(parts: Seq<Seq<char>>, n: int)
    requires
        0 <= n <= parts.len(),
    ensures
        counted(parts.take(n)).is_prefix_of(counted(parts)),
    decreases parts.len(),
{
    if n == parts.len() {
        assert(parts.take(n) =~= parts);
        assert(counted(parts) =~= counted(parts).subrange(0, counted(parts).len() as int));
    } else {
        lemma_counted_before(parts.drop_last(), n);
        assert(parts.drop_last().take(n) =~= parts.take(n));
        let a = counted(parts.take(n));
        let b = counted(parts.drop_last());
        let c = counted(parts);
        assert(a =~= c.subrange(0, a.len() as int)) by {
            assert forall|i: int| 0 <= i < a.len() implies a[i] == c[i] by {
                assert(b.subrange(0, a.len() as int)[i] == b[i]);
            }
        }
    }
}

/// A directory lies in itself, however many slashes follow it, and so does everything below
/// it.
pub proof fn lemma_lies_in(dir: Seq<char>, rest: Seq<char>)
    requires
        dir.len() > 0,
    ensures
        same_place(dir.push('/'), dir),
        lies_in(dir.push('/') + rest, dir),
{
    let path = dir.push('/') + rest;
    let parts = pieces(path, '/');
    let n = pieces(dir, '/').len() as int;
    lemma_pieces_before(dir, rest);
    lemma_counted_before(parts, n);
    assert(path[0] == dir[0]);
    let a = components(dir);
    let b = components(path);
    let head = counted(pieces(dir, '/'));
    assert forall|i: int| 0 <= i < head.len() implies head[i] == counted(parts)[i] by {
        assert(counted(parts).subrange(0, head.len() as int)[i] == counted(parts)[i]);
    }
    assert(a =~= b.subrange(0, a.len() as int));
    assert(dir.push('/').drop_last() =~= dir);
    assert(pieces(dir.push('/'), '/').drop_last() =~= pieces(dir, '/'));
    assert(components(dir.push('/')) =~= components(dir));
    lemma_has_components(dir);
}

/// A name under a directory adds itself to the directory's components, whichever way the
/// directory's end is written.
pub proof fn lemma_join_components(dir: Seq<char>, name: Seq<char>)
    requires
        dir.len() > 0,
        name.len() > 0,
        !name.contains('/'),
        name != seq!['.'],
    ensures
        components(joined_path(dir, name)) == components(dir).push(name),
{
    assert(name.contains(name[0]));
    let one = seq![name];
    assert(joined(one, seq!['/']) == name);
    lemma_join_split(one, '/');
    let base = if dir.last() == '/' {
        dir.drop_last()
    } else {
        dir
    };
    let path = joined_path(dir, name);
    assert(path =~= base.push('/') + name);
    lemma_pieces_concat(base, '/', name);
    let parts = pieces(path, '/');
    assert(parts =~= pieces(base, '/').push(name));
    lemma_first_piece(base);
    assert(parts.drop_last() =~= pieces(base, '/'));
    assert(counts(parts, parts.len() - 1));
    assert(counted(parts) == counted(pieces(base, '/')).push(name));
    assert(path[0] == dir[0]);
    if dir.last() == '/' {
        assert(dir.drop_last() == base);
        assert(pieces(dir, '/').drop_last() =~= pieces(base, '/'));
        assert(pieces(dir, '/').last().len() == 0);
        assert(counted(pieces(dir, '/')) == counted(pieces(base, '/')));
    }
    assert(components(path) =~= components(dir).push(name));
}

/// Every path but the empty one has a component.
pub proof fn lemma_has_components(path: Seq<char>)
    ensures
        components(path).len() > 0 <==> path.len() > 0,
{
    if path.len() == 0 {
        lemma_blank();
        assert(path =~= Seq::empty());
    } else if !absolute(path) {
        let own = pieces(path, '/');
        lemma_first_piece(path);
        lemma_counted_before(own, 1);
        assert(counted(own.take(1).drop_last()).len() == 0);
        assert(counts(own.take(1), 0));
        assert(counted(own.take(1)).len() == 1);
    }
}

/// A bare name stands in no directory.
pub proof fn lemma_bare_names(name: Seq<char>)
    requires
        name.len() > 0,
        !name.contains('/'),
    ensures
        path_parent(name) == Some(Seq::<char>::empty()),
{
    let one = seq![name];
    assert(joined(one, seq!['/']) == name);
    lemma_join_split(one, '/');
    assert(counts(one, 0));
    assert(last_counted(one) == Some(0int));
    assert(last_counted(one.take(0)) is None);
    assert(name.contains(name[0]));
}

/// A path is absolute where its first component is the root.
pub proof fn lemma_absolute(path: Seq<char>)
    ensures
        absolute(path) <==> components(path).len() > 0 && components(path)[0] == seq!['/'],
{
    if !absolute(path) && components(path).len() > 0 {
        let parts = pieces(path, '/');
        lemma_pieces_free(path, '/');
        lemma_counted_are_pieces(parts);
        let first = components(path)[0];
        let i = choose|i: int| 0 <= i < parts.len() && parts[i] == first;
        assert(!parts[i].contains('/'));
        if first == seq!['/'] {
            assert(first[0] == '/');
            assert(first.contains('/'));
        }
    }
}

proof fn lemma_counted_are_pieces(parts: Seq<Seq<char>>)
    ensures
        forall|i: int| 0 <= i < counted(parts).len() ==> parts.contains(#[trigger] counted(parts)[i]),
    decreases parts.len(),
{
    if parts.len() > 0 {
        let rest = parts.drop_last();
        let before = counted(rest);
        let all = counted(parts);
        lemma_counted_are_pieces(rest);
        assert forall|i: int| 0 <= i < all.len() implies parts.contains(#[trigger] all[i]) by {
            if i < before.len() {
                assert(all[i] == before[i]);
                let k = choose|k: int| 0 <= k < rest.len() && rest[k] == before[i];
                assert(parts[k] == all[i]);
            } else {
                assert(parts[parts.len() - 1] == all[i]);
            }
        }
    }
}

/// A part is put after the base, with one slash between them; an absolute part stands alone.
pub proof fn lemma_join_text(base: Seq<char>, part: Seq<char>)
    ensures
        part.len() > 0 && part[0] == '/' ==> joined_path(base, part) == part,
        base.len() > 0 && base.last() != '/' && (part.len() == 0 || part[0] != '/') ==> joined_path(
            base,
            part,
        ) == base + seq!['/'] + part,
        base.len() > 0 && base.last() == '/' && (part.len() == 0 || part[0] != '/') ==> joined_path(
            base,
            part,
        ) == base + part,
{
    assert(base.push('/') =~= base + seq!['/']);
}

/// A directory whose name merely begins alike lies elsewhere.
pub proof fn lemma_siblings_lie_elsewhere(dir: Seq<char>, name: Seq<char>, other: Seq<char>)
    requires
        dir.len() > 0,
        name.len() > 0,
        other.len() > 0,
        name != other,
        !name.contains('/'),
        !other.contains('/'),
        name != seq!['.'],
        other != seq!['.'],
    ensures
        !lies_in(joined_path(dir, other), joined_path(dir, name)),
{
    lemma_join_components(dir, name);
    lemma_join_components(dir, other);
    let a = components(joined_path(dir, name));
    let b = components(joined_path(dir, other));
    assert(a.last() == name && b.last() == other);
    if a.is_prefix_of(b) {
        assert(b.subrange(0, a.len() as int) =~= b);
    }
}

/// A piece that is empty, or a dot that is not the first, does not count, wherever it stands.
proof fn lemma_uncounted(a: Seq<Seq<char>>, x: Seq<char>, b: Seq<Seq<char>>)
    requires
        a.len() > 0,
        x.len() == 0 || x == seq!['.'],
    ensures
        counted(a + seq![x] + b) == counted(a + b),
    decreases b.len(),
{
    let with = a + seq![x] + b;
    let without = a + b;
    if b.len() == 0 {
        assert(with.drop_last() =~= a);
        assert(with.last() == x);
        assert(without =~= a);
    } else {
        let rest = b.drop_last();
        lemma_uncounted(a, x, rest);
        assert(with.drop_last() =~= a + seq![x] + rest);
        assert(without.drop_last() =~= a + rest);
        assert(with.last() == b.last() && without.last() == b.last());
        assert(counts(with, with.len() - 1) == counts(without, without.len() - 1));
    }
}

/// Repeated slashes and inner dots make no difference.
pub proof fn lemma_slashes_and_dots(dir: Seq<char>, rest: Seq<char>)
    requires
        dir.len() > 0,
    ensures
        same_place(dir + seq!['/', '/'] + rest, dir + seq!['/'] + rest),
        same_place(dir + seq!['/', '.', '/'] + rest, dir + seq!['/'] + rest),
{
    let none = Seq::<char>::empty();
    let dot = seq!['.'];
    let a = pieces(dir, '/');
    let b = pieces(rest, '/');
    lemma_first_piece(dir);
    let one = dir + seq!['/'] + rest;
    let two = dir + seq!['/', '/'] + rest;
    let three = dir + seq!['/', '.', '/'] + rest;
    assert(one =~= dir.push('/') + rest);
    lemma_pieces_concat(dir, '/', rest);
    let more = none.push('/') + rest;
    assert(two =~= dir.push('/') + more);
    lemma_pieces_concat(dir, '/', more);
    lemma_pieces_concat(none, '/', rest);
    assert(pieces(none, '/') == seq![none]);
    assert(pieces(two, '/') =~= a + seq![none] + b);
    lemma_uncounted(a, none, b);
    let dotted = dot.push('/') + rest;
    assert(three =~= dir.push('/') + dotted);
    lemma_pieces_concat(dir, '/', dotted);
    lemma_pieces_concat(dot, '/', rest);
    let list = seq![dot];
    assert(joined(list, seq!['/']) == dot);
    assert(!dot.contains('/'));
    lemma_join_split(list, '/');
    assert(pieces(three, '/') =~= a + seq![dot] + b);
    lemma_uncounted(a, dot, b);
    assert(one[0] == dir[0] && two[0] == dir[0] && three[0] == dir[0]);
}

} // verus!
