//! That settings are told apart by how they are rendered and hashed.

use vstd::prelude::*;
use vstd::string::*;
use vstd::utf8::*;
use crate::daemon::key::{
    canonical, canonical_items, canonical_members, debug_text, hex, hex_char,
    lemma_settings_hash_is_short_hex, settings_hash, sha256,
};
use crate::json::{
    json_text, json_view, lemma_items_view, lemma_member_names, lemma_members_finite,
    members_view, Json, JsonView,
};
use crate::strings::{joined, lemma_sorted_list_exists, sorted_list};

verus! {

/// Some JSON value says this.
pub open spec fn can_be_held(v: JsonView) -> bool {
    exists|j: Json| #[trigger] json_view(j) == v
}

/// Neither an object nor an array.
pub open spec fn is_scalar(v: JsonView) -> bool {
    !(v is Object) && !(v is Array)
}

/// What may follow a value inside another one, or after it.
pub open spec fn is_tail(s: Seq<char>) -> bool {
    s.len() == 0 || s[0] == ',' || s[0] == ']' || s[0] == '}'
}

/// The compact texts of two scalars are told apart, whatever follows them.
pub open spec fn scalars_differ(a: JsonView, b: JsonView, x: Seq<char>, y: Seq<char>) -> bool {
    can_be_held(a) && can_be_held(b) && is_scalar(a) && is_scalar(b) && is_tail(x) && is_tail(y)
        && json_text(a) + x == json_text(b) + y ==> a == b && x == y
}

/// The compact text of a scalar is no bracket and no comma, and does not begin with one.
pub open spec fn scalar_begins(a: JsonView) -> bool {
    can_be_held(a) && is_scalar(a) ==> {
        let t = json_text(a);
        t.len() > 0 && t[0] != '{' && t[0] != '[' && !is_tail(t)
    }
}

/// Two names between quotes are told apart, whatever follows them.
pub open spec fn names_differ(a: Seq<char>, b: Seq<char>, x: Seq<char>, y: Seq<char>) -> bool {
    debug_text(a) + x == debug_text(b) + y ==> a == b && x == y
}

/// A name between quotes begins with a quote.
pub open spec fn name_begins(a: Seq<char>) -> bool {
    debug_text(a).len() > 0 && debug_text(a)[0] == '"'
}

/// Compact texts of scalars and quoted names can be read off the front of a text.
pub open spec fn texts_are_told_apart() -> bool {
    &&& forall|a: JsonView, b: JsonView, x: Seq<char>, y: Seq<char>| #[trigger]
        scalars_differ(a, b, x, y)
    &&& forall|a: JsonView| #[trigger] scalar_begins(a)
    &&& forall|a: Seq<char>, b: Seq<char>, x: Seq<char>, y: Seq<char>| #[trigger]
        names_differ(a, b, x, y)
    &&& forall|a: Seq<char>| #[trigger] name_begins(a)
}

/// A scalar is rendered by its compact text.
pub proof fn lemma_scalars_are_compact(v: JsonView)
    requires
        !(v is Object),
        !(v is Array),
    ensures
        canonical(v) == json_text(v),
{
}

/// Settings that differ are rendered differently, given that compact texts of scalars and
/// quoted names are told apart: nothing of a value is lost in its rendering.
pub proof fn lemma_rendering_tells_settings_apart(a: Json, b: Json)
    ensures
        texts_are_told_apart() && canonical(a@) == canonical(b@) ==> a@ == b@,
{
    if texts_are_told_apart() && canonical(a@) == canonical(b@) {
        assert(json_view(a) == a@ && json_view(b) == b@);
        let none = Seq::<char>::empty();
        assert(canonical(a@) + none =~= canonical(a@));
        assert(canonical(b@) + none =~= canonical(b@));
        lemma_decodes(a@, b@, none, none);
    }
}

// ---- reading a rendering off ---------------------------------------------

/// What stands from the part at `k` on, with commas between the parts, and then `end`.
spec fn listed(parts: Seq<Seq<char>>, k: int, end: Seq<char>) -> Seq<char>
    decreases parts.len() - k,
{
    if k >= parts.len() {
        end
    } else if k == parts.len() - 1 {
        parts[k] + end
    } else {
        parts[k] + (seq![','] + listed(parts, k + 1, end))
    }
}

/// What follows the part at `k`.
spec fn following(parts: Seq<Seq<char>>, k: int, end: Seq<char>) -> Seq<char> {
    if k >= parts.len() - 1 {
        end
    } else {
        seq![','] + listed(parts, k + 1, end)
    }
}

proof fn lemma_listed(parts: Seq<Seq<char>>, k: int, end: Seq<char>)
    requires
        0 <= k < parts.len(),
    ensures
        joined(parts, seq![',']) + end == (if k == 0 {
            listed(parts, 0, end)
        } else {
            joined(parts.take(k), seq![',']) + seq![','] + listed(parts, k, end)
        }),
        listed(parts, k, end) == parts[k] + following(parts, k, end),
    decreases parts.len() - k,
{
    let sep = seq![','];
    if k == parts.len() - 1 {
        if k > 0 {
            assert(parts.drop_last() =~= parts.take(k));
            assert(joined(parts, sep) + end =~= joined(parts.take(k), sep) + sep + (parts[k]
                + end));
        }
    } else {
        lemma_listed(parts, k + 1, end);
        let t = parts.take(k + 1);
        assert(t.drop_last() =~= parts.take(k));
        assert(t.last() == parts[k]);
        if k == 0 {
            assert(t.len() == 1);
            assert(joined(t, sep) == parts[0]);
            assert(joined(t, sep) + sep + listed(parts, 1, end) =~= parts[0] + (sep + listed(
                parts,
                1,
                end,
            )));
        } else {
            assert(joined(t, sep) + sep + listed(parts, k + 1, end) =~= joined(parts.take(k), sep)
                + sep + (parts[k] + (sep + listed(parts, k + 1, end))));
        }
    }
}

proof fn lemma_canonical_items(items: Seq<JsonView>)
    ensures
        canonical_items(items).len() == items.len(),
        forall|i: int|
            0 <= i < items.len() ==> #[trigger] canonical_items(items)[i] == canonical(items[i]),
    decreases items.len(),
{
    if items.len() > 0 {
        lemma_canonical_items(items.drop_last());
    }
}

proof fn lemma_canonical_members(m: Map<Seq<char>, JsonView>, names: Seq<Seq<char>>)
    requires
        m.dom().finite(),
        forall|i: int| 0 <= i < names.len() ==> m.dom().contains(#[trigger] names[i]),
    ensures
        canonical_members(m, names).len() == names.len(),
        forall|i: int|
            0 <= i < names.len() ==> #[trigger] canonical_members(m, names)[i] == debug_text(
                names[i],
            ) + seq![':'] + canonical(m[names[i]]),
    decreases names.len(),
{
    if names.len() > 0 {
        let rest = names.drop_last();
        assert forall|i: int| 0 <= i < rest.len() implies m.dom().contains(#[trigger] rest[i]) by {
            assert(rest[i] == names[i]);
        }
        lemma_canonical_members(m, rest);
        assert(names[names.len() - 1] == names.last());
    }
}

/// The parts of a value that is held are held, and an object has its names in a list.
proof fn lemma_parts_are_held(v: JsonView)
    requires
        can_be_held(v),
    ensures
        v is Array ==> forall|i: int|
            0 <= i < v->Array_0.len() ==> can_be_held(#[trigger] v->Array_0[i]),
        v is Object ==> v->Object_0.dom().finite() && sorted_list(v->Object_0.dom()).to_set()
            == v->Object_0.dom(),
        v is Object ==> forall|name: Seq<char>| #[trigger]
            v->Object_0.dom().contains(name) ==> can_be_held(v->Object_0[name]),
{
    let j = choose|j: Json| #[trigger] json_view(j) == v;
    match j {
        Json::Array(items) => {
            lemma_items_view(items@);
            let l = v->Array_0;
            assert forall|i: int| 0 <= i < l.len() implies can_be_held(#[trigger] l[i]) by {
                assert(json_view(items@[i]) == l[i]);
            }
        },
        Json::Object(members) => {
            let m = members_view(members@);
            lemma_members_finite(members@);
            let list = Seq::new(members@.len(), |i: int| members@[i].0@);
            assert(list.to_set() =~= m.dom()) by {
                assert forall|name: Seq<char>| list.contains(name) <==> m.dom().contains(name) by {
                    lemma_member_names(members@, name);
                    if m.dom().contains(name) {
                        let i = choose|i: int|
                            0 <= i < members@.len() && (#[trigger] members@[i]).0@ == name;
                        assert(list[i] == name);
                    }
                    if list.contains(name) {
                        let i = choose|i: int| 0 <= i < list.len() && list[i] == name;
                        assert(members@[i].0@ == name);
                    }
                }
            }
            lemma_sorted_list_exists(list);
            assert forall|name: Seq<char>| #[trigger] m.dom().contains(name) implies can_be_held(
                m[name],
            ) by {
                lemma_some_member(members@, name);
            }
        },
        _ => {},
    }
}

proof fn lemma_some_member(members: Seq<(String, Json)>, name: Seq<char>)
    requires
        members_view(members).dom().contains(name),
    ensures
        can_be_held(members_view(members)[name]),
    decreases members.len(),
{
    if members.len() > 0 {
        if members.last().0@ == name {
            assert(json_view(members.last().1) == members_view(members)[name]);
        } else {
            lemma_some_member(members.drop_last(), name);
        }
    }
}

/// No rendering begins like what follows one.
proof fn lemma_rendering_begins(v: JsonView)
    requires
        texts_are_told_apart(),
        can_be_held(v),
    ensures
        canonical(v).len() > 0,
        !is_tail(canonical(v)),
        v is Object <==> canonical(v)[0] == '{',
        v is Array <==> canonical(v)[0] == '[',
{
    if is_scalar(v) {
        assert(scalar_begins(v));
    }
}

/// A rendering is read off the front of a text in one way only.
proof fn lemma_decodes(a: JsonView, b: JsonView, x: Seq<char>, y: Seq<char>)
    requires
        texts_are_told_apart(),
        can_be_held(a),
        can_be_held(b),
        is_tail(x),
        is_tail(y),
        canonical(a) + x == canonical(b) + y,
    ensures
        a == b,
        x == y,
    decreases a, 1nat, 0nat,
{
    lemma_rendering_begins(a);
    lemma_rendering_begins(b);
    assert((canonical(a) + x)[0] == canonical(a)[0]);
    assert((canonical(b) + y)[0] == canonical(b)[0]);
    lemma_parts_are_held(a);
    lemma_parts_are_held(b);
    match (a, b) {
        (JsonView::Array(p), JsonView::Array(q)) => {
            let pa = canonical_items(p);
            let pb = canonical_items(q);
            lemma_canonical_items(p);
            lemma_canonical_items(q);
            let ea = seq![']'] + x;
            let eb = seq![']'] + y;
            lemma_strip(a, pa, '[', ']', x);
            lemma_strip(b, pb, '[', ']', y);
            lemma_same_rest(canonical(a) + x, canonical(b) + y, listed(pa, 0, ea), listed(pb, 0, eb));
            if p.len() == 0 || q.len() == 0 {
                if q.len() > 0 {
                    lemma_rendering_begins(q[0]);
                    lemma_listed(pb, 0, eb);
                    assert(listed(pb, 0, eb)[0] == pb[0][0]);
                }
                if p.len() > 0 {
                    lemma_rendering_begins(p[0]);
                    lemma_listed(pa, 0, ea);
                    assert(listed(pa, 0, ea)[0] == pa[0][0]);
                }
                assert(p =~= q);
            } else {
                lemma_items_decode(a, b, x, y, 0);
            }
            lemma_same_rest(ea, eb, x, y);
        },
        (JsonView::Object(p), JsonView::Object(q)) => {
            let na = sorted_list(p.dom());
            let nb = sorted_list(q.dom());
            assert forall|i: int| 0 <= i < na.len() implies p.dom().contains(#[trigger] na[i]) by {
                assert(na.to_set().contains(na[i]));
            }
            assert forall|i: int| 0 <= i < nb.len() implies q.dom().contains(#[trigger] nb[i]) by {
                assert(nb.to_set().contains(nb[i]));
            }
            let pa = canonical_members(p, na);
            let pb = canonical_members(q, nb);
            lemma_canonical_members(p, na);
            lemma_canonical_members(q, nb);
            let ea = seq!['}'] + x;
            let eb = seq!['}'] + y;
            lemma_strip(a, pa, '{', '}', x);
            lemma_strip(b, pb, '{', '}', y);
            lemma_same_rest(canonical(a) + x, canonical(b) + y, listed(pa, 0, ea), listed(pb, 0, eb));
            if na.len() == 0 || nb.len() == 0 {
                if nb.len() > 0 {
                    assert(name_begins(nb[0]));
                    lemma_listed(pb, 0, eb);
                    assert(listed(pb, 0, eb)[0] == debug_text(nb[0])[0]);
                }
                if na.len() > 0 {
                    assert(name_begins(na[0]));
                    lemma_listed(pa, 0, ea);
                    assert(listed(pa, 0, ea)[0] == debug_text(na[0])[0]);
                }
                assert(na =~= nb);
            } else {
                lemma_members_decode(a, b, x, y, 0);
            }
            lemma_same_rest(ea, eb, x, y);
            assert(p.dom() == q.dom());
            assert forall|name: Seq<char>| p.dom().contains(name) implies p[name] == q[name] by {
                assert(na.to_set().contains(name));
                let i = choose|i: int| 0 <= i < na.len() && na[i] == name;
                assert(p[na[i]] == q[nb[i]]);
            }
            assert(p =~= q);
        },
        _ => {
            assert(scalars_differ(a, b, x, y));
        },
    }
}

proof fn lemma_same_rest(s: Seq<char>, t: Seq<char>, x: Seq<char>, y: Seq<char>)
    requires
        s == t,
        s.len() > 0,
        s.skip(1) == x,
        t.skip(1) == y,
    ensures
        x == y,
{
}

/// What stands after the opening bracket.
proof fn lemma_strip(
    v: JsonView,
    parts: Seq<Seq<char>>,
    open: char,
    close: char,
    x: Seq<char>,
)
    requires
        canonical(v) == seq![open] + joined(parts, seq![',']) + seq![close],
    ensures
        (canonical(v) + x).len() > 0,
        (canonical(v) + x).skip(1) == listed(parts, 0, seq![close] + x),
        (seq![close] + x).skip(1) == x,
{
    let end = seq![close] + x;
    assert(end.skip(1) =~= x);
    assert((canonical(v) + x).skip(1) =~= joined(parts, seq![',']) + end);
    if parts.len() > 0 {
        lemma_listed(parts, 0, end);
    } else {
        assert(joined(parts, seq![',']) + end =~= end);
    }
}

proof fn lemma_items_decode(a: JsonView, b: JsonView, x: Seq<char>, y: Seq<char>, k: int)
    requires
        texts_are_told_apart(),
        can_be_held(a),
        can_be_held(b),
        is_tail(x),
        is_tail(y),
        a is Array,
        b is Array,
        0 <= k < a->Array_0.len(),
        k < b->Array_0.len(),
        forall|i: int| 0 <= i < k ==> a->Array_0[i] == b->Array_0[i],
        listed(canonical_items(a->Array_0), k, seq![']'] + x) == listed(
            canonical_items(b->Array_0),
            k,
            seq![']'] + y,
        ),
    ensures
        a->Array_0 == b->Array_0,
        seq![']'] + x == seq![']'] + y,
    decreases a, 0nat, a->Array_0.len() - k,
{
    let p = a->Array_0;
    let q = b->Array_0;
    let pa = canonical_items(p);
    let pb = canonical_items(q);
    let ea = seq![']'] + x;
    let eb = seq![']'] + y;
    lemma_canonical_items(p);
    lemma_canonical_items(q);
    lemma_parts_are_held(a);
    lemma_parts_are_held(b);
    lemma_listed(pa, k, ea);
    lemma_listed(pb, k, eb);
    let ra = following(pa, k, ea);
    let rb = following(pb, k, eb);
    lemma_decodes(p[k], q[k], ra, rb);
    if k < p.len() - 1 && k < q.len() - 1 {
        assert(ra.skip(1) =~= listed(pa, k + 1, ea));
        assert(rb.skip(1) =~= listed(pb, k + 1, eb));
        lemma_items_decode(a, b, x, y, k + 1);
    } else {
        assert(ra[0] == rb[0]);
        assert(p.len() == q.len());
        assert(p =~= q);
    }
}

proof fn lemma_members_decode(a: JsonView, b: JsonView, x: Seq<char>, y: Seq<char>, k: int)
    requires
        texts_are_told_apart(),
        can_be_held(a),
        can_be_held(b),
        is_tail(x),
        is_tail(y),
        a is Object,
        b is Object,
        0 <= k < sorted_list(a->Object_0.dom()).len(),
        k < sorted_list(b->Object_0.dom()).len(),
        forall|i: int|
            0 <= i < k ==> sorted_list(a->Object_0.dom())[i] == sorted_list(b->Object_0.dom())[i]
                && a->Object_0[sorted_list(a->Object_0.dom())[i]] == b->Object_0[sorted_list(
                b->Object_0.dom(),
            )[i]],
        listed(
            canonical_members(a->Object_0, sorted_list(a->Object_0.dom())),
            k,
            seq!['}'] + x,
        ) == listed(
            canonical_members(b->Object_0, sorted_list(b->Object_0.dom())),
            k,
            seq!['}'] + y,
        ),
    ensures
        sorted_list(a->Object_0.dom()) == sorted_list(b->Object_0.dom()),
        forall|i: int|
            0 <= i < sorted_list(a->Object_0.dom()).len() ==> a->Object_0[#[trigger] sorted_list(
                a->Object_0.dom(),
            )[i]] == b->Object_0[sorted_list(b->Object_0.dom())[i]],
        seq!['}'] + x == seq!['}'] + y,
    decreases a, 0nat, sorted_list(a->Object_0.dom()).len() - k,
{
    let p = a->Object_0;
    let q = b->Object_0;
    let na = sorted_list(p.dom());
    let nb = sorted_list(q.dom());
    lemma_parts_are_held(a);
    lemma_parts_are_held(b);
    assert forall|i: int| 0 <= i < na.len() implies p.dom().contains(#[trigger] na[i]) by {
        assert(na.to_set().contains(na[i]));
    }
    assert forall|i: int| 0 <= i < nb.len() implies q.dom().contains(#[trigger] nb[i]) by {
        assert(nb.to_set().contains(nb[i]));
    }
    let pa = canonical_members(p, na);
    let pb = canonical_members(q, nb);
    let ea = seq!['}'] + x;
    let eb = seq!['}'] + y;
    lemma_canonical_members(p, na);
    lemma_canonical_members(q, nb);
    lemma_listed(pa, k, ea);
    lemma_listed(pb, k, eb);
    let ra = following(pa, k, ea);
    let rb = following(pb, k, eb);
    let va = canonical(p[na[k]]);
    let vb = canonical(q[nb[k]]);
    let ta = seq![':'] + (va + ra);
    let tb = seq![':'] + (vb + rb);
    assert(listed(pa, k, ea) =~= debug_text(na[k]) + ta);
    assert(listed(pb, k, eb) =~= debug_text(nb[k]) + tb);
    assert(names_differ(na[k], nb[k], ta, tb));
    assert(ta.skip(1) =~= va + ra);
    assert(tb.skip(1) =~= vb + rb);
    lemma_decodes(p[na[k]], q[nb[k]], ra, rb);
    if k < na.len() - 1 && k < nb.len() - 1 {
        assert(ra.skip(1) =~= listed(pa, k + 1, ea));
        assert(rb.skip(1) =~= listed(pb, k + 1, eb));
        lemma_members_decode(a, b, x, y, k + 1);
    } else {
        assert(ra[0] == rb[0]);
        assert(na.len() == nb.len());
        assert(na =~= nb);
    }
}

// ---- hashes --------------------------------------------------------------

/// Hexadecimal digits give their bytes back.
proof fn lemma_hex_tells_bytes_apart(a: Seq<u8>, b: Seq<u8>, n: nat)
    requires
        n <= a.len(),
        n <= b.len(),
        hex(a, n) == hex(b, n),
    ensures
        a.take(n as int) == b.take(n as int),
    decreases n,
{
    if n > 0 {
        let s = hex(a, n);
        let t = hex(b, n);
        let m = (n - 1) as nat;
        assert(s.drop_last().drop_last() =~= hex(a, m));
        assert(t.drop_last().drop_last() =~= hex(b, m));
        lemma_hex_tells_bytes_apart(a, b, m);
        let x = a[n - 1] as int;
        let y = b[n - 1] as int;
        assert(s.last() == hex_char(x % 16) && t.last() == hex_char(y % 16));
        assert(s[s.len() - 2] == hex_char(x / 16) && t[t.len() - 2] == hex_char(y / 16));
        lemma_digits_differ(x / 16, y / 16);
        lemma_digits_differ(x % 16, y % 16);
        assert(x == y);
        assert forall|i: int| 0 <= i < n implies a[i] == b[i] by {
            if i < m {
                assert(a.take(m as int)[i] == b.take(m as int)[i]);
            }
        }
        assert(a.take(n as int) =~= b.take(n as int));
    } else {
        assert(a.take(0) =~= b.take(0));
    }
}

proof fn lemma_digits_differ(x: int, y: int)
    requires
        0 <= x < 16,
        0 <= y < 16,
        hex_char(x) == hex_char(y),
    ensures
        x == y,
{
}

/// Two clients' settings hash alike where the digests of their renderings begin with the same
/// eight bytes, and only there; and settings that are there never hash like none.
pub proof fn lemma_hashes_tell_digests_apart(a: JsonView, b: JsonView)
    requires
        !(a is Null),
        !(b is Null),
    ensures
        ({
            let x = sha256(encode_utf8(canonical(a)));
            let y = sha256(encode_utf8(canonical(b)));
            x.len() >= 8 && y.len() >= 8 ==> (settings_hash(Some(a)) == settings_hash(Some(b))
                <==> x.take(8) == y.take(8))
        }),
        settings_hash(Some(a)) != settings_hash(None),
{
    let x = sha256(encode_utf8(canonical(a)));
    let y = sha256(encode_utf8(canonical(b)));
    reveal_strlit("default");
    lemma_settings_hash_is_short_hex(a);
    if x.len() >= 8 && y.len() >= 8 {
        if settings_hash(Some(a)) == settings_hash(Some(b)) {
            lemma_hex_tells_bytes_apart(x, y, 8);
        }
        if x.take(8) == y.take(8) {
            lemma_hex_agrees(x, y, 8);
        }
    }
}

proof fn lemma_hex_agrees(a: Seq<u8>, b: Seq<u8>, n: nat)
    requires
        n <= a.len(),
        n <= b.len(),
        a.take(n as int) == b.take(n as int),
    ensures
        hex(a, n) == hex(b, n),
    decreases n,
{
    if n > 0 {
        let k = n as int - 1;
        assert(a.take(n as int)[k] == a[k]);
        assert(b.take(n as int)[k] == b[k]);
        assert(a.take(n - 1) =~= a.take(n as int).take(n - 1));
        assert(b.take(n - 1) =~= b.take(n as int).take(n - 1));
        lemma_hex_agrees(a, b, (n - 1) as nat);
    } else {
        assert(hex(a, n) =~= hex(b, n));
    }
}

} // verus!
