//! The identity of a backend: which clients may share a process.

use vstd::prelude::*;
use vstd::string::*;
use vstd::utf8::*;
use sha2::{Digest, Sha256};
use crate::json::{
    find_member, items_view, json_text, json_view, lemma_member_names,
    lemma_member_order_is_irrelevant, lemma_members_finite, members_view, Json, JsonView,
};
use crate::strings::{
    begins_with, copy_list, join, joined, lemma_sorted_list_exists, same, same_list, sort_unique, sorted_list, starts_with,
    strictly_sorted, views,
};

verus! {

// ---- settings -----------------------------------------------------------

/// A text between double quotes, escaped as `{:?}` escapes it.
pub uninterp spec fn debug_text(s: Seq<char>) -> Seq<char>;

/// `str`'s `Debug` puts a text between double quotes and escapes it.
#[verifier::external_body]
fn debug(s: &str) -> (r: String)
    ensures
        r@ == debug_text(s@),
{
    format!("{:?}", s)
}

/// The SHA-256 digest.
pub uninterp spec fn sha256(data: Seq<u8>) -> Seq<u8>;

/// `Sha256` gives a digest of 32 bytes.
#[verifier::external_body]
fn sha256_digest(data: &[u8]) -> (r: Vec<u8>)
    ensures
        r@ == sha256(data@),
        r@.len() == 32,
{
    let mut h = Sha256::new();
    h.update(data);
    h.finalize().to_vec()
}

/// Key-order-independent rendering, so equivalent settings hash equally: an
/// object's members in the order of their names, arrays as they stand.
pub open spec fn canonical(v: JsonView) -> Seq<char>
    decreases v, 0nat,
{
    match v {
        JsonView::Object(m) => seq!['{'] + joined(
            canonical_members(m, sorted_list(m.dom())),
            seq![','],
        ) + seq!['}'],
        JsonView::Array(items) => seq!['['] + joined(canonical_items(items), seq![',']) + seq![']'],
        _ => json_text(v),
    }
}

/// The renderings of a list of values.
pub open spec fn canonical_items(items: Seq<JsonView>) -> Seq<Seq<char>>
    decreases items, 0nat,
{
    if items.len() == 0 {
        Seq::empty()
    } else {
        canonical_items(items.drop_last()).push(canonical(items.last()))
    }
}

/// The renderings of the members called `names`, in that order.
pub open spec fn canonical_members(m: Map<Seq<char>, JsonView>, names: Seq<Seq<char>>) -> Seq<
    Seq<char>,
>
    decreases m, names.len(),
{
    if names.len() == 0 {
        Seq::empty()
    } else {
        let name = names.last();
        let value = if m.dom().finite() && m.dom().contains(name) {
            canonical(m[name])
        } else {
            Seq::empty()
        };
        canonical_members(m, names.drop_last()).push(debug_text(name) + seq![':'] + value)
    }
}

/// Key-order-independent rendering, so equivalent settings hash equally.
pub fn canonical_json(v: &Json) -> (r: String)
    ensures
        r@ == canonical(v@),
    decreases v,
{
    proof {
        reveal_strlit("{");
        reveal_strlit("}");
        reveal_strlit("[");
        reveal_strlit("]");
        reveal_strlit(",");
        assert("{"@ =~= seq!['{'] && "}"@ =~= seq!['}'] && ","@ =~= seq![',']);
        assert("["@ =~= seq!['['] && "]"@ =~= seq![']']);
    }
    match v {
        Json::Object(members) => {
            let mut names: Vec<String> = Vec::new();
            let mut i: usize = 0;
            while i < members.len()
                invariant
                    i <= members@.len(),
                    names@.len() == i,
                    forall|k: int| 0 <= k < i ==> (#[trigger] names@[k])@ == members@[k].0@,
                decreases members@.len() - i,
            {
                names.push(members[i].0.clone());
                i += 1;
            }
            let sorted = sort_unique(&names);
            let ghost m = members_view(members@);
            let ghost order = views(sorted@);
            proof {
                lemma_members_finite(members@);
                let given = views(names@);
                assert forall|name: Seq<char>| given.to_set().contains(name) <==>
                    #[trigger] m.dom().contains(name) by {
                    lemma_member_names(members@, name);
                    if given.to_set().contains(name) {
                        let k = choose|k: int| 0 <= k < given.len() && given[k] == name;
                        assert(members@[k].0@ == names@[k]@);
                    }
                    if m.dom().contains(name) {
                        let k = choose|k: int|
                            0 <= k < members@.len() && (#[trigger] members@[k]).0@ == name;
                        assert(given[k] == name);
                    }
                }
                assert(given.to_set() =~= m.dom());
            }
            let mut inner: Vec<String> = Vec::new();
            let mut i: usize = 0;
            assert(views(inner@) =~= canonical_members(m, order.take(0)));
            while i < sorted.len()
                invariant
                    i <= sorted@.len(),
                    order == views(sorted@),
                    m == members_view(members@),
                    m.dom().finite(),
                    order.to_set() == m.dom(),
                    views(inner@) == canonical_members(m, order.take(i as int)),
                    decreases_to!(v => members@),
                decreases sorted@.len() - i,
            {
                let name = sorted[i].as_str();
                let ghost held = views(inner@);
                let mut entry = debug(name);
                entry.push(':');
                assert(order.to_set().contains(order[i as int]));
                match find_member(members, name) {
                    Some(k) => {
                        assert(decreases_to!(members@ => members@[k as int]));
                        let value = canonical_json(&members[k].1);
                        entry.append(value.as_str());
                    },
                    None => {},
                }
                inner.push(entry);
                proof {
                    assert(order.take(i + 1).drop_last() =~= order.take(i as int));
                    assert(debug_text(name@).push(':') =~= debug_text(name@) + seq![':']);
                    assert(views(inner@) =~= held.push(entry@));
                }
                i += 1;
            }
            assert(order.take(i as int) =~= order);
            let text = join(&inner, ",");
            let mut r = "{".to_owned();
            r.append(text.as_str());
            r.append("}");
            r
        },
        Json::Array(items) => {
            let mut inner: Vec<String> = Vec::new();
            let mut i: usize = 0;
            assert(views(inner@) =~= canonical_items(items_view(items@.take(0))));
            while i < items.len()
                invariant
                    i <= items@.len(),
                    views(inner@) == canonical_items(items_view(items@.take(i as int))),
                    decreases_to!(v => items@),
                decreases items@.len() - i,
            {
                let ghost held = views(inner@);
                assert(decreases_to!(items@ => items@[i as int]));
                let text = canonical_json(&items[i]);
                inner.push(text);
                proof {
                    assert(items@.take(i + 1).drop_last() =~= items@.take(i as int));
                    let before = items_view(items@.take(i as int));
                    assert(before.push(json_view(items@[i as int])).drop_last() =~= before);
                    assert(views(inner@) =~= held.push(text@));
                }
                i += 1;
            }
            assert(items@.take(i as int) =~= items@);
            let text = join(&inner, ",");
            let mut r = "[".to_owned();
            r.append(text.as_str());
            r.append("]");
            r
        },
        _ => v.text(),
    }
}

// ---- the key ------------------------------------------------------------

/// A hexadecimal digit.
pub open spec fn hex_char(n: int) -> char {
    if n < 10 {
        (n + '0' as int) as char
    } else {
        (n - 10 + 'a' as int) as char
    }
}

/// The first `n` bytes in hexadecimal, two digits each.
pub open spec fn hex(bytes: Seq<u8>, n: nat) -> Seq<char>
    decreases n,
{
    if n == 0 {
        Seq::empty()
    } else {
        hex(bytes, (n - 1) as nat).push(hex_char(bytes[n - 1] as int / 16)).push(
            hex_char(bytes[n - 1] as int % 16),
        )
    }
}

fn hex_digit(n: u8) -> (c: char)
    requires
        n < 16,
    ensures
        c == hex_char(n as int),
{
    if n == 0 { '0' }
    else if n == 1 { '1' }
    else if n == 2 { '2' }
    else if n == 3 { '3' }
    else if n == 4 { '4' }
    else if n == 5 { '5' }
    else if n == 6 { '6' }
    else if n == 7 { '7' }
    else if n == 8 { '8' }
    else if n == 9 { '9' }
    else if n == 10 { 'a' }
    else if n == 11 { 'b' }
    else if n == 12 { 'c' }
    else if n == 13 { 'd' }
    else if n == 14 { 'e' }
    else { 'f' }
}

/// The first sixteen hexadecimal digits of a digest.
pub fn short_hex(digest: &Vec<u8>) -> (r: String)
    requires
        digest@.len() >= 8,
    ensures
        r@ == hex(digest@, 8),
        r@.len() == 16,
{
    let mut r = String::new();
    let mut i: usize = 0;
    assert(r@ =~= hex(digest@, 0));
    while i < 8
        invariant
            i <= 8,
            digest@.len() >= 8,
            r@ == hex(digest@, i as nat),
            r@.len() == 2 * i,
        decreases 8 - i,
    {
        r.push(hex_digit(digest[i] / 16));
        r.push(hex_digit(digest[i] % 16));
        i += 1;
    }
    r
}

/// The hash of a client's settings. Absent and null settings are the same.
pub open spec fn settings_hash(options: Option<JsonView>) -> Seq<char> {
    match options {
        Some(v) => if v is Null {
            "default"@
        } else {
            hex(sha256(encode_utf8(canonical(v))), 8)
        },
        None => "default"@,
    }
}

/// What a settings value may be borrowed from.
pub open spec fn opt_json_ref(v: Option<&Json>) -> Option<JsonView> {
    match v {
        Some(j) => Some(j@),
        None => None,
    }
}

/// The hash of a client's settings.
pub fn hash_settings(options: Option<&Json>) -> (r: String)
    ensures
        r@ == settings_hash(opt_json_ref(options)),
{
    match options {
        Some(v) => if v.is_null() {
            "default".to_owned()
        } else {
            let text = canonical_json(v);
            let digest = sha256_digest(text.as_str().as_bytes());
            short_hex(&digest)
        },
        None => "default".to_owned(),
    }
}

/// Identity of a backend. Two clients share a process only if these agree, except
/// that roots also match by containment: see [`BackendKey::covers`].
#[derive(Debug, PartialEq, Eq, Hash)]
pub struct BackendKey {
    pub server: String,
    /// Canonicalised, sorted, deduplicated workspace roots.
    pub roots: Vec<String>,
    /// Hash of `initializationOptions`: different settings cannot share an index.
    pub init_hash: String,
    /// Extra arguments the client passed to the shim. Clients that invoke the
    /// server differently get different processes, since the flags may change its
    /// behaviour.
    pub extra_args: Vec<String>,
}

/// What a key says.
#[verifier::ext_equal]
pub struct KeyView {
    pub server: Seq<char>,
    pub roots: Seq<Seq<char>>,
    pub init_hash: Seq<char>,
    pub extra_args: Seq<Seq<char>>,
}

impl View for BackendKey {
    type V = KeyView;

    open spec fn view(&self) -> KeyView {
        KeyView {
            server: self.server@,
            roots: views(self.roots@),
            init_hash: self.init_hash@,
            extra_args: views(self.extra_args@),
        }
    }
}

/// `inner` is `outer` or lies below it, by whole path components.
pub open spec fn contains_root(outer: Seq<char>, inner: Seq<char>) -> bool {
    inner == outer || begins_with(inner, outer.push('/'))
}

impl KeyView {
    /// The key of a client that asks for `roots` with some settings.
    pub open spec fn of(
        server: Seq<char>,
        roots: Seq<Seq<char>>,
        options: Option<JsonView>,
        extra_args: Seq<Seq<char>>,
    ) -> KeyView {
        KeyView {
            server,
            roots: sorted_list(roots.to_set()),
            init_hash: settings_hash(options),
            extra_args,
        }
    }

    /// One of the roots holds `root`.
    pub open spec fn holds_root(self, root: Seq<char>) -> bool {
        exists|j: int|
            0 <= j < self.roots.len() && contains_root(#[trigger] self.roots[j], root)
    }

    /// A backend opened for this key can also serve a client asking for `other`.
    pub open spec fn covers(self, other: KeyView) -> bool {
        &&& self.server == other.server
        &&& self.init_hash == other.init_hash
        &&& self.extra_args == other.extra_args
        &&& forall|i: int| 0 <= i < other.roots.len() ==> self.holds_root(#[trigger] other.roots[i])
    }

    /// The key in words: the server and its roots.
    pub open spec fn label(self) -> Seq<char> {
        self.server + " ["@ + joined(self.roots, ", "@) + "]"@
    }
}

impl BackendKey {
    pub fn new(server: &str, roots: Vec<String>, init_options: Option<&Json>) -> (r: Self)
        ensures
            r@ == KeyView::of(
                server@,
                views(roots@),
                opt_json_ref(init_options),
                Seq::empty(),
            ),
    {
        let none: Vec<String> = Vec::new();
        assert(views(none@) =~= Seq::empty());
        Self::with_args(server, roots, init_options, none)
    }

    pub fn with_args(
        server: &str,
        roots: Vec<String>,
        init_options: Option<&Json>,
        extra_args: Vec<String>,
    ) -> (r: Self)
        ensures
            r@ == KeyView::of(
                server@,
                views(roots@),
                opt_json_ref(init_options),
                views(extra_args@),
            ),
            strictly_sorted(r@.roots),
            r@.roots.to_set() == views(roots@).to_set(),
    {
        Self {
            server: server.to_owned(),
            roots: sort_unique(&roots),
            init_hash: hash_settings(init_options),
            extra_args,
        }
    }

    /// A key that says the same.
    pub fn duplicate(&self) -> (r: Self)
        ensures
            r@ == self@,
    {
        Self {
            server: self.server.clone(),
            roots: copy_list(&self.roots),
            init_hash: self.init_hash.clone(),
            extra_args: copy_list(&self.extra_args),
        }
    }

    /// Whether one of the roots holds `root`.
    fn has_root(&self, root: &str) -> (r: bool)
        ensures
            r == self@.holds_root(root@),
    {
        let mut j: usize = 0;
        while j < self.roots.len()
            invariant
                j <= self.roots@.len(),
                forall|k: int|
                    0 <= k < j ==> !contains_root(#[trigger] views(self.roots@)[k], root@),
            decreases self.roots@.len() - j,
        {
            let mine = self.roots[j].as_str();
            assert(views(self.roots@)[j as int] == mine@);
            if same(root, mine) {
                assert(contains_root(self@.roots[j as int], root@));
                return true;
            }
            let mut below = self.roots[j].clone();
            below.push('/');
            if starts_with(root, below.as_str()) {
                assert(contains_root(self@.roots[j as int], root@));
                return true;
            }
            j += 1;
        }
        false
    }

    /// True if a backend opened for `self` can also serve a client asking for
    /// `other`. Containment, not equality: a subset of already-indexed roots is
    /// free to serve, a superset is not.
    pub fn covers(&self, other: &BackendKey) -> (r: bool)
        ensures
            r == self@.covers(other@),
    {
        if !same(self.server.as_str(), other.server.as_str()) || !same(
            self.init_hash.as_str(),
            other.init_hash.as_str(),
        ) || !same_list(&self.extra_args, &other.extra_args) {
            return false;
        }
        let mut i: usize = 0;
        while i < other.roots.len()
            invariant
                i <= other.roots@.len(),
                forall|k: int|
                    0 <= k < i ==> self@.holds_root(#[trigger] views(other.roots@)[k]),
            decreases other.roots@.len() - i,
        {
            assert(views(other.roots@)[i as int] == other.roots@[i as int]@);
            if !self.has_root(other.roots[i].as_str()) {
                assert(!self@.holds_root(other@.roots[i as int]));
                return false;
            }
            i += 1;
        }
        true
    }

    pub fn label(&self) -> (r: String)
        ensures
            r@ == self@.label(),
    {
        let mut r = self.server.clone();
        r.append(" [");
        let roots = join(&self.roots, ", ");
        r.append(roots.as_str());
        r.append("]");
        r
    }
}

impl Clone for BackendKey {
    fn clone(&self) -> (r: Self)
        ensures
            r@ == self@,
    {
        self.duplicate()
    }
}

/// Every backend can serve the client that it was opened for.
pub proof fn lemma_covers_reflexive(a: KeyView)
    ensures
        a.covers(a),
{
    assert forall|i: int| 0 <= i < a.roots.len() implies a.holds_root(#[trigger] a.roots[i]) by {
        assert(contains_root(a.roots[i], a.roots[i]));
    }
}

proof fn lemma_contains_root_transitive(a: Seq<char>, b: Seq<char>, c: Seq<char>)
    requires
        contains_root(a, b),
        contains_root(b, c),
    ensures
        contains_root(a, c),
{
    if b != a && c != b {
        let n = (a.len() + 1) as int;
        assert(c.take((b.len() + 1) as int).take(n) =~= c.take(n));
        assert(b.push('/').take(n) =~= b.take(n));
    }
}

/// What serves a client serves everyone whom that client's backend would serve.
pub proof fn lemma_covers_transitive(a: KeyView, b: KeyView, c: KeyView)
    requires
        a.covers(b),
        b.covers(c),
    ensures
        a.covers(c),
{
    assert forall|i: int| 0 <= i < c.roots.len() implies a.holds_root(#[trigger] c.roots[i]) by {
        let j = choose|j: int|
            0 <= j < b.roots.len() && contains_root(#[trigger] b.roots[j], c.roots[i]);
        assert(a.holds_root(b.roots[j]));
        let k = choose|k: int|
            0 <= k < a.roots.len() && contains_root(#[trigger] a.roots[k], b.roots[j]);
        lemma_contains_root_transitive(a.roots[k], b.roots[j], c.roots[i]);
    }
}

/// A sibling whose name merely starts alike is not contained: containment is by
/// path component.
pub proof fn lemma_siblings_not_contained(a: Seq<char>, c: char, rest: Seq<char>)
    requires
        c != '/',
    ensures
        !contains_root(a, a.push(c) + rest),
{
    let b = a.push(c) + rest;
    assert(b[a.len() as int] == c);
    assert(b.take((a.len() + 1) as int)[a.len() as int] == c);
}

/// Different servers, settings or flags never share.
pub proof fn lemma_sharing_needs_agreement(a: KeyView, b: KeyView)
    requires
        a.server != b.server || a.init_hash != b.init_hash || a.extra_args != b.extra_args,
    ensures
        !a.covers(b),
        !b.covers(a),
{
}

/// `inner` is `outer`, or has it in front of a slash.
pub open spec fn is_within(outer: Seq<char>, inner: Seq<char>) -> bool {
    inner == outer || (inner.len() > outer.len() && inner.take(outer.len() as int) == outer
        && inner[outer.len() as int] == '/')
}

/// `root` is one of `roots` or lies below one.
pub open spec fn some_holds(roots: Seq<Seq<char>>, root: Seq<char>) -> bool {
    exists|j: int| 0 <= j < roots.len() && is_within(#[trigger] roots[j], root)
}

/// Two clients share a server where they ask for the same one, with the same flags and with
/// settings that hash alike, and each of the second one's roots is one of the first one's or
/// lies below one; and nowhere else.
pub proof fn lemma_who_shares(
    server: Seq<char>,
    roots: Seq<Seq<char>>,
    options: Option<JsonView>,
    args: Seq<Seq<char>>,
    server2: Seq<char>,
    roots2: Seq<Seq<char>>,
    options2: Option<JsonView>,
    args2: Seq<Seq<char>>,
)
    ensures
        KeyView::of(server, roots, options, args).covers(
            KeyView::of(server2, roots2, options2, args2),
        ) <==> {
            &&& server == server2
            &&& args == args2
            &&& settings_hash(options) == settings_hash(options2)
            &&& forall|i: int| 0 <= i < roots2.len() ==> some_holds(roots, #[trigger] roots2[i])
        },
{
    let a = KeyView::of(server, roots, options, args);
    let b = KeyView::of(server2, roots2, options2, args2);
    lemma_sorted_list_exists(roots);
    lemma_sorted_list_exists(roots2);
    assert forall|outer: Seq<char>, inner: Seq<char>|
        contains_root(outer, inner) == #[trigger] is_within(outer, inner) by {
        let n = outer.len() as int;
        if inner.len() > n {
            assert(inner.take(n + 1).take(n) =~= inner.take(n));
            assert(inner.take(n + 1)[n] == inner[n]);
            assert(outer.push('/').take(n) =~= outer);
            if inner.take(n) == outer && inner[n] == '/' {
                assert(inner.take(n + 1) =~= outer.push('/'));
            }
        }
    }
    let every = forall|i: int| 0 <= i < roots2.len() ==> some_holds(roots, #[trigger] roots2[i]);
    if a.covers(b) {
        assert forall|i: int| 0 <= i < roots2.len() implies some_holds(
            roots,
            #[trigger] roots2[i],
        ) by {
            assert(roots2.to_set().contains(roots2[i]));
            assert(b.roots.to_set().contains(roots2[i]));
            let k = choose|k: int| 0 <= k < b.roots.len() && b.roots[k] == roots2[i];
            assert(a.holds_root(b.roots[k]));
            let j = choose|j: int|
                0 <= j < a.roots.len() && contains_root(#[trigger] a.roots[j], roots2[i]);
            assert(a.roots.to_set().contains(a.roots[j]));
            assert(roots.to_set().contains(a.roots[j]));
            let q = choose|q: int| 0 <= q < roots.len() && roots[q] == a.roots[j];
            assert(is_within(roots[q], roots2[i]));
        }
    }
    if every {
        assert forall|k: int| 0 <= k < b.roots.len() implies a.holds_root(
            #[trigger] b.roots[k],
        ) by {
            assert(b.roots.to_set().contains(b.roots[k]));
            assert(roots2.to_set().contains(b.roots[k]));
            let i = choose|i: int| 0 <= i < roots2.len() && roots2[i] == b.roots[k];
            assert(some_holds(roots, roots2[i]));
            let j = choose|j: int|
                0 <= j < roots.len() && is_within(#[trigger] roots[j], roots2[i]);
            assert(roots.to_set().contains(roots[j]));
            assert(a.roots.to_set().contains(roots[j]));
            let q = choose|q: int| 0 <= q < a.roots.len() && a.roots[q] == roots[j];
            assert(contains_root(a.roots[q], b.roots[k]) == is_within(a.roots[q], b.roots[k]));
        }
    }
}

/// A client without roots can join any backend for the same server, settings and
/// flags; a backend without roots serves nobody who has one.
pub proof fn lemma_rootless(a: KeyView, b: KeyView)
    requires
        a.server == b.server,
        a.init_hash == b.init_hash,
        a.extra_args == b.extra_args,
        b.roots.len() == 0,
    ensures
        a.covers(b),
        a.roots.len() > 0 ==> !b.covers(a),
{
    if a.roots.len() > 0 {
        assert(!b.holds_root(a.roots[0]));
    }
}

/// The order in which a client names its roots, and naming one twice, does not
/// split backends.
pub proof fn lemma_root_order_is_irrelevant(
    server: Seq<char>,
    roots: Seq<Seq<char>>,
    others: Seq<Seq<char>>,
    options: Option<JsonView>,
    extra_args: Seq<Seq<char>>,
)
    requires
        roots.to_set() == others.to_set(),
    ensures
        KeyView::of(server, roots, options, extra_args) == KeyView::of(
            server,
            others,
            options,
            extra_args,
        ),
{
}

/// Absent and null settings are the same settings.
pub proof fn lemma_null_settings_are_absent()
    ensures
        settings_hash(Some(JsonView::Null)) == settings_hash(None),
{
}

/// The order in which a client writes its settings does not split backends: objects with the
/// same members have one rendering and one hash.
pub proof fn lemma_settings_order_is_irrelevant(a: Seq<(String, Json)>, b: Seq<(String, Json)>)
    requires
        a.to_set() == b.to_set(),
        forall|i: int, j: int|
            0 <= i < j < a.len() ==> (#[trigger] a[i]).0@ != (#[trigger] a[j]).0@,
        forall|i: int, j: int|
            0 <= i < j < b.len() ==> (#[trigger] b[i]).0@ != (#[trigger] b[j]).0@,
    ensures
        canonical(JsonView::Object(members_view(a))) == canonical(
            JsonView::Object(members_view(b)),
        ),
        settings_hash(Some(JsonView::Object(members_view(a)))) == settings_hash(
            Some(JsonView::Object(members_view(b))),
        ),
{
    lemma_member_order_is_irrelevant(a, b);
}

/// A digit of a hash.
pub open spec fn is_hex(c: char) -> bool {
    '0' <= c <= '9' || 'a' <= c <= 'f'
}

proof fn lemma_hex(bytes: Seq<u8>, n: nat)
    ensures
        hex(bytes, n).len() == 2 * n,
        forall|i: int| 0 <= i < hex(bytes, n).len() ==> is_hex(#[trigger] hex(bytes, n)[i]),
    decreases n,
{
    if n > 0 {
        lemma_hex(bytes, (n - 1) as nat);
        let before = hex(bytes, (n - 1) as nat);
        let all = hex(bytes, n);
        assert forall|i: int| 0 <= i < all.len() implies is_hex(#[trigger] all[i]) by {
            if i < before.len() {
                assert(all[i] == before[i]);
            }
        }
    }
}

/// Settings that are there hash to sixteen hexadecimal digits.
pub proof fn lemma_settings_hash_is_short_hex(v: JsonView)
    requires
        !(v is Null),
    ensures
        settings_hash(Some(v)).len() == 16,
        forall|i: int| 0 <= i < 16 ==> is_hex(#[trigger] settings_hash(Some(v))[i]),
{
    lemma_hex(sha256(encode_utf8(canonical(v))), 8);
}

} // verus!
