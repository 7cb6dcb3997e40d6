//! JSON values, as the protocol carries them.

use vstd::prelude::*;
use vstd::slice::*;
use vstd::string::*;
use vstd::utf8::*;
use crate::strings::{opt_str_view, same};

verus! {

/// A JSON value.
#[derive(Debug)]
pub enum Json {
    Null,
    Bool(bool),
    Number(serde_json::Number),
    Str(String),
    Array(Vec<Json>),
    /// Members in order of insertion. Of two members under one name the later
    /// one counts.
    Object(Vec<(String, Json)>),
}

/// What a JSON number is.
pub enum NumberView {
    Int(int),
    /// A number with a fraction or an exponent, or too large for an integer
    /// type, by its IEEE 754 bits.
    Float(u64),
}

/// What a JSON value says, apart from how it is stored.
#[verifier::ext_equal]
pub enum JsonView {
    Null,
    Bool(bool),
    Number(NumberView),
    Str(Seq<char>),
    Array(Seq<JsonView>),
    Object(Map<Seq<char>, JsonView>),
}

/// What a JSON value says.
pub open spec fn json_view(j: Json) -> JsonView
    decreases j,
{
    match j {
        Json::Null => JsonView::Null,
        Json::Bool(b) => JsonView::Bool(b),
        Json::Number(n) => JsonView::Number(number_held(n)),
        Json::Str(s) => JsonView::Str(s@),
        Json::Array(items) => JsonView::Array(items_view(items@)),
        Json::Object(members) => JsonView::Object(members_view(members@)),
    }
}

/// What a list of JSON values says.
pub open spec fn items_view(items: Seq<Json>) -> Seq<JsonView>
    decreases items,
{
    if items.len() == 0 {
        Seq::empty()
    } else {
        items_view(items.drop_last()).push(json_view(items.last()))
    }
}

/// What the members of an object say: for each name, the value put last.
pub open spec fn members_view(members: Seq<(String, Json)>) -> Map<Seq<char>, JsonView>
    decreases members,
{
    if members.len() == 0 {
        Map::empty()
    } else {
        members_view(members.drop_last()).insert(members.last().0@, json_view(members.last().1))
    }
}

impl View for Json {
    type V = JsonView;

    open spec fn view(&self) -> JsonView {
        json_view(*self)
    }
}

impl NumberView {
    /// The number, if this is an integer that fits `u64`.
    pub open spec fn as_u64(self) -> Option<u64> {
        match self {
            NumberView::Int(n) => if 0 <= n <= u64::MAX {
                Some(n as u64)
            } else {
                None
            },
            _ => None,
        }
    }

    /// The number, if this is an integer that fits `i64`.
    pub open spec fn as_i64(self) -> Option<i64> {
        match self {
            NumberView::Int(n) => if i64::MIN <= n <= i64::MAX {
                Some(n as i64)
            } else {
                None
            },
            _ => None,
        }
    }
}

impl JsonView {
    /// The member called `key`, if this is an object that has one.
    pub open spec fn get(self, key: Seq<char>) -> Option<JsonView> {
        match self {
            JsonView::Object(m) => if m.dom().contains(key) {
                Some(m[key])
            } else {
                None
            },
            _ => None,
        }
    }

    /// The member called `key`, or null.
    pub open spec fn field(self, key: Seq<char>) -> JsonView {
        match self.get(key) {
            Some(v) => v,
            None => JsonView::Null,
        }
    }

    /// The text, if this is a string.
    pub open spec fn as_str(self) -> Option<Seq<char>> {
        match self {
            JsonView::Str(s) => Some(s),
            _ => None,
        }
    }

    /// The items, if this is an array.
    pub open spec fn as_array(self) -> Option<Seq<JsonView>> {
        match self {
            JsonView::Array(items) => Some(items),
            _ => None,
        }
    }

    /// The number, if this is an integer that fits `u64`.
    pub open spec fn as_u64(self) -> Option<u64> {
        match self {
            JsonView::Number(n) => n.as_u64(),
            _ => None,
        }
    }

    /// The number, if this is an integer that fits `i64`.
    pub open spec fn as_i64(self) -> Option<i64> {
        match self {
            JsonView::Number(n) => n.as_i64(),
            _ => None,
        }
    }

    /// This object with `value` under `key`, in place of what was there.
    pub open spec fn with(self, key: Seq<char>, value: JsonView) -> JsonView {
        match self {
            JsonView::Object(m) => JsonView::Object(m.insert(key, value)),
            _ => self,
        }
    }

    /// Holds integers only where it holds numbers, and nests no deeper than
    /// `depth` arrays and objects.
    pub open spec fn plain(self, depth: nat) -> bool
        decreases depth,
    {
        match self {
            JsonView::Number(n) => n is Int,
            JsonView::Array(items) => depth > 0 && forall|i: int|
                0 <= i < items.len() ==> (#[trigger] items[i]).plain((depth - 1) as nat),
            JsonView::Object(m) => depth > 0 && forall|k: Seq<char>|
                m.dom().contains(k) ==> (#[trigger] m[k]).plain((depth - 1) as nat),
            _ => true,
        }
    }
}

/// An integer.
pub open spec fn int_json(n: int) -> JsonView {
    JsonView::Number(NumberView::Int(n))
}

/// The object with no members.
pub open spec fn empty_object() -> JsonView {
    JsonView::Object(Map::empty())
}

// ---- the JSON library ---------------------------------------------------

/// `serde_json::Number`, carried as it is. Its contents are named by [`number_held`].
#[verifier::external_type_specification]
#[verifier::external_body]
pub struct ExNumber(serde_json::Number);

/// `serde_json::Value`, which is only built to be written and taken apart once read. Its
/// contents are named by [`value_json`].
#[verifier::external_type_specification]
#[verifier::external_body]
pub struct ExValue(serde_json::Value);

/// What a number of `serde_json` holds: an integer between `i64::MIN` and
/// `u64::MAX`, or a finite float.
pub uninterp spec fn number_held(n: serde_json::Number) -> NumberView;

/// What a value of `serde_json` holds.
pub uninterp spec fn value_json(v: serde_json::Value) -> JsonView;

/// The compact rendering that `serde_json` gives a value.
pub uninterp spec fn json_text(v: JsonView) -> Seq<char>;

/// The value that `serde_json` reads from a document; `None` where it reports
/// an error.
pub uninterp spec fn json_read(document: Seq<u8>) -> Option<JsonView>;

/// How deep the arrays and objects of a document may nest for `serde_json` to
/// read it.
pub const MAX_DEPTH: u64 = 127;

/// `Number::from` of a `u64` holds that integer.
#[verifier::external_body]
fn number_from_u64(n: u64) -> (r: serde_json::Number)
    ensures
        number_held(r) == NumberView::Int(n as int),
{
    serde_json::Number::from(n)
}

/// `Number::from` of an `i64` holds that integer.
#[verifier::external_body]
fn number_from_i64(n: i64) -> (r: serde_json::Number)
    ensures
        number_held(r) == NumberView::Int(n as int),
{
    serde_json::Number::from(n)
}

/// `Number::as_u64` gives the integer if it holds one that fits.
#[verifier::external_body]
fn number_u64(n: &serde_json::Number) -> (r: Option<u64>)
    ensures
        r == number_held(*n).as_u64(),
{
    n.as_u64()
}

/// `Number::as_i64` gives the integer if it holds one that fits.
#[verifier::external_body]
fn number_i64(n: &serde_json::Number) -> (r: Option<i64>)
    ensures
        r == number_held(*n).as_i64(),
{
    n.as_i64()
}

/// `Number::clone` holds the same number, which is an integer or a float and
/// nothing else.
#[verifier::external_body]
fn number_copy(n: &serde_json::Number) -> (r: serde_json::Number)
    ensures
        number_held(r) == number_held(*n),
{
    n.clone()
}

/// Builds the `serde_json::Value` that says the same. The members of an object go into
/// its map one after the other, by `serde_json::Map::insert`, which keeps one value
/// under a name: the one put last.
#[verifier::external_body]
fn to_value(j: &Json) -> (v: serde_json::Value)
    ensures
        value_json(v) == j@,
{
    match j {
        Json::Null => serde_json::Value::Null,
        Json::Bool(b) => serde_json::Value::Bool(*b),
        Json::Number(n) => serde_json::Value::Number(n.clone()),
        Json::Str(s) => serde_json::Value::String(s.clone()),
        Json::Array(items) => serde_json::Value::Array(items.iter().map(to_value).collect()),
        Json::Object(members) => {
            let mut map = serde_json::Map::new();
            for m in members {
                map.insert(m.0.clone(), to_value(&m.1));
            }
            serde_json::Value::Object(map)
        },
    }
}

/// Takes a `serde_json::Value` apart. What comes out says the same.
#[verifier::external_body]
fn from_value(v: serde_json::Value) -> (j: Json)
    ensures
        j@ == value_json(v),
{
    match v {
        serde_json::Value::Null => Json::Null,
        serde_json::Value::Bool(b) => Json::Bool(b),
        serde_json::Value::Number(n) => Json::Number(n),
        serde_json::Value::String(s) => Json::Str(s),
        serde_json::Value::Array(a) => Json::Array(a.into_iter().map(from_value).collect()),
        serde_json::Value::Object(m) => Json::Object(
            m.into_iter().map(|e| (e.0, from_value(e.1))).collect(),
        ),
    }
}

/// `Value`'s `Display` writes the compact rendering. `serde_json` reads the
/// same value back from it where all numbers are integers and the nesting
/// stays within its limit.
#[verifier::external_body]
fn value_text(v: &serde_json::Value) -> (s: String)
    ensures
        s@ == json_text(value_json(*v)),
        value_json(*v).plain(MAX_DEPTH as nat) ==> json_read(encode_utf8(s@)) == Some(
            value_json(*v),
        ),
{
    v.to_string()
}

/// `serde_json::from_slice` reads a document.
#[verifier::external_body]
fn value_from_bytes(b: &[u8]) -> (r: Option<serde_json::Value>)
    ensures
        match r {
            Some(v) => json_read(b@) == Some(value_json(v)),
            None => json_read(b@) is None,
        },
{
    serde_json::from_slice(b).ok()
}

// ---- lemmas -------------------------------------------------------------

/// An array says what its items say, one by one.
pub broadcast proof fn lemma_items_view(items: Seq<Json>)
    ensures
        #[trigger] items_view(items) == Seq::new(items.len(), |i: int| json_view(items[i])),
    decreases items.len(),
{
    if items.len() == 0 {
        assert(items_view(items) =~= Seq::new(items.len(), |i: int| json_view(items[i])));
    } else {
        lemma_items_view(items.drop_last());
        assert(items_view(items) =~= Seq::new(items.len(), |i: int| json_view(items[i])));
    }
}

/// Where `key` stands last among the members.
proof fn lemma_members_at(members: Seq<(String, Json)>, at: int, key: Seq<char>)
    requires
        0 <= at < members.len(),
        members[at].0@ == key,
        forall|k: int| at < k < members.len() ==> (#[trigger] members[k]).0@ != key,
    ensures
        members_view(members).dom().contains(key),
        members_view(members)[key] == json_view(members[at].1),
    decreases members.len(),
{
    if at < members.len() - 1 {
        assert(members.last().0@ != key);
        lemma_members_at(members.drop_last(), at, key);
    }
}

proof fn lemma_members_absent(members: Seq<(String, Json)>, key: Seq<char>)
    requires
        forall|k: int| 0 <= k < members.len() ==> (#[trigger] members[k]).0@ != key,
    ensures
        !members_view(members).dom().contains(key),
    decreases members.len(),
{
    if members.len() > 0 {
        assert(members.last().0@ != key);
        lemma_members_absent(members.drop_last(), key);
    }
}

proof fn lemma_members_update(members: Seq<(String, Json)>, at: int, entry: (String, Json))
    requires
        0 <= at < members.len(),
        members[at].0@ == entry.0@,
        forall|k: int| at < k < members.len() ==> (#[trigger] members[k]).0@ != entry.0@,
    ensures
        members_view(members.update(at, entry)) == members_view(members).insert(
            entry.0@,
            json_view(entry.1),
        ),
    decreases members.len(),
{
    let changed = members.update(at, entry);
    if at == members.len() - 1 {
        assert(changed.drop_last() =~= members.drop_last());
        assert(members_view(changed) =~= members_view(members).insert(entry.0@, json_view(entry.1)));
    } else {
        assert(members.last().0@ != entry.0@);
        assert(changed.drop_last() =~= members.drop_last().update(at, entry));
        lemma_members_update(members.drop_last(), at, entry);
        assert(members_view(changed) =~= members_view(members).insert(entry.0@, json_view(entry.1)));
    }
}

/// An object has the names that its members carry.
pub proof fn lemma_member_names(members: Seq<(String, Json)>, name: Seq<char>)
    ensures
        members_view(members).dom().contains(name) <==> exists|i: int|
            0 <= i < members.len() && (#[trigger] members[i]).0@ == name,
    decreases members.len(),
{
    if members.len() > 0 {
        let before = members.drop_last();
        lemma_member_names(before, name);
        if members_view(before).dom().contains(name) {
            let i = choose|i: int| 0 <= i < before.len() && (#[trigger] before[i]).0@ == name;
            assert(members[i].0@ == name);
        }
        if exists|i: int| 0 <= i < members.len() && (#[trigger] members[i]).0@ == name {
            let i = choose|i: int| 0 <= i < members.len() && (#[trigger] members[i]).0@ == name;
            if i < members.len() - 1 {
                assert(before[i].0@ == name);
            }
        }
        assert(members[members.len() - 1].0@ == members.last().0@);
    }
}

/// An object has finitely many members.
pub proof fn lemma_members_finite(members: Seq<(String, Json)>)
    ensures
        members_view(members).dom().finite(),
    decreases members.len(),
{
    if members.len() > 0 {
        lemma_members_finite(members.drop_last());
    }
}

/// The order of an object's members makes no difference, as long as no name stands twice.
pub proof fn lemma_member_order_is_irrelevant(a: Seq<(String, Json)>, b: Seq<(String, Json)>)
    requires
        a.to_set() == b.to_set(),
        forall|i: int, j: int|
            0 <= i < j < a.len() ==> (#[trigger] a[i]).0@ != (#[trigger] a[j]).0@,
        forall|i: int, j: int|
            0 <= i < j < b.len() ==> (#[trigger] b[i]).0@ != (#[trigger] b[j]).0@,
    ensures
        members_view(a) == members_view(b),
{
    let x = members_view(a);
    let y = members_view(b);
    assert forall|name: Seq<char>| #[trigger] x.dom().contains(name) implies y.dom().contains(name)
        && x[name] == y[name] by {
        lemma_member_names(a, name);
        let i = choose|i: int| 0 <= i < a.len() && (#[trigger] a[i]).0@ == name;
        assert(a.to_set().contains(a[i]));
        assert(b.contains(a[i]));
        let j = choose|j: int| 0 <= j < b.len() && b[j] == a[i];
        lemma_members_at(a, i, name);
        lemma_members_at(b, j, name);
    }
    assert forall|name: Seq<char>| #[trigger] y.dom().contains(name) implies x.dom().contains(
        name,
    ) by {
        lemma_member_names(b, name);
        let j = choose|j: int| 0 <= j < b.len() && (#[trigger] b[j]).0@ == name;
        assert(b.to_set().contains(b[j]));
        assert(a.contains(b[j]));
        let i = choose|i: int| 0 <= i < a.len() && a[i] == b[j];
        lemma_members_at(a, i, name);
    }
    assert(x =~= y);
}

// ---- reading and building -----------------------------------------------

/// Where the member that counts under `key` stands.
pub fn find_member(members: &Vec<(String, Json)>, key: &str) -> (r: Option<usize>)
    ensures
        match r {
            Some(i) => {
                &&& i < members@.len()
                &&& members@[i as int].0@ == key@
                &&& forall|k: int| i < k < members@.len() ==> (#[trigger] members@[k]).0@ != key@
                &&& members_view(members@).dom().contains(key@)
                &&& members_view(members@)[key@] == members@[i as int].1@
            },
            None => {
                &&& forall|k: int| 0 <= k < members@.len() ==> (#[trigger] members@[k]).0@ != key@
                &&& !members_view(members@).dom().contains(key@)
            },
        },
{
    let mut i: usize = members.len();
    while i > 0
        invariant
            i <= members@.len(),
            forall|k: int| i <= k < members@.len() ==> (#[trigger] members@[k]).0@ != key@,
        decreases i,
    {
        if same(members[i - 1].0.as_str(), key) {
            proof {
                lemma_members_at(members@, i - 1, key@);
            }
            return Some(i - 1);
        }
        i -= 1;
    }
    proof {
        lemma_members_absent(members@, key@);
    }
    None
}

impl Json {
    /// A string.
    pub fn string(s: &str) -> (r: Json)
        ensures
            r@ == JsonView::Str(s@),
    {
        Json::Str(s.to_owned())
    }

    /// A non-negative integer.
    pub fn unsigned(n: u64) -> (r: Json)
        ensures
            r@ == int_json(n as int),
    {
        Json::Number(number_from_u64(n))
    }

    /// An integer.
    pub fn signed(n: i64) -> (r: Json)
        ensures
            r@ == int_json(n as int),
    {
        Json::Number(number_from_i64(n))
    }

    /// The object with no members.
    pub fn object() -> (r: Json)
        ensures
            r@ == empty_object(),
    {
        Json::Object(Vec::new())
    }

    /// Puts `value` under `key`, in place of what was there.
    pub fn set(&mut self, key: &str, value: Json)
        requires
            old(self)@ is Object,
        ensures
            final(self)@ == old(self)@.with(key@, value@),
    {
        let ghost before = *self;
        if let Json::Object(members) = self {
            match find_member(members, key) {
                Some(i) => {
                    let ghost entry = members@[i as int];
                    proof {
                        lemma_members_update(members@, i as int, (entry.0, value));
                    }
                    members[i].1 = value;
                },
                None => {
                    let ghost held = members@;
                    let ghost entry = (key, value);
                    members.push((key.to_owned(), value));
                    assert(members@.drop_last() =~= held);
                },
            }
        }
    }

    /// This object with `value` under `key`, in place of what was there.
    pub fn with(self, key: &str, value: Json) -> (r: Json)
        requires
            self@ is Object,
        ensures
            r@ == self@.with(key@, value@),
    {
        let mut r = self;
        r.set(key, value);
        r
    }

    /// The member called `key`, if this is an object that has one.
    pub fn get(&self, key: &str) -> (r: Option<&Json>)
        ensures
            match r {
                Some(v) => self@.get(key@) == Some(v@),
                None => self@.get(key@) is None,
            },
    {
        match self {
            Json::Object(members) => match find_member(members, key) {
                Some(i) => Some(&members[i].1),
                None => None,
            },
            _ => None,
        }
    }

    /// A copy of the member called `key`, or null.
    pub fn field(&self, key: &str) -> (r: Json)
        ensures
            r@ == self@.field(key@),
    {
        match self.get(key) {
            Some(v) => v.duplicate(),
            None => Json::Null,
        }
    }

    /// The text, if this is a string.
    pub fn as_str(&self) -> (r: Option<&str>)
        ensures
            opt_str_view(r) == self@.as_str(),
    {
        match self {
            Json::Str(s) => Some(s.as_str()),
            _ => None,
        }
    }

    /// The items, if this is an array.
    pub fn as_array(&self) -> (r: Option<&Vec<Json>>)
        ensures
            match r {
                Some(items) => self@.as_array() == Some(items_view(items@)),
                None => self@.as_array() is None,
            },
    {
        match self {
            Json::Array(items) => Some(items),
            _ => None,
        }
    }

    /// The number, if this is an integer that fits `u64`.
    pub fn as_u64(&self) -> (r: Option<u64>)
        ensures
            r == self@.as_u64(),
    {
        match self {
            Json::Number(n) => number_u64(n),
            _ => None,
        }
    }

    /// The number, if this is an integer that fits `i64`.
    pub fn as_i64(&self) -> (r: Option<i64>)
        ensures
            r == self@.as_i64(),
    {
        match self {
            Json::Number(n) => number_i64(n),
            _ => None,
        }
    }

    /// Whether this is null.
    pub fn is_null(&self) -> (r: bool)
        ensures
            r == (self@ is Null),
    {
        matches!(self, Json::Null)
    }

    /// A value that says the same.
    pub fn duplicate(&self) -> (r: Json)
        ensures
            r@ == self@,
        decreases self,
    {
        match self {
            Json::Null => Json::Null,
            Json::Bool(b) => Json::Bool(*b),
            Json::Number(n) => Json::Number(number_copy(n)),
            Json::Str(s) => Json::Str(s.clone()),
            Json::Array(items) => {
                let mut out: Vec<Json> = Vec::new();
                let mut i: usize = 0;
                while i < items.len()
                    invariant
                        i <= items@.len(),
                        out@.len() == i,
                        items_view(out@) == items_view(items@.take(i as int)),
                        decreases_to!(self => items@),
                    decreases items@.len() - i,
                {
                    assert(decreases_to!(items@ => items@[i as int]));
                    let ghost held = out@;
                    out.push(items[i].duplicate());
                    proof {
                        assert(out@.drop_last() =~= held);
                        assert(items@.take(i + 1).drop_last() =~= items@.take(i as int));
                    }
                    i += 1;
                }
                assert(items@.take(i as int) =~= items@);
                Json::Array(out)
            },
            Json::Object(members) => {
                let mut out: Vec<(String, Json)> = Vec::new();
                let mut i: usize = 0;
                while i < members.len()
                    invariant
                        i <= members@.len(),
                        out@.len() == i,
                        members_view(out@) == members_view(members@.take(i as int)),
                        decreases_to!(self => members@),
                    decreases members@.len() - i,
                {
                    assert(decreases_to!(members@ => members@[i as int]));
                    let ghost held = out@;
                    out.push((members[i].0.clone(), members[i].1.duplicate()));
                    proof {
                        assert(out@.drop_last() =~= held);
                        assert(members@.take(i + 1).drop_last() =~= members@.take(i as int));
                    }
                    i += 1;
                }
                assert(members@.take(i as int) =~= members@);
                Json::Object(out)
            },
        }
    }

    /// The compact rendering. It reads back as the same value where all numbers
    /// are integers and the nesting stays within what can be read.
    pub fn text(&self) -> (s: String)
        ensures
            s@ == json_text(self@),
            self@.plain(MAX_DEPTH as nat) ==> json_read(encode_utf8(s@)) == Some(self@),
    {
        value_text(&to_value(self))
    }

    /// The compact rendering in UTF-8. It reads back as the same value where all
    /// numbers are integers and the nesting stays within what can be read.
    pub fn bytes(&self) -> (b: Vec<u8>)
        ensures
            b@ == encode_utf8(json_text(self@)),
            self@.plain(MAX_DEPTH as nat) ==> json_read(b@) == Some(self@),
    {
        let text = self.text();
        let bytes = slice_to_vec(text.as_str().as_bytes());
        assert(bytes@ == encode_utf8(text@));
        bytes
    }

    /// Reads a document.
    pub fn parse(document: &[u8]) -> (r: Option<Json>)
        ensures
            match r {
                Some(j) => json_read(document@) == Some(j@),
                None => json_read(document@) is None,
            },
    {
        match value_from_bytes(document) {
            Some(v) => Some(from_value(v)),
            None => None,
        }
    }

    /// Reads a document that is text.
    pub fn parse_text(document: &str) -> (r: Option<Json>)
        ensures
            match r {
                Some(j) => json_read(encode_utf8(document@)) == Some(j@),
                None => json_read(encode_utf8(document@)) is None,
            },
    {
        Json::parse(document.as_bytes())
    }
}

impl Clone for Json {
    fn clone(&self) -> (r: Json)
        ensures
            r@ == self@,
    {
        self.duplicate()
    }
}

/// A member that is set is found under its name, with the value that was set, and leaves every
/// other member as it was; what is no object has no members and gets none.
pub proof fn lemma_members_are_set(v: JsonView, key: Seq<char>, value: JsonView, other: Seq<char>)
    ensures
        v is Object ==> v.with(key, value).get(key) == Some(value),
        v is Object && other != key ==> v.with(key, value).get(other) == v.get(other),
        !(v is Object) ==> v.with(key, value) == v && v.get(key) is None,
        empty_object().get(key) is None,
        v.get(key) is Some ==> v.field(key) == v.get(key)->0,
        v.get(key) is None ==> v.field(key) is Null,
{
}

/// Of two members under one name the later one counts.
pub proof fn lemma_later_members_count(
    members: Seq<(String, Json)>,
    name: String,
    value: Json,
    other: Seq<char>,
)
    ensures
        ({
            let m = members_view(members.push((name, value)));
            &&& m.dom().contains(name@)
            &&& m[name@] == value@
            &&& other != name@ ==> (m.dom().contains(other) <==> members_view(
                members,
            ).dom().contains(other)) && (m.dom().contains(other) ==> m[other] == members_view(
                members,
            )[other])
        }),
{
    assert(members.push((name, value)).drop_last() =~= members);
}

} // verus!
