//! Document and folder URIs.

use vstd::prelude::*;
use vstd::string::*;
use vstd::utf8::*;
use crate::json::{items_view, json_view, lemma_items_view, Json, JsonView};
use crate::strings::{
    begins_with, chars_of, from_utf8_lossy, lossy_text, starts_with, text_of, views,
};

verus! {

/// A plus sign in ASCII.
pub const PLUS: u8 = 0x2b;

/// A percent sign in ASCII.
pub const PERCENT: u8 = 0x25;

/// What a hexadecimal digit is worth, in ASCII.
pub open spec fn hex_value(b: u8) -> Option<u8> {
    if 0x30u8 <= b <= 0x39u8 {
        Some((b - 0x30u8) as u8)
    } else if 0x61u8 <= b <= 0x66u8 {
        Some((b - 0x61u8 + 10) as u8)
    } else if 0x41u8 <= b <= 0x46u8 {
        Some((b - 0x41u8 + 10) as u8)
    } else {
        None
    }
}

/// The byte that the two characters after a percent sign stand for: two
/// hexadecimal digits, of which the first may be a plus sign.
pub open spec fn escape_value(first: u8, second: u8) -> Option<u8> {
    match (hex_value(first), hex_value(second)) {
        (Some(h), Some(l)) => Some((h * 16 + l) as u8),
        (None, Some(l)) => if first == PLUS {
            Some(l)
        } else {
            None
        },
        _ => None,
    }
}

/// The bytes with every escape decoded. A percent sign that starts no escape
/// stays.
pub open spec fn unescaped(b: Seq<u8>) -> Seq<u8>
    decreases b.len(),
{
    if b.len() == 0 {
        Seq::empty()
    } else if b[0] == PERCENT && b.len() > 2 && escape_value(b[1], b[2]) is Some {
        seq![escape_value(b[1], b[2])->0] + unescaped(b.skip(3))
    } else {
        seq![b[0]] + unescaped(b.skip(1))
    }
}

/// The path part of what follows `file://`: an authority before the first slash
/// is left out.
pub open spec fn after_authority(rest: Seq<char>) -> Seq<char> {
    match rest.index_of_first('/') {
        Some(i) => rest.skip(i),
        None => rest,
    }
}

/// The path that a URI names; a URI of another scheme stands for itself.
pub open spec fn uri_path(uri: Seq<char>) -> Seq<char> {
    if begins_with(uri, "file://"@) {
        lossy_text(unescaped(encode_utf8(after_authority(uri.skip("file://"@.len() as int)))))
    } else {
        uri
    }
}

fn hex_digit(b: u8) -> (r: Option<u8>)
    ensures
        r == hex_value(b),
        r is Some ==> r->0 < 16,
{
    if 0x30u8 <= b && b <= 0x39u8 {
        Some(b - 0x30u8)
    } else if 0x61u8 <= b && b <= 0x66u8 {
        Some(b - 0x61u8 + 10)
    } else if 0x41u8 <= b && b <= 0x46u8 {
        Some(b - 0x41u8 + 10)
    } else {
        None
    }
}

fn escape(first: u8, second: u8) -> (r: Option<u8>)
    ensures
        r == escape_value(first, second),
{
    match (hex_digit(first), hex_digit(second)) {
        (Some(h), Some(l)) => Some(h * 16 + l),
        (None, Some(l)) => if first == PLUS {
            Some(l)
        } else {
            None
        },
        _ => None,
    }
}

/// The bytes of `s` with every percent escape decoded.
pub fn unescape(s: &str) -> (out: Vec<u8>)
    ensures
        out@ == unescaped(encode_utf8(s@)),
{
    let bytes = s.as_bytes();
    let mut out: Vec<u8> = Vec::new();
    let mut i: usize = 0;
    assert(bytes@.skip(0) =~= bytes@);
    assert(out@ + unescaped(bytes@) =~= unescaped(bytes@));
    while i < bytes.len()
        invariant
            i <= bytes@.len(),
            out@ + unescaped(bytes@.skip(i as int)) == unescaped(bytes@),
        decreases bytes@.len() - i,
    {
        let ghost left = bytes@.skip(i as int);
        let ghost held = out@;
        if bytes[i] == PERCENT && bytes.len() - i > 2 {
            if let Some(b) = escape(bytes[i + 1], bytes[i + 2]) {
                out.push(b);
                proof {
                    assert(left.skip(3) =~= bytes@.skip(i + 3));
                    assert(out@ + unescaped(bytes@.skip(i + 3)) =~= held + unescaped(left));
                }
                i += 3;
                continue;
            }
        }
        out.push(bytes[i]);
        proof {
            assert(left.skip(1) =~= bytes@.skip(i + 1));
            assert(out@ + unescaped(bytes@.skip(i + 1)) =~= held + unescaped(left));
        }
        i += 1;
    }
    assert(out@ + unescaped(bytes@.skip(i as int)) =~= out@);
    out
}

fn percent_decode(s: &str) -> (r: String)
    ensures
        r@ == lossy_text(unescaped(encode_utf8(s@))),
        valid_utf8(unescaped(encode_utf8(s@))) ==> r@ == decode_utf8(unescaped(encode_utf8(s@))),
{
    from_utf8_lossy(&unescape(s))
}

/// `file:///a/b` to `/a/b`, with percent-decoding. Non-file URIs pass through so
/// they still act as a stable key.
pub fn uri_to_path(uri: &str) -> (r: String)
    ensures
        r@ == uri_path(uri@),
        begins_with(uri@, "file://"@) ==> ({
            let path = after_authority(uri@.skip("file://"@.len() as int));
            &&& valid_utf8(unescaped(encode_utf8(path))) ==> r@ == decode_utf8(
                unescaped(encode_utf8(path)),
            )
            &&& !path.contains('%') ==> r@ == path
        }),
{
    if !starts_with(uri, "file://") {
        return uri.to_owned();
    }
    proof {
        reveal_strlit("file://");
    }
    let chars = chars_of(uri);
    let ghost rest = chars@.skip(7);
    proof {
        rest.index_of_first_ensures('/');
    }
    let mut at: usize = 7;
    while at < chars.len() && chars[at] != '/'
        invariant
            7 <= at <= chars@.len(),
            rest == chars@.skip(7),
            forall|k: int| 0 <= k < at - 7 ==> rest[k] != '/',
        decreases chars@.len() - at,
    {
        at += 1;
    }
    let from: usize = if at < chars.len() {
        at
    } else {
        7
    };
    let path = text_of(&chars, from, chars.len());
    proof {
        if at < chars@.len() {
            assert(rest[at - 7] == '/');
            assert(rest.contains('/'));
            assert(rest.index_of_first('/') == Some(at - 7));
            assert(rest.skip(at - 7) =~= path@);
        } else {
            assert(path@ =~= rest);
        }
        if !path@.contains('%') {
            lemma_no_percent_bytes(path@);
            lemma_nothing_to_unescape(encode_utf8(path@));
            encode_utf8_valid_utf8(path@);
            encode_utf8_decode_utf8(path@);
        }
    }
    percent_decode(path.as_str())
}

/// The paths of the folders that name one by URI.
pub open spec fn folder_paths(folders: Seq<JsonView>) -> Seq<Seq<char>>
    decreases folders.len(),
{
    if folders.len() == 0 {
        Seq::empty()
    } else {
        let before = folder_paths(folders.drop_last());
        match folders.last().field("uri"@).as_str() {
            Some(uri) => before.push(uri_path(uri)),
            None => before,
        }
    }
}

/// The paths of the folders that name one by URI.
pub fn read_folders(folders: &Vec<Json>) -> (r: Vec<String>)
    ensures
        views(r@) == folder_paths(items_view(folders@)),
{
    let mut out: Vec<String> = Vec::new();
    let mut i: usize = 0;
    let ghost all = items_view(folders@);
    proof {
        lemma_items_view(folders@);
        assert(views(out@) =~= folder_paths(all.take(0)));
    }
    while i < folders.len()
        invariant
            i <= folders@.len(),
            all == Seq::new(folders@.len(), |k: int| json_view(folders@[k])),
            views(out@) == folder_paths(all.take(i as int)),
        decreases folders@.len() - i,
    {
        let ghost held = views(out@);
        assert(all.take(i + 1).drop_last() =~= all.take(i as int));
        assert(all.take(i + 1).last() == folders@[i as int]@);
        if let Some(u) = folders[i].get("uri") {
            if let Some(uri) = u.as_str() {
                out.push(uri_to_path(uri));
                assert(views(out@) =~= held.push(uri_path(uri@)));
            }
        }
        i += 1;
    }
    assert(all.take(i as int) =~= all);
    out
}

/// A URI that is no file URI is its own key.
pub proof fn lemma_other_schemes_stay(uri: Seq<char>)
    requires
        !begins_with(uri, "file://"@),
    ensures
        uri_path(uri) == uri,
{
}

/// Decoding changes nothing where no percent sign stands.
pub proof fn lemma_nothing_to_unescape(b: Seq<u8>)
    requires
        !b.contains(PERCENT),
    ensures
        unescaped(b) == b,
    decreases b.len(),
{
    if b.len() > 0 {
        assert(b.contains(b[0]));
        assert forall|i: int| 0 <= i < b.skip(1).len() implies b.skip(1)[i] != PERCENT by {
            assert(b.contains(b[i + 1]));
        }
        lemma_nothing_to_unescape(b.skip(1));
        assert(seq![b[0]] + b.skip(1) =~= b);
    }
}

/// Decoding goes through the bytes once: a percent sign before two hexadecimal digits, of
/// either case, stands for the byte that they write, and whatever else is there stays.
pub proof fn lemma_unescaping(b: u8, rest: Seq<u8>, high: u8, low: u8, h: u8, l: u8)
    requires
        high < 16,
        low < 16,
        h == (if high < 10 {
            0x30 + high
        } else {
            0x41 + high - 10
        }) || (high >= 10 && h == 0x61 + high - 10),
        l == (if low < 10 {
            0x30 + low
        } else {
            0x41 + low - 10
        }) || (low >= 10 && l == 0x61 + low - 10),
    ensures
        unescaped(Seq::empty()) == Seq::<u8>::empty(),
        unescaped(seq![0x25u8, h, l] + rest) == seq![(16 * high + low) as u8] + unescaped(rest),
        b != 0x25 ==> unescaped(seq![b] + rest) == seq![b] + unescaped(rest),
        rest.len() < 2 ==> unescaped(seq![b] + rest) == seq![b] + rest,
{
    let t = seq![0x25u8, h, l] + rest;
    assert(t.skip(3) =~= rest);
    assert(hex_value(h) == Some(high) && hex_value(l) == Some(low));
    assert((seq![b] + rest).skip(1) =~= rest);
    if rest.len() < 2 {
        reveal_with_fuel(unescaped, 4);
        if rest.len() == 1 {
            assert(rest.skip(1) =~= Seq::empty());
            assert(seq![rest[0]] + unescaped(rest.skip(1)) =~= rest);
        } else {
            assert(unescaped(rest) =~= rest);
        }
    }
}

/// A file URI names the path after its authority, whatever the authority is; and the path is
/// what its bytes decode to.
pub proof fn lemma_file_uris(authority: Seq<char>, path: Seq<char>)
    requires
        !authority.contains('/'),
        path.len() > 0,
        path[0] == '/',
    ensures
        uri_path("file://"@ + authority + path) == uri_path("file://"@ + path),
        uri_path("file://"@ + path) == lossy_text(unescaped(encode_utf8(path))),
{
    reveal_strlit("file://");
    let a = "file://"@ + authority + path;
    let b = "file://"@ + path;
    assert(a.take(7) =~= "file://"@);
    assert(b.take(7) =~= "file://"@);
    assert(a.skip(7) =~= authority + path);
    assert(b.skip(7) =~= path);
    let r = authority + path;
    let n = authority.len() as int;
    assert(r[n] == '/' && r.contains('/'));
    assert(path.contains(path[0]));
    r.index_of_first_ensures('/');
    path.index_of_first_ensures('/');
    let i = r.index_of_first('/')->0;
    if i < n {
        assert(authority[i] == '/');
        assert(authority.contains('/'));
    }
    assert(i == n);
    assert(r.skip(n) =~= path);
    assert(path.skip(0) =~= path);
}

/// The paths of folders come one for one, in order: those of one list and then those of the
/// other; a folder that names no URI gives none.
pub proof fn lemma_folders(folder: JsonView, a: Seq<JsonView>, b: Seq<JsonView>)
    ensures
        folder_paths(Seq::empty()) == Seq::<Seq<char>>::empty(),
        folder_paths(seq![folder]) == (match folder.field("uri"@) {
            JsonView::Str(uri) => seq![uri_path(uri)],
            _ => Seq::empty(),
        }),
        folder_paths(a + b) == folder_paths(a) + folder_paths(b),
    decreases b.len(),
{
    assert(seq![folder].drop_last() =~= Seq::empty());
    assert(folder_paths(seq![folder].drop_last()) =~= Seq::empty());
    assert(seq![folder].last() == folder);
    assert(folder_paths(seq![folder]) =~= match folder.field("uri"@) {
        JsonView::Str(uri) => seq![uri_path(uri)],
        _ => Seq::empty(),
    });
    if b.len() == 0 {
        assert(a + b =~= a);
        assert(folder_paths(a) + folder_paths(b) =~= folder_paths(a));
    } else {
        assert((a + b).drop_last() =~= a + b.drop_last());
        lemma_folders(folder, a, b.drop_last());
        assert(folder_paths(a + b) =~= folder_paths(a) + folder_paths(b));
    }
}

proof fn lemma_no_percent_bytes(s: Seq<char>)
    requires
        !s.contains('%'),
    ensures
        !encode_utf8(s).contains(PERCENT),
    decreases s.len(),
{
    if s.len() > 0 {
        assert(s.contains(s[0]));
        let rest = s.drop_first();
        assert forall|i: int| 0 <= i < rest.len() implies rest[i] != '%' by {
            assert(s.contains(s[i + 1]));
        }
        lemma_no_percent_bytes(rest);
        let v = s[0] as u32;
        char_is_scalar(s[0]);
        if v == 0x25 {
            char_u32_cast(s[0], v);
        }
        assert(v != 0x25u32 && v <= 0x7f ==> (v & 0x7f) as u8 != 0x25u8) by (bit_vector);
        assert(0xC0u8 | ((v >> 6) & 0x1F) as u8 >= 0x80u8) by (bit_vector);
        assert(0xE0u8 | ((v >> 12) & 0x0F) as u8 >= 0x80u8) by (bit_vector);
        assert(0xF0u8 | ((v >> 18) & 0x7) as u8 >= 0x80u8) by (bit_vector);
        assert(0x80u8 | (v & 0x3F) as u8 >= 0x80u8) by (bit_vector);
        assert(0x80u8 | ((v >> 6) & 0x3F) as u8 >= 0x80u8) by (bit_vector);
        assert(0x80u8 | ((v >> 12) & 0x3F) as u8 >= 0x80u8) by (bit_vector);
        let first = encode_scalar(v);
        assert forall|i: int| 0 <= i < first.len() implies first[i] != PERCENT by {
            if has_width_1_encoding(v) {
                assert(first[i] == leading_byte_width_1(v));
            }
        }
        let all = encode_utf8(s);
        assert(all == first + encode_utf8(rest));
        assert forall|i: int| 0 <= i < all.len() implies all[i] != PERCENT by {
            if i >= first.len() {
                assert(encode_utf8(rest).contains(encode_utf8(rest)[i - first.len()]));
            }
        }
    }
}

} // verus!
