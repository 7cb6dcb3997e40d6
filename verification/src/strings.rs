//! Text as sequences of characters: comparing, cutting, joining and ordering.

use vstd::prelude::*;
use vstd::string::*;
use vstd::utf8::*;

verus! {

/// `String::push` of the standard library appends one character.
pub assume_specification[ std::string::String::push ](s: &mut std::string::String, c: char)
    ensures
        final(s)@ == old(s)@.push(c),
;

/// `std::str::from_utf8` accepts exactly the byte sequences that are UTF-8, and
/// hands out the text that they encode.
#[verifier::external_body]
pub(crate) fn from_utf8(bytes: &[u8]) -> (r: Option<String>)
    ensures
        match r {
            Some(s) => valid_utf8(bytes@) && s@ == decode_utf8(bytes@),
            None => !valid_utf8(bytes@),
        },
{
    std::str::from_utf8(bytes).ok().map(str::to_owned)
}

/// The text that `String::from_utf8_lossy` makes of some bytes.
pub uninterp spec fn lossy_text(bytes: Seq<u8>) -> Seq<char>;

/// `String::from_utf8_lossy` puts replacement characters where the bytes are not
/// UTF-8. Where all of them are, it hands out the text that they encode.
#[verifier::external_body]
pub(crate) fn from_utf8_lossy(bytes: &[u8]) -> (s: String)
    ensures
        s@ == lossy_text(bytes@),
        valid_utf8(bytes@) ==> s@ == decode_utf8(bytes@),
{
    String::from_utf8_lossy(bytes).into_owned()
}

/// What a list of strings says.
pub open spec fn views(list: Seq<String>) -> Seq<Seq<char>> {
    Seq::new(list.len(), |i: int| list[i]@)
}

/// The text of an optional string.
pub open spec fn opt_view(s: Option<String>) -> Option<Seq<char>> {
    match s {
        Some(s) => Some(s@),
        None => None,
    }
}

/// The text of an optional borrowed string.
pub open spec fn opt_str_view(s: Option<&str>) -> Option<Seq<char>> {
    match s {
        Some(s) => Some(s@),
        None => None,
    }
}

/// Whether two strings are the same text.
pub fn same(a: &str, b: &str) -> (r: bool)
    ensures
        r == (a@ == b@),
{
    let x = a.as_bytes();
    let y = b.as_bytes();
    proof {
        encode_utf8_decode_utf8(a@);
        encode_utf8_decode_utf8(b@);
    }
    if x.len() != y.len() {
        return false;
    }
    let mut i: usize = 0;
    while i < x.len()
        invariant
            x@ == encode_utf8(a@),
            y@ == encode_utf8(b@),
            x@.len() == y@.len(),
            i <= x@.len(),
            x@.take(i as int) =~= y@.take(i as int),
        decreases x@.len() - i,
    {
        if x[i] != y[i] {
            return false;
        }
        assert(x@.take(i + 1) =~= x@.take(i as int).push(x@[i as int]));
        assert(y@.take(i + 1) =~= y@.take(i as int).push(y@[i as int]));
        i += 1;
    }
    assert(x@.take(i as int) =~= x@);
    assert(y@.take(i as int) =~= y@);
    true
}

/// The characters of a string.
pub fn chars_of(s: &str) -> (r: Vec<char>)
    ensures
        r@ == s@,
{
    let mut out: Vec<char> = Vec::new();
    for c in it: s.chars()
        invariant
            out@ == it.seq().take(it.index()),
            it.seq() == s@,
    {
        out.push(c);
    }
    out
}

/// The string made of `chars[from..to]`.
pub fn text_of(chars: &Vec<char>, from: usize, to: usize) -> (r: String)
    requires
        from <= to <= chars@.len(),
    ensures
        r@ == chars@.subrange(from as int, to as int),
{
    let mut out = String::new();
    let mut i = from;
    while i < to
        invariant
            from <= i <= to <= chars@.len(),
            out@ == chars@.subrange(from as int, i as int),
        decreases to - i,
    {
        out.push(chars[i]);
        assert(chars@.subrange(from as int, i + 1) =~= chars@.subrange(from as int, i as int).push(
            chars@[i as int],
        ));
        i += 1;
    }
    out
}

// ---- lists --------------------------------------------------------------

/// The list of nothing.
pub fn none() -> (r: Vec<String>)
    ensures
        views(r@) == Seq::<Seq<char>>::empty(),
{
    let r: Vec<String> = Vec::new();
    assert(views(r@) =~= Seq::empty());
    r
}

/// A list of one.
pub fn list1(a: &str) -> (r: Vec<String>)
    ensures
        views(r@) == seq![a@],
{
    let mut r: Vec<String> = Vec::new();
    r.push(a.to_owned());
    assert(views(r@) =~= seq![a@]);
    r
}

/// A list of two.
pub fn list2(a: &str, b: &str) -> (r: Vec<String>)
    ensures
        views(r@) == seq![a@, b@],
{
    let mut r = list1(a);
    let ghost held = views(r@);
    r.push(b.to_owned());
    assert(views(r@) =~= held.push(b@));
    assert(views(r@) =~= seq![a@, b@]);
    r
}

/// A list of three.
pub fn list3(a: &str, b: &str, c: &str) -> (r: Vec<String>)
    ensures
        views(r@) == seq![a@, b@, c@],
{
    let mut r = list2(a, b);
    let ghost held = views(r@);
    r.push(c.to_owned());
    assert(views(r@) =~= held.push(c@));
    assert(views(r@) =~= seq![a@, b@, c@]);
    r
}

/// Whether `s` is in the list.
pub fn is_listed(list: &Vec<String>, s: &str) -> (r: bool)
    ensures
        r == views(list@).contains(s@),
{
    let mut i: usize = 0;
    while i < list.len()
        invariant
            i <= list@.len(),
            forall|k: int| 0 <= k < i ==> #[trigger] views(list@)[k] != s@,
        decreases list@.len() - i,
    {
        assert(views(list@)[i as int] == list@[i as int]@);
        if same(list[i].as_str(), s) {
            return true;
        }
        i += 1;
    }
    false
}

/// A copy of a list of texts.
pub fn copy_list(list: &Vec<String>) -> (r: Vec<String>)
    ensures
        views(r@) == views(list@),
{
    let mut out: Vec<String> = Vec::new();
    let mut i: usize = 0;
    while i < list.len()
        invariant
            i <= list@.len(),
            out@.len() == i,
            forall|k: int| 0 <= k < i ==> (#[trigger] out@[k])@ == list@[k]@,
        decreases list@.len() - i,
    {
        out.push(list[i].clone());
        i += 1;
    }
    assert(views(out@) =~= views(list@));
    out
}

/// Whether two lists hold the same texts.
pub fn same_list(a: &Vec<String>, b: &Vec<String>) -> (r: bool)
    ensures
        r == (views(a@) == views(b@)),
{
    if a.len() != b.len() {
        assert(views(a@).len() != views(b@).len());
        return false;
    }
    let mut i: usize = 0;
    while i < a.len()
        invariant
            i <= a@.len(),
            a@.len() == b@.len(),
            forall|k: int| 0 <= k < i ==> (#[trigger] a@[k])@ == b@[k]@,
        decreases a@.len() - i,
    {
        if !same(a[i].as_str(), b[i].as_str()) {
            assert(views(a@)[i as int] != views(b@)[i as int]);
            return false;
        }
        i += 1;
    }
    assert(views(a@) =~= views(b@));
    true
}

// ---- numbers ------------------------------------------------------------

/// One decimal digit, as a character.
pub open spec fn digit(d: nat) -> char {
    (d + '0' as nat) as char
}

/// `n` in decimal, without leading zeros.
pub open spec fn decimal_text(n: nat) -> Seq<char>
    decreases n,
{
    if n < 10 {
        seq![digit(n)]
    } else {
        decimal_text(n / 10).push(digit(n % 10))
    }
}

fn digit_char(d: u64) -> (c: char)
    requires
        d < 10,
    ensures
        c == digit(d as nat),
{
    if d == 0 { '0' }
    else if d == 1 { '1' }
    else if d == 2 { '2' }
    else if d == 3 { '3' }
    else if d == 4 { '4' }
    else if d == 5 { '5' }
    else if d == 6 { '6' }
    else if d == 7 { '7' }
    else if d == 8 { '8' }
    else { '9' }
}

/// `n` in decimal.
pub fn decimal(n: u64) -> (s: String)
    ensures
        s@ == decimal_text(n as nat),
    decreases n,
{
    if n < 10 {
        let mut s = String::new();
        s.push(digit_char(n));
        assert(s@ =~= decimal_text(n as nat));
        s
    } else {
        let mut s = decimal(n / 10);
        s.push(digit_char(n % 10));
        s
    }
}

/// A decimal digit.
pub open spec fn is_digit(c: char) -> bool {
    '0' <= c <= '9'
}

/// What a run of decimal digits is worth; `None` if any character is not a
/// digit or there are none.
pub open spec fn digits_value(s: Seq<char>) -> Option<nat>
    decreases s.len(),
{
    if s.len() == 0 || !is_digit(s.last()) {
        None
    } else if s.len() == 1 {
        Some((s.last() as nat - '0' as nat) as nat)
    } else {
        match digits_value(s.drop_last()) {
            Some(n) => Some(n * 10 + (s.last() as nat - '0' as nat) as nat),
            None => None,
        }
    }
}

/// The unsigned number that `s` spells: digits, with at most one leading `+`,
/// and no more than `max`.
pub open spec fn unsigned_value(s: Seq<char>, max: nat) -> Option<nat> {
    let digits = if s.len() > 0 && s[0] == '+' { s.skip(1) } else { s };
    match digits_value(digits) {
        Some(n) => if n <= max { Some(n) } else { None },
        None => None,
    }
}

proof fn lemma_digits_value_grows(s: Seq<char>, k: int)
    requires
        0 < k <= s.len(),
        digits_value(s) is Some,
    ensures
        digits_value(s.take(k)) is Some,
        digits_value(s.take(k))->0 <= digits_value(s)->0,
    decreases s.len(),
{
    if k == s.len() {
        assert(s.take(k) =~= s);
    } else {
        lemma_digits_value_grows(s.drop_last(), k);
        assert(s.drop_last().take(k) =~= s.take(k));
    }
}

/// Reads `s` as an unsigned number no larger than `max`.
pub fn parse_unsigned(s: &str, max: u64) -> (r: Option<u64>)
    ensures
        match r {
            Some(n) => unsigned_value(s@, max as nat) == Some(n as nat),
            None => unsigned_value(s@, max as nat) is None,
        },
{
    let chars = chars_of(s);
    let from: usize = if chars.len() > 0 && chars[0] == '+' { 1 } else { 0 };
    let ghost digits = chars@.skip(from as int);
    assert(s@.skip(0) =~= s@);
    if from == chars.len() {
        return None;
    }
    let mut n: u64 = 0;
    let mut i = from;
    while i < chars.len()
        invariant
            from <= i <= chars@.len(),
            chars@ == s@,
            from < chars@.len(),
            digits == chars@.skip(from as int),
            unsigned_value(s@, max as nat) == (match digits_value(digits) {
                Some(n) => if n <= max { Some(n) } else { None },
                None => None,
            }),
            i == from ==> n == 0,
            i > from ==> digits_value(digits.take(i - from)) == Some(n as nat),
            n <= max,
        decreases chars@.len() - i,
    {
        let c = chars[i];
        proof {
            assert(digits.take(i - from + 1).drop_last() =~= digits.take(i - from));
            assert(digits.take(i - from + 1).last() == c);
            if digits_value(digits) is Some {
                lemma_digits_value_grows(digits, i - from + 1);
            }
        }
        if c < '0' || c > '9' {
            return None;
        }
        let d: u64 = (c as u32 - '0' as u32) as u64;
        if n > max / 10 {
            assert(n * 10 > max) by (nonlinear_arith)
                requires
                    n > max / 10,
            ;
            return None;
        }
        assert(n * 10 <= max) by (nonlinear_arith)
            requires
                n <= max / 10,
        ;
        if d > max - n * 10 {
            return None;
        }
        n = n * 10 + d;
        i += 1;
    }
    assert(digits.take(i - from) =~= digits);
    Some(n)
}

proof fn lemma_decimal_text_value(n: nat)
    ensures
        digits_value(decimal_text(n)) == Some(n),
        decimal_text(n).len() > 0,
        forall|i: int| 0 <= i < decimal_text(n).len() ==> is_digit(#[trigger] decimal_text(n)[i]),
    decreases n,
{
    let t = decimal_text(n);
    if n < 10 {
        assert(t.last() == digit(n));
    } else {
        lemma_decimal_text_value(n / 10);
        assert(t.drop_last() =~= decimal_text(n / 10));
        assert(t.last() == digit(n % 10));
        assert forall|i: int| 0 <= i < t.len() implies is_digit(#[trigger] t[i]) by {
            if i < t.len() - 1 {
                assert(t[i] == decimal_text(n / 10)[i]);
            }
        }
    }
}

/// Reading back a number that was written in decimal gives that number.
pub proof fn lemma_decimal_round_trips(n: nat, max: nat)
    requires
        n <= max,
    ensures
        unsigned_value(decimal_text(n), max) == Some(n),
        decimal_text(n).len() > 0,
        forall|i: int| 0 <= i < decimal_text(n).len() ==> is_digit(#[trigger] decimal_text(n)[i]),
{
    lemma_decimal_text_value(n);
    assert(is_digit(decimal_text(n)[0]));
}

// ---- letter case --------------------------------------------------------

/// The number of a character, ASCII capitals counted as small letters.
pub open spec fn lower_code(c: char) -> u32 {
    if 'A' <= c <= 'Z' {
        (c as u32 + 32) as u32
    } else {
        c as u32
    }
}

/// Equal but for the case of ASCII letters.
pub open spec fn same_but_case(a: Seq<char>, b: Seq<char>) -> bool {
    a.len() == b.len() && forall|i: int|
        0 <= i < a.len() ==> lower_code(#[trigger] a[i]) == lower_code(b[i])
}

/// Compares without regard to the case of ASCII letters.
pub fn same_ignoring_case(a: &str, b: &str) -> (r: bool)
    ensures
        r == same_but_case(a@, b@),
{
    let x = chars_of(a);
    let y = chars_of(b);
    if x.len() != y.len() {
        return false;
    }
    let mut i: usize = 0;
    while i < x.len()
        invariant
            i <= x@.len(),
            x@ == a@,
            y@ == b@,
            x@.len() == y@.len(),
            forall|k: int| 0 <= k < i ==> lower_code(#[trigger] x@[k]) == lower_code(y@[k]),
        decreases x@.len() - i,
    {
        let p: u32 = if 'A' <= x[i] && x[i] <= 'Z' { x[i] as u32 + 32 } else { x[i] as u32 };
        let q: u32 = if 'A' <= y[i] && y[i] <= 'Z' { y[i] as u32 + 32 } else { y[i] as u32 };
        if p != q {
            assert(lower_code(x@[i as int]) != lower_code(y@[i as int]));
            return false;
        }
        i += 1;
    }
    true
}

// ---- white space --------------------------------------------------------

/// Characters with the Unicode `White_Space` property.
pub open spec fn is_space(c: char) -> bool {
    ||| '\u{9}' <= c <= '\u{d}'
    ||| c == ' '
    ||| c == '\u{85}'
    ||| c == '\u{a0}'
    ||| c == '\u{1680}'
    ||| '\u{2000}' <= c <= '\u{200a}'
    ||| c == '\u{2028}'
    ||| c == '\u{2029}'
    ||| c == '\u{202f}'
    ||| c == '\u{205f}'
    ||| c == '\u{3000}'
}

fn is_space_char(c: char) -> (r: bool)
    ensures
        r == is_space(c),
{
    ('\u{9}' <= c && c <= '\u{d}') || c == ' ' || c == '\u{85}' || c == '\u{a0}' || c == '\u{1680}'
        || ('\u{2000}' <= c && c <= '\u{200a}') || c == '\u{2028}' || c == '\u{2029}' || c == '\u{202f}'
        || c == '\u{205f}' || c == '\u{3000}'
}

/// `s` without leading white space.
pub open spec fn trim_start(s: Seq<char>) -> Seq<char>
    decreases s.len(),
{
    if s.len() > 0 && is_space(s[0]) {
        trim_start(s.skip(1))
    } else {
        s
    }
}

/// `s` without trailing white space.
pub open spec fn trim_end(s: Seq<char>) -> Seq<char>
    decreases s.len(),
{
    if s.len() > 0 && is_space(s.last()) {
        trim_end(s.drop_last())
    } else {
        s
    }
}

/// `s` without white space at either end.
pub open spec fn trimmed(s: Seq<char>) -> Seq<char> {
    trim_end(trim_start(s))
}

/// `s` without white space at either end.
pub fn trim(s: &str) -> (r: String)
    ensures
        r@ == trimmed(s@),
{
    let chars = chars_of(s);
    let mut from: usize = 0;
    assert(chars@.skip(0) =~= s@);
    while from < chars.len() && is_space_char(chars[from])
        invariant
            from <= chars@.len(),
            chars@ == s@,
            trim_start(s@) == trim_start(chars@.skip(from as int)),
        decreases chars@.len() - from,
    {
        assert(chars@.skip(from as int).skip(1) =~= chars@.skip(from + 1));
        from += 1;
    }
    let ghost rest = chars@.skip(from as int);
    let mut to: usize = chars.len();
    while to > from && is_space_char(chars[to - 1])
        invariant
            from <= to <= chars@.len(),
            rest == chars@.skip(from as int),
            trim_end(rest) == trim_end(chars@.subrange(from as int, to as int)),
        decreases to,
    {
        let ghost cur = chars@.subrange(from as int, to as int);
        assert(cur.drop_last() =~= chars@.subrange(from as int, to - 1));
        assert(cur.last() == chars@[to - 1]);
        to -= 1;
    }
    text_of(&chars, from, to)
}

/// White space goes at both ends, and nothing else does.
pub proof fn lemma_trimmed(before: Seq<char>, text: Seq<char>, after: Seq<char>)
    requires
        text.len() > 0 ==> !is_space(text[0]) && !is_space(text.last()),
        forall|i: int| 0 <= i < before.len() ==> is_space(#[trigger] before[i]),
        forall|i: int| 0 <= i < after.len() ==> is_space(#[trigger] after[i]),
    ensures
        trimmed(before + text + after) == text,
    decreases before.len(),
{
    let all = before + text + after;
    if before.len() > 0 {
        let rest = before.skip(1);
        assert forall|i: int| 0 <= i < rest.len() implies is_space(#[trigger] rest[i]) by {
            assert(is_space(before[i + 1]));
        }
        lemma_trimmed(rest, text, after);
        assert(is_space(before[0]));
        assert(all[0] == before[0]);
        assert(all.skip(1) =~= rest + text + after);
    } else if text.len() > 0 {
        assert(all[0] == text[0]);
        lemma_trim_end(text, after);
        assert(all =~= text + after);
    } else {
        lemma_trim_start_all(after);
        assert(all =~= after);
    }
}

proof fn lemma_trim_end(text: Seq<char>, after: Seq<char>)
    requires
        text.len() > 0,
        !is_space(text.last()),
        forall|i: int| 0 <= i < after.len() ==> is_space(#[trigger] after[i]),
    ensures
        trim_end(text + after) == text,
    decreases after.len(),
{
    let all = text + after;
    if after.len() > 0 {
        let rest = after.drop_last();
        assert forall|i: int| 0 <= i < rest.len() implies is_space(#[trigger] rest[i]) by {
            assert(is_space(after[i]));
        }
        lemma_trim_end(text, rest);
        assert(is_space(after[after.len() - 1]));
        assert(all.drop_last() =~= text + rest);
    } else {
        assert(all =~= text);
    }
}

proof fn lemma_trim_start_all(s: Seq<char>)
    requires
        forall|i: int| 0 <= i < s.len() ==> is_space(#[trigger] s[i]),
    ensures
        trim_start(s) == Seq::<char>::empty(),
        trimmed(s) == Seq::<char>::empty(),
    decreases s.len(),
{
    if s.len() > 0 {
        let rest = s.skip(1);
        assert forall|i: int| 0 <= i < rest.len() implies is_space(#[trigger] rest[i]) by {
            assert(is_space(s[i + 1]));
        }
        lemma_trim_start_all(rest);
        assert(is_space(s[0]));
    } else {
        assert(s =~= Seq::empty());
    }
}

/// None of the pieces holds `sep`.
pub open spec fn free_of(parts: Seq<Seq<char>>, sep: char) -> bool {
    forall|i: int| 0 <= i < parts.len() ==> !(#[trigger] parts[i]).contains(sep)
}

/// Appending to the last piece.
proof fn lemma_pieces_append(s: Seq<char>, sep: char, tail: Seq<char>)
    requires
        !tail.contains(sep),
    ensures
        pieces(s, sep).len() > 0,
        pieces(s + tail, sep) == pieces(s, sep).update(
            pieces(s, sep).len() - 1,
            pieces(s, sep).last() + tail,
        ),
    decreases tail.len(),
{
    lemma_pieces_nonempty(s, sep);
    let p = pieces(s, sep);
    if tail.len() == 0 {
        assert(s + tail =~= s);
        assert(p.last() + tail =~= p.last());
        assert(p.update(p.len() - 1, p.last() + tail) =~= p);
    } else {
        let before = tail.drop_last();
        assert(tail.contains(tail.last()));
        assert forall|i: int| 0 <= i < before.len() implies before[i] != sep by {
            assert(tail.contains(tail[i]));
        }
        lemma_pieces_append(s, sep, before);
        assert((s + tail).drop_last() =~= s + before);
        assert((s + tail).last() == tail.last());
        assert((p.last() + before).push(tail.last()) =~= p.last() + tail);
        assert(pieces(s + tail, sep) =~= p.update(p.len() - 1, p.last() + tail));
    }
}

proof fn lemma_pieces_nonempty(s: Seq<char>, sep: char)
    ensures
        pieces(s, sep).len() > 0,
    decreases s.len(),
{
    if s.len() > 0 {
        lemma_pieces_nonempty(s.drop_last(), sep);
    }
}

/// No piece of a text holds what it was cut at.
pub proof fn lemma_pieces_free(s: Seq<char>, sep: char)
    ensures
        pieces(s, sep).len() > 0,
        free_of(pieces(s, sep), sep),
    decreases s.len(),
{
    let all = pieces(s, sep);
    if s.len() > 0 {
        let before = pieces(s.drop_last(), sep);
        lemma_pieces_free(s.drop_last(), sep);
        assert forall|i: int| 0 <= i < all.len() implies !(#[trigger] all[i]).contains(sep) by {
            if i < before.len() - 1 || s.last() == sep && i < before.len() {
                assert(all[i] == before[i]);
            } else if s.last() != sep {
                assert(!before[i].contains(sep));
                let piece = before[i];
                assert forall|k: int| 0 <= k < all[i].len() implies all[i][k] != sep by {
                    if k < piece.len() {
                        assert(piece.contains(piece[k]));
                    }
                }
            }
        }
    }
}

/// A separator parts the pieces before it from those after it.
pub proof fn lemma_pieces_concat(a: Seq<char>, sep: char, b: Seq<char>)
    ensures
        pieces(a.push(sep) + b, sep) == pieces(a, sep) + pieces(b, sep),
    decreases b.len(),
{
    let all = a.push(sep) + b;
    lemma_pieces_nonempty(b, sep);
    if b.len() == 0 {
        assert(all =~= a.push(sep));
        assert(all.drop_last() =~= a);
        assert(pieces(all, sep) =~= pieces(a, sep) + pieces(b, sep));
    } else {
        let rest = b.drop_last();
        lemma_pieces_concat(a, sep, rest);
        lemma_pieces_nonempty(rest, sep);
        assert(all.drop_last() =~= a.push(sep) + rest);
        assert(all.last() == b.last());
        assert(pieces(all, sep) =~= pieces(a, sep) + pieces(b, sep));
    }
}

/// Cutting what was joined gives the pieces back.
pub proof fn lemma_join_split(parts: Seq<Seq<char>>, sep: char)
    requires
        parts.len() > 0,
        free_of(parts, sep),
    ensures
        pieces(joined(parts, seq![sep]), sep) == parts,
    decreases parts.len(),
{
    let last = parts.last();
    assert(parts[parts.len() - 1] == last);
    assert(!last.contains(sep));
    if parts.len() == 1 {
        lemma_pieces_append(Seq::empty(), sep, last);
        assert(Seq::<char>::empty() + last =~= last);
        assert(pieces(last, sep) =~= parts);
    } else {
        let before = parts.drop_last();
        assert forall|i: int| 0 <= i < before.len() implies !(#[trigger] before[i]).contains(
            sep,
        ) by {
            assert(parts[i] == before[i]);
        }
        lemma_join_split(before, sep);
        let head = joined(before, seq![sep]);
        let cutoff = head + seq![sep];
        assert(cutoff.drop_last() =~= head);
        assert(cutoff.last() == sep);
        assert(pieces(cutoff, sep) =~= before.push(Seq::empty()));
        lemma_pieces_append(cutoff, sep, last);
        assert(Seq::<char>::empty() + last =~= last);
        assert(joined(parts, seq![sep]) =~= cutoff + last);
        assert(pieces(joined(parts, seq![sep]), sep) =~= parts);
    }
}

// ---- cutting and joining ------------------------------------------------

/// `s` before and after the first `sep`, if it holds one.
pub open spec fn cut(s: Seq<char>, sep: char) -> Option<(Seq<char>, Seq<char>)> {
    match s.index_of_first(sep) {
        Some(i) => Some((s.take(i), s.skip(i + 1))),
        None => None,
    }
}

/// The first `sep` of `before + sep + after` is that one, if `before` holds none.
pub proof fn lemma_cut(before: Seq<char>, sep: char, after: Seq<char>)
    requires
        forall|i: int| 0 <= i < before.len() ==> #[trigger] before[i] != sep,
    ensures
        cut(before.push(sep) + after, sep) == Some((before, after)),
{
    let s = before.push(sep) + after;
    s.index_of_first_ensures(sep);
    assert(s[before.len() as int] == sep);
    assert(s.contains(sep));
    let at = s.index_of_first(sep)->0;
    if at < before.len() {
        assert(before[at] == sep);
    }
    assert(s.take(at) =~= before);
    assert(s.skip(at + 1) =~= after);
}

/// Cuts `s` at the first `sep`.
pub fn split_once(s: &str, sep: char) -> (r: Option<(String, String)>)
    ensures
        match r {
            Some(p) => cut(s@, sep) == Some((p.0@, p.1@)),
            None => cut(s@, sep) is None,
        },
{
    let chars = chars_of(s);
    proof {
        s@.index_of_first_ensures(sep);
    }
    let mut i: usize = 0;
    while i < chars.len()
        invariant
            i <= chars@.len(),
            chars@ == s@,
            forall|k: int| 0 <= k < i ==> chars@[k] != sep,
            match s@.index_of_first(sep) {
                Some(at) => 0 <= at < s@.len() && s@[at] == sep && forall|k: int|
                    0 <= k < at ==> s@[k] != sep,
                None => !s@.contains(sep),
            },
        decreases chars@.len() - i,
    {
        if chars[i] == sep {
            assert(s@.contains(sep));
            let before = text_of(&chars, 0, i);
            let after = text_of(&chars, i + 1, chars.len());
            proof {
                assert(before@ =~= s@.take(i as int));
                assert(after@ =~= s@.skip(i + 1));
            }
            return Some((before, after));
        }
        i += 1;
    }
    None
}

/// The pieces of `s` between occurrences of `sep`: one more than there are
/// occurrences.
pub open spec fn pieces(s: Seq<char>, sep: char) -> Seq<Seq<char>>
    decreases s.len(),
{
    if s.len() == 0 {
        seq![Seq::empty()]
    } else {
        let before = pieces(s.drop_last(), sep);
        if s.last() == sep {
            before.push(Seq::empty())
        } else {
            before.update(before.len() - 1, before.last().push(s.last()))
        }
    }
}

/// The pieces in order, with `sep` between each two.
pub open spec fn joined(parts: Seq<Seq<char>>, sep: Seq<char>) -> Seq<char>
    decreases parts.len(),
{
    if parts.len() == 0 {
        Seq::empty()
    } else if parts.len() == 1 {
        parts[0]
    } else {
        joined(parts.drop_last(), sep) + sep + parts.last()
    }
}

/// Cuts `s` at every `sep`.
pub fn split(s: &str, sep: char) -> (r: Vec<String>)
    ensures
        views(r@) == pieces(s@, sep),
{
    let chars = chars_of(s);
    let mut out: Vec<String> = Vec::new();
    let mut current = String::new();
    let mut i: usize = 0;
    assert(views(out@).push(current@) =~= pieces(chars@.take(0), sep));
    while i < chars.len()
        invariant
            i <= chars@.len(),
            views(out@).push(current@) == pieces(chars@.take(i as int), sep),
        decreases chars@.len() - i,
    {
        let c = chars[i];
        let ghost before = views(out@).push(current@);
        assert(chars@.take(i + 1).drop_last() =~= chars@.take(i as int));
        if c == sep {
            out.push(current);
            current = String::new();
            assert(views(out@) =~= before);
        } else {
            current.push(c);
            assert(views(out@).push(current@) =~= before.update(
                before.len() - 1,
                before.last().push(c),
            ));
        }
        i += 1;
    }
    assert(chars@.take(i as int) =~= s@);
    let ghost before = views(out@).push(current@);
    out.push(current);
    assert(views(out@) =~= before);
    out
}

/// Puts the pieces together, with `sep` between each two.
pub fn join(parts: &Vec<String>, sep: &str) -> (r: String)
    ensures
        r@ == joined(views(parts@), sep@),
{
    let mut out = String::new();
    let mut i: usize = 0;
    while i < parts.len()
        invariant
            i <= parts@.len(),
            out@ == joined(views(parts@).take(i as int), sep@),
        decreases parts@.len() - i,
    {
        assert(views(parts@).take(i + 1).drop_last() =~= views(parts@).take(i as int));
        if i > 0 {
            out.append(sep);
        }
        out.append(parts[i].as_str());
        if i == 0 {
            assert(out@ =~= views(parts@).take(1)[0]);
        }
        i += 1;
    }
    assert(views(parts@).take(i as int) =~= views(parts@));
    out
}

proof fn lemma_joined_update_last(parts: Seq<Seq<char>>, sep: Seq<char>, c: char)
    requires
        parts.len() > 0,
    ensures
        joined(parts.update(parts.len() - 1, parts.last().push(c)), sep) == joined(parts, sep).push(c),
{
    let changed = parts.update(parts.len() - 1, parts.last().push(c));
    if parts.len() > 1 {
        assert(changed.drop_last() =~= parts.drop_last());
        assert(joined(changed, sep) =~= joined(parts, sep).push(c));
    }
}

/// Cutting and joining again at the same character changes nothing.
pub proof fn lemma_split_join(s: Seq<char>, sep: char)
    ensures
        joined(pieces(s, sep), seq![sep]) == s,
        pieces(s, sep).len() > 0,
    decreases s.len(),
{
    if s.len() == 0 {
        assert(joined(pieces(s, sep), seq![sep]) =~= s);
    } else {
        lemma_split_join(s.drop_last(), sep);
        let before = pieces(s.drop_last(), sep);
        if s.last() == sep {
            let after = before.push(Seq::empty());
            assert(after.drop_last() =~= before);
            assert(joined(after, seq![sep]) =~= s);
        } else {
            lemma_joined_update_last(before, seq![sep], s.last());
            assert(s.drop_last().push(s.last()) =~= s);
        }
    }
}

/// Whether `s` begins with `prefix`.
pub open spec fn begins_with(s: Seq<char>, prefix: Seq<char>) -> bool {
    prefix.len() <= s.len() && s.take(prefix.len() as int) == prefix
}

/// Whether `s` begins with `prefix`.
pub fn starts_with(s: &str, prefix: &str) -> (r: bool)
    ensures
        r == begins_with(s@, prefix@),
{
    let a = chars_of(s);
    let b = chars_of(prefix);
    assert(a@.skip(0) =~= a@);
    starts_at(&a, 0, &b)
}

/// Whether `part` stands in `chars` at `at`.
fn starts_at(chars: &Vec<char>, at: usize, part: &Vec<char>) -> (r: bool)
    requires
        at <= chars@.len(),
    ensures
        r == begins_with(chars@.skip(at as int), part@),
{
    if part.len() > chars.len() - at {
        return false;
    }
    let mut i: usize = 0;
    while i < part.len()
        invariant
            i <= part@.len() <= chars@.len() - at,
            chars@.len() <= usize::MAX,
            part@.take(i as int) =~= chars@.skip(at as int).take(i as int),
        decreases part@.len() - i,
    {
        if chars[at + i] != part[i] {
            assert(chars@.skip(at as int).take(part@.len() as int)[i as int] != part@[i as int]);
            return false;
        }
        assert(part@.take(i + 1) =~= part@.take(i as int).push(part@[i as int]));
        i += 1;
    }
    assert(part@.take(i as int) =~= part@);
    true
}

/// Whether `part` stands somewhere in `s`.
pub open spec fn has_part(s: Seq<char>, part: Seq<char>) -> bool {
    exists|at: int| 0 <= at <= s.len() && #[trigger] begins_with(s.skip(at), part)
}

/// Whether `part` stands somewhere in `s`.
pub fn contains(s: &str, part: &str) -> (r: bool)
    ensures
        r == has_part(s@, part@),
{
    let a = chars_of(s);
    let b = chars_of(part);
    let mut at: usize = 0;
    while at < a.len()
        invariant
            at <= a@.len(),
            a@ == s@,
            b@ == part@,
            forall|k: int| 0 <= k < at ==> !#[trigger] begins_with(a@.skip(k), b@),
        decreases a@.len() - at,
    {
        if starts_at(&a, at, &b) {
            return true;
        }
        at += 1;
    }
    starts_at(&a, at, &b)
}

// ---- order --------------------------------------------------------------

/// Dictionary order by character: `a` comes before `b`.
pub open spec fn text_lt(a: Seq<char>, b: Seq<char>) -> bool
    decreases a.len(),
{
    if b.len() == 0 {
        false
    } else if a.len() == 0 {
        true
    } else if a[0] == b[0] {
        text_lt(a.skip(1), b.skip(1))
    } else {
        a[0] < b[0]
    }
}

/// Whether `a` comes before `b` in dictionary order.
pub fn less(a: &str, b: &str) -> (r: bool)
    ensures
        r == text_lt(a@, b@),
{
    let x = chars_of(a);
    let y = chars_of(b);
    let mut i: usize = 0;
    assert(x@.skip(0) =~= a@);
    assert(y@.skip(0) =~= b@);
    while i < x.len() && i < y.len()
        invariant
            i <= x@.len(),
            i <= y@.len(),
            text_lt(a@, b@) == text_lt(x@.skip(i as int), y@.skip(i as int)),
        decreases x@.len() - i,
    {
        if x[i] != y[i] {
            return x[i] < y[i];
        }
        assert(x@.skip(i as int).skip(1) =~= x@.skip(i + 1));
        assert(y@.skip(i as int).skip(1) =~= y@.skip(i + 1));
        i += 1;
    }
    i < y.len()
}

proof fn lemma_text_lt_irreflexive(a: Seq<char>)
    ensures
        !text_lt(a, a),
    decreases a.len(),
{
    if a.len() > 0 {
        lemma_text_lt_irreflexive(a.skip(1));
    }
}

proof fn lemma_text_lt_transitive(a: Seq<char>, b: Seq<char>, c: Seq<char>)
    requires
        text_lt(a, b),
        text_lt(b, c),
    ensures
        text_lt(a, c),
    decreases a.len(),
{
    if a.len() > 0 && a[0] == b[0] && b[0] == c[0] {
        lemma_text_lt_transitive(a.skip(1), b.skip(1), c.skip(1));
    }
}

proof fn lemma_text_lt_total(a: Seq<char>, b: Seq<char>)
    requires
        a != b,
    ensures
        text_lt(a, b) || text_lt(b, a),
    decreases a.len(),
{
    if a.len() == 0 {
        assert(b.len() > 0) by {
            if b.len() == 0 {
                assert(a =~= b);
            }
        }
    } else if b.len() > 0 && a[0] == b[0] {
        assert(a =~= seq![a[0]] + a.skip(1));
        assert(b =~= seq![b[0]] + b.skip(1));
        lemma_text_lt_total(a.skip(1), b.skip(1));
    }
}

/// The order is that of a dictionary: a text comes before what it begins, and otherwise the
/// first difference decides. Of two different texts one comes before the other, and never
/// both.
pub proof fn lemma_text_order(common: Seq<char>, x: char, y: char, a: Seq<char>, b: Seq<char>)
    ensures
        text_lt(common, common.push(x) + a),
        x < y ==> text_lt(common.push(x) + a, common.push(y) + b),
        a != b ==> (text_lt(a, b) <==> !text_lt(b, a)),
        !text_lt(a, a),
    decreases common.len(),
{
    lemma_text_lt_irreflexive(a);
    if a != b {
        lemma_text_lt_total(a, b);
        if text_lt(a, b) && text_lt(b, a) {
            lemma_text_lt_transitive(a, b, a);
        }
    }
    let p = common.push(x) + a;
    let q = common.push(y) + b;
    if common.len() > 0 {
        let rest = common.skip(1);
        lemma_text_order(rest, x, y, a, b);
        assert(p.skip(1) =~= rest.push(x) + a);
        assert(q.skip(1) =~= rest.push(y) + b);
        assert(p[0] == common[0] && q[0] == common[0]);
    } else {
        assert(p[0] == x && q[0] == y);
    }
}

/// In dictionary order, nothing twice.
pub open spec fn strictly_sorted(list: Seq<Seq<char>>) -> bool {
    forall|i: int, j: int| 0 <= i < j < list.len() ==> text_lt(#[trigger] list[i], #[trigger] list[j])
}

/// The members of `set` in dictionary order.
pub open spec fn sorted_list(set: Set<Seq<char>>) -> Seq<Seq<char>> {
    choose|list: Seq<Seq<char>>| #[trigger] strictly_sorted(list) && list.to_set() == set
}

/// A list in strict dictionary order is determined by what it holds.
pub proof fn lemma_sorted_list_unique(a: Seq<Seq<char>>, b: Seq<Seq<char>>)
    requires
        strictly_sorted(a),
        strictly_sorted(b),
        a.to_set() == b.to_set(),
    ensures
        a == b,
    decreases a.len(),
{
    if a.len() == 0 {
        if b.len() > 0 {
            assert(b.to_set().contains(b[0]));
            assert(a.to_set().contains(b[0]));
        }
        assert(a =~= b);
    } else {
        assert(a.to_set().contains(a.last()));
        assert(b.to_set().contains(a.last()));
        let j = choose|j: int| 0 <= j < b.len() && b[j] == a.last();
        assert(b.to_set().contains(b.last()));
        assert(a.to_set().contains(b.last()));
        let i = choose|i: int| 0 <= i < a.len() && a[i] == b.last();
        if a.last() != b.last() {
            assert(i < a.len() - 1 && j < b.len() - 1);
            assert(text_lt(a[i], a.last()));
            assert(text_lt(b[j], b.last()));
            lemma_text_lt_transitive(a.last(), b.last(), a.last());
            lemma_text_lt_irreflexive(a.last());
        }
        let x = a.drop_last();
        let y = b.drop_last();
        assert forall|s: Seq<char>| x.to_set().contains(s) == y.to_set().contains(s) by {
            if x.to_set().contains(s) {
                let k = choose|k: int| 0 <= k < x.len() && x[k] == s;
                assert(a[k] == s);
                assert(a.to_set().contains(s));
                assert(b.to_set().contains(s));
                let m = choose|m: int| 0 <= m < b.len() && b[m] == s;
                if m == b.len() - 1 {
                    assert(text_lt(a[k], a.last()));
                    lemma_text_lt_irreflexive(s);
                }
                assert(y[m] == s);
            }
            if y.to_set().contains(s) {
                let k = choose|k: int| 0 <= k < y.len() && y[k] == s;
                assert(b[k] == s);
                assert(b.to_set().contains(s));
                assert(a.to_set().contains(s));
                let m = choose|m: int| 0 <= m < a.len() && a[m] == s;
                if m == a.len() - 1 {
                    assert(text_lt(b[k], b.last()));
                    lemma_text_lt_irreflexive(s);
                }
                assert(x[m] == s);
            }
        }
        assert(x.to_set() =~= y.to_set());
        lemma_sorted_list_unique(x, y);
        assert(a =~= x.push(a.last()));
        assert(b =~= y.push(b.last()));
    }
}

/// Puts a list in dictionary order and drops repetitions.
pub fn sort_unique(list: &Vec<String>) -> (r: Vec<String>)
    ensures
        strictly_sorted(views(r@)),
        views(r@).to_set() == views(list@).to_set(),
        views(r@) == sorted_list(views(list@).to_set()),
{
    let mut out: Vec<String> = Vec::new();
    let mut i: usize = 0;
    assert(views(out@).to_set() =~= views(list@).take(0).to_set());
    while i < list.len()
        invariant
            i <= list@.len(),
            strictly_sorted(views(out@)),
            views(out@).to_set() == views(list@).take(i as int).to_set(),
        decreases list@.len() - i,
    {
        let item = &list[i];
        let mut at: usize = 0;
        while at < out.len() && less(out[at].as_str(), item.as_str())
            invariant
                at <= out@.len(),
                forall|k: int| 0 <= k < at ==> text_lt(#[trigger] views(out@)[k], item@),
            decreases out@.len() - at,
        {
            assert(views(out@)[at as int] == out@[at as int]@);
            at += 1;
        }
        let ghost before = views(out@);
        proof {
            lemma_take_to_set(views(list@), i as int);
            if at < out@.len() {
                assert(before[at as int] == out@[at as int]@);
            }
        }
        if at < out.len() && same(out[at].as_str(), item.as_str()) {
            assert(before.to_set().contains(item@));
            assert(before.to_set().insert(item@) =~= before.to_set());
        } else {
            out.insert(at, item.clone());
            proof {
                assert(views(out@) =~= before.insert(at as int, item@));
                if at < before.len() {
                    lemma_text_lt_total(before[at as int], item@);
                }
                lemma_insert_sorted(before, at as int, item@);
            }
        }
        i += 1;
    }
    assert(views(list@).take(i as int) =~= views(list@));
    proof {
        let chosen = sorted_list(views(list@).to_set());
        assert(strictly_sorted(chosen) && chosen.to_set() == views(list@).to_set());
        lemma_sorted_list_unique(views(out@), chosen);
    }
    out
}

proof fn lemma_take_to_set(s: Seq<Seq<char>>, i: int)
    requires
        0 <= i < s.len(),
    ensures
        s.take(i + 1).to_set() == s.take(i).to_set().insert(s[i]),
{
    let a = s.take(i + 1);
    let b = s.take(i);
    assert forall|x: Seq<char>| a.to_set().contains(x) == b.to_set().insert(s[i]).contains(x) by {
        if a.contains(x) {
            let k = choose|k: int| 0 <= k < a.len() && a[k] == x;
            if k < i {
                assert(b[k] == x);
            }
        }
        if b.contains(x) {
            let k = choose|k: int| 0 <= k < b.len() && b[k] == x;
            assert(a[k] == x);
        }
        assert(a[i] == s[i]);
    }
    assert(a.to_set() =~= b.to_set().insert(s[i]));
}

proof fn lemma_insert_sorted(s: Seq<Seq<char>>, at: int, item: Seq<char>)
    requires
        0 <= at <= s.len(),
        strictly_sorted(s),
        forall|k: int| 0 <= k < at ==> text_lt(#[trigger] s[k], item),
        at < s.len() ==> text_lt(item, s[at]),
    ensures
        strictly_sorted(s.insert(at, item)),
        s.insert(at, item).to_set() == s.to_set().insert(item),
{
    let t = s.insert(at, item);
    assert forall|i: int, j: int| 0 <= i < j < t.len() implies text_lt(#[trigger] t[i], #[trigger] t[j]) by {
        if i < at && j == at {
            assert(t[i] == s[i]);
        } else if i == at && j > at {
            assert(t[j] == s[j - 1]);
            if j - 1 > at {
                assert(text_lt(s[at], s[j - 1]));
                lemma_text_lt_transitive(item, s[at], s[j - 1]);
            }
        } else {
            assert(t[i] == s[if i < at { i } else { i - 1 }]);
            assert(t[j] == s[if j < at { j } else { j - 1 }]);
        }
    }
    assert forall|x: Seq<char>| t.to_set().contains(x) == s.to_set().insert(item).contains(x) by {
        if t.contains(x) {
            let k = choose|k: int| 0 <= k < t.len() && t[k] == x;
            if k < at {
                assert(s[k] == x);
            } else if k > at {
                assert(s[k - 1] == x);
            }
        }
        if s.contains(x) {
            let k = choose|k: int| 0 <= k < s.len() && s[k] == x;
            assert(t[if k < at { k } else { k + 1 }] == x);
        }
        assert(t[at] == item);
    }
    assert(t.to_set() =~= s.to_set().insert(item));
}

/// Where `item` belongs in a list in dictionary order.
proof fn lemma_place_in_order(s: Seq<Seq<char>>, item: Seq<char>) -> (at: int)
    requires
        strictly_sorted(s),
    ensures
        0 <= at <= s.len(),
        forall|k: int| 0 <= k < at ==> text_lt(#[trigger] s[k], item),
        at < s.len() ==> s[at] == item || text_lt(item, s[at]),
    decreases s.len(),
{
    if s.len() == 0 {
        0
    } else if text_lt(s.last(), item) {
        assert forall|k: int| 0 <= k < s.len() implies text_lt(#[trigger] s[k], item) by {
            if k < s.len() - 1 {
                assert(text_lt(s[k], s[s.len() - 1]));
                lemma_text_lt_transitive(s[k], s.last(), item);
            }
        }
        s.len() as int
    } else {
        let rest = s.drop_last();
        assert forall|i: int, j: int| 0 <= i < j < rest.len() implies text_lt(
            #[trigger] rest[i],
            #[trigger] rest[j],
        ) by {
            assert(text_lt(s[i], s[j]));
        }
        let at = lemma_place_in_order(rest, item);
        assert forall|k: int| 0 <= k < at implies text_lt(#[trigger] s[k], item) by {
            assert(rest[k] == s[k]);
        }
        if at == rest.len() && s[at] != item {
            lemma_text_lt_total(s[at], item);
        } else if at < rest.len() {
            assert(rest[at] == s[at]);
        }
        at
    }
}

/// What a list holds can be put in dictionary order.
pub proof fn lemma_sorted_list_exists(list: Seq<Seq<char>>)
    ensures
        strictly_sorted(sorted_list(list.to_set())),
        sorted_list(list.to_set()).to_set() == list.to_set(),
    decreases list.len(),
{
    if list.len() == 0 {
        let none = Seq::<Seq<char>>::empty();
        assert(strictly_sorted(none));
        assert(none.to_set() =~= list.to_set());
    } else {
        let rest = list.drop_last();
        lemma_sorted_list_exists(rest);
        let before = sorted_list(rest.to_set());
        let item = list.last();
        let at = lemma_place_in_order(before, item);
        let n = list.len() - 1;
        lemma_take_to_set(list, n);
        assert(list.take(n + 1) =~= list);
        assert(list.take(n) =~= rest);
        if at < before.len() && before[at] == item {
            assert(before.to_set().contains(item));
            assert(before.to_set() =~= list.to_set());
        } else {
            lemma_insert_sorted(before, at, item);
            assert(strictly_sorted(before.insert(at, item)));
        }
    }
}

/// A text begins with another, or holds it, where something can be put after it, or before and
/// after it, to make the text; and only there.
pub proof fn lemma_parts(before: Seq<char>, part: Seq<char>, after: Seq<char>)
    ensures
        begins_with(part + after, part),
        has_part(before + part + after, part),
        begins_with(after, part) ==> after == part + after.skip(part.len() as int),
        has_part(after, part) ==> exists|at: int|
            0 <= at <= after.len() - part.len() && #[trigger] after.subrange(at, at + part.len())
                == part,
{
    assert((part + after).take(part.len() as int) =~= part);
    let all = before + part + after;
    let n = before.len() as int;
    assert(all.skip(n).take(part.len() as int) =~= part);
    assert(begins_with(all.skip(n), part));
    if begins_with(after, part) {
        assert(after =~= after.take(part.len() as int) + after.skip(part.len() as int));
    }
    if has_part(after, part) {
        let at = choose|at: int|
            0 <= at <= after.len() && #[trigger] begins_with(after.skip(at), part);
        assert(after.subrange(at, at + part.len()) =~= after.skip(at).take(part.len() as int));
    }
}

/// Blanks, tabs and line ends are white space; no letter, digit or punctuation of ASCII is.
pub proof fn lemma_spaces(c: char)
    ensures
        c == ' ' || c == '\t' || c == '\n' || c == '\r' ==> is_space(c),
        '!' <= c <= '~' ==> !is_space(c),
{
}

} // verus!
