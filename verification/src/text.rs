//! Document text with LSP position math.
//!
//! LSP positions are (line, character) where `character` counts UTF-16 code
//! units, not bytes and not chars. Getting this wrong silently desynchronises a
//! shadow from the server, so it is worth the explicit conversion.

use vstd::prelude::*;
use vstd::string::*;
use crate::json::{int_json, Json, JsonView};
use crate::strings::{chars_of, text_of};

verus! {

#[derive(Debug, PartialEq, Eq)]
pub struct Text {
    pub content: String,
}

impl View for Text {
    type V = Seq<char>;

    open spec fn view(&self) -> Seq<char> {
        self.content@
    }
}

// ---- positions ----------------------------------------------------------

/// How many UTF-16 code units a character takes.
pub open spec fn utf16_len(c: char) -> int {
    if c >= '\u{10000}' {
        2
    } else {
        1
    }
}

/// How many characters of `s` stand before an LSP position: past `line` line
/// ends, then on through that line for `character` UTF-16 units, clamped to the
/// line and to the document.
pub open spec fn position(s: Seq<char>, line: int, character: int) -> int
    decreases s.len(),
{
    if s.len() == 0 {
        0
    } else if line > 0 {
        1 + position(
            s.skip(1),
            if s[0] == '\n' {
                line - 1
            } else {
                line
            },
            character,
        )
    } else if character <= 0 || s[0] == '\n' {
        0
    } else {
        1 + position(s.skip(1), 0, character - utf16_len(s[0]))
    }
}

/// How many line ends `s` holds.
pub open spec fn line_ends(s: Seq<char>) -> int
    decreases s.len(),
{
    if s.len() == 0 {
        0
    } else {
        line_ends(s.skip(1)) + if s[0] == '\n' {
            1int
        } else {
            0int
        }
    }
}

/// A position lies inside the document.
pub proof fn lemma_position_bounded(s: Seq<char>, line: int, character: int)
    ensures
        0 <= position(s, line, character) <= s.len(),
    decreases s.len(),
{
    if s.len() > 0 {
        if line > 0 {
            lemma_position_bounded(
                s.skip(1),
                if s[0] == '\n' {
                    line - 1
                } else {
                    line
                },
                character,
            );
        } else {
            lemma_position_bounded(s.skip(1), 0, character - utf16_len(s[0]));
        }
    }
}

/// A position lies on its line, or at the end of the document where there is no
/// such line: a character past the end of the line stops at the line's end.
pub proof fn lemma_position_stays_on_its_line(s: Seq<char>, line: int, character: int)
    requires
        0 <= line,
    ensures
        line_ends(s.take(position(s, line, character))) == if line <= line_ends(s) {
            line
        } else {
            line_ends(s)
        },
        line > line_ends(s) ==> position(s, line, character) == s.len(),
    decreases s.len(),
{
    lemma_position_bounded(s, line, character);
    lemma_line_ends_bounded(s);
    let p = position(s, line, character);
    if s.len() > 0 {
        if line > 0 {
            let rest = if s[0] == '\n' {
                line - 1
            } else {
                line
            };
            lemma_position_bounded(s.skip(1), rest, character);
            lemma_position_stays_on_its_line(s.skip(1), rest, character);
            assert(s.take(p).skip(1) =~= s.skip(1).take(p - 1));
        } else if p > 0 {
            lemma_position_stays_on_its_line(s.skip(1), 0, character - utf16_len(s[0]));
            lemma_line_ends_bounded(s.skip(1));
            assert(s.take(p).skip(1) =~= s.skip(1).take(p - 1));
        } else {
            assert(s.take(p) =~= Seq::empty());
        }
    } else {
        assert(s.take(p) =~= s);
    }
}

proof fn lemma_line_ends_bounded(s: Seq<char>)
    ensures
        0 <= line_ends(s) <= s.len(),
    decreases s.len(),
{
    if s.len() > 0 {
        lemma_line_ends_bounded(s.skip(1));
    }
}

/// A later position is never nearer the start of the document.
pub proof fn lemma_position_monotone(s: Seq<char>, l1: int, c1: int, l2: int, c2: int)
    requires
        0 <= l1,
        l1 < l2 || (l1 == l2 && c1 <= c2),
    ensures
        position(s, l1, c1) <= position(s, l2, c2),
    decreases s.len(),
{
    if s.len() > 0 {
        lemma_position_bounded(s, l2, c2);
        if l1 > 0 {
            let d: int = if s[0] == '\n' {
                1
            } else {
                0
            };
            lemma_position_monotone(s.skip(1), l1 - d, c1, l2 - d, c2);
        } else if c1 > 0 && s[0] != '\n' {
            if l2 > 0 {
                lemma_position_monotone(s.skip(1), 0, c1 - utf16_len(s[0]), l2, c2);
            } else {
                lemma_position_monotone(
                    s.skip(1),
                    0,
                    c1 - utf16_len(s[0]),
                    0,
                    c2 - utf16_len(s[0]),
                );
            }
        }
    }
}

// ---- changes ------------------------------------------------------------

/// The text a change puts in, nothing where it names none.
pub open spec fn change_text(change: JsonView) -> Seq<char> {
    match change.field("text"@) {
        JsonView::Str(t) => t,
        _ => Seq::empty(),
    }
}

/// One coordinate of a range, in 32 bits; zero where it is missing or is no
/// unsigned number.
pub open spec fn coordinate(range: JsonView, end: Seq<char>, axis: Seq<char>) -> int {
    match range.field(end).field(axis).as_u64() {
        Some(n) => n as int % 0x1_0000_0000,
        None => 0,
    }
}

/// Where an end of a range stands in `s`.
pub open spec fn range_end(s: Seq<char>, range: JsonView, end: Seq<char>) -> int {
    position(s, coordinate(range, end, "line"@), coordinate(range, end, "character"@))
}

/// `s` after one entry of `contentChanges`. A change with no range replaces the
/// whole document; a range that ends before it starts is empty.
pub open spec fn edited(s: Seq<char>, change: JsonView) -> Seq<char> {
    match change.get("range"@) {
        None => change_text(change),
        Some(range) => {
            let start = range_end(s, range, "start"@);
            let end = range_end(s, range, "end"@);
            s.take(start) + change_text(change) + s.skip(
                if end < start {
                    start
                } else {
                    end
                },
            )
        },
    }
}

/// `s` after a list of changes, each applied to what the one before it left.
pub open spec fn edited_all(s: Seq<char>, changes: Seq<JsonView>) -> Seq<char>
    decreases changes.len(),
{
    if changes.len() == 0 {
        s
    } else {
        edited(edited_all(s, changes.drop_last()), changes.last())
    }
}

/// A change without a range wins over whatever was there.
pub proof fn lemma_full_replacement_wins(before: Seq<char>, change: JsonView)
    requires
        change.get("range"@) is None,
    ensures
        edited(before, change) == change_text(change),
        change.field("text"@) is Str ==> edited(before, change) == change.field("text"@)->Str_0,
{
}

/// A change whose range is empty only inserts.
pub proof fn lemma_empty_range_only_inserts(s: Seq<char>, change: JsonView)
    requires
        change.get("range"@) is Some,
        change.field("range"@).field("start"@) == change.field("range"@).field("end"@),
    ensures
        ({
            let at = range_end(s, change.field("range"@), "start"@);
            &&& 0 <= at <= s.len()
            &&& edited(s, change) == s.take(at) + change_text(change) + s.skip(at)
        }),
        edited(s, change).len() == s.len() + change_text(change).len(),
{
    let range = change.field("range"@);
    lemma_position_bounded(
        s,
        coordinate(range, "start"@, "line"@),
        coordinate(range, "start"@, "character"@),
    );
}

/// Changes are applied in turn, each to what the one before it left: no change leaves the
/// text as it is, and a list of changes followed by another is the one list and then the
/// other.
pub proof fn lemma_changes_apply_in_turn(
    s: Seq<char>,
    change: JsonView,
    first: Seq<JsonView>,
    second: Seq<JsonView>,
)
    ensures
        edited_all(s, Seq::empty()) == s,
        edited_all(s, seq![change]) == edited(s, change),
        edited_all(s, first + second) == edited_all(edited_all(s, first), second),
        edited_all(s, seq![change] + second) == edited_all(edited(s, change), second),
{
    assert(seq![change].drop_last() =~= Seq::empty());
    lemma_changes_concat(s, first, second);
    lemma_changes_concat(s, seq![change], second);
}

proof fn lemma_changes_concat(s: Seq<char>, first: Seq<JsonView>, second: Seq<JsonView>)
    ensures
        edited_all(s, first + second) == edited_all(edited_all(s, first), second),
    decreases second.len(),
{
    if second.len() == 0 {
        assert(first + second =~= first);
    } else {
        assert((first + second).drop_last() =~= first + second.drop_last());
        lemma_changes_concat(s, first, second.drop_last());
    }
}

/// How many UTF-16 code units a text takes: two for every character beyond the basic plane,
/// one for any other.
pub open spec fn units(s: Seq<char>) -> int
    decreases s.len(),
{
    if s.len() == 0 {
        0
    } else {
        units(s.skip(1)) + if s[0] as int > 0xffff {
            2int
        } else {
            1int
        }
    }
}

/// A position counts UTF-16 units from the start of its line: as many stand before it as it
/// says, unless the line ends before; and no character is stepped over in vain.
pub proof fn lemma_position_counts_units(s: Seq<char>, line: int, character: int)
    requires
        0 <= line <= line_ends(s),
        0 <= character,
    ensures
        ({
            let start = position(s, line, 0);
            let p = position(s, line, character);
            &&& 0 <= start <= p <= s.len()
            &&& line_ends(s.take(start)) == line
            &&& start == 0 || s[start - 1] == '\n'
            &&& forall|i: int| start <= i < p ==> #[trigger] s[i] != '\n'
            &&& units(s.subrange(start, p)) >= character || p == s.len() || s[p] == '\n'
            &&& start < p ==> units(s.subrange(start, p - 1)) < character
        }),
    decreases s.len(),
{
    let start = position(s, line, 0);
    let p = position(s, line, character);
    lemma_position_bounded(s, line, character);
    lemma_position_bounded(s, line, 0);
    lemma_position_stays_on_its_line(s, line, 0);
    lemma_line_ends_bounded(s);
    if s.len() == 0 {
        assert(s.subrange(start, p) =~= Seq::empty());
    } else if line > 0 {
        let rest = s.skip(1);
        let left = if s[0] == '\n' {
            line - 1
        } else {
            line
        };
        lemma_position_counts_units(rest, left, character);
        let q = position(rest, left, character);
        let from = position(rest, left, 0);
        assert(s.subrange(start, p) =~= rest.subrange(from, q));
        if start < p {
            assert(s.subrange(start, p - 1) =~= rest.subrange(from, q - 1));
        }
        assert forall|i: int| start <= i < p implies #[trigger] s[i] != '\n' by {
            assert(rest[i - 1] == s[i]);
        }
        if p < s.len() {
            assert(rest[q] == s[p]);
        }
        if from == 0 {
            if s[0] != '\n' {
                assert(rest.take(0) =~= Seq::empty());
                assert(line_ends(rest.take(0)) == 0);
                lemma_position_stays_on_its_line(rest, left, 0);
            }
        } else {
            assert(rest[from - 1] == s[start - 1]);
        }
    } else if character > 0 && s[0] != '\n' {
        let rest = s.skip(1);
        let w = utf16_len(s[0]);
        assert(w == if s[0] as int > 0xffff {
            2int
        } else {
            1int
        });
        assert(start == 0);
        lemma_line_ends_bounded(rest);
        if character - w >= 0 {
            lemma_position_counts_units(rest, 0, character - w);
        } else {
            assert(position(rest, 0, character - w) == 0);
            assert(units(rest.subrange(0, 0)) == 0);
        }
        let q = position(rest, 0, character - w);
        lemma_position_bounded(rest, 0, character - w);
        assert(p == q + 1);
        assert(position(rest, 0, 0) == 0);
        assert(s.subrange(0, p).skip(1) =~= rest.subrange(0, q));
        assert(s.subrange(0, p)[0] == s[0]);
        if q > 0 {
            assert(s.subrange(0, p - 1).skip(1) =~= rest.subrange(0, q - 1));
            assert(s.subrange(0, p - 1)[0] == s[0]);
        } else {
            assert(s.subrange(0, p - 1) =~= Seq::empty());
        }
        assert forall|i: int| start <= i < p implies #[trigger] s[i] != '\n' by {
            if i > 0 {
                assert(rest[i - 1] == s[i]);
            }
        }
        if p < s.len() {
            assert(rest[q] == s[p]);
        }
    } else {
        assert(s.subrange(start, p) =~= Seq::empty());
    }
}

/// A change with a range puts its text in place of what stands between the two positions
/// that it names, and leaves everything before and after as it was. Putting in what stood
/// there changes nothing.
pub proof fn lemma_range_is_replaced(
    s: Seq<char>,
    change: JsonView,
    text: Seq<char>,
    l1: u32,
    c1: u32,
    l2: u32,
    c2: u32,
)
    requires
        change.field("text"@) == JsonView::Str(text),
        change.field("range"@).field("start"@).field("line"@) == int_json(l1 as int),
        change.field("range"@).field("start"@).field("character"@) == int_json(c1 as int),
        change.field("range"@).field("end"@).field("line"@) == int_json(l2 as int),
        change.field("range"@).field("end"@).field("character"@) == int_json(c2 as int),
    ensures
        ({
            let from = position(s, l1 as int, c1 as int);
            let to = position(s, l2 as int, c2 as int);
            let end = if to < from {
                from
            } else {
                to
            };
            let r = edited(s, change);
            &&& 0 <= from <= end <= s.len()
            &&& r.len() == s.len() - (end - from) + text.len()
            &&& r.subrange(0, from) == s.subrange(0, from)
            &&& r.subrange(from, from + text.len()) == text
            &&& r.subrange(from + text.len(), r.len() as int) == s.subrange(end, s.len() as int)
            &&& text == s.subrange(from, end) ==> r == s
        }),
{
    let from = position(s, l1 as int, c1 as int);
    let to = position(s, l2 as int, c2 as int);
    lemma_position_bounded(s, l1 as int, c1 as int);
    lemma_position_bounded(s, l2 as int, c2 as int);
    let end = if to < from {
        from
    } else {
        to
    };
    let r = edited(s, change);
    assert(r == s.take(from) + text + s.skip(end));
    assert(r.subrange(0, from) =~= s.subrange(0, from));
    assert(r.subrange(from, from + text.len()) =~= text);
    assert(r.subrange(from + text.len(), r.len() as int) =~= s.subrange(end, s.len() as int));
    if text == s.subrange(from, end) {
        assert(r =~= s);
    }
}

/// One coordinate of a range.
fn read_coordinate(range: &Json, end: &str, axis: &str) -> (r: u32)
    ensures
        r == coordinate(range@, end@, axis@),
{
    match range.get(end) {
        Some(p) => match p.get(axis) {
            Some(n) => match n.as_u64() {
                Some(n) => (n % 0x1_0000_0000) as u32,
                None => 0,
            },
            None => 0,
        },
        None => 0,
    }
}

/// How many characters of `chars` stand before an LSP position.
fn offset_of(chars: &Vec<char>, line: u32, character: u32) -> (r: usize)
    ensures
        r == position(chars@, line as int, character as int),
        r <= chars@.len(),
{
    proof {
        lemma_position_bounded(chars@, line as int, character as int);
        assert(chars@.skip(0) =~= chars@);
    }
    let mut i: usize = 0;
    let mut lines = line;
    let mut units = character;
    while i < chars.len()
        invariant
            i <= chars@.len(),
            position(chars@, line as int, character as int) == i + position(
                chars@.skip(i as int),
                lines as int,
                units as int,
            ),
        decreases chars@.len() - i,
    {
        let c = chars[i];
        assert(chars@.skip(i as int)[0] == c);
        assert(chars@.skip(i as int).skip(1) =~= chars@.skip(i + 1));
        if lines > 0 {
            if c == '\n' {
                lines -= 1;
            }
        } else if units == 0 || c == '\n' {
            return i;
        } else {
            let width: u32 = if c >= '\u{10000}' {
                2
            } else {
                1
            };
            proof {
                lemma_spent(chars@.skip(i + 1), units - utf16_len(c));
            }
            units = if units > width {
                units - width
            } else {
                0
            };
        }
        i += 1;
    }
    i
}

/// Once the units are spent, the position is where they ran out.
proof fn lemma_spent(s: Seq<char>, units: int)
    ensures
        units <= 0 ==> position(s, 0, units) == position(s, 0, 0),
{
}

impl Text {
    pub fn new(content: String) -> (r: Self)
        ensures
            r@ == content@,
    {
        Self { content }
    }

    /// Applies one entry of `contentChanges`. A change with no `range` is a
    /// full-document replacement.
    pub fn apply(&mut self, change: &Json)
        ensures
            final(self)@ == edited(old(self)@, change@),
    {
        proof {
            reveal_strlit("");
            assert(""@ =~= Seq::empty());
        }
        let new_text = match change.get("text") {
            Some(t) => match t.as_str() {
                Some(t) => t,
                None => "",
            },
            None => "",
        };
        let range = match change.get("range") {
            Some(range) => range,
            None => {
                self.content = new_text.to_owned();
                return;
            },
        };
        let chars = chars_of(self.content.as_str());
        let start = offset_of(
            &chars,
            read_coordinate(range, "start", "line"),
            read_coordinate(range, "start", "character"),
        );
        let end = offset_of(
            &chars,
            read_coordinate(range, "end", "line"),
            read_coordinate(range, "end", "character"),
        );
        let end = if end < start {
            start
        } else {
            end
        };
        let mut content = text_of(&chars, 0, start);
        content.append(new_text);
        let tail = text_of(&chars, end, chars.len());
        content.append(tail.as_str());
        self.content = content;
        assert(self@ =~= edited(old(self)@, change@));
    }
}

impl Clone for Text {
    fn clone(&self) -> (r: Self)
        ensures
            r@ == self@,
    {
        Text { content: self.content.clone() }
    }
}

impl Default for Text {
    fn default() -> (r: Self)
        ensures
            r@ == Seq::<char>::empty(),
    {
        Text { content: String::new() }
    }
}

} // verus!
