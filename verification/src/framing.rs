//! LSP base protocol framing: `Content-Length` headers over a byte stream.

use vstd::prelude::*;
use vstd::slice::*;
use vstd::string::*;
use vstd::utf8::*;
use crate::strings::{
    chars_of, cut, decimal, decimal_text, from_utf8, is_digit, is_space, lemma_cut,
    lemma_decimal_round_trips, parse_unsigned, same_but_case, same_ignoring_case, split_once,
    text_of, trim, trim_start, trimmed, unsigned_value,
};

verus! {

/// The longest body that is read.
pub const MAX_BODY: usize = 536_870_912;

/// Why a stream cannot be read on.
#[derive(Debug, Clone, Copy, PartialEq, Eq, Structural)]
pub enum FrameError {
    /// A header line is not UTF-8.
    NotText,
    /// A `Content-Length` that is no number.
    BadLength,
    /// Two `Content-Length` headers in one message. The sender disagrees about
    /// where this message ends, and letting the last one win would read every
    /// message after it at the wrong offset.
    TwoLengths { first: usize, second: usize },
    /// No `Content-Length` at all.
    NoLength,
    /// A wedged or hostile peer must not make us allocate the heap.
    TooLong { len: usize },
    /// The stream ended inside a body.
    Truncated,
}

/// What can be read from the front of a stream.
#[derive(Debug)]
pub enum Frame {
    /// Not all of the next message is there yet.
    Incomplete,
    /// The peer closed.
    Closed,
    /// A message body, and how much of the input it took with its headers.
    Message { body: Vec<u8>, used: usize },
}

/// What can be read from the front of a stream, and what is left after it.
#[verifier::ext_equal]
pub enum FrameView {
    Incomplete,
    Closed,
    Message { body: Seq<u8>, rest: Seq<u8> },
    Failed(FrameError),
}

/// What a header line does to the length known so far.
pub enum HeaderView {
    /// The blank line: the body follows.
    End,
    /// The length known after this line.
    Length(Option<usize>),
    Failed(FrameError),
}

/// A line without the carriage returns at its end.
pub open spec fn without_returns(line: Seq<char>) -> Seq<char>
    decreases line.len(),
{
    if line.len() > 0 && line.last() == '\r' {
        without_returns(line.drop_last())
    } else {
        line
    }
}

/// The value of the `Content-Length` header, if `line` is that header. Header
/// names are matched without regard to case.
pub open spec fn length_field(line: Seq<char>) -> Option<Seq<char>> {
    match cut(line, ':') {
        Some((field, value)) => if same_but_case(trimmed(field), "content-length"@) {
            Some(value)
        } else {
            None
        },
        None => None,
    }
}

/// What the header line `line`, without its line feed, does.
pub open spec fn header(line: Seq<u8>, known: Option<usize>) -> HeaderView {
    let text = without_returns(decode_utf8(line));
    if !valid_utf8(line) {
        HeaderView::Failed(FrameError::NotText)
    } else if text.len() == 0 {
        HeaderView::End
    } else {
        match length_field(text) {
            None => HeaderView::Length(known),
            Some(value) => match unsigned_value(trimmed(value), usize::MAX as nat) {
                None => HeaderView::Failed(FrameError::BadLength),
                Some(n) => match known {
                    Some(first) => HeaderView::Failed(
                        FrameError::TwoLengths { first, second: n as usize },
                    ),
                    None => HeaderView::Length(Some(n as usize)),
                },
            },
        }
    }
}

/// What comes after the blank line.
pub open spec fn after_headers(rest: Seq<u8>, known: Option<usize>, closed: bool) -> FrameView {
    match known {
        None => FrameView::Failed(FrameError::NoLength),
        Some(len) => if len > MAX_BODY {
            FrameView::Failed(FrameError::TooLong { len })
        } else if rest.len() >= len {
            FrameView::Message { body: rest.take(len as int), rest: rest.skip(len as int) }
        } else if closed {
            FrameView::Failed(FrameError::Truncated)
        } else {
            FrameView::Incomplete
        },
    }
}

/// What can be read from `input`, of which the headers read so far gave the
/// length `known`. `closed` says that nothing will follow `input`.
pub open spec fn framed(input: Seq<u8>, known: Option<usize>, closed: bool) -> FrameView
    decreases input.len(),
{
    match line_end(input) {
        Some(i) => match header(input.take(i), known) {
            HeaderView::Failed(e) => FrameView::Failed(e),
            HeaderView::End => after_headers(input.skip(i + 1), known, closed),
            HeaderView::Length(l) => if 0 <= i < input.len() {
                framed(input.skip(i + 1), l, closed)
            } else {
                FrameView::Incomplete
            },
        },
        None => if !closed {
            FrameView::Incomplete
        } else if input.len() == 0 {
            FrameView::Closed
        } else {
            match header(input, known) {
                HeaderView::Failed(e) => FrameView::Failed(e),
                HeaderView::End => after_headers(Seq::empty(), known, closed),
                HeaderView::Length(_) => FrameView::Closed,
            }
        },
    }
}

/// Where the first line ends.
pub open spec fn line_end(input: Seq<u8>) -> Option<int> {
    input.index_of_first(10u8)
}

/// A result against what it stands for.
pub open spec fn reads_as(r: Result<Frame, FrameError>, input: Seq<u8>, view: FrameView) -> bool {
    match r {
        Err(e) => view == FrameView::Failed(e),
        Ok(Frame::Incomplete) => view is Incomplete,
        Ok(Frame::Closed) => view is Closed,
        Ok(Frame::Message { body, used }) => used <= input.len() && view == (FrameView::Message {
            body: body@,
            rest: input.skip(used as int),
        }),
    }
}

/// What a header line does.
enum Header {
    End,
    Length(Option<usize>),
}

/// Reads one header line.
fn read_header(line: &[u8], known: Option<usize>) -> (r: Result<Header, FrameError>)
    ensures
        match r {
            Ok(Header::End) => header(line@, known) is End,
            Ok(Header::Length(l)) => header(line@, known) == HeaderView::Length(l),
            Err(e) => header(line@, known) == HeaderView::Failed(e),
        },
{
    let text = match from_utf8(line) {
        Some(t) => t,
        None => return Err(FrameError::NotText),
    };
    let chars = chars_of(text.as_str());
    let mut end = chars.len();
    assert(chars@.take(end as int) =~= chars@);
    while end > 0 && chars[end - 1] == '\r'
        invariant
            end <= chars@.len(),
            without_returns(chars@) == without_returns(chars@.take(end as int)),
        decreases end,
    {
        assert(chars@.take(end as int).drop_last() =~= chars@.take(end - 1));
        end -= 1;
    }
    if end == 0 {
        return Ok(Header::End);
    }
    let line = text_of(&chars, 0, end);
    assert(line@ =~= chars@.take(end as int));
    match split_header(line.as_str()) {
        None => Ok(Header::Length(known)),
        Some(value) => {
            let value = trim(value.as_str());
            match parse_unsigned(value.as_str(), usize::MAX as u64) {
                None => Err(FrameError::BadLength),
                Some(n) => match known {
                    Some(first) => Err(FrameError::TwoLengths { first, second: n as usize }),
                    None => Ok(Header::Length(Some(n as usize))),
                },
            }
        },
    }
}

/// Value of the `Content-Length` header if `line` is that header.
fn split_header(line: &str) -> (r: Option<String>)
    ensures
        match r {
            Some(v) => length_field(line@) == Some(v@),
            None => length_field(line@) is None,
        },
{
    match split_once(line, ':') {
        None => None,
        Some((field, value)) => {
            let field = trim(field.as_str());
            if same_ignoring_case(field.as_str(), "content-length") {
                Some(value)
            } else {
                None
            }
        },
    }
}

/// The body that starts at `at`.
fn read_body(
    input: &Vec<u8>,
    at: usize,
    known: Option<usize>,
    closed: bool,
) -> (r: Result<Frame, FrameError>)
    requires
        at <= input@.len(),
    ensures
        reads_as(r, input@, after_headers(input@.skip(at as int), known, closed)),
{
    let len = match known {
        Some(len) => len,
        None => return Err(FrameError::NoLength),
    };
    if len > MAX_BODY {
        return Err(FrameError::TooLong { len });
    }
    if input.len() - at < len {
        return if closed {
            Err(FrameError::Truncated)
        } else {
            Ok(Frame::Incomplete)
        };
    }
    let body = slice_to_vec(slice_subrange(input.as_slice(), at, at + len));
    proof {
        assert(body@ =~= input@.skip(at as int).take(len as int));
        assert(input@.skip(at as int).skip(len as int) =~= input@.skip(at + len));
    }
    Ok(Frame::Message { body, used: at + len })
}

/// Reads one framed message body from the front of `input`, of which nothing
/// more will follow if `closed`.
pub fn read_message(input: &Vec<u8>, closed: bool) -> (r: Result<Frame, FrameError>)
    ensures
        reads_as(r, input@, framed(input@, None, closed)),
{
    let mut at: usize = 0;
    let mut known: Option<usize> = None;
    assert(input@.skip(0) =~= input@);
    loop
        invariant
            at <= input@.len(),
            framed(input@, None, closed) == framed(input@.skip(at as int), known, closed),
        decreases input@.len() - at,
    {
        let ghost left = input@.skip(at as int);
        proof {
            left.index_of_first_ensures(10u8);
        }
        let mut end = at;
        while end < input.len() && input[end] != 10
            invariant
                at <= end <= input@.len(),
                left == input@.skip(at as int),
                forall|k: int| 0 <= k < end - at ==> left[k] != 10,
            decreases input@.len() - end,
        {
            end += 1;
        }
        let line = slice_subrange(input.as_slice(), at, end);
        if end < input.len() {
            assert(left[end - at] == 10);
            assert(left.contains(10u8));
            assert(line_end(left) == Some(end - at));
            assert(line@ =~= left.take(end - at));
            assert(left.skip(end - at + 1) =~= input@.skip(end + 1));
            match read_header(line, known) {
                Err(e) => return Err(e),
                Ok(Header::End) => return read_body(input, end + 1, known, closed),
                Ok(Header::Length(l)) => {
                    known = l;
                    at = end + 1;
                },
            }
        } else {
            assert(line_end(left) is None);
            assert(line@ =~= left);
            if !closed {
                return Ok(Frame::Incomplete);
            }
            if at == end {
                return Ok(Frame::Closed);
            }
            assert(input@.skip(end as int) =~= Seq::empty());
            return match read_header(line, known) {
                Err(e) => Err(e),
                Ok(Header::End) => read_body(input, end, known, closed),
                Ok(Header::Length(_)) => Ok(Frame::Closed),
            };
        }
    }
}

/// The headers of a body of `len` bytes.
pub open spec fn frame_header(len: nat) -> Seq<char> {
    "Content-Length: "@ + decimal_text(len) + "\r\n\r\n"@
}

/// A body as it goes on the wire.
pub open spec fn frame(body: Seq<u8>) -> Seq<u8> {
    encode_utf8(frame_header(body.len())) + body
}

/// Appends `body`, framed, to what is to be sent.
pub fn write_message(out: &mut Vec<u8>, body: &[u8])
    ensures
        final(out)@ == old(out)@ + frame(body@),
{
    let mut head = "Content-Length: ".to_owned();
    let length = decimal(body.len() as u64);
    head.append(length.as_str());
    head.append("\r\n\r\n");
    out.extend_from_slice(head.as_str().as_bytes());
    assert(out@ =~= old(out)@ + encode_utf8(frame_header(body@.len())));
    out.extend_from_slice(body);
    assert(out@ =~= old(out)@ + frame(body@));
}

/// What a write wrote, a read gives back, whatever bytes the body holds and
/// whatever follows it.
pub proof fn lemma_round_trip(body: Seq<u8>, rest: Seq<u8>, closed: bool)
    requires
        body.len() <= MAX_BODY,
    ensures
        framed(frame(body) + rest, None, closed) == (FrameView::Message { body, rest }),
{
    let input = frame(body) + rest;
    let head = frame_header(body.len());
    let name = "Content-Length"@;
    let digits = decimal_text(body.len());
    reveal_strlit("Content-Length: ");
    reveal_strlit("Content-Length");
    reveal_strlit("content-length");
    reveal_strlit("\r\n\r\n");
    lemma_decimal_round_trips(body.len(), usize::MAX as nat);
    let at = (16 + digits.len() + 1) as int;
    assert(head.len() == at + 3);
    assert(is_ascii_chars(head)) by {
        assert forall|i: int| 0 <= i < head.len() implies '\0' <= #[trigger] head[i]
            <= '\u{7f}' by {
            if 16 <= i < 16 + digits.len() {
                assert(head[i] == digits[i - 16]);
            }
        }
    }
    is_ascii_chars_encode_utf8(head);
    // The first line is the length header.
    let shown = "Content-Length: "@ + digits;
    let first = head.take(at);
    assert(first =~= shown.push('\r'));
    assert(is_ascii_chars(first)) by {
        assert forall|i: int| 0 <= i < first.len() implies '\0' <= #[trigger] first[i]
            <= '\u{7f}' by {
            assert(first[i] == head[i]);
        }
    }
    is_ascii_chars_encode_utf8(first);
    assert(input.take(at) =~= encode_utf8(first)) by {
        assert forall|i: int| 0 <= i < at implies input[i] == encode_utf8(first)[i] by {
            assert(input[i] == encode_utf8(head)[i]);
            assert(head[i] as u8 == encode_utf8(head)[i]);
            assert(first[i] == head[i]);
        }
    }
    assert(head[at] == '\n' && head[at + 1] == '\r' && head[at + 2] == '\n');
    assert(input[at] == 10 && input[at + 1] == 13 && input[at + 2] == 10);
    input.index_of_first_ensures(10u8);
    assert(input.contains(10u8));
    assert(line_end(input) == Some(at)) by {
        let found = line_end(input)->0;
        if found < at {
            assert(input[found] == encode_utf8(first)[found]);
            assert(first[found] as u8 == 10);
            if 16 <= found < 16 + digits.len() {
                assert(is_digit(digits[found - 16]));
            }
        }
    }
    assert(decode_utf8(input.take(at)) == first) by {
        encode_utf8_decode_utf8(first);
    }
    encode_utf8_valid_utf8(first);
    assert(without_returns(first) == shown) by {
        assert(first.drop_last() =~= shown);
        assert(shown.last() == digits.last());
        assert(is_digit(digits[digits.len() - 1]));
        reveal_with_fuel(without_returns, 2);
    }
    assert(shown =~= name.push(':') + seq![' '] + digits);
    assert(shown =~= name.push(':') + (seq![' '] + digits));
    lemma_cut(name, ':', seq![' '] + digits);
    assert(trimmed(name) == name);
    assert(same_but_case(name, "content-length"@));
    assert(trimmed(seq![' '] + digits) == digits) by {
        let value = seq![' '] + digits;
        assert(is_digit(digits[0]) && is_digit(digits[digits.len() - 1]));
        assert(value.skip(1) =~= digits);
        reveal_with_fuel(trim_start, 2);
        assert(!is_space(digits.last()) && !is_space(digits[0]));
    }
    assert(header(input.take(at), None) == HeaderView::Length(Some(body.len() as usize)));
    // The second is blank.
    let after = input.skip(at + 1);
    let blank = seq!['\r'];
    is_ascii_chars_encode_utf8(blank);
    assert(after.take(1) =~= encode_utf8(blank)) by {
        assert(blank[0] as u8 == 13);
        assert(after[0] == input[at + 1]);
    }
    after.index_of_first_ensures(10u8);
    assert(after[0] == 13 && after[1] == 10);
    assert(after.contains(10u8));
    assert(line_end(after) == Some(1int));
    encode_utf8_decode_utf8(blank);
    encode_utf8_valid_utf8(blank);
    assert(blank.drop_last() =~= Seq::empty());
    reveal_with_fuel(without_returns, 2);
    assert(without_returns(blank).len() == 0);
    assert(header(after.take(1), Some(body.len() as usize)) is End);
    assert(after.skip(2) =~= body + rest);
    assert((body + rest).take(body.len() as int) =~= body);
    assert((body + rest).skip(body.len() as int) =~= rest);
    reveal_with_fuel(framed, 2);
}

/// More input changes nothing of what could be read without it: a message that
/// arrives in pieces is read as if it had arrived at once.
pub proof fn lemma_more_input(
    input: Seq<u8>,
    more: Seq<u8>,
    known: Option<usize>,
    closed: bool,
)
    ensures
        match framed(input, known, false) {
            FrameView::Incomplete => true,
            FrameView::Closed => false,
            FrameView::Failed(e) => framed(input + more, known, closed) == FrameView::Failed(e),
            FrameView::Message { body, rest } => framed(input + more, known, closed) == (
            FrameView::Message { body, rest: rest + more }),
        },
    decreases input.len(),
{
    let all = input + more;
    input.index_of_first_ensures(10u8);
    all.index_of_first_ensures(10u8);
    if line_end(input) is Some {
        let at = line_end(input)->0;
        assert(all[at] == 10);
        assert(all.contains(10u8));
        let found = line_end(all)->0;
        if found < at {
            assert(input[found] == 10);
        }
        assert(line_end(all) == Some(at));
        assert(all.take(at) =~= input.take(at));
        let left = input.skip(at + 1);
        assert(all.skip(at + 1) =~= left + more);
        match header(input.take(at), known) {
            HeaderView::Length(l) => lemma_more_input(left, more, l, closed),
            HeaderView::End => {
                if known is Some && known->0 <= left.len() {
                    let len = known->0 as int;
                    assert((left + more).take(len) =~= left.take(len));
                    assert((left + more).skip(len) =~= left.skip(len) + more);
                }
            },
            HeaderView::Failed(_) => {},
        }
    }
}

impl FrameError {
    /// The error in words.
    pub open spec fn words(self) -> Seq<char> {
        match self {
            FrameError::NotText => "stream did not contain valid UTF-8"@,
            FrameError::BadLength => "bad Content-Length"@,
            FrameError::TwoLengths { first, second } =>
                "two Content-Length headers in one message ("@ + decimal_text(first as nat)
                + " then "@ + decimal_text(second as nat) + ")"@,
            FrameError::NoLength => "LSP message without Content-Length header"@,
            FrameError::TooLong { len } => "LSP message of "@ + decimal_text(len as nat)
                + " bytes exceeds the 512 MiB sanity limit"@,
            FrameError::Truncated => "early eof"@,
        }
    }

    /// The error in words.
    pub fn message(&self) -> (s: String)
        ensures
            s@ == self.words(),
    {
        match self {
            FrameError::NotText => "stream did not contain valid UTF-8".to_owned(),
            FrameError::BadLength => "bad Content-Length".to_owned(),
            FrameError::TwoLengths { first, second } => {
                let mut s = "two Content-Length headers in one message (".to_owned();
                s.append(decimal(*first as u64).as_str());
                s.append(" then ");
                s.append(decimal(*second as u64).as_str());
                s.append(")");
                s
            },
            FrameError::NoLength => "LSP message without Content-Length header".to_owned(),
            FrameError::TooLong { len } => {
                let mut s = "LSP message of ".to_owned();
                s.append(decimal(*len as u64).as_str());
                s.append(" bytes exceeds the 512 MiB sanity limit");
                s
            },
            FrameError::Truncated => "early eof".to_owned(),
        }
    }
}

// ---- laws of reading -----------------------------------------------------

/// Carriage returns at the end of a line make no difference.
proof fn lemma_returns_at_the_end(line: Seq<char>, n: nat)
    requires
        line.len() == 0 || line.last() != '\r',
    ensures
        without_returns(line + Seq::new(n, |i: int| '\r')) == line,
    decreases n,
{
    let more = Seq::new(n, |i: int| '\r');
    let all = line + more;
    if n > 0 {
        let m = (n - 1) as nat;
        lemma_returns_at_the_end(line, m);
        assert(all.last() == '\r');
        assert(all.drop_last() =~= line + Seq::new(m, |i: int| '\r'));
    } else {
        assert(all =~= line);
    }
}

/// A header line says how long the body is where its name is `Content-Length`, in whatever
/// case and with white space around it, and its value is a number, with white space around it.
/// A second such line is refused, and so is one whose value is no number. Any other header is
/// passed over. How many carriage returns end the line makes no difference.
pub proof fn lemma_header_lines(
    name: Seq<char>,
    value: Seq<char>,
    ends: nat,
    len: usize,
    known: Option<usize>,
)
    requires
        !name.contains(':'),
        value.len() == 0 || value.last() != '\r',
    ensures
        ({
            let line = encode_utf8(name.push(':') + value + Seq::new(ends, |i: int| '\r'));
            let counts = same_but_case(trimmed(name), "content-length"@);
            &&& !counts ==> header(line, known) == HeaderView::Length(known)
            &&& counts && trimmed(value) == decimal_text(len as nat) ==> header(line, known) == (
            match known {
                None => HeaderView::Length(Some(len)),
                Some(first) => HeaderView::Failed(FrameError::TwoLengths { first, second: len }),
            })
            &&& counts && unsigned_value(trimmed(value), usize::MAX as nat) is None ==> header(
                line,
                known,
            ) == HeaderView::Failed(FrameError::BadLength)
        }),
{
    let text = name.push(':') + value;
    let all = text + Seq::new(ends, |i: int| '\r');
    encode_utf8_valid_utf8(all);
    encode_utf8_decode_utf8(all);
    assert(text.last() != '\r');
    lemma_returns_at_the_end(text, ends);
    assert forall|i: int| 0 <= i < name.len() implies #[trigger] name[i] != ':' by {
        assert(name.contains(name[i]));
    }
    lemma_cut(name, ':', value);
    lemma_decimal_round_trips(len as nat, usize::MAX as nat);
}

/// Header lines are read one by one, up to the blank one. Then the body follows: as many bytes
/// as were announced, and no more. An announcement that is missing or beyond half a gibibyte
/// is refused; a body that is not all there is waited for, and refused once nothing will
/// follow.
pub proof fn lemma_lines_are_read_in_turn(
    line: Seq<u8>,
    rest: Seq<u8>,
    known: Option<usize>,
    closed: bool,
)
    requires
        !line.contains(10u8),
    ensures
        ({
            let r = framed(line.push(10u8) + rest, known, closed);
            &&& header(line, known) is Failed ==> r == FrameView::Failed(
                header(line, known)->Failed_0,
            )
            &&& header(line, known) is Length ==> r == framed(
                rest,
                header(line, known)->Length_0,
                closed,
            )
            &&& line.len() == 0 || line == seq![13u8] ==> header(line, known) is End
            &&& header(line, known) is End ==> (match known {
                None => r == FrameView::Failed(FrameError::NoLength),
                Some(len) => if len > 536_870_912 {
                    r == FrameView::Failed(FrameError::TooLong { len })
                } else if rest.len() >= len {
                    r == (FrameView::Message {
                        body: rest.subrange(0, len as int),
                        rest: rest.subrange(len as int, rest.len() as int),
                    })
                } else if closed {
                    r == FrameView::Failed(FrameError::Truncated)
                } else {
                    r is Incomplete
                },
            })
        }),
{
    let input = line.push(10u8) + rest;
    let n = line.len() as int;
    assert(input[n] == 10u8);
    assert(input.contains(10u8));
    input.index_of_first_ensures(10u8);
    let i = input.index_of_first(10u8)->0;
    if i < n {
        assert(line[i] == 10u8);
        assert(line.contains(10u8));
    }
    assert(i == n);
    assert(input.take(n) =~= line);
    assert(input.skip(n + 1) =~= rest);
    if line.len() == 0 {
        let none = Seq::<char>::empty();
        assert(line =~= encode_utf8(none));
        encode_utf8_valid_utf8(none);
        encode_utf8_decode_utf8(none);
    }
    if line == seq![13u8] {
        let cr = seq!['\r'];
        assert(is_ascii_chars(cr));
        is_ascii_chars_encode_utf8(cr);
        assert(line =~= encode_utf8(cr));
        encode_utf8_valid_utf8(cr);
        encode_utf8_decode_utf8(cr);
        assert(without_returns(cr.drop_last()).len() == 0);
    }
    if known is Some {
        let len = known->0 as int;
        if rest.len() >= len {
            assert(rest.take(len) =~= rest.subrange(0, len));
            assert(rest.skip(len) =~= rest.subrange(len, rest.len() as int));
        }
    }
}

/// Nothing is invented and nothing is lost: a body that is read stands in the input right
/// before what is left of it.
pub proof fn lemma_bodies_stand_in_the_input(
    input: Seq<u8>,
    known: Option<usize>,
    closed: bool,
)
    ensures
        framed(input, known, closed) is Message ==> {
            let body = framed(input, known, closed)->body;
            let rest = framed(input, known, closed)->rest;
            &&& body.len() <= MAX_BODY
            &&& body.len() + rest.len() <= input.len()
            &&& input.skip(input.len() - body.len() - rest.len()) == body + rest
        },
    decreases input.len(),
{
    let r = framed(input, known, closed);
    if r is Message {
        let body = r->body;
        let rest = r->rest;
        input.index_of_first_ensures(10u8);
        match line_end(input) {
            Some(i) => {
                let after = input.skip(i + 1);
                match header(input.take(i), known) {
                    HeaderView::Length(l) => {
                        lemma_bodies_stand_in_the_input(after, l, closed);
                        let n = after.len() - body.len() - rest.len();
                        assert(after.skip(n) =~= input.skip(i + 1 + n));
                    },
                    _ => {
                        assert(body + rest =~= after);
                    },
                }
            },
            None => {
                assert(body + rest =~= Seq::empty());
                assert(input.skip(input.len() as int) =~= Seq::empty());
            },
        }
    }
}

/// Letters count alike in either case; nothing else counts as anything but itself.
pub proof fn lemma_letter_case(c: char, d: char)
    ensures
        same_but_case(seq![c], seq![d]) <==> c == d || ('a' <= c <= 'z' && d as u32 + 32 == c as u32)
            || ('a' <= d <= 'z' && c as u32 + 32 == d as u32),
{
    let a = seq![c];
    let b = seq![d];
    assert(a[0] == c && b[0] == d);
    if same_but_case(a, b) {
        assert(crate::strings::lower_code(a[0]) == crate::strings::lower_code(b[0]));
        if c as u32 == d as u32 {
            char_u32_cast(c, d as u32);
            char_u32_cast(d, d as u32);
        }
    } else if crate::strings::lower_code(c) == crate::strings::lower_code(d) {
        assert forall|i: int| 0 <= i < a.len() implies crate::strings::lower_code(#[trigger] a[i])
            == crate::strings::lower_code(b[i]) by {}
    }
}

/// What is written is what every peer reads: the length of the body in a header of that name,
/// a blank line, and the body as it is.
pub proof fn lemma_wire_format(body: Seq<u8>)
    ensures
        frame(body) == encode_utf8(
            "Content-Length: "@ + decimal_text(body.len()) + "\r\n\r\n"@,
        ) + body,
{
}

} // verus!
