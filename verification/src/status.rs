//! What `drey status` prints.

use vstd::prelude::*;
use vstd::string::*;
use crate::daemon::backend::{BackendView, Docs};
use crate::daemon::registry::{dirty_count, lemma_report, pool_json, seconds_since};
use crate::json::{items_view, json_view, lemma_items_view, Json, JsonView};
use crate::strings::{
    decimal, decimal_text, is_digit, join, joined, lemma_decimal_round_trips, lemma_join_split,
    lemma_pieces_concat, pieces, views,
};

verus! {

/// So many spaces.
pub open spec fn spaces(n: int) -> Seq<char> {
    Seq::new(
        if n > 0 {
            n as nat
        } else {
            0
        },
        |i: int| ' ',
    )
}

/// A text at the left of a column.
pub open spec fn left(s: Seq<char>, width: nat) -> Seq<char> {
    s + spaces(width - s.len())
}

/// A text at the right of a column.
pub open spec fn right(s: Seq<char>, width: nat) -> Seq<char> {
    spaces(width - s.len()) + s
}

/// The text of a member, or nothing.
pub open spec fn text_at(row: JsonView, key: Seq<char>) -> Seq<char> {
    match row.field(key) {
        JsonView::Str(s) => s,
        _ => Seq::empty(),
    }
}

/// The number of a member, or zero.
pub open spec fn number_at(row: JsonView, key: Seq<char>) -> nat {
    match row.field(key).as_u64() {
        Some(n) => n as nat,
        None => 0,
    }
}

/// The texts of a list, each of which counts as empty if it is no string.
pub open spec fn texts(list: Seq<JsonView>) -> Seq<Seq<char>> {
    Seq::new(
        list.len(),
        |i: int|
            match list[i] {
                JsonView::Str(s) => s,
                _ => Seq::empty(),
            },
    )
}

/// The roots of a backend.
pub open spec fn roots_of(row: JsonView) -> Seq<Seq<char>> {
    match row.field("roots"@).as_array() {
        Some(list) => texts(list),
        None => Seq::empty(),
    }
}

/// The head of the table.
pub open spec fn head_line() -> Seq<char> {
    left("SERVER"@, 16) + " "@ + right("PID"@, 7) + " "@ + right("CLIENTS"@, 8) + " "@ + right(
        "DOCS"@,
        6,
    ) + " "@ + right("DIRTY"@, 6) + " "@ + right("SWAPS"@, 6) + " "@ + right("UPTIME"@, 8)
        + "  ROOTS"@
}

/// One backend.
pub open spec fn row_line(row: JsonView) -> Seq<char> {
    left(text_at(row, "server"@), 16) + " "@ + right(decimal_text(number_at(row, "pid"@)), 7)
        + " "@ + right(decimal_text(number_at(row, "clients"@)), 8) + " "@ + right(
        decimal_text(number_at(row, "open_docs"@)),
        6,
    ) + " "@ + right(decimal_text(number_at(row, "dirty_docs"@)), 6) + " "@ + right(
        decimal_text(number_at(row, "swaps"@)),
        6,
    ) + " "@ + right(decimal_text(number_at(row, "uptime_secs"@)), 7) + "s  "@ + joined(
        roots_of(row),
        ", "@,
    ) + (if row.field("private"@) == JsonView::Bool(true) {
        "  (forked)"@
    } else {
        Seq::empty()
    })
}

/// The table, from what the daemon answered.
pub open spec fn status_text(reply: JsonView) -> Seq<Seq<char>> {
    let rows = match reply.as_array() {
        Some(rows) => rows,
        None => Seq::empty(),
    };
    if rows.len() == 0 {
        seq!["no backends running"@]
    } else {
        seq![head_line()] + Seq::new(rows.len(), |i: int| row_line(rows[i]))
    }
}

fn push_spaces(out: &mut String, used: usize, width: usize)
    ensures
        final(out)@ == old(out)@ + spaces(width - used),
{
    let ghost before = out@;
    let mut i: usize = used;
    assert(out@ =~= before + spaces(i - used));
    while i < width
        invariant
            used <= i,
            used <= width ==> i <= width,
            used > width ==> i == used,
            out@ == before + spaces(i - used),
        decreases width - i,
    {
        out.push(' ');
        assert(out@ =~= before + spaces(i + 1 - used));
        i += 1;
    }
    assert(out@ =~= before + spaces(width - used));
}

fn push_left(out: &mut String, s: &str, width: usize)
    ensures
        final(out)@ == old(out)@ + left(s@, width as nat),
{
    out.append(s);
    push_spaces(out, s.unicode_len(), width);
    assert(out@ =~= old(out)@ + left(s@, width as nat));
}

fn push_right(out: &mut String, s: &str, width: usize)
    ensures
        final(out)@ == old(out)@ + right(s@, width as nat),
{
    push_spaces(out, s.unicode_len(), width);
    out.append(s);
    assert(out@ =~= old(out)@ + right(s@, width as nat));
}

fn push_number(out: &mut String, row: &Json, key: &str, width: usize)
    ensures
        final(out)@ == old(out)@ + right(decimal_text(number_at(row@, key@)), width as nat),
{
    let n: u64 = match row.get(key) {
        Some(v) => match v.as_u64() {
            Some(n) => n,
            None => 0,
        },
        None => 0,
    };
    let digits = decimal(n);
    push_right(out, digits.as_str(), width);
}

fn read_roots(row: &Json) -> (r: Vec<String>)
    ensures
        views(r@) == roots_of(row@),
{
    let mut out: Vec<String> = Vec::new();
    assert(views(out@) =~= Seq::empty());
    if let Some(v) = row.get("roots") {
        if let Some(list) = v.as_array() {
            let ghost all = items_view(list@);
            proof {
                lemma_items_view(list@);
            }
            let mut i: usize = 0;
            while i < list.len()
                invariant
                    i <= list@.len(),
                    all == Seq::new(list@.len(), |k: int| json_view(list@[k])),
                    out@.len() == i,
                    forall|k: int| 0 <= k < i ==> (#[trigger] out@[k])@ == texts(all)[k],
                decreases list@.len() - i,
            {
                assert(all[i as int] == list@[i as int]@);
                out.push(
                    match list[i].as_str() {
                        Some(s) => s.to_owned(),
                        None => String::new(),
                    },
                );
                assert(out@[i as int]@ =~= texts(all)[i as int]);
                i += 1;
            }
            assert(views(out@) =~= texts(all));
        }
    }
    out
}

fn head() -> (r: String)
    ensures
        r@ == head_line(),
{
    let mut r = String::new();
    push_left(&mut r, "SERVER", 16);
    assert(r@ =~= left("SERVER"@, 16));
    r.append(" ");
    push_right(&mut r, "PID", 7);
    r.append(" ");
    push_right(&mut r, "CLIENTS", 8);
    r.append(" ");
    push_right(&mut r, "DOCS", 6);
    r.append(" ");
    push_right(&mut r, "DIRTY", 6);
    r.append(" ");
    push_right(&mut r, "SWAPS", 6);
    r.append(" ");
    push_right(&mut r, "UPTIME", 8);
    r.append("  ROOTS");
    r
}

fn row(b: &Json) -> (r: String)
    ensures
        r@ == row_line(b@),
{
    let mut r = String::new();
    let server = match b.get("server") {
        Some(v) => match v.as_str() {
            Some(s) => s.to_owned(),
            None => String::new(),
        },
        None => String::new(),
    };
    assert(server@ =~= text_at(b@, "server"@));
    push_left(&mut r, server.as_str(), 16);
    assert(r@ =~= left(text_at(b@, "server"@), 16));
    r.append(" ");
    push_number(&mut r, b, "pid", 7);
    r.append(" ");
    push_number(&mut r, b, "clients", 8);
    r.append(" ");
    push_number(&mut r, b, "open_docs", 6);
    r.append(" ");
    push_number(&mut r, b, "dirty_docs", 6);
    r.append(" ");
    push_number(&mut r, b, "swaps", 6);
    r.append(" ");
    push_number(&mut r, b, "uptime_secs", 7);
    r.append("s  ");
    let roots = join(&read_roots(b), ", ");
    r.append(roots.as_str());
    let private = match b.get("private") {
        Some(v) => matches!(v, Json::Bool(true)),
        None => false,
    };
    let ghost before = r@;
    if private {
        r.append("  (forked)");
    }
    assert(before + Seq::<char>::empty() =~= before);
    r
}

/// The table, from what the daemon answered.
pub fn status_lines(reply: &Json) -> (r: Vec<String>)
    ensures
        views(r@) == status_text(reply@),
{
    let mut out: Vec<String> = Vec::new();
    if let Some(rows) = reply.as_array() {
        let ghost all = items_view(rows@);
        proof {
            lemma_items_view(rows@);
        }
        if rows.len() > 0 {
            out.push(head());
            let mut i: usize = 0;
            while i < rows.len()
                invariant
                    i <= rows@.len(),
                    all == Seq::new(rows@.len(), |k: int| json_view(rows@[k])),
                    out@.len() == i + 1,
                    out@[0]@ == head_line(),
                    forall|k: int| 1 <= k < i + 1 ==> (#[trigger] out@[k])@ == row_line(all[k - 1]),
                decreases rows@.len() - i,
            {
                out.push(row(&rows[i]));
                i += 1;
            }
            assert(views(out@) =~= status_text(reply@));
            return out;
        }
    }
    out.push("no backends running".to_owned());
    assert(views(out@) =~= status_text(reply@));
    out
}

/// What is said about a sweep, from what the daemon answered.
pub fn gc_line(reply: &Json) -> (r: String)
    ensures
        r@ == "released "@ + crate::json::json_text(reply@.field("released"@)) + " backend(s)"@,
{
    let mut r = "released ".to_owned();
    let n = reply.field("released").text();
    r.append(n.as_str());
    r.append(" backend(s)");
    r
}

// ---- laws ---------------------------------------------------------------

/// The parts that are not empty.
pub open spec fn filled(parts: Seq<Seq<char>>) -> Seq<Seq<char>>
    decreases parts.len(),
{
    if parts.len() == 0 {
        Seq::empty()
    } else if parts.last().len() == 0 {
        filled(parts.drop_last())
    } else {
        filled(parts.drop_last()).push(parts.last())
    }
}

/// The words of a line: what stands between spaces.
pub open spec fn words(s: Seq<char>) -> Seq<Seq<char>> {
    filled(pieces(s, ' '))
}

proof fn lemma_filled(a: Seq<Seq<char>>, b: Seq<Seq<char>>)
    ensures
        filled(a + b) == filled(a) + filled(b),
    decreases b.len(),
{
    if b.len() == 0 {
        assert(a + b =~= a);
        assert(filled(a) + filled(b) =~= filled(a));
    } else {
        assert((a + b).drop_last() =~= a + b.drop_last());
        lemma_filled(a, b.drop_last());
        assert(filled(a + b) =~= filled(a) + filled(b));
    }
}

/// A space parts the words before it from those after it.
proof fn lemma_words(a: Seq<char>, b: Seq<char>)
    ensures
        words(a + " "@ + b) == words(a) + words(b),
{
    reveal_strlit(" ");
    assert(a + " "@ + b =~= a.push(' ') + b);
    lemma_pieces_concat(a, ' ', b);
    lemma_filled(pieces(a, ' '), pieces(b, ' '));
}

proof fn lemma_one_word(s: Seq<char>)
    requires
        s.len() > 0,
        !s.contains(' '),
    ensures
        words(s) == seq![s],
{
    let one = seq![s];
    assert(joined(one, seq![' ']) == s);
    lemma_join_split(one, ' ');
    assert(one.drop_last() =~= Seq::empty());
    reveal_with_fuel(filled, 2);
    assert(filled(one) =~= one);
}

proof fn lemma_no_words()
    ensures
        words(Seq::empty()) == Seq::<Seq<char>>::empty(),
{
    let none = Seq::<char>::empty();
    assert(pieces(none, ' ') == seq![none]);
    assert(seq![none].drop_last() =~= Seq::empty());
    reveal_with_fuel(filled, 2);
}

/// Spaces in front or behind are no words.
proof fn lemma_padding(s: Seq<char>, n: int)
    ensures
        words(spaces(n) + s) == words(s),
        words(s + spaces(n)) == words(s),
    decreases n,
{
    let none = Seq::<char>::empty();
    lemma_no_words();
    if n <= 0 {
        assert(spaces(n) + s =~= s);
        assert(s + spaces(n) =~= s);
    } else {
        reveal_strlit(" ");
        lemma_padding(s, n - 1);
        lemma_words(none, spaces(n - 1) + s);
        assert(spaces(n) + s =~= none + " "@ + (spaces(n - 1) + s));
        lemma_words(s + spaces(n - 1), none);
        assert(s + spaces(n) =~= (s + spaces(n - 1)) + " "@ + none);
        assert(words(none) + words(s) =~= words(s));
        assert(words(s) + words(none) =~= words(s));
    }
}

proof fn lemma_number_word(n: nat, width: nat)
    ensures
        words(right(decimal_text(n), width)) == seq![decimal_text(n)],
{
    let t = decimal_text(n);
    lemma_decimal_round_trips(n, n);
    assert forall|i: int| 0 <= i < t.len() implies t[i] != ' ' by {
        assert(is_digit(t[i]));
    }
    lemma_padding(t, width - t.len());
    lemma_one_word(t);
}

/// A row tells, in this order, the server, its process, its clients and its documents, how
/// many of those are dirty, its swaps, and its seconds, which are marked so; then its roots,
/// with commas between them, and whether it was forked.
pub proof fn lemma_row_words(row: JsonView, server: Seq<char>)
    requires
        row.field("server"@) == JsonView::Str(server),
        server.len() > 0,
        !server.contains(' '),
    ensures
        words(row_line(row)) == seq![
            server,
            decimal_text(number_at(row, "pid"@)),
            decimal_text(number_at(row, "clients"@)),
            decimal_text(number_at(row, "open_docs"@)),
            decimal_text(number_at(row, "dirty_docs"@)),
            decimal_text(number_at(row, "swaps"@)),
            decimal_text(number_at(row, "uptime_secs"@)).push('s'),
        ] + words(
            joined(roots_of(row), ", "@) + if row.field("private"@) == JsonView::Bool(true) {
                "  (forked)"@
            } else {
                Seq::empty()
            },
        ),
{
    let c0 = left(server, 16);
    let c1 = right(decimal_text(number_at(row, "pid"@)), 7);
    let c2 = right(decimal_text(number_at(row, "clients"@)), 8);
    let c3 = right(decimal_text(number_at(row, "open_docs"@)), 6);
    let c4 = right(decimal_text(number_at(row, "dirty_docs"@)), 6);
    let c5 = right(decimal_text(number_at(row, "swaps"@)), 6);
    let up = decimal_text(number_at(row, "uptime_secs"@));
    let ups = up.push('s');
    let c6 = spaces(7 - up.len()) + ups;
    let tail = joined(roots_of(row), ", "@) + if row.field("private"@) == JsonView::Bool(true) {
        "  (forked)"@
    } else {
        Seq::empty()
    };
    assert(words(c0) == seq![server]) by {
        lemma_padding(server, 16 - server.len());
        lemma_one_word(server);
    }
    lemma_number_word(number_at(row, "pid"@), 7);
    lemma_number_word(number_at(row, "clients"@), 8);
    lemma_number_word(number_at(row, "open_docs"@), 6);
    lemma_number_word(number_at(row, "dirty_docs"@), 6);
    lemma_number_word(number_at(row, "swaps"@), 6);
    lemma_seconds_word(number_at(row, "uptime_secs"@));
    lemma_columns(c0, c1, c2, c3, c4, c5, c6, tail);
    lemma_row_columns(row, server);
    lemma_seven(
        server,
        decimal_text(number_at(row, "pid"@)),
        decimal_text(number_at(row, "clients"@)),
        decimal_text(number_at(row, "open_docs"@)),
        decimal_text(number_at(row, "dirty_docs"@)),
        decimal_text(number_at(row, "swaps"@)),
        ups,
    );
}

proof fn lemma_seven(
    a: Seq<char>,
    b: Seq<char>,
    c: Seq<char>,
    d: Seq<char>,
    e: Seq<char>,
    f: Seq<char>,
    g: Seq<char>,
)
    ensures
        seq![a] + seq![b] + seq![c] + seq![d] + seq![e] + seq![f] + seq![g] == seq![
            a,
            b,
            c,
            d,
            e,
            f,
            g,
        ],
{
    assert(seq![a] + seq![b] + seq![c] + seq![d] + seq![e] + seq![f] + seq![g] =~= seq![
        a,
        b,
        c,
        d,
        e,
        f,
        g,
    ]);
}

proof fn lemma_seconds_word(n: nat)
    ensures
        words(spaces(7 - decimal_text(n).len()) + decimal_text(n).push('s')) == seq![
            decimal_text(n).push('s'),
        ],
{
    let up = decimal_text(n);
    let ups = up.push('s');
    lemma_decimal_round_trips(n, n);
    assert forall|i: int| 0 <= i < ups.len() implies ups[i] != ' ' by {
        if i < up.len() {
            assert(is_digit(up[i]));
        }
    }
    lemma_one_word(ups);
    lemma_padding(ups, 7 - up.len());
}

/// The words of columns are those of each, in turn.
proof fn lemma_columns(
    c0: Seq<char>,
    c1: Seq<char>,
    c2: Seq<char>,
    c3: Seq<char>,
    c4: Seq<char>,
    c5: Seq<char>,
    c6: Seq<char>,
    tail: Seq<char>,
)
    ensures
        words(
            c0 + " "@ + c1 + " "@ + c2 + " "@ + c3 + " "@ + c4 + " "@ + c5 + " "@ + c6 + " "@ + (
            Seq::<char>::empty() + " "@ + tail),
        ) == words(c0) + words(c1) + words(c2) + words(c3) + words(c4) + words(c5) + words(c6)
            + words(tail),
{
    let sp = " "@;
    let none = Seq::<char>::empty();
    let a1 = c0 + sp + c1;
    let a2 = a1 + sp + c2;
    let a3 = a2 + sp + c3;
    let a4 = a3 + sp + c4;
    let a5 = a4 + sp + c5;
    let a6 = a5 + sp + c6;
    lemma_words(c0, c1);
    lemma_words(a1, c2);
    lemma_words(a2, c3);
    lemma_words(a3, c4);
    lemma_words(a4, c5);
    lemma_words(a5, c6);
    lemma_words(none, tail);
    lemma_no_words();
    lemma_words(a6, none + sp + tail);
    assert(words(none) + words(tail) =~= words(tail));
}

proof fn lemma_row_columns(row: JsonView, server: Seq<char>)
    requires
        row.field("server"@) == JsonView::Str(server),
    ensures
        ({
            let up = decimal_text(number_at(row, "uptime_secs"@));
            row_line(row) == left(server, 16) + " "@ + right(
                decimal_text(number_at(row, "pid"@)),
                7,
            ) + " "@ + right(decimal_text(number_at(row, "clients"@)), 8) + " "@ + right(
                decimal_text(number_at(row, "open_docs"@)),
                6,
            ) + " "@ + right(decimal_text(number_at(row, "dirty_docs"@)), 6) + " "@ + right(
                decimal_text(number_at(row, "swaps"@)),
                6,
            ) + " "@ + (spaces(7 - up.len()) + up.push('s')) + " "@ + (Seq::<char>::empty() + " "@
                + (joined(roots_of(row), ", "@) + if row.field("private"@) == JsonView::Bool(true) {
                "  (forked)"@
            } else {
                Seq::empty()
            }))
        }),
{
    let up = decimal_text(number_at(row, "uptime_secs"@));
    let head = left(server, 16) + " "@ + right(decimal_text(number_at(row, "pid"@)), 7) + " "@
        + right(decimal_text(number_at(row, "clients"@)), 8) + " "@ + right(
        decimal_text(number_at(row, "open_docs"@)),
        6,
    ) + " "@ + right(decimal_text(number_at(row, "dirty_docs"@)), 6) + " "@ + right(
        decimal_text(number_at(row, "swaps"@)),
        6,
    ) + " "@;
    let roots = joined(roots_of(row), ", "@);
    let last = if row.field("private"@) == JsonView::Bool(true) {
        "  (forked)"@
    } else {
        Seq::empty()
    };
    assert(text_at(row, "server"@) == server);
    assert(row_line(row) == head + right(up, 7) + "s  "@ + roots + last);
    lemma_row_end(head, up, roots, last);
}

proof fn lemma_row_end(head: Seq<char>, up: Seq<char>, roots: Seq<char>, last: Seq<char>)
    ensures
        head + right(up, 7) + "s  "@ + roots + last == head + (spaces(7 - up.len()) + up.push('s'))
            + " "@ + (Seq::<char>::empty() + " "@ + (roots + last)),
{
    reveal_strlit(" ");
    reveal_strlit("s  ");
    assert(head + right(up, 7) + "s  "@ + roots + last =~= head + (spaces(7 - up.len()) + up.push(
        's',
    )) + " "@ + (Seq::<char>::empty() + " "@ + (roots + last)));
}

/// The table has a head and then a line for every backend, in order; without backends it says
/// so.
pub proof fn lemma_status_lines(reply: JsonView, rows: Seq<JsonView>)
    requires
        reply == JsonView::Array(rows),
    ensures
        rows.len() == 0 ==> status_text(reply) == seq!["no backends running"@],
        rows.len() > 0 ==> status_text(reply).len() == rows.len() + 1,
        rows.len() > 0 ==> words(status_text(reply)[0]) == seq![
            "SERVER"@,
            "PID"@,
            "CLIENTS"@,
            "DOCS"@,
            "DIRTY"@,
            "SWAPS"@,
            "UPTIME"@,
            "ROOTS"@,
        ],
        forall|i: int|
            0 <= i < rows.len() ==> #[trigger] status_text(reply)[i + 1] == row_line(rows[i]),
{
    lemma_head_words();
}

proof fn lemma_head_words()
    ensures
        words(head_line()) == seq![
            "SERVER"@,
            "PID"@,
            "CLIENTS"@,
            "DOCS"@,
            "DIRTY"@,
            "SWAPS"@,
            "UPTIME"@,
            "ROOTS"@,
        ],
{
    reveal_strlit("SERVER");
    reveal_strlit("PID");
    reveal_strlit("CLIENTS");
    reveal_strlit("DOCS");
    reveal_strlit("DIRTY");
    reveal_strlit("SWAPS");
    reveal_strlit("UPTIME");
    reveal_strlit("ROOTS");
    reveal_strlit("  ROOTS");
    reveal_strlit(" ");
    let sp = " "@;
    let none = Seq::<char>::empty();
    let c0 = left("SERVER"@, 16);
    let c1 = right("PID"@, 7);
    let c2 = right("CLIENTS"@, 8);
    let c3 = right("DOCS"@, 6);
    let c4 = right("DIRTY"@, 6);
    let c5 = right("SWAPS"@, 6);
    let c6 = right("UPTIME"@, 8);
    lemma_one_word("SERVER"@);
    lemma_one_word("PID"@);
    lemma_one_word("CLIENTS"@);
    lemma_one_word("DOCS"@);
    lemma_one_word("DIRTY"@);
    lemma_one_word("SWAPS"@);
    lemma_one_word("UPTIME"@);
    lemma_one_word("ROOTS"@);
    lemma_padding("SERVER"@, 10);
    lemma_padding("PID"@, 4);
    lemma_padding("CLIENTS"@, 1);
    lemma_padding("DOCS"@, 2);
    lemma_padding("DIRTY"@, 1);
    lemma_padding("SWAPS"@, 1);
    lemma_padding("UPTIME"@, 2);
    lemma_columns(c0, c1, c2, c3, c4, c5, c6, "ROOTS"@);
    assert(head_line() =~= c0 + sp + c1 + sp + c2 + sp + c3 + sp + c4 + sp + c5 + sp + c6 + sp + (
    none + sp + "ROOTS"@));
    assert(words(head_line()) =~= seq![
        "SERVER"@,
        "PID"@,
        "CLIENTS"@,
        "DOCS"@,
        "DIRTY"@,
        "SWAPS"@,
        "UPTIME"@,
        "ROOTS"@,
    ]);
}

/// `drey status` tells of every backend in the pool, in order: its server, process, clients,
/// documents, dirty documents, swaps and seconds, then its roots, and whether it was forked.
pub proof fn lemma_status_of_pool(list: Seq<BackendView>, now: u64, i: int)
    requires
        0 <= i < list.len(),
        list[i].key.server.len() > 0,
        !list[i].key.server.contains(' '),
        list[i].state.clients.len() <= u64::MAX,
        list[i].state.docs.len() <= u64::MAX,
    ensures
        ({
            let b = list[i];
            let table = status_text(pool_json(list, now));
            let w = words(table[i + 1]);
            &&& table.len() == list.len() + 1
            &&& w.len() >= 7
            &&& w[0] == b.key.server
            &&& w[1] == decimal_text(b.pid as nat)
            &&& w[2] == decimal_text(b.state.clients.len())
            &&& w[3] == decimal_text(b.state.docs.len())
            &&& w[4] == decimal_text(dirty_count(b.state.docs))
            &&& w[5] == decimal_text(b.state.generation as nat)
            &&& w[6] == decimal_text(seconds_since(b.started, now) as nat).push('s')
            &&& w.skip(7) == words(
                joined(b.key.roots, ", "@) + if b.private_to is Some {
                    "  (forked)"@
                } else {
                    Seq::empty()
                },
            )
        }),
{
    let b = list[i];
    let all = pool_json(list, now);
    let row = all->Array_0[i];
    lemma_report(list, now, i);
    lemma_status_lines(all, all->Array_0);
    lemma_row_words(row, b.key.server);
    lemma_dirty_bounded(b.state.docs);
    assert(roots_of(row) =~= b.key.roots) by {
        let l = row.field("roots"@)->Array_0;
        assert forall|k: int| 0 <= k < l.len() implies texts(l)[k] == b.key.roots[k] by {
            assert(l[k] == JsonView::Str(b.key.roots[k]));
        }
    }
    let w = words(row_line(row));
    let tail = words(
        joined(b.key.roots, ", "@) + if b.private_to is Some {
            "  (forked)"@
        } else {
            Seq::empty()
        },
    );
    assert(w.skip(7) =~= tail);
    assert(status_text(all)[i + 1] == row_line(all->Array_0[i]));
}

proof fn lemma_dirty_bounded(docs: Docs)
    ensures
        dirty_count(docs) <= docs.len(),
    decreases docs.len(),
{
    if docs.len() > 0 {
        lemma_dirty_bounded(docs.drop_last());
    }
}

} // verus!
