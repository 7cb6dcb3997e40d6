//! Calendar dates, for the names of backups.

use vstd::prelude::*;
use vstd::string::*;
use crate::strings::{decimal, decimal_text, text_lt};

verus! {

// ---- dates --------------------------------------------------------------

pub open spec fn is_leap(y: int) -> bool {
    y % 4 == 0 && (y % 100 != 0 || y % 400 == 0)
}

/// How long a month is.
pub open spec fn days_in_month(y: int, m: int) -> int {
    if m == 2 {
        if is_leap(y) {
            29
        } else {
            28
        }
    } else if m == 4 || m == 6 || m == 9 || m == 11 {
        30
    } else {
        31
    }
}

/// How many days of the year lie before the month.
pub open spec fn days_before_month(y: int, m: int) -> int
    decreases m,
{
    if m <= 1 {
        0
    } else {
        days_before_month(y, m - 1) + days_in_month(y, m - 1)
    }
}

/// How many days lie between the first of January 1970 and the first of January of a year.
pub open spec fn days_before_year(y: int) -> int {
    365 * (y - 1) + (y - 1) / 4 - (y - 1) / 100 + (y - 1) / 400 - 719_162
}

/// A date that there is.
pub open spec fn is_date(y: int, m: int, d: int) -> bool {
    1 <= m <= 12 && 1 <= d <= days_in_month(y, m)
}

/// The number of a day, counted from the first of January 1970.
pub open spec fn day_number(y: int, m: int, d: int) -> int {
    days_before_year(y) + days_before_month(y, m) + d - 1
}

/// A year is as long as its months together, and begins where the one before it ends.
pub proof fn lemma_year_length(y: int)
    ensures
        days_before_month(y, 13) == if is_leap(y) {
            366int
        } else {
            365int
        },
        days_before_year(y + 1) == days_before_year(y) + days_before_month(y, 13),
        days_before_year(1970) == 0,
{
    reveal_with_fuel(days_before_month, 14);
}

proof fn lemma_months(y: int)
    ensures
        days_before_month(y, 1) == 0,
        days_before_month(y, 2) == 31,
        days_before_month(y, 3) == 31 + days_in_month(y, 2),
        days_before_month(y, 4) == days_before_month(y, 3) + 31,
        days_before_month(y, 5) == days_before_month(y, 3) + 61,
        days_before_month(y, 6) == days_before_month(y, 3) + 92,
        days_before_month(y, 7) == days_before_month(y, 3) + 122,
        days_before_month(y, 8) == days_before_month(y, 3) + 153,
        days_before_month(y, 9) == days_before_month(y, 3) + 184,
        days_before_month(y, 10) == days_before_month(y, 3) + 214,
        days_before_month(y, 11) == days_before_month(y, 3) + 245,
        days_before_month(y, 12) == days_before_month(y, 3) + 275,
{
    reveal_with_fuel(days_before_month, 13);
}

/// The year of the era of 400 years, and the day of that year, both counted from March.
#[verifier::spinoff_prover]
#[verifier::rlimit(60)]
proof fn lemma_year_of_era(doe: int)
    requires
        0 <= doe < 146_097,
    ensures
        ({
            let yoe = (doe - doe / 1460 + doe / 36_524 - doe / 146_096) / 365;
            &&& 0 <= yoe <= 399
            &&& 365 * yoe + yoe / 4 - yoe / 100 <= doe
            &&& doe - (365 * yoe + yoe / 4 - yoe / 100) <= if (yoe + 1) % 4 == 0 && ((yoe + 1) % 100
                != 0 || yoe == 399) {
                365int
            } else {
                364int
            }
        }),
{
}

/// The month and the day of the month, of a year that begins in March.
#[verifier::spinoff_prover]
#[verifier::rlimit(60)]
proof fn lemma_month_of_year(doy: int)
    requires
        0 <= doy <= 365,
    ensures
        ({
            let mp = (5 * doy + 2) / 153;
            let d = doy - (153 * mp + 2) / 5 + 1;
            &&& 0 <= mp <= 11
            &&& 1 <= d <= 31
            &&& mp == 1 || mp == 3 || mp == 6 || mp == 8 ==> d <= 30
            &&& mp == 11 ==> d <= 29
            &&& mp == 11 && d == 29 ==> doy == 365
            &&& (153 * mp + 2) / 5 == if mp == 0 { 0int }
            else if mp == 1 { 31 }
            else if mp == 2 { 61 }
            else if mp == 3 { 92 }
            else if mp == 4 { 122 }
            else if mp == 5 { 153 }
            else if mp == 6 { 184 }
            else if mp == 7 { 214 }
            else if mp == 8 { 245 }
            else if mp == 9 { 275 }
            else if mp == 10 { 306 }
            else { 337 }
        }),
{
}

/// Where a year that begins in March begins and ends.
#[verifier::spinoff_prover]
#[verifier::rlimit(60)]
proof fn lemma_march(y: int)
    ensures
        days_before_year(y) + days_before_month(y, 3) == 365 * y + y / 4 - y / 100 + y / 400
            - 719_468,
        days_before_year(y + 1) == 365 * y + y / 4 - y / 100 + y / 400 - 719_468 + 306,
{
    lemma_months(y);
}

/// Eras of 400 years are all of one length.
#[verifier::spinoff_prover]
#[verifier::rlimit(60)]
proof fn lemma_era(yoe: int, era: int)
    requires
        0 <= yoe <= 399,
    ensures
        ({
            let y = yoe + era * 400;
            &&& 365 * y + y / 4 - y / 100 + y / 400 == era * 146_097 + 365 * yoe + yoe / 4 - yoe
                / 100
            &&& is_leap(y + 1) <==> (yoe + 1) % 4 == 0 && ((yoe + 1) % 100 != 0 || yoe == 399)
        }),
{
    let y = yoe + era * 400;
    assert(y / 4 == yoe / 4 + era * 100);
    assert(y / 100 == yoe / 100 + era * 4);
    assert(y / 400 == era);
    assert((y + 1) % 4 == (yoe + 1) % 4);
    assert((y + 1) % 100 == (yoe + 1) % 100);
    assert((y + 1) % 400 == (yoe + 1) % 400);
}

#[verifier::spinoff_prover]
#[verifier::rlimit(60)]
proof fn lemma_civil(era: int, yoe: int, doy: int)
    requires
        0 <= yoe <= 399,
        0 <= doy <= if is_leap(yoe + era * 400 + 1) {
            365int
        } else {
            364int
        },
    ensures
        ({
            let y = yoe + era * 400;
            let mp = (5 * doy + 2) / 153;
            let d = doy - (153 * mp + 2) / 5 + 1;
            let m = if mp < 10 {
                mp + 3
            } else {
                mp - 9
            };
            let year = if m <= 2 {
                y + 1
            } else {
                y
            };
            &&& is_date(year, m, d)
            &&& day_number(year, m, d) == era * 146_097 + 365 * yoe + yoe / 4 - yoe / 100 + doy
                - 719_468
        }),
{
    let y = yoe + era * 400;
    lemma_month_of_year(doy);
    lemma_march(y);
    lemma_era(yoe, era);
    lemma_months(y);
    lemma_months(y + 1);
}

/// Which date a day is. Howard Hinnant's days-from-civil, inverted.
pub fn civil_from_days(z: i64) -> (r: (i64, u32, u32))
    requires
        z <= i64::MAX - 719_468,
    ensures
        is_date(r.0 as int, r.1 as int, r.2 as int),
        day_number(r.0 as int, r.1 as int, r.2 as int) == z,
{
    let z: i64 = z + 719_468;
    let era: i64 = if z >= 0 {
        z / 146_097
    } else {
        -((-(z + 1)) / 146_097) - 1
    };
    let doe: i64 = z - era * 146_097;
    let yoe: i64 = (doe - doe / 1460 + doe / 36_524 - doe / 146_096) / 365;
    proof {
        lemma_year_of_era(doe as int);
        lemma_era(yoe as int, era as int);
    }
    let y: i64 = yoe + era * 400;
    let doy: i64 = doe - (365 * yoe + yoe / 4 - yoe / 100);
    proof {
        lemma_civil(era as int, yoe as int, doy as int);
        lemma_month_of_year(doy as int);
    }
    let mp: i64 = (5 * doy + 2) / 153;
    let d: i64 = doy - (153 * mp + 2) / 5 + 1;
    let m: i64 = if mp < 10 {
        mp + 3
    } else {
        mp - 9
    };
    let year: i64 = if m <= 2 {
        y + 1
    } else {
        y
    };
    (year, m as u32, d as u32)
}

/// Comes before, in the calendar.
pub open spec fn date_lt(a: (int, int, int), b: (int, int, int)) -> bool {
    a.0 < b.0 || (a.0 == b.0 && (a.1 < b.1 || (a.1 == b.1 && a.2 < b.2)))
}

proof fn lemma_month_order(y: int, a: int, b: int)
    requires
        1 <= a <= b,
    ensures
        days_before_month(y, a) <= days_before_month(y, b),
        a < b ==> days_before_month(y, a) + days_in_month(y, a) <= days_before_month(y, b),
    decreases b,
{
    if a < b {
        lemma_month_order(y, a, b - 1);
    }
}

/// A later date has a greater number. So a number belongs to one date only.
pub proof fn lemma_dates_are_in_order(a: (int, int, int), b: (int, int, int))
    requires
        is_date(a.0, a.1, a.2),
        is_date(b.0, b.1, b.2),
    ensures
        date_lt(a, b) <==> day_number(a.0, a.1, a.2) < day_number(b.0, b.1, b.2),
        a == b <==> day_number(a.0, a.1, a.2) == day_number(b.0, b.1, b.2),
{
    if date_lt(a, b) {
        lemma_dates_are_in_order_one_way(a, b);
    } else if date_lt(b, a) {
        lemma_dates_are_in_order_one_way(b, a);
    }
}

proof fn lemma_dates_are_in_order_one_way(a: (int, int, int), b: (int, int, int))
    requires
        is_date(a.0, a.1, a.2),
        is_date(b.0, b.1, b.2),
        date_lt(a, b),
    ensures
        day_number(a.0, a.1, a.2) < day_number(b.0, b.1, b.2),
{
    if a.0 < b.0 {
        lemma_month_order(a.0, a.1, 13);
        lemma_month_order(b.0, 1, b.1);
        lemma_year_length(a.0);
    } else if a.1 < b.1 {
        lemma_month_order(a.0, a.1, b.1);
    }
}

// ---- timestamps ---------------------------------------------------------

/// `n` in decimal, with zeros in front up to a width.
pub open spec fn zero_padded(n: nat, width: nat) -> Seq<char> {
    let text = decimal_text(n);
    if text.len() < width {
        Seq::new((width - text.len()) as nat, |i: int| '0') + text
    } else {
        text
    }
}

/// A number that may be negative, with zeros in front up to a width that counts the sign.
pub open spec fn padded(n: int, width: nat) -> Seq<char> {
    if n < 0 && width > 0 {
        seq!['-'] + zero_padded((-n) as nat, (width - 1) as nat)
    } else {
        zero_padded(n as nat, width)
    }
}

/// `YYYYMMDD-HHMMSS`.
pub open spec fn stamp(y: int, mo: int, d: int, h: int, mi: int, s: int) -> Seq<char> {
    padded(y, 4) + padded(mo, 2) + padded(d, 2) + seq!['-'] + padded(h, 2) + padded(mi, 2) + padded(
        s,
        2,
    )
}

/// The stamp of a second, counted from the beginning of 1970 in UTC.
pub open spec fn is_stamp(text: Seq<char>, secs: int) -> bool {
    let of_day = secs % 86_400;
    exists|y: int, m: int, d: int|
        is_date(y, m, d) && #[trigger] day_number(y, m, d) == secs / 86_400 && text == stamp(
            y,
            m,
            d,
            of_day / 3600,
            (of_day % 3600) / 60,
            of_day % 60,
        )
}

/// Appends `n` with zeros in front up to a width.
fn push_padded(out: &mut String, n: u64, width: usize)
    requires
        width <= 4,
    ensures
        final(out)@ == old(out)@ + zero_padded(n as nat, width as nat),
{
    let text = decimal(n);
    let len = text.as_str().unicode_len();
    let ghost before = out@;
    if len < width {
        let mut i: usize = len;
        while i < width
            invariant
                len <= i <= width,
                out@ == before + Seq::new((i - len) as nat, |k: int| '0'),
            decreases width - i,
        {
            out.push('0');
            assert(out@ =~= before + Seq::new((i + 1 - len) as nat, |k: int| '0'));
            i += 1;
        }
    }
    out.append(text.as_str());
    assert(out@ =~= before + zero_padded(n as nat, width as nat));
}

/// `YYYYMMDD-HHMMSS` in UTC, computed from the epoch so no date crate is needed for a
/// filename suffix.
pub fn timestamp(secs: i64) -> (r: String)
    ensures
        is_stamp(r@, secs as int),
{
    let days: i64 = if secs >= 0 {
        secs / 86_400
    } else {
        -((-(secs + 1)) / 86_400) - 1
    };
    let rem: i64 = if secs >= 0 {
        secs % 86_400
    } else {
        86_399 - (-(secs + 1)) % 86_400
    };
    let (y, mo, d) = civil_from_days(days);
    let mut r = String::new();
    if y < 0 {
        r.push('-');
        assert(r@ =~= seq!['-']);
        push_padded(&mut r, (-(y + 1)) as u64 + 1, 3);
    } else {
        push_padded(&mut r, y as u64, 4);
    }
    assert(r@ =~= padded(y as int, 4));
    push_padded(&mut r, mo as u64, 2);
    push_padded(&mut r, d as u64, 2);
    r.push('-');
    push_padded(&mut r, (rem / 3600) as u64, 2);
    push_padded(&mut r, ((rem % 3600) / 60) as u64, 2);
    push_padded(&mut r, (rem % 60) as u64, 2);
    proof {
        let of_day = secs as int % 86_400;
        assert(of_day == rem);
        assert(secs as int / 86_400 == days);
        assert(r@ =~= stamp(
            y as int,
            mo as int,
            d as int,
            of_day / 3600,
            (of_day % 3600) / 60,
            of_day % 60,
        ));
        assert(day_number(y as int, mo as int, d as int) == secs as int / 86_400);
    }
    r
}

proof fn lemma_prefix_decides(p: Seq<char>, q: Seq<char>, x: Seq<char>, y: Seq<char>)
    requires
        p.len() == q.len(),
    ensures
        text_lt(p, q) ==> text_lt(p + x, q + y),
        p == q ==> text_lt(p + x, q + y) == text_lt(x, y),
    decreases p.len(),
{
    if p.len() == 0 {
        assert(p + x =~= x);
        assert(q + y =~= y);
    } else {
        lemma_prefix_decides(p.skip(1), q.skip(1), x, y);
        assert((p + x).skip(1) =~= p.skip(1) + x);
        assert((q + y).skip(1) =~= q.skip(1) + y);
    }
}

proof fn lemma_two_digits(n: int)
    requires
        0 <= n < 100,
    ensures
        padded(n, 2) == seq![crate::strings::digit((n / 10) as nat), crate::strings::digit(
            (n % 10) as nat,
        )],
{
    reveal_with_fuel(decimal_text, 3);
    assert(padded(n, 2) =~= seq![crate::strings::digit((n / 10) as nat), crate::strings::digit(
        (n % 10) as nat,
    )]);
}

proof fn lemma_four_digits(n: int)
    requires
        0 <= n < 10_000,
    ensures
        padded(n, 4) == padded(n / 100, 2) + padded(n % 100, 2),
        padded(n, 4).len() == 4,
{
    lemma_two_digits(n / 100);
    lemma_two_digits(n % 100);
    reveal_with_fuel(decimal_text, 5);
    assert(padded(n, 4) =~= padded(n / 100, 2) + padded(n % 100, 2));
}

proof fn lemma_two_digit_order(a: int, b: int)
    requires
        0 <= a < b < 100,
    ensures
        text_lt(padded(a, 2), padded(b, 2)),
{
    lemma_two_digits(a);
    lemma_two_digits(b);
    let p = padded(a, 2);
    let q = padded(b, 2);
    reveal_with_fuel(text_lt, 3);
    assert(p.skip(1)[0] == p[1]);
    assert(q.skip(1)[0] == q[1]);
}

proof fn lemma_four_digit_order(a: int, b: int)
    requires
        0 <= a < b < 10_000,
    ensures
        text_lt(padded(a, 4), padded(b, 4)),
{
    lemma_four_digits(a);
    lemma_four_digits(b);
    lemma_two_digits(a / 100);
    lemma_two_digits(b / 100);
    lemma_prefix_decides(
        padded(a / 100, 2),
        padded(b / 100, 2),
        padded(a % 100, 2),
        padded(b % 100, 2),
    );
    if a / 100 < b / 100 {
        lemma_two_digit_order(a / 100, b / 100);
    } else {
        lemma_two_digit_order(a % 100, b % 100);
    }
}

/// A text of which each of two fields, the first of one width, decides in turn.
proof fn lemma_fields_decide(
    a: int,
    b: int,
    p: Seq<char>,
    q: Seq<char>,
    x: Seq<char>,
    y: Seq<char>,
)
    requires
        p.len() == q.len(),
        a < b ==> text_lt(p, q),
        a == b ==> p == q,
        a < b || (a == b && text_lt(x, y)),
    ensures
        text_lt(p + x, q + y),
{
    lemma_prefix_decides(p, q, x, y);
}

/// The stamp as a chain of fields.
proof fn lemma_stamp_chain(y: int, mo: int, d: int, h: int, mi: int, s: int)
    requires
        0 <= y < 10_000,
        0 <= mo < 100,
        0 <= d < 100,
        0 <= h < 100,
        0 <= mi < 100,
        0 <= s < 100,
    ensures
        stamp(y, mo, d, h, mi, s) == padded(y, 4) + (padded(mo, 2) + (padded(d, 2) + (seq!['-'] + (
        padded(h, 2) + (padded(mi, 2) + padded(s, 2)))))),
        stamp(y, mo, d, h, mi, s).len() == 15,
        stamp(y, mo, d, h, mi, s)[8] == '-',
{
    lemma_four_digits(y);
    lemma_two_digits(mo);
    lemma_two_digits(d);
    lemma_two_digits(h);
    lemma_two_digits(mi);
    lemma_two_digits(s);
    assert(stamp(y, mo, d, h, mi, s) =~= padded(y, 4) + (padded(mo, 2) + (padded(d, 2) + (seq![
        '-',
    ] + (padded(h, 2) + (padded(mi, 2) + padded(s, 2)))))));
}

/// One field of two digits decides, or what follows it does.
proof fn lemma_field_decides(a: int, b: int, x: Seq<char>, y: Seq<char>)
    requires
        0 <= a < 100,
        0 <= b < 100,
        a < b || (a == b && text_lt(x, y)),
    ensures
        text_lt(padded(a, 2) + x, padded(b, 2) + y),
{
    lemma_two_digits(a);
    lemma_two_digits(b);
    if a < b {
        lemma_two_digit_order(a, b);
    }
    lemma_fields_decide(a, b, padded(a, 2), padded(b, 2), x, y);
}

/// The time of day as it stands in a stamp.
spec fn clock(s: int) -> Seq<char> {
    padded(s / 3600, 2) + (padded((s % 3600) / 60, 2) + padded(s % 60, 2))
}

proof fn lemma_clock_order(s: int, t: int)
    requires
        0 <= s < t < 86_400,
    ensures
        text_lt(clock(s), clock(t)),
{
    let (h1, m1, s1) = (s / 3600, (s % 3600) / 60, s % 60);
    let (h2, m2, s2) = (t / 3600, (t % 3600) / 60, t % 60);
    if h1 == h2 {
        if m1 == m2 {
            lemma_two_digit_order(s1, s2);
        }
        lemma_field_decides(m1, m2, padded(s1, 2), padded(s2, 2));
    }
    lemma_field_decides(
        h1,
        h2,
        padded(m1, 2) + padded(s1, 2),
        padded(m2, 2) + padded(s2, 2),
    );
}

/// The date as it stands in a stamp, and what follows it.
spec fn dated(a: (int, int, int), rest: Seq<char>) -> Seq<char> {
    padded(a.0, 4) + (padded(a.1, 2) + (padded(a.2, 2) + rest))
}

proof fn lemma_dated_order(a: (int, int, int), b: (int, int, int), x: Seq<char>, y: Seq<char>)
    requires
        0 <= a.0 < 10_000,
        0 <= b.0 < 10_000,
        is_date(a.0, a.1, a.2),
        is_date(b.0, b.1, b.2),
        date_lt(a, b) || (a == b && text_lt(x, y)),
    ensures
        text_lt(dated(a, x), dated(b, y)),
{
    let day1 = padded(a.2, 2) + x;
    let day2 = padded(b.2, 2) + y;
    if a.0 == b.0 && a.1 == b.1 {
        lemma_field_decides(a.2, b.2, x, y);
    }
    if a.0 == b.0 {
        lemma_field_decides(a.1, b.1, day1, day2);
    } else {
        lemma_four_digit_order(a.0, b.0);
    }
    lemma_four_digits(a.0);
    lemma_four_digits(b.0);
    lemma_fields_decide(
        a.0,
        b.0,
        padded(a.0, 4),
        padded(b.0, 4),
        padded(a.1, 2) + day1,
        padded(b.1, 2) + day2,
    );
}

proof fn lemma_stamp_order(a: (int, int, int), b: (int, int, int), s: int, t: int)
    requires
        0 <= a.0 < 10_000,
        0 <= b.0 < 10_000,
        is_date(a.0, a.1, a.2),
        is_date(b.0, b.1, b.2),
        0 <= s < 86_400,
        0 <= t < 86_400,
        date_lt(a, b) || (a == b && s < t),
    ensures
        text_lt(
            stamp(a.0, a.1, a.2, s / 3600, (s % 3600) / 60, s % 60),
            stamp(b.0, b.1, b.2, t / 3600, (t % 3600) / 60, t % 60),
        ),
{
    lemma_stamp_chain(a.0, a.1, a.2, s / 3600, (s % 3600) / 60, s % 60);
    lemma_stamp_chain(b.0, b.1, b.2, t / 3600, (t % 3600) / 60, t % 60);
    let late1 = seq!['-'] + clock(s);
    let late2 = seq!['-'] + clock(t);
    if a == b {
        lemma_clock_order(s, t);
        lemma_prefix_decides(seq!['-'], seq!['-'], clock(s), clock(t));
    }
    lemma_dated_order(a, b, late1, late2);
}

/// Up to the end of the year 9999 a stamp is fifteen characters long, has its dash in the
/// ninth place, and sorts after the stamp of every earlier second.
pub proof fn lemma_stamps_sort(a: int, b: int, s: Seq<char>, t: Seq<char>)
    requires
        0 <= a < b < 253_402_300_800,
        is_stamp(s, a),
        is_stamp(t, b),
    ensures
        text_lt(s, t),
        s.len() == 15,
        s[8] == '-',
{
    let p = a % 86_400;
    let q = b % 86_400;
    let (y1, m1, d1) = choose|y: int, m: int, d: int|
        is_date(y, m, d) && #[trigger] day_number(y, m, d) == a / 86_400 && s == stamp(
            y,
            m,
            d,
            p / 3600,
            (p % 3600) / 60,
            p % 60,
        );
    let (y2, m2, d2) = choose|y: int, m: int, d: int|
        is_date(y, m, d) && #[trigger] day_number(y, m, d) == b / 86_400 && t == stamp(
            y,
            m,
            d,
            q / 3600,
            (q % 3600) / 60,
            q % 60,
        );
    lemma_months(1970);
    lemma_months(10_000);
    lemma_dates_are_in_order((y1, m1, d1), (1970, 1, 1));
    lemma_dates_are_in_order((y1, m1, d1), (10_000, 1, 1));
    lemma_dates_are_in_order((y2, m2, d2), (1970, 1, 1));
    lemma_dates_are_in_order((y2, m2, d2), (10_000, 1, 1));
    lemma_dates_are_in_order((y1, m1, d1), (y2, m2, d2));
    lemma_stamp_order((y1, m1, d1), (y2, m2, d2), p, q);
    lemma_stamp_chain(y1, m1, d1, p / 3600, (p % 3600) / 60, p % 60);
}

} // verus!
