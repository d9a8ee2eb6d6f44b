//! Writing a time as an RFC 3339 UTC timestamp in the proleptic Gregorian
//! calendar, and reading the system clock for it.

use vstd::prelude::*;
use std::time::{Duration, SystemTime};

verus! {

/// The decimal digit of a value below 10.
pub open spec fn digit_char(d: int) -> char {
    seq!['0', '1', '2', '3', '4', '5', '6', '7', '8', '9'][d]
}

/// The decimal digits of `n`, without leading zeros.
pub open spec fn decimal(n: nat) -> Seq<char>
    decreases n,
{
    if n < 10 {
        seq![digit_char(n as int)]
    } else {
        decimal(n / 10) + seq![digit_char((n % 10) as int)]
    }
}

/// The decimal digits of `n`, padded with leading zeros to at least `width` characters.
pub open spec fn padded(n: nat, width: nat) -> Seq<char> {
    let d = decimal(n);
    if d.len() >= width {
        d
    } else {
        Seq::new((width - d.len()) as nat, |i: int| '0') + d
    }
}

/// A leap year of the Gregorian calendar.
pub open spec fn is_leap_year(y: int) -> bool {
    (y % 4 == 0 && y % 100 != 0) || y % 400 == 0
}

/// The number of days of year `y`.
pub open spec fn days_in_year(y: int) -> int {
    if is_leap_year(y) {
        366
    } else {
        365
    }
}

/// The number of days of month `m` (1 to 12) of year `y`.
pub open spec fn days_in_month(y: int, m: int) -> int {
    if m == 2 {
        if is_leap_year(y) {
            29
        } else {
            28
        }
    } else if m == 4 || m == 6 || m == 9 || m == 11 {
        30
    } else {
        31
    }
}

/// Counting whole years forward from the first day of year `y`: the year
/// that holds the day `day` days later, and that day's index (from 0) within it.
pub open spec fn year_of_day(y: int, day: nat) -> (int, nat)
    decreases day,
{
    if day < days_in_year(y) {
        (y, day)
    } else {
        year_of_day(y + 1, (day - days_in_year(y)) as nat)
    }
}

/// Counting whole months forward from month `m` of year `y`: the month that
/// holds the day with index `day` (from 0) counted from the first of month
/// `m`, and its day of the month (from 1). December takes what is left.
pub open spec fn month_of_day(y: int, m: int, day: nat) -> (int, nat)
    decreases 12 - m,
{
    if m >= 12 || day < days_in_month(y, m) {
        (m, day + 1)
    } else {
        month_of_day(y, m + 1, (day - days_in_month(y, m)) as nat)
    }
}

/// The Gregorian date (year, month, day) of the day `days` days after
/// 1970-01-01.
pub open spec fn civil_date(days: nat) -> (int, int, int) {
    let (y, yd) = year_of_day(1970, days);
    let (m, d) = month_of_day(y, 1, yd);
    (y, m, d as int)
}

/// The RFC 3339 UTC text of the instant `secs` seconds and `nanos`
/// nanoseconds after 1970-01-01T00:00:00Z, in the proleptic Gregorian
/// calendar: `YYYY-MM-DDTHH:MM:SS.NNNNNNNNNZ` (the year has more digits after 9999).
pub open spec fn rfc3339_text(secs: nat, nanos: nat) -> Seq<char> {
    let date = civil_date(secs / 86400);
    let seconds_today = secs % 86400;
    padded(date.0 as nat, 4) + seq!['-'] + padded(date.1 as nat, 2) + seq!['-'] + padded(
        date.2 as nat,
        2,
    ) + seq!['T'] + padded(seconds_today / 3600, 2) + seq![':'] + padded(
        (seconds_today % 3600) / 60,
        2,
    ) + seq![':'] + padded(seconds_today % 60, 2) + seq!['.'] + padded(nanos, 9) + seq!['Z']
}

/// The number of leap years among the years 1 to `x` (a count that differs
/// only by a constant for other starting points).
pub open spec fn leaps_through(x: int) -> int {
    x / 4 - x / 100 + x / 400
}

/// The number of days of the `n` years that start with year `y`.
pub open spec fn span_of_years(y: int, n: nat) -> int
    decreases n,
{
    if n == 0 {
        0
    } else {
        days_in_year(y) + span_of_years(y + 1, (n - 1) as nat)
    }
}

/// A year is a leap year exactly when the leap count steps up at it.
proof fn lemma_leap_step(y: int)
    ensures
        days_in_year(y) == 365 + leaps_through(y) - leaps_through(y - 1),
{
    assert(y / 4 - (y - 1) / 4 == if y % 4 == 0 { 1int } else { 0int });
    assert(y / 100 - (y - 1) / 100 == if y % 100 == 0 { 1int } else { 0int });
    assert(y / 400 - (y - 1) / 400 == if y % 400 == 0 { 1int } else { 0int });
    assert(y % 400 == 0 ==> y % 100 == 0);
    assert(y % 100 == 0 ==> y % 4 == 0);
}

/// The days of `n` consecutive years: 365 each, plus one per leap year.
proof fn lemma_span_count(y: int, n: nat)
    ensures
        span_of_years(y, n) == 365 * n + leaps_through(y + n - 1) - leaps_through(y - 1),
    decreases n,
{
    if n > 0 {
        lemma_span_count(y + 1, (n - 1) as nat);
        lemma_leap_step(y);
    }
}

/// Any 400 consecutive years have 146097 days.
proof fn lemma_span_400(y: int)
    ensures
        span_of_years(y, 400) == 146097,
{
    lemma_span_count(y, 400);
    let a = y - 1;
    assert((a + 400) / 4 == a / 4 + 100);
    assert((a + 400) / 100 == a / 100 + 4);
    assert((a + 400) / 400 == a / 400 + 1);
}

/// Counting past `n` whole years lands where counting from their end does.
proof fn lemma_skip_years(y: int, n: nat, rest: nat)
    ensures
        span_of_years(y, n) >= 0,
        year_of_day(y, (span_of_years(y, n) + rest) as nat) == year_of_day(y + n, rest),
    decreases n,
{
    if n > 0 {
        lemma_skip_years(y + 1, (n - 1) as nat, rest);
        let later = (span_of_years(y + 1, (n - 1) as nat) + rest) as nat;
        assert((span_of_years(y, n) + rest) as nat - days_in_year(y) == later);
        assert(y + 1 + (n - 1) == y + n);
    }
}

/// Counting past `q` whole 400-year cycles of 146097 days advances the year by `400 * q`.
proof fn lemma_skip_cycles(y: int, q: nat, rest: nat)
    ensures
        year_of_day(y, 146097 * q + rest) == year_of_day(y + 400 * q, rest),
    decreases q,
{
    if q > 0 {
        lemma_skip_cycles(y + 400, (q - 1) as nat, rest);
        lemma_span_400(y);
        lemma_skip_years(y, 400, (146097 * (q - 1) + rest) as nat);
        assert(146097 * q + rest == span_of_years(y, 400) + (146097 * (q - 1) + rest));
        assert(y + 400 + 400 * (q - 1) == y + 400 * q);
    }
}

/// The days from the first of month `m` to the end of year `y`.
pub open spec fn days_from_month(y: int, m: int) -> int
    decreases 13 - m,
{
    if m > 12 || m < 1 {
        0
    } else {
        days_in_month(y, m) + days_from_month(y, m + 1)
    }
}

/// The months of a year add up to the year.
proof fn lemma_months_fill_year(y: int)
    ensures
        days_from_month(y, 1) == days_in_year(y),
{
    reveal_with_fuel(days_from_month, 13);
}

/// Counting years forward never goes back a year and lands inside a year.
proof fn lemma_year_of_day_bounds(y: int, day: nat)
    ensures
        year_of_day(y, day).0 >= y,
        year_of_day(y, day).1 < days_in_year(year_of_day(y, day).0),
    decreases day,
{
    if day >= days_in_year(y) {
        lemma_year_of_day_bounds(y + 1, (day - days_in_year(y)) as nat);
    }
}

/// Counting months forward from month `m` lands on a month from `m` to 12
/// and on a day that the month has, provided the day lies within the year.
proof fn lemma_month_of_day_bounds(y: int, m: int, day: nat)
    requires
        1 <= m <= 12,
        day < days_from_month(y, m),
    ensures
        m <= month_of_day(y, m, day).0 <= 12,
        1 <= month_of_day(y, m, day).1 <= days_in_month(y, month_of_day(y, m, day).0),
    decreases 12 - m,
{
    if m < 12 && day >= days_in_month(y, m) {
        lemma_month_of_day_bounds(y, m + 1, (day - days_in_month(y, m)) as nat);
    } else if m == 12 {
        assert(days_from_month(y, 13) == 0);
    }
}

/// Every day after 1970-01-01 gets a real calendar date: a year from 1970 on,
/// a month from 1 to 12, and a day that the month has.
pub proof fn lemma_civil_date_valid(days: nat)
    ensures
        civil_date(days).0 >= 1970,
        1 <= civil_date(days).1 <= 12,
        1 <= civil_date(days).2 <= days_in_month(civil_date(days).0, civil_date(days).1),
{
    lemma_year_of_day_bounds(1970, days);
    let (y, yd) = year_of_day(1970, days);
    lemma_months_fill_year(y);
    lemma_month_of_day_bounds(y, 1, yd);
}

/// The Gregorian month lengths: thirty days hath September, April, June and
/// November; February has 29 days in a leap year and 28 otherwise; the rest
/// have 31. A leap year is one divisible by 4 but not by 100, or by 400.
pub proof fn lemma_month_lengths(y: int)
    ensures
        days_in_month(y, 1) == 31,
        days_in_month(y, 2) == if (y % 4 == 0 && y % 100 != 0) || y % 400 == 0 {
            29int
        } else {
            28int
        },
        days_in_month(y, 3) == 31,
        days_in_month(y, 4) == 30,
        days_in_month(y, 5) == 31,
        days_in_month(y, 6) == 30,
        days_in_month(y, 7) == 31,
        days_in_month(y, 8) == 31,
        days_in_month(y, 9) == 30,
        days_in_month(y, 10) == 31,
        days_in_month(y, 11) == 30,
        days_in_month(y, 12) == 31,
        days_in_year(y) == if (y % 4 == 0 && y % 100 != 0) || y % 400 == 0 {
            366int
        } else {
            365int
        },
{
}

/// One day later in a year: the next day of the same year, or the first day
/// of the next year after the year's last day.
proof fn lemma_year_of_day_next(y: int, day: nat)
    ensures
        year_of_day(y, day + 1) == (if year_of_day(y, day).1 + 1 < days_in_year(
            year_of_day(y, day).0,
        ) {
            (year_of_day(y, day).0, (year_of_day(y, day).1 + 1) as nat)
        } else {
            (year_of_day(y, day).0 + 1, 0nat)
        }),
    decreases day,
{
    if day >= days_in_year(y) {
        lemma_year_of_day_next(y + 1, (day - days_in_year(y)) as nat);
        assert((day + 1 - days_in_year(y)) as nat == (day - days_in_year(y)) as nat + 1);
    } else if day + 1 >= days_in_year(y) {
        assert(year_of_day(y + 1, 0) == (y + 1, 0nat));
    }
}

/// One day later within a year: the next day of the same month, or the first
/// day of the next month after the month's last day.
proof fn lemma_month_of_day_next(y: int, m: int, day: nat)
    requires
        1 <= m <= 12,
        day + 1 < days_from_month(y, m),
    ensures
        month_of_day(y, m, day + 1) == (if month_of_day(y, m, day).1 < days_in_month(
            y,
            month_of_day(y, m, day).0,
        ) {
            (month_of_day(y, m, day).0, month_of_day(y, m, day).1 + 1)
        } else {
            (month_of_day(y, m, day).0 + 1, 1nat)
        }),
        month_of_day(y, m, day).1 >= days_in_month(y, month_of_day(y, m, day).0) ==> month_of_day(
            y,
            m,
            day,
        ).0 < 12,
    decreases 12 - m,
{
    lemma_days_from_month_nonneg(y, m + 1);
    if m == 12 {
        assert(days_from_month(y, 13) == 0);
    } else if day >= days_in_month(y, m) {
        lemma_month_of_day_next(y, m + 1, (day - days_in_month(y, m)) as nat);
        assert((day + 1 - days_in_month(y, m)) as nat == (day - days_in_month(y, m)) as nat + 1);
    } else if day + 1 >= days_in_month(y, m) {
        assert(month_of_day(y, m + 1, 0) == (m + 1, 1nat)) by {
            assert(days_in_month(y, m + 1) >= 28);
        }
    }
}

/// Day 0 is 1970-01-01, and each next day is the next calendar day: the next
/// day of the month, else the first of the next month, else New Year's Day.
pub proof fn lemma_civil_date_steps(days: nat)
    ensures
        civil_date(0) == (1970int, 1int, 1int),
        civil_date(days + 1) == (if civil_date(days).2 < days_in_month(
            civil_date(days).0,
            civil_date(days).1,
        ) {
            (civil_date(days).0, civil_date(days).1, civil_date(days).2 + 1)
        } else if civil_date(days).1 < 12 {
            (civil_date(days).0, civil_date(days).1 + 1, 1int)
        } else {
            (civil_date(days).0 + 1, 1int, 1int)
        }),
{
    lemma_civil_date_valid(days);
    lemma_year_of_day_next(1970, days);
    lemma_year_of_day_bounds(1970, days);
    let (y, yd) = year_of_day(1970, days);
    lemma_months_fill_year(y);
    lemma_months_fill_year(y + 1);
    lemma_month_of_day_bounds(y, 1, yd);
    if yd + 1 < days_in_year(y) {
        lemma_month_of_day_next(y, 1, yd);
    } else {
        // the last day of the year is December 31
        lemma_last_day_of_year(y, 1, yd);
        assert(month_of_day(y + 1, 1, 0) == (1int, 1nat));
    }
}

/// The days from a month to the end of the year are never negative.
proof fn lemma_days_from_month_nonneg(y: int, m: int)
    ensures
        days_from_month(y, m) >= 0,
    decreases 13 - m,
{
    if 1 <= m <= 12 {
        lemma_days_from_month_nonneg(y, m + 1);
    }
}

/// The last day of a year falls on the last day of December.
proof fn lemma_last_day_of_year(y: int, m: int, day: nat)
    requires
        1 <= m <= 12,
        day + 1 == days_from_month(y, m),
    ensures
        month_of_day(y, m, day) == (12int, days_in_month(y, 12) as nat),
    decreases 12 - m,
{
    if m == 12 {
        assert(days_from_month(y, 13) == 0);
    } else {
        lemma_days_from_month_nonneg(y, m + 2);
        assert(days_from_month(y, m + 1) >= 28);
        lemma_last_day_of_year(y, m + 1, (day - days_in_month(y, m)) as nat);
    }
}

/// `a` comes strictly before `b` in (year, month, day) order.
pub open spec fn date_before(a: (int, int, int), b: (int, int, int)) -> bool {
    ||| a.0 < b.0
    ||| a.0 == b.0 && a.1 < b.1
    ||| a.0 == b.0 && a.1 == b.1 && a.2 < b.2
}

/// A later day falls in a later year, or later in the same year.
proof fn lemma_year_of_day_increasing(y: int, a: nat, b: nat)
    requires
        a < b,
    ensures
        year_of_day(y, a).0 < year_of_day(y, b).0 || (year_of_day(y, a).0 == year_of_day(y, b).0
            && year_of_day(y, a).1 < year_of_day(y, b).1),
    decreases b,
{
    if b >= days_in_year(y) {
        if a < days_in_year(y) {
            lemma_year_of_day_bounds(y + 1, (b - days_in_year(y)) as nat);
        } else {
            lemma_year_of_day_increasing(
                y + 1,
                (a - days_in_year(y)) as nat,
                (b - days_in_year(y)) as nat,
            );
        }
    }
}

/// Within a year, a later day falls in a later month, or later in the same month.
proof fn lemma_month_of_day_increasing(y: int, m: int, a: nat, b: nat)
    requires
        a < b,
    ensures
        month_of_day(y, m, a).0 < month_of_day(y, m, b).0 || (month_of_day(y, m, a).0
            == month_of_day(y, m, b).0 && month_of_day(y, m, a).1 < month_of_day(y, m, b).1),
    decreases 12 - m,
{
    if m < 12 && b >= days_in_month(y, m) {
        if a < days_in_month(y, m) {
            lemma_month_of_day_at_least(y, m + 1, (b - days_in_month(y, m)) as nat);
        } else {
            lemma_month_of_day_increasing(
                y,
                m + 1,
                (a - days_in_month(y, m)) as nat,
                (b - days_in_month(y, m)) as nat,
            );
        }
    }
}

/// Counting months forward from month `m` never goes back before `m`.
proof fn lemma_month_of_day_at_least(y: int, m: int, day: nat)
    ensures
        month_of_day(y, m, day).0 >= m,
    decreases 12 - m,
{
    if m < 12 && day >= days_in_month(y, m) {
        lemma_month_of_day_at_least(y, m + 1, (day - days_in_month(y, m)) as nat);
    }
}

/// Written times follow time order: of two instants, the later one has a
/// later date, or the same date and a time of day no earlier.
pub proof fn lemma_civil_time_order(secs_a: nat, secs_b: nat)
    requires
        secs_a <= secs_b,
    ensures
        date_before(civil_date(secs_a / 86400), civil_date(secs_b / 86400)) || (civil_date(
            secs_a / 86400,
        ) == civil_date(secs_b / 86400) && secs_a % 86400 <= secs_b % 86400),
{
    let a = secs_a / 86400;
    let b = secs_b / 86400;
    if a < b {
        lemma_year_of_day_increasing(1970, a, b);
        let (ya, da) = year_of_day(1970, a);
        let (yb, db) = year_of_day(1970, b);
        if ya == yb {
            lemma_month_of_day_increasing(ya, 1, da, db);
        }
    }
}

/// The number of days of year `y`.
fn year_length(y: u64) -> (n: u64)
    ensures
        n == days_in_year(y as int),
{
    if (y % 4 == 0 && y % 100 != 0) || y % 400 == 0 {
        366
    } else {
        365
    }
}

/// The number of days of month `m` of year `y`.
fn month_length(y: u64, m: u64) -> (n: u64)
    ensures
        n == days_in_month(y as int, m as int),
{
    if m == 2 {
        if (y % 4 == 0 && y % 100 != 0) || y % 400 == 0 {
            29
        } else {
            28
        }
    } else if m == 4 || m == 6 || m == 9 || m == 11 {
        30
    } else {
        31
    }
}

/// The Gregorian date of the day `days` days after 1970-01-01.
fn date_of_day(days: u64) -> (r: (u64, u64, u64))
    requires
        days <= u64::MAX / 86400,
    ensures
        (r.0 as int, r.1 as int, r.2 as int) == civil_date(days as nat),
{
    let cycles = days / 146097;
    let mut rest = days % 146097;
    let start: u64 = 1970 + 400 * cycles;
    let mut y = start;
    proof {
        lemma_skip_cycles(1970, cycles as nat, rest as nat);
        assert(days == 146097 * cycles + rest);
    }
    while rest >= year_length(y)
        invariant
            year_of_day(1970, days as nat) == year_of_day(y as int, rest as nat),
            start <= y,
            365 * (y - start) + rest < 146097,
            start == 1970 + 400 * cycles,
            cycles <= u64::MAX / 86400 / 146097,
        decreases rest,
    {
        rest = rest - year_length(y);
        y = y + 1;
    }
    let year_day = rest;
    let mut m: u64 = 1;
    let mut day = rest;
    while m < 12 && day >= month_length(y, m)
        invariant
            1 <= m <= 12,
            day <= year_day,
            month_of_day(y as int, 1, year_day as nat) == month_of_day(y as int, m as int, day as nat),
        decreases 12 - m,
    {
        day = day - month_length(y, m);
        m = m + 1;
    }
    (y, m, day + 1)
}

/// The character string of a decimal digit.
fn digit_str(d: u64) -> (s: &'static str)
    requires
        d < 10,
    ensures
        s@ == seq![digit_char(d as int)],
{
    proof {
        reveal_strlit("0");
        reveal_strlit("1");
        reveal_strlit("2");
        reveal_strlit("3");
        reveal_strlit("4");
        reveal_strlit("5");
        reveal_strlit("6");
        reveal_strlit("7");
        reveal_strlit("8");
        reveal_strlit("9");
    }
    match d {
        0 => "0",
        1 => "1",
        2 => "2",
        3 => "3",
        4 => "4",
        5 => "5",
        6 => "6",
        7 => "7",
        8 => "8",
        _ => "9",
    }
}

/// The string of one zero digit.
fn zero_str() -> (s: &'static str)
    ensures
        s@ == seq!['0'],
{
    proof {
        reveal_strlit("0");
    }
    "0"
}

/// The number of decimal digits of `n`.
fn decimal_len(n: u64) -> (len: usize)
    ensures
        len == decimal(n as nat).len(),
        len <= 20,
    decreases n,
{
    if n < 10 {
        1
    } else {
        let rest = decimal_len(n / 10);
        proof {
            lemma_decimal_len_bound(n as nat);
        }
        rest + 1
    }
}

/// A `u64` has at most 20 decimal digits.
proof fn lemma_decimal_len_bound(n: nat)
    requires
        n <= u64::MAX,
    ensures
        decimal(n).len() <= 20,
{
    reveal_with_fuel(pow10, 21);
    assert(pow10(20) == 100000000000000000000nat);
    lemma_decimal_len_below(n, 20);
}

/// A number below `10^k` has at most `k` decimal digits.
proof fn lemma_decimal_len_below(n: nat, k: nat)
    requires
        k >= 1,
        n < pow10(k),
    ensures
        decimal(n).len() <= k,
    decreases k,
{
    if n >= 10 {
        if k == 1 {
            assert(pow10(1) == 10) by {
                assert(pow10(0) == 1);
            }
        } else {
            assert(pow10(k) == 10 * pow10((k - 1) as nat));
            assert(n / 10 < pow10((k - 1) as nat));
            lemma_decimal_len_below(n / 10, (k - 1) as nat);
        }
    }
}

/// Ten to the power `k`.
pub open spec fn pow10(k: nat) -> nat
    decreases k,
{
    if k == 0 {
        1
    } else {
        10 * pow10((k - 1) as nat)
    }
}

/// Appends the decimal digits of `n`.
fn push_decimal(text: &mut String, n: u64)
    ensures
        final(text)@ == old(text)@ + decimal(n as nat),
    decreases n,
{
    if n >= 10 {
        push_decimal(text, n / 10);
    }
    text.append(digit_str(n % 10));
    assert(final(text)@ =~= old(text)@ + decimal(n as nat));
}

/// Appends the decimal digits of `n`, padded with zeros to at least `width`.
fn push_padded(text: &mut String, n: u64, width: usize)
    ensures
        final(text)@ == old(text)@ + padded(n as nat, width as nat),
{
    let len = decimal_len(n);
    let ghost start = text@;
    let mut zeros: usize = 0;
    if len < width {
        while zeros < width - len
            invariant
                len < width,
                zeros <= width - len,
                text@ == start + Seq::new(zeros as nat, |i: int| '0'),
            decreases width - len - zeros,
        {
            text.append(zero_str());
            zeros = zeros + 1;
            assert(text@ =~= start + Seq::new(zeros as nat, |i: int| '0'));
        }
    }
    push_decimal(text, n);
    assert(text@ =~= start + padded(n as nat, width as nat));
}

/// Writes the instant `secs` seconds and `nanos` nanoseconds after the Unix
/// epoch as an RFC 3339 UTC timestamp in the Gregorian calendar.
pub fn format_rfc3339(secs: u64, nanos: u32) -> (text: String)
    ensures
        text@ == rfc3339_text(secs as nat, nanos as nat),
{
    let (year, month, day) = date_of_day(secs / 86400);
    let seconds_today = secs % 86400;
    let hours = seconds_today / 3600;
    let minutes = (seconds_today % 3600) / 60;
    let seconds = seconds_today % 60;
    proof {
        reveal_strlit("-");
        reveal_strlit("T");
        reveal_strlit(":");
        reveal_strlit(".");
        reveal_strlit("Z");
    }
    let mut text = String::new();
    push_padded(&mut text, year, 4);
    text.append("-");
    push_padded(&mut text, month, 2);
    text.append("-");
    push_padded(&mut text, day, 2);
    text.append("T");
    push_padded(&mut text, hours, 2);
    text.append(":");
    push_padded(&mut text, minutes, 2);
    text.append(":");
    push_padded(&mut text, seconds, 2);
    text.append(".");
    push_padded(&mut text, nanos as u64, 9);
    text.append("Z");
    assert(text@ =~= rfc3339_text(secs as nat, nanos as nat));
    text
}

/// Padding gives at least the requested width.
proof fn lemma_padded_width(n: nat, width: nat)
    ensures
        padded(n, width).len() >= width,
{
}

/// A written time is at least 30 characters long, has `T` between the date
/// and the time of day, and ends with `Z`.
pub proof fn lemma_rfc3339_shape(secs: nat, nanos: nat)
    ensures
        rfc3339_text(secs, nanos).len() >= 30,
        rfc3339_text(secs, nanos).contains('T'),
        rfc3339_text(secs, nanos).last() == 'Z',
{
    let date = civil_date(secs / 86400);
    let date_len = padded(date.0 as nat, 4).len() + 1 + padded(date.1 as nat, 2).len() + 1
        + padded(date.2 as nat, 2).len();
    let t = rfc3339_text(secs, nanos);
    lemma_padded_width(date.0 as nat, 4);
    assert(t[date_len as int] == 'T');
}

#[verifier::external_type_specification]
#[verifier::external_body]
pub struct ExSystemTime(SystemTime);

/// Calls `SystemTime::now`. Nothing is claimed of the time it reads.
#[verifier::external_body]
fn system_time_now() -> SystemTime {
    SystemTime::now()
}

/// Calls `SystemTime::duration_since` with `SystemTime::UNIX_EPOCH`; its error,
/// which std returns for a time before the epoch, becomes `None`. Nothing is
/// claimed of the duration, which depends on the time read.
#[verifier::external_body]
fn duration_since_unix_epoch(t: &SystemTime) -> Option<Duration> {
    t.duration_since(SystemTime::UNIX_EPOCH).ok()
}

/// Calls `Duration::as_secs`: the whole seconds of the duration.
#[verifier::external_body]
fn whole_seconds(d: &Duration) -> u64 {
    d.as_secs()
}

/// Calls `Duration::subsec_nanos`. Trusted: std documents that the
/// nanoseconds beyond the whole seconds are below one billion.
#[verifier::external_body]
fn nanos_beyond_seconds(d: &Duration) -> (n: u32)
    ensures
        n < 1_000_000_000,
{
    d.subsec_nanos()
}

/// The time to write for a clock reading: the reading itself, or the epoch
/// (zero seconds and nanoseconds) when the clock is set before it.
pub fn epoch_reading(reading: Option<(u64, u32)>) -> (r: (u64, u32))
    ensures
        match reading {
            Some(x) => r == x,
            None => r == (0u64, 0u32),
        },
{
    match reading {
        Some(x) => x,
        None => (0, 0),
    }
}

/// The current time, written as `format_rfc3339` writes it; a clock set
/// before the Unix epoch reads as the epoch, 1970-01-01T00:00:00.000000000Z.
pub fn format_rfc3339_now() -> (text: String)
    ensures
        exists|secs: u64, nanos: u32|
            nanos < 1_000_000_000 && text@ == rfc3339_text(secs as nat, nanos as nat),
        text@.len() >= 30,
        text@.contains('T'),
        text@.last() == 'Z',
{
    let now = system_time_now();
    let reading = match duration_since_unix_epoch(&now) {
        Some(d) => Some((whole_seconds(&d), nanos_beyond_seconds(&d))),
        None => None,
    };
    let (secs, nanos) = epoch_reading(reading);
    let text = format_rfc3339(secs, nanos);
    proof {
        lemma_rfc3339_shape(secs as nat, nanos as nat);
    }
    text
}

} // verus!
