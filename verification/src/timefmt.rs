//! Timestamps as text.
//!
//! The store keeps its unlock timer as a `YYYY-MM-DD HH:MM:SS` string; the
//! scheduler works in whole minutes since the Unix epoch. This module holds
//! the one place where that text is parsed and written, so the fail-open
//! policy for malformed timestamps stays isolated here: a string that does
//! not parse is treated by callers as "cooldown elapsed".
//!
//! Timestamps are minute-granular; the seconds field is validated on parse,
//! dropped, and written back as `00`.

use vstd::prelude::*;
use vstd::string::StrSliceExecFns;
use crate::strutil::{is_digit, digit_val, digit_char, check_digit, digit_value, digit_to_char,
    push_char};

verus! {

pub const MINUTES_PER_DAY: u64 = 1440;
pub const MINUTES_PER_HOUR: u64 = 60;

/// Gregorian leap-year rule.
pub open spec fn is_leap_year(y: int) -> bool {
    y % 4 == 0 && (y % 100 != 0 || y % 400 == 0)
}

pub open spec fn days_in_year(y: int) -> int {
    if is_leap_year(y) {
        366
    } else {
        365
    }
}

pub open spec fn days_in_month(y: int, m: int) -> int {
    if m == 2 {
        if is_leap_year(y) {
            29
        } else {
            28
        }
    } else if m == 4 || m == 6 || m == 9 || m == 11 {
        30
    } else {
        31
    }
}

/// Days from the Unix epoch to the start of year `y` (for `y >= 1970`).
pub open spec fn days_before_year(y: int) -> int
    decreases y,
{
    if y <= 1970 {
        0
    } else {
        days_before_year(y - 1) + days_in_year(y - 1)
    }
}

/// Days from the start of year `y` to the start of month `m` (1-based).
pub open spec fn days_before_month(y: int, m: int) -> int
    decreases m,
{
    if m <= 1 {
        0
    } else {
        days_before_month(y, m - 1) + days_in_month(y, m - 1)
    }
}

/// Minutes since the Unix epoch of a civil date and time.
pub open spec fn minutes_of_civil(y: int, m: int, d: int, hh: int, mi: int) -> int {
    (days_before_year(y) + days_before_month(y, m) + (d - 1)) * (MINUTES_PER_DAY as int)
        + hh * (MINUTES_PER_HOUR as int) + mi
}

/// A calendar-valid date and time within the representable range.
pub open spec fn valid_civil(y: int, m: int, d: int, hh: int, mi: int, ss: int) -> bool {
    &&& 1970 <= y <= 9999
    &&& 1 <= m <= 12
    &&& 1 <= d <= days_in_month(y, m)
    &&& 0 <= hh <= 23
    &&& 0 <= mi <= 59
    &&& 0 <= ss <= 59
}

pub open spec fn two_digits(s: Seq<char>, i: int) -> int {
    10 * digit_val(s[i]) + digit_val(s[i + 1])
}

pub open spec fn year_digits(s: Seq<char>) -> int {
    1000 * digit_val(s[0]) + 100 * digit_val(s[1]) + 10 * digit_val(s[2]) + digit_val(s[3])
}

/// The `YYYY-MM-DD HH:MM:SS` shape: 19 characters, digits and separators in
/// their fixed places.
pub open spec fn datetime_shape_ok(s: Seq<char>) -> bool {
    &&& s.len() == 19
    &&& is_digit(s[0])
    &&& is_digit(s[1])
    &&& is_digit(s[2])
    &&& is_digit(s[3])
    &&& s[4] == '-'
    &&& is_digit(s[5])
    &&& is_digit(s[6])
    &&& s[7] == '-'
    &&& is_digit(s[8])
    &&& is_digit(s[9])
    &&& s[10] == ' '
    &&& is_digit(s[11])
    &&& is_digit(s[12])
    &&& s[13] == ':'
    &&& is_digit(s[14])
    &&& is_digit(s[15])
    &&& s[16] == ':'
    &&& is_digit(s[17])
    &&& is_digit(s[18])
}

/// What parsing a timestamp yields: the minute since the Unix epoch for a
/// well-shaped, calendar-valid string, and nothing otherwise.
pub open spec fn parse_datetime_spec(s: Seq<char>) -> Option<int> {
    if !datetime_shape_ok(s) {
        None
    } else {
        let y = year_digits(s);
        let m = two_digits(s, 5);
        let d = two_digits(s, 8);
        let hh = two_digits(s, 11);
        let mi = two_digits(s, 14);
        let ss = two_digits(s, 17);
        if valid_civil(y, m, d, hh, mi, ss) {
            Some(minutes_of_civil(y, m, d, hh, mi))
        } else {
            None
        }
    }
}

pub fn is_leap_year_exec(y: u64) -> (r: bool)
    ensures
        r == is_leap_year(y as int),
{
    y % 4 == 0 && (y % 100 != 0 || y % 400 == 0)
}

pub fn days_in_year_exec(y: u64) -> (r: u64)
    ensures
        r as int == days_in_year(y as int),
        365 <= r <= 366,
{
    if is_leap_year_exec(y) {
        366
    } else {
        365
    }
}

pub fn days_in_month_exec(y: u64, m: u64) -> (r: u64)
    ensures
        r as int == days_in_month(y as int, m as int),
        28 <= r <= 31,
{
    if m == 2 {
        if is_leap_year_exec(y) {
            29
        } else {
            28
        }
    } else if m == 4 || m == 6 || m == 9 || m == 11 {
        30
    } else {
        31
    }
}

/// Days from the epoch to the start of year `y`.
fn days_before_year_exec(y: u64) -> (r: u64)
    requires
        1970 <= y <= 9999,
    ensures
        r as int == days_before_year(y as int),
        r as int <= 366 * (y as int - 1970),
{
    let mut yy: u64 = 1970;
    let mut acc: u64 = 0;
    while yy < y
        invariant
            1970 <= yy <= y <= 9999,
            acc as int == days_before_year(yy as int),
            acc as int <= 366 * (yy as int - 1970),
        decreases y - yy,
    {
        acc = acc + days_in_year_exec(yy);
        yy = yy + 1;
    }
    acc
}

/// Days from the start of year `y` to the start of month `m`.
fn days_before_month_exec(y: u64, m: u64) -> (r: u64)
    requires
        1 <= m <= 12,
    ensures
        r as int == days_before_month(y as int, m as int),
        r <= 366,
{
    let mut mm: u64 = 1;
    let mut acc: u64 = 0;
    while mm < m
        invariant
            1 <= mm <= m <= 12,
            acc as int == days_before_month(y as int, mm as int),
            acc as int <= 31 * (mm as int - 1),
        decreases m - mm,
    {
        acc = acc + days_in_month_exec(y, mm);
        mm = mm + 1;
    }
    acc
}

/// Parse a `YYYY-MM-DD HH:MM:SS` timestamp into minutes since the Unix
/// epoch. Returns `None` for anything malformed or calendar-invalid;
/// callers treat that as "no usable timestamp" (fail open).
pub fn parse_datetime_minutes(s: &str) -> (r: Option<u64>)
    ensures
        r is Some <==> parse_datetime_spec(s@) is Some,
        r matches Some(t) ==> parse_datetime_spec(s@) == Some(t as int),
{
    if s.unicode_len() != 19 {
        return None;
    }
    let c0 = s.get_char(0);
    let c1 = s.get_char(1);
    let c2 = s.get_char(2);
    let c3 = s.get_char(3);
    let c4 = s.get_char(4);
    let c5 = s.get_char(5);
    let c6 = s.get_char(6);
    let c7 = s.get_char(7);
    let c8 = s.get_char(8);
    let c9 = s.get_char(9);
    let c10 = s.get_char(10);
    let c11 = s.get_char(11);
    let c12 = s.get_char(12);
    let c13 = s.get_char(13);
    let c14 = s.get_char(14);
    let c15 = s.get_char(15);
    let c16 = s.get_char(16);
    let c17 = s.get_char(17);
    let c18 = s.get_char(18);
    let shape_ok = check_digit(c0) && check_digit(c1) && check_digit(c2) && check_digit(c3)
        && c4 == '-' && check_digit(c5) && check_digit(c6) && c7 == '-' && check_digit(c8)
        && check_digit(c9) && c10 == ' ' && check_digit(c11) && check_digit(c12) && c13 == ':'
        && check_digit(c14) && check_digit(c15) && c16 == ':' && check_digit(c17)
        && check_digit(c18);
    if !shape_ok {
        return None;
    }
    let y = 1000 * digit_value(c0) + 100 * digit_value(c1) + 10 * digit_value(c2)
        + digit_value(c3);
    let m = 10 * digit_value(c5) + digit_value(c6);
    let d = 10 * digit_value(c8) + digit_value(c9);
    let hh = 10 * digit_value(c11) + digit_value(c12);
    let mi = 10 * digit_value(c14) + digit_value(c15);
    let ss = 10 * digit_value(c17) + digit_value(c18);
    if !(1970 <= y && 1 <= m && m <= 12 && 1 <= d && hh <= 23 && mi <= 59 && ss <= 59) {
        return None;
    }
    if d > days_in_month_exec(y, m) {
        return None;
    }
    let days = days_before_year_exec(y) + days_before_month_exec(y, m) + (d - 1);
    Some(days * MINUTES_PER_DAY + hh * MINUTES_PER_HOUR + mi)
}

/// Peel whole years off a day count, starting at year `y`; stops at the
/// year that contains the day (capped at year 9999).
pub open spec fn civil_year_of_days(y: int, days: int) -> (int, int)
    decreases days,
{
    if y >= 9999 || days < days_in_year(y) {
        (y, days)
    } else {
        civil_year_of_days(y + 1, days - days_in_year(y))
    }
}

/// Peel whole months off a day-of-year count, starting at month `m`.
pub open spec fn civil_month_of_days(y: int, m: int, days: int) -> (int, int)
    decreases 12 - m,
{
    if m >= 12 || days < days_in_month(y, m) {
        (m, days)
    } else {
        civil_month_of_days(y, m + 1, days - days_in_month(y, m))
    }
}

/// The text a minute timestamp is written as, digit by digit.
pub open spec fn format_datetime_spec(minute: int) -> Seq<char> {
    let days = minute / (MINUTES_PER_DAY as int);
    let rem = minute % (MINUTES_PER_DAY as int);
    let hh = rem / (MINUTES_PER_HOUR as int);
    let mi = rem % (MINUTES_PER_HOUR as int);
    let yd = civil_year_of_days(1970, days);
    let md = civil_month_of_days(yd.0, 1, yd.1);
    let dom = md.1 + 1;
    seq![
        digit_char(yd.0 / 1000 % 10),
        digit_char(yd.0 / 100 % 10),
        digit_char(yd.0 / 10 % 10),
        digit_char(yd.0 % 10),
        '-',
        digit_char(md.0 / 10 % 10),
        digit_char(md.0 % 10),
        '-',
        digit_char(dom / 10 % 10),
        digit_char(dom % 10),
        ' ',
        digit_char(hh / 10 % 10),
        digit_char(hh % 10),
        ':',
        digit_char(mi / 10 % 10),
        digit_char(mi % 10),
        ':',
        '0',
        '0',
    ]
}

/// Write a minute timestamp as `YYYY-MM-DD HH:MM:SS`. Meaningful for times
/// up to the end of year 9999.
#[verifier::rlimit(100)]
pub fn format_datetime_minutes(minute: u64) -> (r: String)
    ensures
        r@ == format_datetime_spec(minute as int),
{
    let days_total = minute / MINUTES_PER_DAY;
    let rem = minute % MINUTES_PER_DAY;
    let hh = rem / MINUTES_PER_HOUR;
    let mi = rem % MINUTES_PER_HOUR;
    let mut y: u64 = 1970;
    let mut doy: u64 = days_total;
    let mut dy = days_in_year_exec(y);
    while y < 9999 && doy >= dy
        invariant
            1970 <= y <= 9999,
            dy as int == days_in_year(y as int),
            civil_year_of_days(1970, days_total as int) == civil_year_of_days(
                y as int,
                doy as int,
            ),
            doy <= days_total,
        decreases doy,
    {
        doy = doy - dy;
        y = y + 1;
        dy = days_in_year_exec(y);
    }
    let mut m: u64 = 1;
    let mut dom: u64 = doy;
    let mut dm = days_in_month_exec(y, m);
    while m < 12 && dom >= dm
        invariant
            1 <= m <= 12,
            dm as int == days_in_month(y as int, m as int),
            civil_month_of_days(y as int, 1, doy as int) == civil_month_of_days(
                y as int,
                m as int,
                dom as int,
            ),
            dom <= doy,
        decreases 12 - m,
    {
        dom = dom - dm;
        m = m + 1;
        dm = days_in_month_exec(y, m);
    }
    let day = dom + 1;
    let mut out = String::new();
    push_four_digits(&mut out, y);
    push_char(&mut out, '-');
    push_two_digits(&mut out, m);
    push_char(&mut out, '-');
    push_two_digits(&mut out, day);
    push_char(&mut out, ' ');
    push_two_digits(&mut out, hh);
    push_char(&mut out, ':');
    push_two_digits(&mut out, mi);
    push_char(&mut out, ':');
    push_char(&mut out, '0');
    push_char(&mut out, '0');
    proof {
        assert(out@ =~= format_datetime_spec(minute as int));
    }
    out
}

/// Append a value below 100 as two decimal digits.
fn push_two_digits(out: &mut String, v: u64)
    ensures
        final(out)@ == old(out)@.push(digit_char(v as int / 10 % 10)).push(
            digit_char(v as int % 10),
        ),
{
    push_char(out, digit_to_char(v / 10 % 10));
    push_char(out, digit_to_char(v % 10));
}

/// Append a value below 10000 as four decimal digits.
fn push_four_digits(out: &mut String, v: u64)
    ensures
        final(out)@ == old(out)@.push(digit_char(v as int / 1000 % 10)).push(
            digit_char(v as int / 100 % 10),
        ).push(digit_char(v as int / 10 % 10)).push(digit_char(v as int % 10)),
{
    push_char(out, digit_to_char(v / 1000 % 10));
    push_char(out, digit_to_char(v / 100 % 10));
    push_char(out, digit_to_char(v / 10 % 10));
    push_char(out, digit_to_char(v % 10));
}

/// Peeling years keeps the total day count, and lands inside the reported
/// year unless the year cap was hit.
pub proof fn lemma_year_peel(y: int, days: int)
    requires
        1970 <= y <= 9999,
        0 <= days,
    ensures
        ({
            let yd = civil_year_of_days(y, days);
            &&& y <= yd.0 <= 9999
            &&& 0 <= yd.1
            &&& days_before_year(y) + days == days_before_year(yd.0) + yd.1
            &&& (yd.0 == 9999 || yd.1 < days_in_year(yd.0))
        }),
    decreases days,
{
    if !(y >= 9999 || days < days_in_year(y)) {
        lemma_year_peel(y + 1, days - days_in_year(y));
        assert(days_before_year(y + 1) == days_before_year(y) + days_in_year(y));
    }
}

/// Peeling months keeps the day-of-year count, and lands inside the
/// reported month unless it ran into December.
pub proof fn lemma_month_peel(y: int, m: int, days: int)
    requires
        1 <= m <= 12,
        0 <= days,
    ensures
        ({
            let md = civil_month_of_days(y, m, days);
            &&& m <= md.0 <= 12
            &&& 0 <= md.1
            &&& days_before_month(y, m) + days == days_before_month(y, md.0) + md.1
            &&& (md.0 == 12 || md.1 < days_in_month(y, md.0))
        }),
    decreases 12 - m,
{
    if !(m >= 12 || days < days_in_month(y, m)) {
        lemma_month_peel(y, m + 1, days - days_in_month(y, m));
        assert(days_before_month(y, m + 1) == days_before_month(y, m) + days_in_month(y, m));
    }
}

/// The twelve months sum to the year's length.
pub proof fn lemma_months_fill_year(y: int)
    ensures
        days_before_month(y, 12) + days_in_month(y, 12) == days_in_year(y),
{
    assert(days_before_month(y, 2) == days_before_month(y, 1) + days_in_month(y, 1));
    assert(days_before_month(y, 3) == days_before_month(y, 2) + days_in_month(y, 2));
    assert(days_before_month(y, 4) == days_before_month(y, 3) + days_in_month(y, 3));
    assert(days_before_month(y, 5) == days_before_month(y, 4) + days_in_month(y, 4));
    assert(days_before_month(y, 6) == days_before_month(y, 5) + days_in_month(y, 5));
    assert(days_before_month(y, 7) == days_before_month(y, 6) + days_in_month(y, 6));
    assert(days_before_month(y, 8) == days_before_month(y, 7) + days_in_month(y, 7));
    assert(days_before_month(y, 9) == days_before_month(y, 8) + days_in_month(y, 8));
    assert(days_before_month(y, 10) == days_before_month(y, 9) + days_in_month(y, 9));
    assert(days_before_month(y, 11) == days_before_month(y, 10) + days_in_month(y, 10));
    assert(days_before_month(y, 12) == days_before_month(y, 11) + days_in_month(y, 11));
}

/// A number below 10000 is the weighted sum of its four decimal digits.
proof fn lemma_four_digits(y: int)
    requires
        0 <= y <= 9999,
    ensures
        1000 * (y / 1000 % 10) + 100 * (y / 100 % 10) + 10 * (y / 10 % 10) + y % 10 == y,
{
    vstd::arithmetic::div_mod::lemma_fundamental_div_mod(y, 10);
    vstd::arithmetic::div_mod::lemma_fundamental_div_mod(y / 10, 10);
    vstd::arithmetic::div_mod::lemma_fundamental_div_mod(y / 100, 10);
    vstd::arithmetic::div_mod::lemma_fundamental_div_mod(y / 1000, 10);
    vstd::arithmetic::div_mod::lemma_div_denominator(y, 10, 10);
    vstd::arithmetic::div_mod::lemma_div_denominator(y, 100, 10);
    assert(y / 10 / 10 == y / 100);
    assert(y / 100 / 10 == y / 1000);
    vstd::arithmetic::div_mod::lemma_fundamental_div_mod(y, 1000);
    vstd::arithmetic::div_mod::lemma_mod_bound(y, 1000);
    assert(y / 1000 <= 9);
    vstd::arithmetic::div_mod::lemma_div_denominator(y, 1000, 10);
    assert(y / 1000 / 10 == y / 10000);
    vstd::arithmetic::div_mod::lemma_basic_div(y, 10000);
    assert(y / 1000 % 10 == y / 1000);
    vstd::arithmetic::div_mod::lemma_mod_bound(y, 10);
    vstd::arithmetic::div_mod::lemma_mod_bound(y / 10, 10);
    vstd::arithmetic::div_mod::lemma_mod_bound(y / 100, 10);
}

/// A number below 100 is the weighted sum of its two decimal digits.
proof fn lemma_two_digits(x: int)
    requires
        0 <= x <= 99,
    ensures
        10 * (x / 10 % 10) + x % 10 == x,
{
    vstd::arithmetic::div_mod::lemma_fundamental_div_mod(x, 10);
    vstd::arithmetic::div_mod::lemma_div_denominator(x, 10, 10);
    vstd::arithmetic::div_mod::lemma_basic_div(x, 100);
    vstd::arithmetic::div_mod::lemma_fundamental_div_mod(x / 10, 10);
    assert(x / 10 / 10 == x / 100);
    assert(x / 10 % 10 == x / 10);
}

/// A decimal digit written as its character reads back as itself.
proof fn lemma_digit_round(d: int)
    requires
        0 <= d <= 9,
    ensures
        is_digit(digit_char(d)),
        digit_val(digit_char(d)) == d,
{
}

/// Law: writing a minute timestamp and parsing the text back is the
/// identity, for every timestamp whose year stays below 10000.
#[verifier::rlimit(100)]
pub proof fn lemma_format_parse_round_trip(minute: int)
    requires
        0 <= minute,
        ({
            let yd = civil_year_of_days(1970, minute / (MINUTES_PER_DAY as int));
            yd.1 < days_in_year(yd.0)
        }),
    ensures
        parse_datetime_spec(format_datetime_spec(minute)) == Some(minute),
{
    let days = minute / (MINUTES_PER_DAY as int);
    let rem = minute % (MINUTES_PER_DAY as int);
    let hh = rem / (MINUTES_PER_HOUR as int);
    let mi = rem % (MINUTES_PER_HOUR as int);
    vstd::arithmetic::div_mod::lemma_fundamental_div_mod(minute, MINUTES_PER_DAY as int);
    vstd::arithmetic::div_mod::lemma_mod_bound(minute, MINUTES_PER_DAY as int);
    vstd::arithmetic::div_mod::lemma_fundamental_div_mod(rem, MINUTES_PER_HOUR as int);
    vstd::arithmetic::div_mod::lemma_mod_bound(rem, MINUTES_PER_HOUR as int);
    assert(0 <= hh <= 23);
    assert(0 <= mi <= 59);
    let yd = civil_year_of_days(1970, days);
    lemma_year_peel(1970, days);
    let y = yd.0;
    let doy = yd.1;
    assert(days_before_year(1970) == 0);
    assert(days == days_before_year(y) + doy);
    let md = civil_month_of_days(y, 1, doy);
    lemma_month_peel(y, 1, doy);
    let m = md.0;
    let dom = md.1;
    assert(days_before_month(y, 1) == 0);
    assert(doy == days_before_month(y, m) + dom);
    if m == 12 {
        lemma_months_fill_year(y);
    }
    assert(0 <= dom < days_in_month(y, m));
    let s = format_datetime_spec(minute);
    // Each digit slot holds the digit it was written from.
    vstd::arithmetic::div_mod::lemma_mod_bound(y, 10);
    vstd::arithmetic::div_mod::lemma_mod_bound(y / 10, 10);
    vstd::arithmetic::div_mod::lemma_mod_bound(y / 100, 10);
    vstd::arithmetic::div_mod::lemma_mod_bound(y / 1000, 10);
    vstd::arithmetic::div_mod::lemma_mod_bound(m, 10);
    vstd::arithmetic::div_mod::lemma_mod_bound(m / 10, 10);
    vstd::arithmetic::div_mod::lemma_mod_bound(dom + 1, 10);
    vstd::arithmetic::div_mod::lemma_mod_bound((dom + 1) / 10, 10);
    vstd::arithmetic::div_mod::lemma_mod_bound(hh, 10);
    vstd::arithmetic::div_mod::lemma_mod_bound(hh / 10, 10);
    vstd::arithmetic::div_mod::lemma_mod_bound(mi, 10);
    vstd::arithmetic::div_mod::lemma_mod_bound(mi / 10, 10);
    lemma_digit_round(y / 1000 % 10);
    lemma_digit_round(y / 100 % 10);
    lemma_digit_round(y / 10 % 10);
    lemma_digit_round(y % 10);
    lemma_digit_round(m / 10 % 10);
    lemma_digit_round(m % 10);
    lemma_digit_round((dom + 1) / 10 % 10);
    lemma_digit_round((dom + 1) % 10);
    lemma_digit_round(hh / 10 % 10);
    lemma_digit_round(hh % 10);
    lemma_digit_round(mi / 10 % 10);
    lemma_digit_round(mi % 10);
    assert(datetime_shape_ok(s));
    lemma_four_digits(y);
    lemma_two_digits(m);
    lemma_two_digits(dom + 1);
    lemma_two_digits(hh);
    lemma_two_digits(mi);
    assert(year_digits(s) == y);
    assert(two_digits(s, 5) == m);
    assert(two_digits(s, 8) == dom + 1);
    assert(two_digits(s, 11) == hh);
    assert(two_digits(s, 14) == mi);
    assert(two_digits(s, 17) == 0) by {
        lemma_digit_round(0);
    }
    assert(valid_civil(y, m, dom + 1, hh, mi, 0));
    assert(minutes_of_civil(y, m, dom + 1, hh, mi) == minute);
}

} // verus!
