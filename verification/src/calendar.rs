//! Proleptic Gregorian calendar arithmetic for the date picker: month
//! lengths, weekday of the first of a month, and conversion between
//! calendar dates and Unix timestamps. The supported years are those a
//! `chrono::NaiveDate` can carry, about 262,000 on either side of the
//! common era.

use vstd::prelude::*;
use crate::digits::{dec_digits, digit_char, digit_char_exec, push_dec_digits};
use crate::strings::chars_to_string;

verus! {

/// The first calendar year the library supports.
pub const MIN_CAL_YEAR: i32 = -262143;

/// The last calendar year the library supports.
pub const MAX_CAL_YEAR: i32 = 262142;

/// The defensive failure of confirming a day the current month does not have.
#[derive(Clone, Copy, PartialEq, Eq, Structural, Debug)]
pub struct InvalidDate;

/// The Gregorian leap-year rule.
pub open spec fn is_leap_year(y: int) -> bool {
    (y % 4 == 0 && y % 100 != 0) || y % 400 == 0
}

/// Days in one month of one year.
pub open spec fn days_in_month_of(y: int, m: int) -> int {
    if m == 2 {
        if is_leap_year(y) { 29 } else { 28 }
    } else if m == 4 || m == 6 || m == 9 || m == 11 {
        30
    } else {
        31
    }
}

/// Days in one year.
pub open spec fn year_length(y: int) -> int {
    if is_leap_year(y) { 366 } else { 365 }
}

/// Days between January 1st of year `y` and January 1st of year 1,
/// negative for years before year 1.
pub open spec fn days_before_year(y: int) -> int
    decreases (if y >= 1 { y } else { 2 - y }),
{
    if y == 1 {
        0
    } else if y > 1 {
        days_before_year(y - 1) + year_length(y - 1)
    } else {
        days_before_year(y + 1) - year_length(y)
    }
}

/// Days of year `y` strictly before month `m`.
pub open spec fn days_before_month(y: int, m: int) -> int
    decreases m,
{
    if m <= 1 { 0 } else { days_before_month(y, m - 1) + days_in_month_of(y, m - 1) }
}

/// The zero-based day number of a date, counted from year 1, January 1st;
/// negative for earlier days.
pub open spec fn day_number(y: int, m: int, d: int) -> int {
    days_before_year(y) + days_before_month(y, m) + (d - 1)
}

/// A date the supported calendar can represent.
pub open spec fn valid_ymd(y: int, m: int, d: int) -> bool {
    MIN_CAL_YEAR <= y <= MAX_CAL_YEAR && 1 <= m <= 12 && 1 <= d <= days_in_month_of(y, m)
}

/// The timestamp of 23:59:59 UTC on a date, in Unix epoch seconds.
pub open spec fn end_of_day_ts(y: int, m: int, d: int) -> int {
    (day_number(y, m, d) - days_before_year(1970)) * 86400 + 86399
}

/// The whole months of a year sum to its length.
proof fn lemma_months_cover_year(y: int)
    ensures
        days_before_month(y, 13) == year_length(y),
{
    reveal_with_fuel(days_before_month, 14);
}

/// Year lengths accumulate one year at a time, in both directions.
pub proof fn lemma_days_before_year_step(y: int)
    ensures
        days_before_year(y + 1) == days_before_year(y) + year_length(y),
{
}

/// Prefix year sums grow with the year.
proof fn lemma_days_before_year_mono(a: int, b: int)
    requires
        a <= b,
    ensures
        days_before_year(a) <= days_before_year(b),
    decreases b - a,
{
    if a < b {
        lemma_days_before_year_mono(a, b - 1);
        lemma_days_before_year_step(b - 1);
    }
}

/// Year prefix sums are bounded by 366 days a year, on either side.
proof fn lemma_days_before_year_bounds(y: int)
    requires
        MIN_CAL_YEAR - 2 <= y <= MAX_CAL_YEAR + 2,
    ensures
        y >= 1 ==> 0 <= days_before_year(y) <= 366 * (y - 1),
        y < 1 ==> 366 * (y - 1) <= days_before_year(y) <= 0,
    decreases (if y >= 1 { y } else { 2 - y }),
{
    if y > 1 {
        lemma_days_before_year_bounds(y - 1);
        lemma_days_before_year_step(y - 1);
    } else if y < 1 {
        lemma_days_before_year_bounds(y + 1);
        lemma_days_before_year_step(y);
    }
}

/// Whether `y` is a Gregorian leap year.
pub fn is_leap_year_exec(y: i32) -> (r: bool)
    ensures
        r == is_leap_year(y as int),
{
    (y % 4 == 0 && y % 100 != 0) || y % 400 == 0
}

/// The number of days in a month; February follows the leap-year rule.
pub fn days_in_month(year: i32, month: u32) -> (d: u32)
    requires
        1 <= month <= 12,
    ensures
        d == days_in_month_of(year as int, month as int),
        28 <= d <= 31,
{
    if month == 2 {
        if is_leap_year_exec(year) { 29 } else { 28 }
    } else if month == 4 || month == 6 || month == 9 || month == 11 {
        30
    } else {
        31
    }
}

/// The number of days in a year.
fn year_length_exec(y: i32) -> (r: u64)
    ensures
        r == year_length(y as int),
{
    if is_leap_year_exec(y) { 366 } else { 365 }
}

/// Days between January 1st of year `y` and January 1st of year 1.
pub fn days_before_year_exec(y: i32) -> (n: i64)
    requires
        MIN_CAL_YEAR - 2 <= y <= MAX_CAL_YEAR + 2,
    ensures
        n == days_before_year(y as int),
{
    let mut acc: i64 = 0;
    if y >= 1 {
        let mut yy: i32 = 1;
        while yy < y
            invariant
                1 <= yy <= y <= MAX_CAL_YEAR + 2,
                acc == days_before_year(yy as int),
                0 <= acc <= 366 * (yy - 1),
            decreases y - yy,
        {
            let yl = year_length_exec(yy);
            proof {
                lemma_days_before_year_step(yy as int);
            }
            acc = acc + yl as i64;
            yy = yy + 1;
        }
    } else {
        let mut yy: i32 = 1;
        while yy > y
            invariant
                MIN_CAL_YEAR - 2 <= y <= yy <= 1,
                acc == days_before_year(yy as int),
                366 * (yy - 1) <= acc <= 0,
            decreases yy - y,
        {
            let yl = year_length_exec(yy - 1);
            proof {
                lemma_days_before_year_step(yy as int - 1);
            }
            acc = acc - yl as i64;
            yy = yy - 1;
        }
    }
    acc
}

/// Days of year `y` strictly before month `m`.
pub fn days_before_month_exec(y: i32, m: u32) -> (n: u64)
    requires
        1 <= m <= 13,
    ensures
        n == days_before_month(y as int, m as int),
        n <= 372,
{
    let mut mm: u32 = 1;
    let mut acc: u64 = 0;
    while mm < m
        invariant
            1 <= mm <= m <= 13,
            acc == days_before_month(y as int, mm as int),
            acc <= 31 * (mm - 1),
        decreases m - mm,
    {
        let dm = days_in_month(y, mm);
        acc = acc + dm as u64;
        mm = mm + 1;
    }
    proof {
        lemma_days_before_month_bound(y as int, m as int);
    }
    acc
}

/// Months hold at most 31 days, so the prefix sums stay small.
proof fn lemma_days_before_month_bound(y: int, m: int)
    requires
        1 <= m <= 13,
    ensures
        0 <= days_before_month(y, m) <= 31 * (m - 1),
    decreases m,
{
    if m > 1 {
        lemma_days_before_month_bound(y, m - 1);
    }
}

/// The zero-based day number of a valid date.
pub fn day_number_exec(y: i32, m: u32, d: u32) -> (n: i64)
    requires
        valid_ymd(y as int, m as int, d as int),
    ensures
        n == day_number(y as int, m as int, d as int),
        days_before_year(MIN_CAL_YEAR as int) <= n < days_before_year(MAX_CAL_YEAR as int + 1),
{
    let by = days_before_year_exec(y);
    let bm = days_before_month_exec(y, m);
    proof {
        lemma_day_number_in_year(y as int, m as int, d as int);
        lemma_days_before_year_step(y as int);
        lemma_days_before_year_mono(MIN_CAL_YEAR as int, y as int);
        lemma_days_before_year_mono(y as int + 1, MAX_CAL_YEAR as int + 1);
        lemma_days_before_year_bounds(y as int);
        lemma_days_before_year_bounds(MIN_CAL_YEAR as int);
    }
    by + bm as i64 + (d as i64 - 1)
}

/// Day numbers within a year stay below the year's length.
proof fn lemma_day_number_in_year(y: int, m: int, d: int)
    requires
        1 <= m <= 12,
        1 <= d <= days_in_month_of(y, m),
    ensures
        0 <= days_before_month(y, m) + (d - 1) < year_length(y),
{
    lemma_days_before_month_bound(y, m);
    assert(days_before_month(y, m + 1) == days_before_month(y, m) + days_in_month_of(y, m));
    lemma_days_before_month_mono(y, m + 1, 13);
    lemma_months_cover_year(y);
}

/// Prefix month sums grow with the month.
proof fn lemma_days_before_month_mono(y: int, a: int, b: int)
    requires
        a <= b,
    ensures
        days_before_month(y, a) <= days_before_month(y, b),
    decreases b - a,
{
    if a < b {
        lemma_days_before_month_mono(y, a, b - 1);
    }
}

/// The timestamp of 23:59:59 UTC on a valid date, in Unix epoch seconds.
pub fn end_of_day_timestamp(y: i32, m: u32, d: u32) -> (ts: i64)
    requires
        valid_ymd(y as int, m as int, d as int),
    ensures
        ts == end_of_day_ts(y as int, m as int, d as int),
{
    let dn = day_number_exec(y, m, d);
    let base = days_before_year_exec(1970);
    proof {
        lemma_days_before_year_bounds(1970);
        lemma_days_before_year_bounds(MIN_CAL_YEAR as int);
        lemma_days_before_year_bounds(MAX_CAL_YEAR as int + 1);
    }
    let shifted: i64 = dn - base;
    shifted * 86400 + 86399
}

/// The weekday of the first day of a month, with 0 for Sunday through 6
/// for Saturday. Year 1 began on a Monday.
pub fn first_weekday(year: i32, month: u32) -> (w: u32)
    requires
        MIN_CAL_YEAR <= year <= MAX_CAL_YEAR,
        1 <= month <= 12,
    ensures
        w == (day_number(year as int, month as int, 1) + 1) % 7,
        w < 7,
{
    let dn = day_number_exec(year, month, 1);
    proof {
        lemma_days_before_year_bounds(MIN_CAL_YEAR as int);
        lemma_days_before_year_bounds(MAX_CAL_YEAR as int + 1);
        // 96000002 is a multiple of 7 large enough to make the shifted
        // day number nonnegative, so the remainder is the true weekday.
        vstd::arithmetic::div_mod::lemma_mod_multiples_vanish(13714286, dn as int + 1, 7);
    }
    ((dn + 1 + 96000002) % 7) as u32
}

/// The date whose zero-based day number (from year 1, January 1st) is
/// `dn`, found by walking years and then months.
pub fn civil_from_day_number(dn: i64) -> (r: (i32, u32, u32))
    requires
        days_before_year(MIN_CAL_YEAR as int) <= dn < days_before_year(MAX_CAL_YEAR as int + 1),
    ensures
        valid_ymd(r.0 as int, r.1 as int, r.2 as int),
        day_number(r.0 as int, r.1 as int, r.2 as int) == dn,
{
    proof {
        lemma_days_before_year_bounds(MIN_CAL_YEAR as int);
        lemma_days_before_year_bounds(MAX_CAL_YEAR as int + 1);
    }
    let mut y: i32 = MIN_CAL_YEAR;
    let mut acc: i64 = days_before_year_exec(MIN_CAL_YEAR);
    let mut yl: u64 = year_length_exec(MIN_CAL_YEAR);
    while acc + yl as i64 <= dn
        invariant
            MIN_CAL_YEAR <= y <= MAX_CAL_YEAR,
            acc == days_before_year(y as int),
            yl == year_length(y as int),
            acc <= dn,
            -96000000 <= acc,
            dn < days_before_year(MAX_CAL_YEAR as int + 1),
            dn <= 96000000,
        decreases MAX_CAL_YEAR + 1 - y,
    {
        proof {
            lemma_days_before_year_step(y as int);
            if y == MAX_CAL_YEAR {
                assert(days_before_year(MAX_CAL_YEAR as int + 1) == acc + yl);
            }
        }
        acc = acc + yl as i64;
        y = y + 1;
        yl = year_length_exec(y);
    }
    let rem: u64 = (dn - acc) as u64;
    assert(rem < year_length(y as int));
    let mut m: u32 = 1;
    let mut macc: u64 = 0;
    let mut dm: u64 = days_in_month(y, 1) as u64;
    while m < 12 && macc + dm <= rem
        invariant
            1 <= m <= 12,
            MIN_CAL_YEAR <= y <= MAX_CAL_YEAR,
            rem < year_length(y as int),
            macc == days_before_month(y as int, m as int),
            dm == days_in_month_of(y as int, m as int),
            macc <= rem,
        decreases 12 - m,
    {
        macc = macc + dm;
        m = m + 1;
        dm = days_in_month(y, m) as u64;
    }
    proof {
        if m == 12 {
            lemma_months_cover_year(y as int);
        }
    }
    let d: u32 = (rem - macc + 1) as u32;
    (y, m, d)
}

/// Zero-padded four digit form of a value below 10000.
pub open spec fn pad4(n: int) -> Seq<char> {
    if n < 10 {
        seq!['0', '0', '0'] + dec_digits(n as nat)
    } else if n < 100 {
        seq!['0', '0'] + dec_digits(n as nat)
    } else if n < 1000 {
        seq!['0'] + dec_digits(n as nat)
    } else {
        dec_digits(n as nat)
    }
}

/// Zero-padded two digit form of a value below 100.
pub open spec fn pad2(n: int) -> Seq<char> {
    seq![digit_char(n / 10), digit_char(n % 10)]
}

/// The `%Y` form of a year: four zero-padded digits, with a minus sign
/// before the common era and a plus sign from year 10000 on.
pub open spec fn year_str(y: int) -> Seq<char> {
    if 0 <= y <= 9999 {
        pad4(y)
    } else if y < 0 && -y < 10000 {
        seq!['-'] + pad4(-y)
    } else if y < 0 {
        seq!['-'] + dec_digits((-y) as nat)
    } else {
        seq!['+'] + dec_digits(y as nat)
    }
}

/// A date in `YYYY-MM-DD` form.
pub open spec fn date_string(y: int, m: int, d: int) -> Seq<char> {
    year_str(y) + seq!['-'] + pad2(m) + seq!['-'] + pad2(d)
}

/// Appends the zero-padded four digit form of `n`.
fn push_pad4(out: &mut Vec<char>, n: u64)
    requires
        0 <= n < 10000,
    ensures
        final(out)@ == old(out)@ + pad4(n as int),
{
    if n < 10 {
        out.push('0');
        out.push('0');
        out.push('0');
    } else if n < 100 {
        out.push('0');
        out.push('0');
    } else if n < 1000 {
        out.push('0');
    }
    push_dec_digits(out, n);
    assert(final(out)@ =~= old(out)@ + pad4(n as int));
}

/// Appends the zero-padded two digit form of `n`.
fn push_pad2(out: &mut Vec<char>, n: u64)
    requires
        0 <= n < 100,
    ensures
        final(out)@ == old(out)@ + pad2(n as int),
{
    out.push(digit_char_exec((n / 10) as u8));
    out.push(digit_char_exec((n % 10) as u8));
    assert(final(out)@ =~= old(out)@ + pad2(n as int));
}

/// Appends the `%Y` form of a year.
fn push_year(out: &mut Vec<char>, y: i32)
    requires
        MIN_CAL_YEAR <= y <= MAX_CAL_YEAR,
    ensures
        final(out)@ == old(out)@ + year_str(y as int),
{
    if 0 <= y && y <= 9999 {
        push_pad4(out, y as u64);
    } else if y < 0 {
        out.push('-');
        let mag: u64 = (-y) as u64;
        if mag < 10000 {
            push_pad4(out, mag);
        } else {
            push_dec_digits(out, mag);
        }
    } else {
        out.push('+');
        push_dec_digits(out, y as u64);
    }
    assert(final(out)@ =~= old(out)@ + year_str(y as int));
}

/// Formats the UTC calendar date of a timestamp as `%Y-%m-%d`.
pub fn format_date(timestamp: i64) -> (r: String)
    requires
        (days_before_year(MIN_CAL_YEAR as int) - days_before_year(1970)) * 86400 <= timestamp,
        timestamp < (days_before_year(MAX_CAL_YEAR as int + 1) - days_before_year(1970)) * 86400,
    ensures
        exists|y: int, m: int, d: int|
            {
                &&& valid_ymd(y, m, d)
                &&& #[trigger] day_number(y, m, d) == days_before_year(1970) + (
                timestamp as int) / 86400
                &&& r@ == date_string(y, m, d)
            },
{
    let base70 = days_before_year_exec(1970);
    let basemin = days_before_year_exec(MIN_CAL_YEAR);
    proof {
        lemma_days_before_year_bounds(1970);
        lemma_days_before_year_bounds(MIN_CAL_YEAR as int);
        lemma_days_before_year_bounds(MAX_CAL_YEAR as int + 1);
    }
    let shifted: u64 = (timestamp as i128 + (base70 as i128 - basemin as i128) * 86400) as u64;
    let rel_day: u64 = shifted / 86400;
    proof {
        assert(shifted as int == timestamp + (base70 - basemin) * 86400);
        assert(rel_day == (timestamp as int) / 86400 + (base70 - basemin)) by {
            vstd::arithmetic::div_mod::lemma_hoist_over_denominator(
                timestamp as int,
                (base70 - basemin) as int,
                86400nat,
            );
        }
        assert(rel_day as int + basemin < days_before_year(MAX_CAL_YEAR as int + 1)) by {
            let hi = days_before_year(MAX_CAL_YEAR as int + 1) - basemin;
            assert(shifted as int <= 86400 * (hi - 1) + 86399);
            vstd::arithmetic::div_mod::lemma_div_multiples_vanish_fancy(hi - 1, 86399, 86400);
            vstd::arithmetic::div_mod::lemma_div_is_ordered(
                shifted as int,
                86400 * (hi - 1) + 86399,
                86400,
            );
        }
    }
    let dn: i64 = rel_day as i64 + basemin;
    let (y, m, d) = civil_from_day_number(dn);
    let mut out: Vec<char> = Vec::new();
    push_year(&mut out, y);
    out.push('-');
    push_pad2(&mut out, m as u64);
    out.push('-');
    push_pad2(&mut out, d as u64);
    assert(out@ =~= date_string(y as int, m as int, d as int));
    chars_to_string(&out)
}

/// Formats the UTC calendar date of a timestamp, or returns `None` for a
/// timestamp outside the supported years.
pub fn format_date_opt(timestamp: i64) -> (r: Option<String>)
    ensures
        r is Some <==> (days_before_year(MIN_CAL_YEAR as int) - days_before_year(1970)) * 86400
            <= timestamp < (days_before_year(MAX_CAL_YEAR as int + 1) - days_before_year(1970))
            * 86400,
        r matches Some(s) ==> exists|y: int, m: int, d: int|
            {
                &&& valid_ymd(y, m, d)
                &&& #[trigger] day_number(y, m, d) == days_before_year(1970) + (
                timestamp as int) / 86400
                &&& s@ == date_string(y, m, d)
            },
{
    let base70 = days_before_year_exec(1970);
    let basemin = days_before_year_exec(MIN_CAL_YEAR);
    let basemax = days_before_year_exec(MAX_CAL_YEAR + 1);
    proof {
        lemma_days_before_year_bounds(1970);
        lemma_days_before_year_bounds(MIN_CAL_YEAR as int);
        lemma_days_before_year_bounds(MAX_CAL_YEAR as int + 1);
    }
    let lo: i64 = (basemin - base70) * 86400;
    let hi: i64 = (basemax - base70) * 86400;
    if lo <= timestamp && timestamp < hi {
        Some(format_date(timestamp))
    } else {
        None
    }
}

} // verus!
