//! Proleptic Gregorian date arithmetic: leap years, month lengths and the
//! day of the week, all computed without any platform calendar facility.

use vstd::arithmetic::div_mod::{lemma_fundamental_div_mod, lemma_mod_bound};
use vstd::prelude::*;

verus! {

/// Whether `year` is a leap year of the Gregorian calendar.
pub open spec fn is_leap(year: int) -> bool {
    year % 4 == 0 && (year % 100 != 0 || year % 400 == 0)
}

/// The number of days of `month` in `year`; zero when `month` is no month.
pub open spec fn days_in_month(year: int, month: int) -> int {
    if month == 2 {
        if is_leap(year) {
            29
        } else {
            28
        }
    } else if month == 4 || month == 6 || month == 9 || month == 11 {
        30
    } else if 1 <= month <= 12 {
        31
    } else {
        0
    }
}

/// The part of Zeller's sum that depends on the year alone: the year, plus
/// one for each leap year up to it. Division rounds down.
#[verifier::opaque]
pub open spec fn year_term(year: int) -> int {
    year + year / 4 - year / 100 + year / 400
}

/// The day of the week of a date, 0 for Sunday up to 6 for Saturday, by
/// Zeller's congruence. January and February count as months 13 and 14 of
/// the year before. Division rounds down, so the result lies in `0..=6` for
/// every triple of integers, whether or not it names a real date.
#[verifier::opaque]
pub open spec fn weekday_of(year: int, month: int, day: int) -> int {
    let y = if month < 3 { year - 1 } else { year };
    let m = if month < 3 { month + 12 } else { month };
    let h = (day + (13 * (m + 1)) / 5 + year_term(y)) % 7;
    (h + 6) % 7
}

/// Whether `year` is a leap year.
pub fn is_leap_year(year: i32) -> (leap: bool)
    ensures
        leap == is_leap(year as int),
{
    let by_4 = year % 4 == 0;
    let by_100 = year % 100 == 0;
    let by_400 = year % 400 == 0;
    assert(by_4 == (year as int % 4 == 0));
    assert(by_100 == (year as int % 100 == 0));
    assert(by_400 == (year as int % 400 == 0));
    assert(by_400 ==> by_4 && by_100) by {
        lemma_fundamental_div_mod(year as int, 400);
        assert(by_400 ==> year as int == 4 * (100 * (year as int / 400)));
        assert(by_400 ==> year as int == 100 * (4 * (year as int / 400)));
    }
    (by_4 && !by_100) || by_400
}

/// The number of days of `month` in `year`, and zero for a month outside
/// 1..=12.
pub fn get_days_in_month(year: i32, month: i32) -> (days: i32)
    ensures
        days == days_in_month(year as int, month as int),
{
    match month {
        1 | 3 | 5 | 7 | 8 | 10 | 12 => 31,
        4 | 6 | 9 | 11 => 30,
        2 => if is_leap_year(year) { 29 } else { 28 },
        _ => 0,
    }
}

/// Quotient of `a` by a positive `b`, rounded towards negative infinity.
fn floor_div(a: i64, b: i64) -> (q: i64)
    requires
        b > 0,
    ensures
        q == a / b,
{
    assert(i64::MIN <= a / b <= i64::MAX) by (nonlinear_arith)
        requires
            b > 0,
            i64::MIN <= a <= i64::MAX,
    ;
    a.checked_div_euclid(b).unwrap()
}

/// The day of the week of a date, 0 for Sunday up to 6 for Saturday. The day
/// is not held against the length of the month: day 32 of January is the
/// first of February. Every triple of integers has a result in `0..=6`.
pub fn get_weekday(year: i32, month: i32, day: i32) -> (weekday: i32)
    ensures
        weekday == weekday_of(year as int, month as int, day as int),
        0 <= weekday <= 6,
{
    let mut y: i64 = year as i64;
    let mut m: i64 = month as i64;
    if m < 3 {
        y -= 1;
        m += 12;
    }
    proof {
        reveal(weekday_of);
        reveal(year_term);
    }
    let sum: i64 = day as i64 + floor_div(13 * (m + 1), 5) + y + floor_div(y, 4) - floor_div(y, 100)
        + floor_div(y, 400);
    let h: i64 = sum.checked_rem_euclid(7).unwrap();
    ((h + 6) % 7) as i32
}

/// From one year to the next the year's part grows by one, and by two into a
/// leap year.
proof fn lemma_year_term_step(year: int)
    ensures
        year_term(year) - year_term(year - 1) == if is_leap(year) { 2int } else { 1int },
{
    reveal(year_term);
    lemma_quotient_step(year, 4);
    lemma_quotient_step(year, 100);
    lemma_quotient_step(year, 400);
    assert(year % 100 == 0 ==> year % 4 == 0) by {
        lemma_fundamental_div_mod(year, 100);
        assert(year % 100 == 0 ==> year == 4 * (25 * (year / 100)));
    }
    assert(year % 400 == 0 ==> year % 100 == 0) by {
        lemma_fundamental_div_mod(year, 400);
        assert(year % 400 == 0 ==> year == 100 * (4 * (year / 400)));
    }
}

/// Going up by one, the quotient by `d` grows by one at the multiples of `d`
/// and nowhere else.
proof fn lemma_quotient_step(x: int, d: int)
    requires
        d >= 2,
    ensures
        x / d - (x - 1) / d == if x % d == 0 { 1int } else { 0int },
{
    lemma_fundamental_div_mod(x, d);
    lemma_fundamental_div_mod(x - 1, d);
    lemma_mod_bound(x, d);
    lemma_mod_bound(x - 1, d);
    let k = x / d - (x - 1) / d;
    let r = x % d;
    let r1 = (x - 1) % d;
    assert(d * k == 1 + r1 - r) by (nonlinear_arith)
        requires
            x == d * (x / d) + r,
            x - 1 == d * ((x - 1) / d) + r1,
            k == x / d - (x - 1) / d,
    ;
    assert(k == 0 || k == 1) by (nonlinear_arith)
        requires
            d >= 2,
            2 - d <= d * k <= d,
    ;
    assert(k == 1 <==> r == 0) by (nonlinear_arith)
        requires
            d >= 2,
            k == 0 || k == 1,
            d * k == 1 + r1 - r,
            0 <= r < d,
            0 <= r1 < d,
    ;
}

/// Every date has a day of the week, 0 to 6.
pub proof fn lemma_weekday_of_range(year: int, month: int, day: int)
    ensures
        0 <= weekday_of(year, month, day) <= 6,
{
    reveal(weekday_of);
}

/// Sums that differ by one and a number of whole weeks give days of the week
/// that follow one another.
proof fn lemma_one_day_apart(later: int, earlier: int, weeks: int)
    requires
        later == earlier + 1 + 7 * weeks,
    ensures
        (later % 7 + 6) % 7 == ((earlier % 7 + 6) % 7 + 1) % 7,
{
}

/// Within a month, the next day falls on the next day of the week.
pub proof fn lemma_weekday_of_next_day(year: int, month: int, day: int)
    ensures
        weekday_of(year, month, day + 1) == (weekday_of(year, month, day) + 1) % 7,
{
    lemma_weekday_of_later_day(year, month, day, 1);
}

/// The first day of a month falls on the day of the week after that of the
/// last day of the month before it in the same year.
pub proof fn lemma_weekday_of_next_month(year: int, month: int)
    requires
        1 <= month <= 11,
    ensures
        weekday_of(year, month + 1, 1) == (weekday_of(year, month, days_in_month(year, month)) + 1)
            % 7,
{
    reveal(weekday_of);
    let last = days_in_month(year, month);
    if month == 1 {
        let t = year_term(year - 1);
        lemma_one_day_apart(1 + 39 + t, last + 36 + t, -4);
    } else if month == 2 {
        lemma_year_term_step(year);
        lemma_one_day_apart(1 + 10 + year_term(year), last + 39 + year_term(year - 1), -8);
    } else {
        let t = year_term(year);
        let from = last + (13 * (month + 1)) / 5 + t;
        let to = 1 + (13 * (month + 2)) / 5 + t;
        assert(to == from + 1 - 28) by {
            assert(month == 3 || month == 4 || month == 5 || month == 6 || month == 7 || month == 8
                || month == 9 || month == 10 || month == 11);
        }
        lemma_one_day_apart(to, from, -4);
    }
}

/// New Year's Day falls on the day of the week after that of the last day of
/// the year before.
pub proof fn lemma_weekday_of_next_year(year: int)
    ensures
        weekday_of(year + 1, 1, 1) == (weekday_of(year, 12, 31) + 1) % 7,
{
    reveal(weekday_of);
    let t = year_term(year);
    lemma_one_day_apart(1 + 36 + t, 31 + 33 + t, -4);
}

/// Moving on by some days within a month moves the day of the week on by as
/// many.
pub proof fn lemma_weekday_of_later_day(year: int, month: int, day: int, days: int)
    ensures
        weekday_of(year, month, day + days) == (weekday_of(year, month, day) + days) % 7,
{
    reveal(weekday_of);
}

/// The number of days of a year.
pub open spec fn days_in_year(year: int) -> int {
    if is_leap(year) {
        366
    } else {
        365
    }
}

/// The number of days of `year` before the first of `month`.
pub open spec fn days_before_month(year: int, month: int) -> int
    decreases month,
{
    if month <= 1 {
        0
    } else {
        days_before_month(year, month - 1) + days_in_month(year, month - 1)
    }
}

/// The number of days from 1 January 2000 to 1 January of `year`, negative
/// for a year before 2000.
pub open spec fn days_before_year(year: int) -> int
    decreases
            if year >= 2000 {
                year - 2000
            } else {
                2000 - year
            },
{
    if year == 2000 {
        0
    } else if year > 2000 {
        days_before_year(year - 1) + days_in_year(year - 1)
    } else {
        days_before_year(year + 1) - days_in_year(year)
    }
}

/// The number of days from 1 January 2000 to the given date.
pub open spec fn day_number(year: int, month: int, day: int) -> int {
    days_before_year(year) + days_before_month(year, month) + day - 1
}

/// The months of a year have the days of the year between them.
pub proof fn lemma_days_in_year(year: int)
    ensures
        days_before_month(year, 13) == days_in_year(year),
{
    reveal_with_fuel(days_before_month, 13);
}

/// From the first of January to the first of a month, the day of the week
/// moves on by the days of the months between.
proof fn lemma_weekday_of_month(year: int, month: int)
    requires
        1 <= month <= 12,
    ensures
        weekday_of(year, month, 1) == (weekday_of(year, 1, 1) + days_before_month(year, month)) % 7,
    decreases month,
{
    lemma_weekday_of_range(year, 1, 1);
    if month > 1 {
        lemma_weekday_of_month(year, month - 1);
        lemma_weekday_of_next_month(year, month - 1);
        lemma_weekday_of_later_day(year, month - 1, 1, days_in_month(year, month - 1) - 1);
    }
}

/// From the first of January of one year to that of the next, the day of the
/// week moves on by the days of the year.
proof fn lemma_weekday_of_new_year(year: int)
    ensures
        weekday_of(year + 1, 1, 1) == (weekday_of(year, 1, 1) + days_in_year(year)) % 7,
{
    lemma_weekday_of_month(year, 12);
    lemma_weekday_of_later_day(year, 12, 1, 30);
    lemma_weekday_of_next_year(year);
    lemma_days_in_year(year);
}

/// The first of January of any year falls on the day of the week that the
/// count of days from Saturday, 1 January 2000, gives.
proof fn lemma_weekday_of_january(year: int)
    ensures
        weekday_of(year, 1, 1) == (6 + days_before_year(year)) % 7,
    decreases
            if year >= 2000 {
                year - 2000
            } else {
                2000 - year
            },
{
    lemma_weekday_of_range(year, 1, 1);
    if year == 2000 {
        reveal(weekday_of);
        reveal(year_term);
    } else if year > 2000 {
        lemma_weekday_of_january(year - 1);
        lemma_weekday_of_new_year(year - 1);
    } else {
        lemma_weekday_of_january(year + 1);
        lemma_weekday_of_new_year(year);
    }
}

/// Zeller's congruence counts days. The day of the week of any date is the
/// one that counting the days from Saturday, 1 January 2000, arrives at, in
/// every year before or after, with the leap years as they fall.
pub proof fn lemma_weekday_of_counts_days(year: int, month: int, day: int)
    requires
        1 <= month <= 12,
    ensures
        weekday_of(year, month, day) == (6 + day_number(year, month, day)) % 7,
{
    lemma_weekday_of_january(year);
    lemma_weekday_of_month(year, month);
    lemma_weekday_of_later_day(year, month, 1, day - 1);
}

} // verus!
