//! Calendar dates.

use crate::number;
use vstd::prelude::*;

verus! {

/// A leap year of the Gregorian calendar.
pub open spec fn is_leap(y: int) -> bool {
    y % 4 == 0 && (y % 100 != 0 || y % 400 == 0)
}

/// One day more in a leap year.
pub open spec fn leap_day(y: int) -> int {
    if is_leap(y) {
        1
    } else {
        0
    }
}

/// The number of days in a month.
pub open spec fn month_days(y: int, m: int) -> int {
    if m == 2 {
        28 + leap_day(y)
    } else if m == 4 || m == 6 || m == 9 || m == 11 {
        30
    } else {
        31
    }
}

/// The number of days in a year before its month `m`.
pub open spec fn before_month(y: int, m: int) -> int
    decreases m,
{
    if m <= 1 {
        0
    } else {
        before_month(y, m - 1) + month_days(y, m - 1)
    }
}

/// The number of days from 1970-01-01 to the first day of year `y`.
pub open spec fn year_start(y: int) -> int {
    365 * y + (y - 1) / 4 - (y - 1) / 100 + (y - 1) / 400 - 719_527
}

/// Day `m`-`d` of year `y` is a day of the calendar.
pub open spec fn is_date(y: int, m: int, d: int) -> bool {
    1 <= m <= 12 && 1 <= d <= month_days(y, m)
}

/// The number of days from 1970-01-01 to a date.
pub open spec fn day_number(y: int, m: int, d: int) -> int {
    year_start(y) + before_month(y, m) + d - 1
}

/// `(y, m, d)` is the date `z` days after 1970-01-01.
pub open spec fn is_day(z: int, y: int, m: int, d: int) -> bool {
    is_date(y, m, d) && day_number(y, m, d) == z
}

/// The date `z` days after 1970-01-01.
pub open spec fn date_of(z: int) -> (int, int, int) {
    choose|t: (int, int, int)| is_day_of(z, t)
}

/// `t`, a year, month and day, is the date `z` days after 1970-01-01.
pub open spec fn is_day_of(z: int, t: (int, int, int)) -> bool {
    is_day(z, t.0, t.1, t.2)
}

/// The calendar counts from 1970, each year is as long as its months together,
/// and the next year follows it.
pub proof fn law_years_follow(y: int)
    ensures
        year_start(1970) == 0,
        before_month(y, 13) == 365 + leap_day(y),
        year_start(y + 1) == year_start(y) + before_month(y, 13),
{
    lemma_before_month(y);
    let a = y / 4;
    let b = y / 100;
    let c = y / 400;
    assert(y % 4 == 0 ==> (y - 1) / 4 == a - 1);
    assert(y % 4 != 0 ==> (y - 1) / 4 == a);
    assert(y % 100 == 0 ==> (y - 1) / 100 == b - 1);
    assert(y % 100 != 0 ==> (y - 1) / 100 == b);
    assert(y % 400 == 0 ==> (y - 1) / 400 == c - 1);
    assert(y % 400 != 0 ==> (y - 1) / 400 == c);
    assert(y % 100 == 0 ==> y % 4 == 0);
    assert(y % 400 == 0 ==> y % 100 == 0);
}

/// The days before each month.
proof fn lemma_before_month(y: int)
    ensures
        before_month(y, 1) == 0,
        before_month(y, 2) == 31,
        before_month(y, 3) == 59 + leap_day(y),
        before_month(y, 4) == 90 + leap_day(y),
        before_month(y, 5) == 120 + leap_day(y),
        before_month(y, 6) == 151 + leap_day(y),
        before_month(y, 7) == 181 + leap_day(y),
        before_month(y, 8) == 212 + leap_day(y),
        before_month(y, 9) == 243 + leap_day(y),
        before_month(y, 10) == 273 + leap_day(y),
        before_month(y, 11) == 304 + leap_day(y),
        before_month(y, 12) == 334 + leap_day(y),
        before_month(y, 13) == 365 + leap_day(y),
{
    reveal_with_fuel(before_month, 14);
}

/// Two days of the calendar with the same number are the same day.
pub proof fn law_day_numbers_differ(y: int, m: int, d: int, y2: int, m2: int, d2: int)
    requires
        is_date(y, m, d),
        is_date(y2, m2, d2),
        day_number(y, m, d) == day_number(y2, m2, d2),
    ensures
        y == y2,
        m == m2,
        d == d2,
{
    lemma_before_month(y);
    lemma_before_month(y2);
    if y < y2 {
        lemma_years_ordered(y, y2);
    } else if y2 < y {
        lemma_years_ordered(y2, y);
    }
}

/// A later year starts after every day of an earlier one.
proof fn lemma_years_ordered(y: int, y2: int)
    requires
        y < y2,
    ensures
        year_start(y) + 365 + leap_day(y) <= year_start(y2),
    decreases y2 - y,
{
    lemma_before_month(y);
    law_years_follow(y);
    if y + 1 < y2 {
        lemma_years_ordered(y + 1, y2);
    }
}

/// The year within an era of 400 years, counted from March.
proof fn lemma_year_of_era(doe: int)
    requires
        0 <= doe < 146_097,
    ensures
        ({
            let yoe = (doe - doe / 1460 + doe / 36_524 - doe / 146_096) / 365;
            let start = 365 * yoe + yoe / 4 - yoe / 100;
            &&& 0 <= yoe < 400
            &&& start <= doe
            &&& doe - start <= 365
            &&& doe - start == 365 ==> (yoe + 1) % 4 == 0 && ((yoe + 1) % 100 != 0 || yoe == 399)
        }),
{
    let c = doe / 36_524;
    let e = doe / 146_096;
    let q = doe / 1460;
    let n = doe - q + c - e;
    let yoe = n / 365;
    assert(0 <= c <= 4);
    assert(0 <= e <= 1);
    assert(e == 1 ==> doe == 146_096);
}

/// The number of the first of March.
proof fn lemma_first_of_march(era: int, yoe: int)
    requires
        0 <= yoe < 400,
    ensures
        year_start(400 * era + yoe) + 59 + leap_day(400 * era + yoe) == 146_097 * era + 365 * yoe
            + yoe / 4 - yoe / 100 - 719_468,
        is_leap(400 * era + yoe) == (yoe % 4 == 0 && (yoe % 100 != 0 || yoe == 0)),
{
    let y = 400 * era + yoe;
    assert(y / 4 == 100 * era + yoe / 4);
    assert(y / 100 == 4 * era + yoe / 100);
    assert(y / 400 == era);
    assert(y % 4 == yoe % 4);
    assert(y % 100 == yoe % 100);
    assert(y % 400 == yoe);
    assert(y % 4 == 0 ==> (y - 1) / 4 == y / 4 - 1);
    assert(y % 4 != 0 ==> (y - 1) / 4 == y / 4);
    assert(y % 100 == 0 ==> (y - 1) / 100 == y / 100 - 1);
    assert(y % 100 != 0 ==> (y - 1) / 100 == y / 100);
    assert(y % 400 == 0 ==> (y - 1) / 400 == y / 400 - 1);
    assert(y % 400 != 0 ==> (y - 1) / 400 == y / 400);
    assert(y % 100 == 0 ==> y % 4 == 0);
}

/// The date of a day that is counted from the first of March.
proof fn lemma_march_date(z: int, era: int, yoe: int, doy: int)
    requires
        0 <= yoe < 400,
        0 <= doy <= 365,
        doy == 365 ==> (yoe + 1) % 4 == 0 && ((yoe + 1) % 100 != 0 || yoe == 399),
        z + 719_468 == 146_097 * era + 365 * yoe + yoe / 4 - yoe / 100 + doy,
    ensures
        ({
            let y = 400 * era + yoe;
            let mp = (5 * doy + 2) / 153;
            let d = doy - (153 * mp + 2) / 5 + 1;
            let m = if mp < 10 {
                mp + 3
            } else {
                mp - 9
            };
            let year = if m <= 2 {
                y + 1
            } else {
                y
            };
            is_day(z, year, m, d)
        }),
{
    let y = 400 * era + yoe;
    let mp = (5 * doy + 2) / 153;
    let d = doy - (153 * mp + 2) / 5 + 1;
    lemma_first_of_march(era, yoe);
    lemma_before_month(y);
    lemma_before_month(y + 1);
    law_years_follow(y);
    assert(z == year_start(y) + 59 + leap_day(y) + doy);
    if doy == 365 {
        assert(is_leap(y + 1)) by {
            if yoe == 399 {
                lemma_first_of_march(era + 1, 0);
                assert(y + 1 == 400 * (era + 1) + 0);
            } else {
                lemma_first_of_march(era, yoe + 1);
            }
        }
    }
    assert(0 <= mp <= 11);
    if mp < 10 {
        let m = mp + 3;
        assert(before_month(y, m) + d - 1 == 59 + leap_day(y) + doy);
        assert(1 <= d <= month_days(y, m));
    } else {
        let m = mp - 9;
        assert(before_month(y + 1, m) + d - 1 == doy - 306);
        assert(1 <= d <= month_days(y + 1, m));
    }
}

/// The number in the range of `i32` that has the same last 32 bits as `y`.
pub open spec fn cut_to_32_bits(y: int) -> int {
    (y + 0x8000_0000) % 0x1_0000_0000 - 0x8000_0000
}

/// Month `m` and day `d` of some year are the date `z` days after 1970-01-01, and
/// `y32` is that year cut to 32 bits.
pub open spec fn is_cut_day(z: int, y32: int, m: int, d: int) -> bool {
    exists|y: int| #[trigger] is_day(z, y, m, d) && y32 == cut_to_32_bits(y)
}

/// Computes `cut_to_32_bits`.
fn cut_year(y: i64) -> (r: i32)
    requires
        y <= 0x4000_0000_0000_0000,
    ensures
        r == cut_to_32_bits(y as int),
{
    let v: i64 = y + 0x8000_0000;
    let low: i64 = if v >= 0 {
        v % 0x1_0000_0000
    } else {
        0xffff_ffff - (-(v + 1)) % 0x1_0000_0000
    };
    (low - 0x8000_0000) as i32
}

/// Which era of 400 years a day lies in, and which of its days it is.
fn era_of(z: i64) -> (r: (i64, i64))
    requires
        i64::MIN < z,
    ensures
        z == 146_097 * r.0 + r.1,
        0 <= r.1 < 146_097,
        -0x8000_0000_0000 <= r.0 <= 0x8000_0000_0000,
{
    let era: i64 = if z >= 0 {
        z / 146_097
    } else {
        -((-(z + 1)) / 146_097) - 1
    };
    assert(z as int / 146_097 == era);
    let rem: i64 = if z >= 0 {
        z % 146_097
    } else {
        146_096 - (-(z + 1)) % 146_097
    };
    (era, rem)
}

/// The date `z` days after 1970-01-01; the year is cut to 32 bits.
pub fn civil_from_days(z: i64) -> (r: (i32, u8, u8))
    requires
        z <= i64::MAX - 719_468,
    ensures
        is_cut_day(z as int, r.0 as int, r.1 as int, r.2 as int),
{
    let (era, doe) = era_of(z + 719_468);
    proof {
        lemma_year_of_era(doe as int);
    }
    let yoe: i64 = (doe - doe / 1460 + doe / 36_524 - doe / 146_096) / 365;
    let y: i64 = yoe + era * 400;
    let doy: i64 = doe - (365 * yoe + yoe / 4 - yoe / 100);
    let mp: i64 = (5 * doy + 2) / 153;
    let d: i64 = doy - (153 * mp + 2) / 5 + 1;
    let m: i64 = if mp < 10 {
        mp + 3
    } else {
        mp - 9
    };
    let year: i64 = if m <= 2 {
        y + 1
    } else {
        y
    };
    proof {
        lemma_march_date(z as int, era as int, yoe as int, doy as int);
    }
    assert(is_day(z as int, year as int, m as int, d as int));
    let month: u8 = m as u8;
    let day: u8 = d as u8;
    assert(is_day(z as int, year as int, month as int, day as int));
    (cut_year(year), month, day)
}

/// A year with four digits or more; a sign counts as one of them.
pub open spec fn year_text(y: int) -> Seq<char> {
    if y >= 0 {
        number::zero_padded(number::decimal(y as nat), 4)
    } else {
        "-"@ + number::zero_padded(number::decimal((-y) as nat), 3)
    }
}

/// Computes `year_text`.
fn year_string(y: i32) -> (r: String)
    ensures
        r@ == year_text(y as int),
{
    if y >= 0 {
        number::padded_text(y as u128, 4)
    } else {
        let n: i64 = -(y as i64);
        let mut r = String::from_str("-");
        r.append(number::padded_text(n as u128, 3).as_str());
        r
    }
}

/// The date at `secs` seconds after 1970 began, as `YYYY-MM-DD`.
pub open spec fn date_text(secs: int) -> Seq<char> {
    let (y, m, d) = date_of(secs / 86_400);
    year_text(cut_to_32_bits(y)) + "-"@ + number::zero_padded(number::decimal(m as nat), 2) + "-"@
        + number::zero_padded(number::decimal(d as nat), 2)
}

/// DIDL's `dc:date` for the moment `secs` seconds after 1970 began. Every moment
/// before counts as the first of 1970.
pub open spec fn dc_date_text(secs: int) -> Seq<char> {
    date_text(
        if secs < 0 {
            0
        } else {
            secs
        },
    )
}

/// Writes the date at `secs` seconds after 1970 began, for DIDL's `dc:date`.
pub fn dc_date(secs: i64) -> (r: String)
    ensures
        r@ == dc_date_text(secs as int),
{
    let days: i64 = if secs >= 0 {
        secs / 86_400
    } else {
        0
    };
    let (y, m, d) = civil_from_days(days);
    proof {
        let z = days as int;
        let year = choose|year: int|
            #[trigger] is_day(z, year, m as int, d as int) && y == cut_to_32_bits(year);
        assert(is_day_of(z, (year, m as int, d as int)));
        let t = date_of(z);
        assert(is_day_of(z, t));
        law_day_numbers_differ(year, m as int, d as int, t.0, t.1, t.2);
    }
    let mut r = year_string(y);
    r.append("-");
    r.append(number::padded_text(m as u128, 2).as_str());
    r.append("-");
    r.append(number::padded_text(d as u128, 2).as_str());
    r
}

/// Every moment of a day from 1970 to 9999 has the date of that day, written with
/// four digits for the year and two each for the month and the day; a moment
/// before 1970 has the first date of all.
pub proof fn law_dates_are_written(y: int, m: int, d: int, t: int, before: int)
    requires
        is_date(y, m, d),
        1970 <= y <= 9999,
        0 <= t < 86_400,
        before < 0,
    ensures
        dc_date_text(86_400 * day_number(y, m, d) + t) == number::zero_padded(
            number::decimal(y as nat),
            4,
        ) + "-"@ + number::zero_padded(number::decimal(m as nat), 2) + "-"@
            + number::zero_padded(number::decimal(d as nat), 2),
        dc_date_text(before) == dc_date_text(0),
{
    let z = day_number(y, m, d);
    lemma_before_month(y);
    if 1970 < y {
        lemma_years_ordered(1970, y);
    }
    law_years_follow(1970);
    assert(z >= 0);
    assert((86_400 * z + t) / 86_400 == z);
    assert(is_day_of(z, (y, m, d)));
    let u = date_of(z);
    assert(is_day_of(z, u));
    law_day_numbers_differ(y, m, d, u.0, u.1, u.2);
    assert(cut_to_32_bits(y) == y);
}

/// The day after a day is the next of its month, or the first of the next
/// month, or the first of the next year.
pub proof fn law_days_follow(y: int, m: int, d: int)
    requires
        is_date(y, m, d),
    ensures
        d < month_days(y, m) ==> is_day(day_number(y, m, d) + 1, y, m, d + 1),
        d == month_days(y, m) && m < 12 ==> is_day(day_number(y, m, d) + 1, y, m + 1, 1),
        d == month_days(y, m) && m == 12 ==> is_day(day_number(y, m, d) + 1, y + 1, 1, 1),
{
    lemma_before_month(y);
    lemma_before_month(y + 1);
    law_years_follow(y);
}

/// February has a day more every fourth year, but not in the last year of a
/// century unless that is a fourth one; the other months have always the same.
pub proof fn law_leap_years(y: int)
    ensures
        y % 4 != 0 ==> month_days(y, 2) == 28,
        y % 4 == 0 && y % 100 != 0 ==> month_days(y, 2) == 29,
        y % 100 == 0 && y % 400 != 0 ==> month_days(y, 2) == 28,
        y % 400 == 0 ==> month_days(y, 2) == 29,
        month_days(y, 1) == 31 && month_days(y, 3) == 31 && month_days(y, 5) == 31 && month_days(
            y,
            7,
        ) == 31 && month_days(y, 8) == 31 && month_days(y, 10) == 31 && month_days(y, 12) == 31,
        month_days(y, 4) == 30 && month_days(y, 6) == 30 && month_days(y, 9) == 30 && month_days(
            y,
            11,
        ) == 30,
{
    assert(y % 400 == 0 ==> y % 100 == 0 && y % 4 == 0);
    assert(y % 100 == 0 ==> y % 4 == 0);
}

} // verus!
