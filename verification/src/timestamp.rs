//! Timestamps of the form `YYYY-MM-DDTHH:MM:SSZ`.

use crate::bytes;
use crate::bytes::{NINE, ZERO};
use vstd::prelude::*;

verus! {

/// The number that the decimal digits of `s` write down; other bytes are passed over.
pub open spec fn digits_value(s: Seq<u8>) -> int
    decreases s.len(),
{
    if s.len() == 0 {
        0
    } else if bytes::is_digit(s.last()) {
        digits_value(s.drop_last()) * 10 + (s.last() - ZERO)
    } else {
        digits_value(s.drop_last())
    }
}

/// More bytes never make the number smaller.
proof fn lemma_digits_value_grows(s: Seq<u8>, k: int)
    requires
        0 <= k <= s.len(),
    ensures
        0 <= digits_value(s.take(k)) <= digits_value(s),
    decreases s.len(), k,
{
    if k == s.len() {
        assert(s.take(k) =~= s);
        if k > 0 {
            lemma_digits_value_grows(s.drop_last(), s.len() - 1);
            assert(s.drop_last().take(s.len() - 1) =~= s.drop_last());
        }
    } else {
        lemma_digits_value_grows(s.drop_last(), k);
        assert(s.drop_last().take(k) =~= s.take(k));
    }
}

/// Two bytes write down a number below a hundred.
proof fn lemma_two_digits(s: Seq<u8>)
    requires
        s.len() == 2,
    ensures
        0 <= digits_value(s) < 100,
{
    reveal_with_fuel(digits_value, 3);
}

/// Four bytes write down a number below ten thousand.
proof fn lemma_four_digits(s: Seq<u8>)
    requires
        s.len() == 4,
    ensures
        0 <= digits_value(s) < 10000,
{
    reveal_with_fuel(digits_value, 5);
}

/// The number that the decimal digits of `s` write down; other bytes are passed over.
pub fn parse_u32(s: &[u8]) -> (r: u32)
    requires
        digits_value(s@) <= u32::MAX,
    ensures
        r == digits_value(s@),
{
    let mut n: u32 = 0;
    let mut i: usize = 0;
    while i < s.len()
        invariant
            i <= s@.len(),
            digits_value(s@) <= u32::MAX,
            n == digits_value(s@.take(i as int)),
        decreases s@.len() - i,
    {
        let c: u8 = s[i];
        proof {
            assert(s@.take(i + 1).drop_last() =~= s@.take(i as int));
            lemma_digits_value_grows(s@, i + 1);
        }
        if ZERO <= c && c <= NINE {
            n = n * 10 + (c - ZERO) as u32;
        }
        i += 1;
    }
    assert(s@.take(s@.len() as int) =~= s@);
    n
}

/// Division that rounds toward zero.
pub open spec fn quotient(a: int, b: int) -> int {
    if a >= 0 {
        a / b
    } else {
        -((-a) / b)
    }
}

/// What `quotient` leaves over; it has the sign of `a`.
pub open spec fn remainder(a: int, b: int) -> int {
    a - quotient(a, b) * b
}

/// A date counted from March on: January and February belong to the year before.
pub open spec fn from_march(y: int, m: int) -> (int, int) {
    if m <= 2 {
        (y - 1, m + 12)
    } else {
        (y, m)
    }
}

/// The days of the years before the `y`-th, where a year begins in March.
pub open spec fn days_of_years(y: int) -> int {
    365 * y + y / 4 - y / 100 + y / 400
}

/// The days of a year, counted from the first of March, that come before day `d` of month `m`.
pub open spec fn day_of_year(m: int, d: int) -> int {
    quotient(153 * (m - 3) + 2, 5) + d - 1
}

/// The number of days from the first of March of the year 0 to a date.
pub open spec fn day_number(y: int, m: int, d: int) -> int {
    let (y, m) = from_march(y, m);
    days_of_years(y) + day_of_year(m, d)
}

/// Each step of the computation of `day_number` fits the machine's integers.
pub open spec fn date_fits(y: int, m: int, d: int) -> bool {
    let (my, mm) = from_march(y, m);
    &&& i64::MIN + 400 <= y <= i64::MAX
    &&& i64::MIN <= m <= i64::MAX
    &&& i64::MIN <= 153 * (mm - 3) <= i64::MAX - 2
    &&& i64::MIN <= quotient(153 * (mm - 3) + 2, 5) + d <= i64::MAX
    &&& i64::MIN <= day_of_year(mm, d) <= i64::MAX - 146097
    &&& i64::MIN <= 146097 * (my / 400) <= i64::MAX
    &&& i64::MIN <= day_number(y, m, d) <= i64::MAX
}

/// The days of the years, told apart into whole spans of four hundred and a rest.
proof fn lemma_days_of_years(era: int, yoe: int)
    requires
        0 <= yoe < 400,
    ensures
        days_of_years(era * 400 + yoe) == era * 146097 + yoe * 365 + yoe / 4 - yoe / 100,
{
    let y = era * 400 + yoe;
    assert(y / 4 == era * 100 + yoe / 4);
    assert(y / 100 == era * 4 + yoe / 100);
    assert(y / 400 == era);
}

/// The number of days from the first of March of the year 0 to a date of the proleptic
/// Gregorian calendar.
pub fn days_from_ce(y: i64, m: i64, d: i64) -> (r: i64)
    requires
        date_fits(y as int, m as int, d as int),
    ensures
        r == day_number(y as int, m as int, d as int),
{
    let (my, mm) = if m <= 2 {
        (y - 1, m + 12)
    } else {
        (y, m)
    };
    let shifted: i64 = if my >= 0 {
        my
    } else {
        my - 399
    };
    let era: i64 = shifted / 400;
    assert(era == my as int / 400);
    let yoe: i64 = my - era * 400;
    let month_days: i64 = (153 * (mm - 3) + 2) / 5;
    assert(month_days == quotient(153 * (mm - 3) + 2, 5));
    let doy: i64 = month_days + d - 1;
    proof {
        lemma_days_of_years(era as int, yoe as int);
    }
    let doe: i64 = yoe * 365 + yoe / 4 - yoe / 100 + doy;
    era * 146097 + doe
}

/// The seconds from the first of March of the year 0 to a timestamp; zero when it is too short.
pub open spec fn epoch_secs(s: Seq<u8>) -> int {
    if s.len() < 19 {
        0
    } else {
        day_number(
            digits_value(s.subrange(0, 4)),
            digits_value(s.subrange(5, 7)),
            digits_value(s.subrange(8, 10)),
        ) * 86400 + digits_value(s.subrange(11, 13)) * 3600 + digits_value(s.subrange(14, 16)) * 60
            + digits_value(s.subrange(17, 19))
    }
}

/// The seconds from the first of March of the year 0 to a timestamp; zero when it is too short.
pub fn iso_to_epoch_secs(s: &[u8]) -> (r: i64)
    ensures
        r == epoch_secs(s@),
        -1_000_000_000_000 < r < 1_000_000_000_000,
{
    if s.len() < 19 {
        return 0;
    }
    proof {
        lemma_four_digits(s@.subrange(0, 4));
        lemma_two_digits(s@.subrange(5, 7));
        lemma_two_digits(s@.subrange(8, 10));
        lemma_two_digits(s@.subrange(11, 13));
        lemma_two_digits(s@.subrange(14, 16));
        lemma_two_digits(s@.subrange(17, 19));
    }
    let y: i64 = parse_u32(&s[0..4]) as i64;
    let m: i64 = parse_u32(&s[5..7]) as i64;
    let d: i64 = parse_u32(&s[8..10]) as i64;
    let hh: i64 = parse_u32(&s[11..13]) as i64;
    let mm: i64 = parse_u32(&s[14..16]) as i64;
    let ss: i64 = parse_u32(&s[17..19]) as i64;
    let days: i64 = days_from_ce(y, m, d);
    days * 86400 + hh * 3600 + mm * 60 + ss
}

/// The day of the week by Zeller's congruence: Monday is 0, Sunday is 6.
pub open spec fn weekday(y: int, m: int, d: int) -> int {
    let (y, m) = from_march(y, m);
    let k = remainder(y, 100);
    let j = quotient(y, 100);
    let h = (d + quotient(13 * (m + 1), 5) + k + quotient(k, 4) + quotient(j, 4) + 5 * j) % 7;
    (h + 5) % 7
}

/// Each step of the computation of `weekday` fits the machine's integers.
pub open spec fn weekday_fits(y: int, m: int, d: int) -> bool {
    let (my, mm) = from_march(y, m);
    let k = remainder(my, 100);
    let j = quotient(my, 100);
    let months = d + quotient(13 * (mm + 1), 5);
    &&& i32::MIN <= my <= i32::MAX
    &&& i32::MIN <= mm + 1 <= i32::MAX
    &&& i32::MIN <= 13 * (mm + 1) <= i32::MAX
    &&& i32::MIN <= months <= i32::MAX
    &&& i32::MIN <= months + k <= i32::MAX
    &&& i32::MIN <= months + k + quotient(k, 4) <= i32::MAX
    &&& i32::MIN <= months + k + quotient(k, 4) + quotient(j, 4) <= i32::MAX
    &&& i32::MIN <= months + k + quotient(k, 4) + quotient(j, 4) + 5 * j <= i32::MAX
}

/// The day of the week by Zeller's congruence: Monday is 0, Sunday is 6.
pub fn zeller_dow(year: i32, month: i32, day: i32) -> (r: u32)
    requires
        weekday_fits(year as int, month as int, day as int),
    ensures
        r == weekday(year as int, month as int, day as int),
        r <= 6,
{
    let (y, m) = if month < 3 {
        (year - 1, month + 12)
    } else {
        (year, month)
    };
    let k: i32 = y % 100;
    let j: i32 = y / 100;
    assert(j == quotient(y as int, 100));
    assert(k == remainder(y as int, 100));
    let months: i32 = (13 * (m + 1)) / 5;
    let sum: i32 = day + months + k + k / 4 + j / 4 + 5 * j;
    let h: i32 = match sum.checked_rem_euclid(7) {
        Some(h) => h,
        None => 0,
    };
    ((h + 5) % 7) as u32
}

/// The two bytes of the hour can be read: neither lies below the digits.
pub open spec fn hour_is_readable(s: Seq<u8>) -> bool {
    s.len() >= 19 ==> s[11] >= ZERO && s[12] >= ZERO
}

pub open spec fn smaller(a: int, b: int) -> int {
    if a < b {
        a
    } else {
        b
    }
}

/// The hour, at most 23, and the day of the week of a timestamp; both zero when it is too short.
pub open spec fn hour_dow(s: Seq<u8>) -> (int, int) {
    if s.len() < 19 {
        (0, 0)
    } else {
        (
            smaller((s[11] - ZERO) * 10 + (s[12] - ZERO), 23),
            weekday(
                digits_value(s.subrange(0, 4)),
                digits_value(s.subrange(5, 7)),
                digits_value(s.subrange(8, 10)),
            ),
        )
    }
}

/// The hour, at most 23, and the day of the week of a timestamp; both zero when it is too short.
pub fn parse_hour_dow(s: &[u8]) -> (r: (u32, u32))
    requires
        hour_is_readable(s@),
    ensures
        r.0 == hour_dow(s@).0,
        r.1 == hour_dow(s@).1,
        r.0 <= 23,
        r.1 <= 6,
{
    if s.len() < 19 {
        return (0, 0);
    }
    proof {
        lemma_four_digits(s@.subrange(0, 4));
        lemma_two_digits(s@.subrange(5, 7));
        lemma_two_digits(s@.subrange(8, 10));
    }
    let hour: u32 = (s[11] - ZERO) as u32 * 10 + (s[12] - ZERO) as u32;
    let y: u32 = parse_u32(&s[0..4]);
    let m: u32 = parse_u32(&s[5..7]);
    let d: u32 = parse_u32(&s[8..10]);
    let dow: u32 = zeller_dow(y as i32, m as i32, d as i32);
    let hour: u32 = if hour < 23 {
        hour
    } else {
        23
    };
    (hour, dow)
}

/// A leap year of the Gregorian calendar.
pub open spec fn is_leap(y: int) -> bool {
    y % 4 == 0 && (y % 100 != 0 || y % 400 == 0)
}

/// The number of days in a month.
pub open spec fn month_length(y: int, m: int) -> int {
    if m == 2 {
        if is_leap(y) {
            29
        } else {
            28
        }
    } else if m == 4 || m == 6 || m == 9 || m == 11 {
        30
    } else {
        31
    }
}

/// A date of the proleptic Gregorian calendar.
pub open spec fn is_date(y: int, m: int, d: int) -> bool {
    1 <= m <= 12 && 1 <= d <= month_length(y, m)
}

/// The date one day later.
pub open spec fn next_day(y: int, m: int, d: int) -> (int, int, int) {
    if d < month_length(y, m) {
        (y, m, d + 1)
    } else if m < 12 {
        (y, m + 1, 1)
    } else {
        (y + 1, 1, 1)
    }
}

proof fn lemma_fourth_years(y: int)
    ensures
        y / 4 - (y - 1) / 4 == if y % 4 == 0 {
            1int
        } else {
            0
        },
{
}

proof fn lemma_hundredth_years(y: int)
    ensures
        y / 100 - (y - 1) / 100 == if y % 100 == 0 {
            1int
        } else {
            0
        },
        y % 100 == 0 ==> y % 4 == 0,
{
}

proof fn lemma_four_hundredth_years(y: int)
    ensures
        y / 400 - (y - 1) / 400 == if y % 400 == 0 {
            1int
        } else {
            0
        },
        y % 400 == 0 ==> y % 100 == 0,
{
}

/// A year that ends with a leap day is one day longer.
proof fn lemma_end_of_february(y: int)
    ensures
        days_of_years(y) - days_of_years(y - 1) == if is_leap(y) {
            366int
        } else {
            365
        },
{
    lemma_fourth_years(y);
    lemma_hundredth_years(y);
    lemma_four_hundredth_years(y);
}

/// The months from March to January follow each other without a gap.
proof fn lemma_end_of_month(m: int)
    requires
        3 <= m <= 13,
    ensures
        day_of_year(m + 1, 1) == day_of_year(m, 0) + 1 + (if m == 4 || m == 6 || m == 9 || m == 11 {
            30int
        } else {
            31
        }),
{
}

/// Day numbers count the days of the calendar: they begin with the first of March of the year 0,
/// and each date's number is one more than that of the date before it.
pub proof fn law_day_number_counts_days(y: int, m: int, d: int)
    requires
        is_date(y, m, d),
    ensures
        day_number(0, 3, 1) == 0,
        ({
            let (ny, nm, nd) = next_day(y, m, d);
            day_number(ny, nm, nd) == day_number(y, m, d) + 1
        }),
{
    let mm = from_march(y, m).1;
    assert(day_of_year(mm, d + 1) == day_of_year(mm, d) + 1);
    if d < month_length(y, m) {
    } else if m == 2 {
        lemma_end_of_february(y);
        assert(day_of_year(3, 1) == 0);
        assert(day_of_year(14, d) == 336 + d);
    } else {
        lemma_end_of_month(mm);
        assert(day_of_year(mm, d) == day_of_year(mm, 0) + d);
    }
}

/// Whole weeks do not move the day of the week.
proof fn lemma_weeks(h: int, x: int)
    ensures
        (h + 7 * x - 9) % 7 == (h % 7 + 5) % 7,
{
}

/// The days of the years by centuries.
proof fn lemma_centuries(y: int, j: int, k: int)
    requires
        y == 100 * j + k,
        0 <= k < 100,
        0 <= j,
    ensures
        days_of_years(y) == 36524 * j + 365 * k + k / 4 + j / 4,
{
    assert(y / 4 == 25 * j + k / 4);
    assert(y / 100 == j);
    assert(y / 400 == j / 4);
}

/// The months of Zeller's congruence.
proof fn lemma_months(m: int)
    requires
        3 <= m <= 14,
    ensures
        (153 * (m - 3) + 2) / 5 + 10 == 28 * (m - 3) + (13 * (m + 1)) / 5,
{
}

/// From the first of March of the year 0 on, Zeller's congruence names the day of the week that
/// the day number gives: day 0 is a Wednesday.
pub proof fn law_weekday_follows_day_number(y: int, m: int, d: int)
    requires
        is_date(y, m, d),
        from_march(y, m).0 >= 0,
    ensures
        weekday(y, m, d) == (day_number(y, m, d) + 2) % 7,
{
    let (my, mm) = from_march(y, m);
    let k = remainder(my, 100);
    let j = quotient(my, 100);
    lemma_centuries(my, j, k);
    lemma_months(mm);
    let h = d + (13 * (mm + 1)) / 5 + k + k / 4 + j / 4 + 5 * j;
    let x = 5217 * j + 52 * k + 4 * (mm - 3);
    assert(day_number(y, m, d) + 2 == h + 7 * x - 9);
    lemma_weeks(h, x);
}

/// The two decimal digits of a number below a hundred.
pub open spec fn two_digits(n: int) -> Seq<u8> {
    seq![(ZERO + n / 10) as u8, (ZERO + n % 10) as u8]
}

/// The timestamp `YYYY-MM-DDTHH:MM:SSZ`.
pub open spec fn iso(y: int, m: int, d: int, hh: int, mm: int, ss: int) -> Seq<u8> {
    two_digits(y / 100) + two_digits(y % 100) + bytes::text("-"@) + two_digits(m) + bytes::text(
        "-"@,
    ) + two_digits(d) + bytes::text("T"@) + two_digits(hh) + bytes::text(":"@) + two_digits(mm)
        + bytes::text(":"@) + two_digits(ss) + bytes::text("Z"@)
}

proof fn lemma_two_digits_value(n: int)
    requires
        0 <= n < 100,
    ensures
        digits_value(two_digits(n)) == n,
{
    reveal_with_fuel(digits_value, 3);
    let s = two_digits(n);
    assert(s.drop_last() =~= seq![s[0]]);
    assert(s.drop_last().drop_last() =~= Seq::<u8>::empty());
}

proof fn lemma_four_digits_value(n: int)
    requires
        0 <= n < 10000,
    ensures
        digits_value(two_digits(n / 100) + two_digits(n % 100)) == n,
{
    let a = two_digits(n / 100);
    let b = two_digits(n % 100);
    let s = a + b;
    lemma_two_digits_value(n / 100);
    assert(s.drop_last() =~= a.push(b[0]));
    assert(a.push(b[0]).drop_last() =~= a);
    assert(digits_value(a.push(b[0])) == (n / 100) * 10 + (n % 100) / 10);
}

/// A timestamp is read back as the moment that it was written for: its seconds are those of its
/// day and its time of day, and its hour and weekday are those of its date.
pub proof fn law_timestamps_are_read_back(y: int, m: int, d: int, hh: int, mm: int, ss: int)
    requires
        0 <= y < 10000,
        is_date(y, m, d),
        0 <= hh < 24,
        0 <= mm < 60,
        0 <= ss < 60,
    ensures
        epoch_secs(iso(y, m, d, hh, mm, ss)) == day_number(y, m, d) * 86400 + hh * 3600 + mm * 60
            + ss,
        hour_is_readable(iso(y, m, d, hh, mm, ss)),
        hour_dow(iso(y, m, d, hh, mm, ss)) == (hh, weekday(y, m, d)),
{
    reveal_strlit("-");
    reveal_strlit("T");
    reveal_strlit(":");
    reveal_strlit("Z");
    let s = iso(y, m, d, hh, mm, ss);
    assert(s.len() == 20);
    assert(s.subrange(0, 4) =~= two_digits(y / 100) + two_digits(y % 100));
    assert(s.subrange(5, 7) =~= two_digits(m));
    assert(s.subrange(8, 10) =~= two_digits(d));
    assert(s.subrange(11, 13) =~= two_digits(hh));
    assert(s.subrange(14, 16) =~= two_digits(mm));
    assert(s.subrange(17, 19) =~= two_digits(ss));
    lemma_four_digits_value(y);
    lemma_two_digits_value(m);
    lemma_two_digits_value(d);
    lemma_two_digits_value(hh);
    lemma_two_digits_value(mm);
    lemma_two_digits_value(ss);
    assert(s[11] == two_digits(hh)[0]);
    assert(s[12] == two_digits(hh)[1]);
}


/// The digits of a field write down its value; bytes that are no digits are passed over.
pub proof fn law_other_bytes_are_passed_over(s: Seq<u8>)
    ensures
        digits_value(s) == bytes::decimal_value(s.filter(|b: u8| 0x30 <= b <= 0x39)),
    decreases s.len(),
{
    let f = |b: u8| 0x30 <= b <= 0x39;
    reveal(Seq::filter);
    if s.len() > 0 {
        law_other_bytes_are_passed_over(s.drop_last());
        if f(s.last()) {
            let t = s.drop_last().filter(f);
            assert(s.filter(f) =~= t.push(s.last()));
            assert(t.push(s.last()).drop_last() =~= t);
        }
    } else {
        assert(s.filter(f) =~= Seq::empty());
    }
}

/// A timestamp is made of six fields at fixed places, and nothing else in it counts: seconds,
/// minutes, hours and days count for as many seconds as they last. A text that is too short for
/// them is the moment zero.
pub proof fn law_fields_of_a_timestamp(s: Seq<u8>)
    ensures
        s.len() < 19 ==> epoch_secs(s) == 0 && hour_dow(s) == (0int, 0int) && hour_is_readable(s),
        s.len() >= 19 ==> {
            let y = digits_value(seq![s[0], s[1], s[2], s[3]]);
            let m = digits_value(seq![s[5], s[6]]);
            let d = digits_value(seq![s[8], s[9]]);
            let hours = 24 * day_number(y, m, d) + digits_value(seq![s[11], s[12]]);
            let minutes = 60 * hours + digits_value(seq![s[14], s[15]]);
            &&& epoch_secs(s) == 60 * minutes + digits_value(seq![s[17], s[18]])
            &&& hour_dow(s).1 == weekday(y, m, d)
            &&& hour_is_readable(s) <==> s[11] >= 0x30 && s[12] >= 0x30
        },
{
    if s.len() >= 19 {
        assert(s.subrange(0, 4) =~= seq![s[0], s[1], s[2], s[3]]);
        assert(s.subrange(5, 7) =~= seq![s[5], s[6]]);
        assert(s.subrange(8, 10) =~= seq![s[8], s[9]]);
        assert(s.subrange(11, 13) =~= seq![s[11], s[12]]);
        assert(s.subrange(14, 16) =~= seq![s[14], s[15]]);
        assert(s.subrange(17, 19) =~= seq![s[17], s[18]]);
    }
}

/// The hour of a timestamp is that of its two digits, and the last hour of the day where they
/// write down a later one.
pub proof fn law_hours_end_with_the_day(s: Seq<u8>)
    requires
        s.len() >= 19,
        0x30 <= s[11] <= 0x39,
        0x30 <= s[12] <= 0x39,
    ensures
        ({
            let hour = digits_value(seq![s[11], s[12]]);
            hour_dow(s).0 == if hour <= 23 {
                hour
            } else {
                23
            }
        }),
{
    let t = seq![s[11], s[12]];
    reveal_with_fuel(digits_value, 3);
    assert(t.drop_last() =~= seq![s[11]]);
    assert(t.drop_last().drop_last() =~= Seq::<u8>::empty());
}

/// Bytes past the digit nine go on counting in the hour of a timestamp, as digits do, up to the last
/// hour of the day.
pub proof fn law_hours_count_on_past_nine(s: Seq<u8>)
    requires
        s.len() >= 19,
        hour_is_readable(s),
    ensures
        ({
            let hour = hour_dow(s).0;
            let tens = s[11] - 0x30;
            let ones = s[12] - 0x30;
            &&& 0 <= hour <= 23
            &&& hour < 23 ==> hour == tens * 10 + ones
            &&& hour == 23 ==> tens * 10 + ones >= 23
        }),
{
}

/// Days beyond the end of a month go on counting, and so do months: month 0 is the December before,
/// month 13 the January after, and five months from March on always last 153 days.
pub proof fn law_days_and_months_go_on_counting(y: int, m: int, d: int, n: int)
    ensures
        day_number(y, m, d + n) == day_number(y, m, d) + n,
        day_number(y, 0, d) == day_number(y - 1, 12, d),
        day_number(y, 13, d) == day_number(y + 1, 1, d),
        m >= 3 ==> day_number(y, m + 5, d) == day_number(y, m, d) + 153,
{
}

proof fn lemma_weekday_moves(x: int, n: int)
    ensures
        ((x + n) % 7 + 5) % 7 == ((x % 7 + 5) % 7 + n) % 7,
{
}

/// What Zeller's congruence adds to the day.
#[verifier::opaque]
spec fn zeller_shift(y: int, m: int) -> int {
    let k = remainder(y, 100);
    let j = quotient(y, 100);
    quotient(13 * (m + 1), 5) + k + quotient(k, 4) + quotient(j, 4) + 5 * j
}

proof fn lemma_zeller(y: int, m: int, d: int)
    ensures
        weekday(y, m, d) == ((d + zeller_shift(from_march(y, m).0, from_march(y, m).1)) % 7 + 5) % 7,
{
    reveal(zeller_shift);
    let (my, mm) = from_march(y, m);
    let k = remainder(my, 100);
    let j = quotient(my, 100);
    assert(d + quotient(13 * (mm + 1), 5) + k + quotient(k, 4) + quotient(j, 4) + 5 * j == d
        + zeller_shift(my, mm));
}

/// The day of the week goes on with the days, also beyond the end of a month.
pub proof fn law_weekdays_go_on_with_the_days(y: int, m: int, d: int, n: int)
    ensures
        weekday(y, m, d + n) == (weekday(y, m, d) + n) % 7,
        0 <= weekday(y, m, d) < 7,
{
    let (my, mm) = from_march(y, m);
    lemma_zeller(y, m, d);
    lemma_zeller(y, m, d + n);
    let x = d + zeller_shift(my, mm);
    assert(d + n + zeller_shift(my, mm) == x + n);
    lemma_weekday_moves(x, n);
}

proof fn lemma_five_months(y: int, m: int)
    requires
        m >= 3,
    ensures
        zeller_shift(y, m + 5) == zeller_shift(y, m) + 13,
{
    reveal(zeller_shift);
    let a = 13 * (m + 1);
    assert(13 * (m + 5 + 1) == a + 65);
    assert(quotient(a + 65, 5) == quotient(a, 5) + 13);
}

proof fn lemma_weeks_of_five_months(x: int, y: int)
    requires
        y == x + 13,
    ensures
        (y % 7 + 5) % 7 == ((x % 7 + 5) % 7 + 153) % 7,
{
}

/// The day of the week goes on with the months: five months from March on move it by 153 days.
pub proof fn law_weekdays_go_on_with_the_months(y: int, m: int, d: int)
    requires
        m >= 3,
    ensures
        weekday(y, m + 5, d) == (weekday(y, m, d) + 153) % 7,
{
    lemma_zeller(y, m, d);
    lemma_zeller(y, m + 5, d);
    lemma_five_months(y, m);
    lemma_weeks_of_five_months(d + zeller_shift(y, m), d + zeller_shift(y, m + 5));
}

/// Month 0 is the December before, and month 13 the January after.
pub proof fn law_weekdays_at_the_turn_of_the_year(y: int, d: int)
    ensures
        weekday(y, 0, d) == weekday(y - 1, 12, d),
        weekday(y, 13, d) == weekday(y + 1, 1, d),
{
    lemma_zeller(y, 0, d);
    lemma_zeller(y - 1, 12, d);
    lemma_zeller(y, 13, d);
    lemma_zeller(y + 1, 1, d);
}

/// In January and February of the year 0, Zeller's congruence is a day ahead of the day number.
pub proof fn law_the_first_months_are_a_day_ahead(m: int, d: int)
    requires
        1 <= m <= 2,
    ensures
        weekday(0, m, d) == (day_number(0, m, d) + 3) % 7,
{
    lemma_months(m + 12);
    let x = (13 * (m + 13)) / 5;
    assert(remainder(-1, 100) == -1);
    assert(weekday(0, m, d) == ((d + x - 1) % 7 + 5) % 7);
    assert(day_number(0, m, d) == -366 + (153 * (m + 9) + 2) / 5 + d - 1);
}

} // verus!
