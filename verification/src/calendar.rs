//! Proleptic Gregorian calendar dates of Unix times (UTC).

use vstd::prelude::*;
use crate::text::{fmt_i64_zero_pad, fmt_int_zero_pad, push_chars, string_from_chars};

verus! {

/// Whether year `y` is a leap year.
pub open spec fn is_leap(y: int) -> bool {
    y % 4 == 0 && (y % 100 != 0 || y % 400 == 0)
}

/// Number of days of month `m` (1..=12) of year `y`.
pub open spec fn days_in_month(y: int, m: int) -> int {
    if m == 2 {
        if is_leap(y) {
            29
        } else {
            28
        }
    } else if m == 4 || m == 6 || m == 9 || m == 11 {
        30
    } else {
        31
    }
}

/// A real calendar date.
pub open spec fn valid_date(y: int, m: int, d: int) -> bool {
    1 <= m <= 12 && 1 <= d <= days_in_month(y, m)
}

/// Days since 1970-01-01 of the date `y-m-d` (the standard Gregorian day
/// count, counting years from March so the leap day comes last).
pub open spec fn days_from_civil(y: int, m: int, d: int) -> int {
    let yy = if m <= 2 {
        y - 1
    } else {
        y
    };
    let era = yy / 400;
    let yoe = yy - era * 400;
    let mp = if m > 2 {
        m - 3
    } else {
        m + 9
    };
    let doy = (153 * mp + 2) / 5 + d - 1;
    let doe = yoe * 365 + yoe / 4 - yoe / 100 + doy;
    era * 146097 + doe - 719468
}

/// Year of era (0..=399) for a day of era (0..=146096).
pub open spec fn yoe_of(doe: int) -> int {
    (doe - doe / 1460 + doe / 36524 - doe / 146096) / 365
}

/// Day of the (March-based) year for a day of era.
pub open spec fn doy_of(doe: int) -> int {
    let yoe = yoe_of(doe);
    doe - (365 * yoe + yoe / 4 - yoe / 100)
}

/// Month index counted from March (0..=11) for a day of year.
pub open spec fn mp_of(doy: int) -> int {
    (5 * doy + 2) / 153
}

/// The date `(year, month, day)` of day `z` since 1970-01-01
/// (Hinnant's `civil_from_days`).
pub open spec fn civil_of(z: int) -> (int, int, int) {
    let zz = z + 719468;
    let era = zz / 146097;
    let doe = zz - era * 146097;
    let yoe = yoe_of(doe);
    let doy = doy_of(doe);
    let mp = mp_of(doy);
    let d = doy - (153 * mp + 2) / 5 + 1;
    let m = if mp < 10 {
        mp + 3
    } else {
        mp - 9
    };
    let y = yoe + era * 400 + if m <= 2 {
        1int
    } else {
        0
    };
    (y, m, d)
}

/// Bounds of the year-of-era computation over one 400-year era.
proof fn lemma_doe_bits(doe: u64)
    by (bit_vector)
    requires
        doe < 146097,
    ensures
        (doe - doe / 1460 + doe / 36524 - doe / 146096) / 365 < 400,
        365 * ((doe - doe / 1460 + doe / 36524 - doe / 146096) / 365) + ((doe - doe / 1460 + doe
            / 36524 - doe / 146096) / 365) / 4 - ((doe - doe / 1460 + doe / 36524 - doe / 146096)
            / 365) / 100 <= doe,
        doe - (365 * ((doe - doe / 1460 + doe / 36524 - doe / 146096) / 365) + ((doe - doe / 1460
            + doe / 36524 - doe / 146096) / 365) / 4 - ((doe - doe / 1460 + doe / 36524 - doe
            / 146096) / 365) / 100) <= 365,
{
}

/// Month and day bounds for a day of the (March-based) year.
proof fn lemma_doy_bits(doy: int, mp: int, d: int)
    requires
        0 <= doy <= 365,
        mp == (5 * doy + 2) / 153,
        d == doy - (153 * mp + 2) / 5 + 1,
    ensures
        0 <= mp <= 11,
        (153 * mp + 2) / 5 <= doy,
        1 <= d <= 31,
        (mp == 1 || mp == 3 || mp == 6 || mp == 8) ==> d <= 30,
        mp == 11 ==> d <= 29,
        (mp == 11 && d == 29) ==> doy == 365,
{
}

/// The last day of a March-based year exists only when the following
/// calendar year is a leap year.
proof fn lemma_leap_day_bits(doe: u64, yoe: u64, y1: u64)
    by (bit_vector)
    requires
        doe < 146097,
        yoe == ((doe - doe / 1460 + doe / 36524 - doe / 146096) / 365) as u64,
        doe - (365 * yoe + yoe / 4 - yoe / 100) == 365,
        y1 == (yoe + 1) as u64,
    ensures
        y1 % 4 == 0,
        y1 % 100 != 0 || y1 % 400 == 0,
{
}

/// `civil_of` yields a real date, and it is the date whose day count is `z`.
pub proof fn lemma_civil_of(z: int)
    ensures
        valid_date(civil_of(z).0, civil_of(z).1, civil_of(z).2),
        days_from_civil(civil_of(z).0, civil_of(z).1, civil_of(z).2) == z,
{
    let zz = z + 719468;
    let era = zz / 146097;
    let doe = zz - era * 146097;
    assert(0 <= doe < 146097);
    lemma_doe_bits(doe as u64);
    let yoe = yoe_of(doe);
    let doy = doy_of(doe);
    assert(0 <= yoe < 400);
    assert(0 <= doy <= 365);
    let mp = mp_of(doy);
    let d = doy - (153 * mp + 2) / 5 + 1;
    assert(0 <= mp);
    lemma_doy_bits(doy, mp, d);
    if doy == 365 {
        lemma_leap_day_bits(doe as u64, yoe as u64, (yoe + 1) as u64);
    }
    let (y, m, dd) = civil_of(z);
    assert(dd == d);
    let yy = if m <= 2 {
        y - 1
    } else {
        y
    };
    assert(yy == yoe + era * 400);
    assert(yy / 400 == era);
    if m == 2 {
        assert(mp == 11);
        assert(y == (yoe + 1) + era * 400);
        assert(y % 4 == (yoe + 1) % 4);
        assert(y % 100 == (yoe + 1) % 100);
        assert(y % 400 == (yoe + 1) % 400);
    }
}

/// Day number (days since 1970-01-01) of a Unix time, by floor division.
pub open spec fn day_of(unix: int) -> int {
    unix / 86400
}

/// Second of the day (0..86400) of a Unix time.
pub open spec fn second_of_day(unix: int) -> int {
    unix % 86400
}

/// Shifting a dividend by whole multiples of the divisor shifts the
/// quotient and keeps the remainder.
proof fn lemma_shift_div(a: int, d: int, k: int)
    requires
        0 < d,
    ensures
        (a + k * d) / d == a / d + k,
        (a + k * d) % d == a % d,
{
    vstd::arithmetic::div_mod::lemma_hoist_over_denominator(a, k, d as nat);
    vstd::arithmetic::div_mod::lemma_mod_multiples_vanish(k, a, d);
    assert(k * d == d * k) by (nonlinear_arith);
}

/// Floor division of a Unix time into its day number and second of day.
pub fn split_unix(unix: i64) -> (res: (i64, u64))
    ensures
        res.0 == day_of(unix as int),
        res.1 == second_of_day(unix as int),
        -140737488355328 <= res.0 <= 140737488355328,
        res.1 < 86400,
{
    // Shift by a whole number of days so that the dividend is non-negative.
    let k: i128 = 140737488355328;
    let shifted: i128 = unix as i128 + k * 86400;
    let q: i128 = shifted / 86400;
    let r: i128 = shifted % 86400;
    proof {
        lemma_shift_div(unix as int, 86400, k as int);
    }
    let days: i64 = (q - k) as i64;
    (days, r as u64)
}

/// The date `(year, month, day)` of day number `days` (days since
/// 1970-01-01), for every day number whose shift to the 0000-03-01 epoch
/// fits in `i64`.
pub fn civil_from_days(days: i64) -> (res: (i64, u32, u32))
    requires
        days <= i64::MAX - 719468,
    ensures
        res.0 == civil_of(days as int).0,
        res.1 == civil_of(days as int).1,
        res.2 == civil_of(days as int).2,
{
    let z: i128 = days as i128 + 719468;
    // Shift by whole eras so that the dividend is non-negative.
    let k: i128 = 70368744177664;
    let shifted: i128 = z + k * 146097;
    let era_shifted: i128 = shifted / 146097;
    let doe_wide: i128 = shifted % 146097;
    proof {
        lemma_shift_div(z as int, 146097, k as int);
    }
    let era: i128 = era_shifted - k;
    let doe: u64 = doe_wide as u64;
    proof {
        lemma_doe_bits(doe);
    }
    let yoe: u64 = (doe - doe / 1460 + doe / 36524 - doe / 146096) / 365;
    let doy: u64 = doe - (365 * yoe + yoe / 4 - yoe / 100);
    let mp: u64 = (5 * doy + 2) / 153;
    proof {
        lemma_doy_bits(doy as int, mp as int, doy - (153 * mp + 2) / 5 + 1);
    }
    let d: u64 = doy - (153 * mp + 2) / 5 + 1;
    let m: u64 = if mp < 10 {
        mp + 3
    } else {
        mp - 9
    };
    let y: i128 = yoe as i128 + era * 400 + if m <= 2 {
        1i128
    } else {
        0i128
    };
    (y as i64, m as u32, d as u32)
}

/// `YYYY-MM-DD` of the day that holds Unix time `unix` (UTC).
pub open spec fn date_text(unix: int) -> Seq<char> {
    let (y, m, d) = civil_of(day_of(unix));
    fmt_int_zero_pad(y, 4) + seq!['-'] + fmt_int_zero_pad(m, 2) + seq!['-'] + fmt_int_zero_pad(
        d,
        2,
    )
}

/// `YYYY-MM-DDTHH:MM:SSZ` of Unix time `unix` (UTC).
pub open spec fn datetime_text(unix: int) -> Seq<char> {
    let s = second_of_day(unix);
    date_text(unix) + seq!['T'] + fmt_int_zero_pad(s / 3600, 2) + seq![':'] + fmt_int_zero_pad(
        (s % 3600) / 60,
        2,
    ) + seq![':'] + fmt_int_zero_pad(s % 60, 2) + seq!['Z']
}

/// `YYYY-MM-DD` of a Unix time, as characters.
pub fn date_chars(unix: i64) -> (res: Vec<char>)
    ensures
        res@ == date_text(unix as int),
{
    let (days, _secs) = split_unix(unix);
    let (y, m, d) = civil_from_days(days);
    let mut out = fmt_i64_zero_pad(y, 4);
    out.push('-');
    let mm = fmt_i64_zero_pad(m as i64, 2);
    push_chars(&mut out, &mm);
    out.push('-');
    let dd = fmt_i64_zero_pad(d as i64, 2);
    push_chars(&mut out, &dd);
    out
}

/// The date of a Unix time as `YYYY-MM-DD` (UTC).
pub fn format_date(unix: i64) -> (res: String)
    ensures
        res@ == date_text(unix as int),
{
    let out = date_chars(unix);
    string_from_chars(&out)
}

/// A Unix time as ISO-8601 UTC, `YYYY-MM-DDTHH:MM:SSZ`.
pub fn format_datetime(unix: i64) -> (res: String)
    ensures
        res@ == datetime_text(unix as int),
{
    let (_days, secs) = split_unix(unix);
    let mut out = date_chars(unix);
    out.push('T');
    let h = fmt_i64_zero_pad((secs / 3600) as i64, 2);
    push_chars(&mut out, &h);
    out.push(':');
    let mi = fmt_i64_zero_pad(((secs % 3600) / 60) as i64, 2);
    push_chars(&mut out, &mi);
    out.push(':');
    let se = fmt_i64_zero_pad((secs % 60) as i64, 2);
    push_chars(&mut out, &se);
    out.push('Z');
    string_from_chars(&out)
}

/// The date text of a Unix time names a real calendar date, and that date
/// is the day of the time: its day count is the floor of `unix / 86400`.
pub proof fn lemma_date_is_day_of(unix: int)
    ensures
        valid_date(civil_of(day_of(unix)).0, civil_of(day_of(unix)).1, civil_of(day_of(unix)).2),
        days_from_civil(civil_of(day_of(unix)).0, civil_of(day_of(unix)).1, civil_of(day_of(unix)).2)
            == day_of(unix),
{
    lemma_civil_of(day_of(unix));
}

/// The full timestamp of a Unix time begins with its date.
pub proof fn lemma_datetime_starts_with_date(unix: int)
    ensures
        datetime_text(unix).subrange(0, date_text(unix).len() as int) == date_text(unix),
        datetime_text(unix)[date_text(unix).len() as int] == 'T',
{
    assert(datetime_text(unix).subrange(0, date_text(unix).len() as int) =~= date_text(unix));
}

} // verus!
