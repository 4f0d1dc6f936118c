//! Proleptic Gregorian calendar arithmetic on days counted from the Unix
//! epoch (1970-01-01), UTC `YYYY-MM-DDTHH:MM:SSZ` stamps, and the date
//! names the memory root uses.
use vstd::prelude::*;
use crate::text::{
    all_digits, all_digits_in, chars_of, digits_in, digits_value, lemma_padded_exact, padded,
    pow10, push_padded, string_of,
};

verus! {

/// Truncating integer division (Rust's `/` on signed integers), `b > 0`.
pub open spec fn tdiv(a: int, b: int) -> int {
    if a >= 0 { a / b } else { -((-a) / b) }
}

/// Truncating remainder (Rust's `%` on signed integers), `b > 0`.
pub open spec fn trem(a: int, b: int) -> int {
    a - b * tdiv(a, b)
}

/// Whether `year` is a leap year of the proleptic Gregorian calendar.
pub open spec fn is_leap(year: int) -> bool {
    (year % 4 == 0 && year % 100 != 0) || year % 400 == 0
}

/// Number of days in `month` (1..=12) of `year`; 0 for any other month.
pub open spec fn month_days(year: int, month: int) -> int {
    if month == 1 || month == 3 || month == 5 || month == 7 || month == 8 || month == 10
        || month == 12 {
        31
    } else if month == 4 || month == 6 || month == 9 || month == 11 {
        30
    } else if month == 2 {
        if is_leap(year) { 29 } else { 28 }
    } else {
        0
    }
}

/// A real calendar date.
pub open spec fn is_valid_date(year: int, month: int, day: int) -> bool {
    1 <= month <= 12 && 1 <= day <= month_days(year, month)
}

/// The civil date `(year, month, day)` of the day `d` days after
/// 1970-01-01: the day count is re-based to the March-anchored calendar
/// (719468 days from 0000-03-01 to 1970-01-01) and split into 400-year
/// eras of 146097 days, the calendar's exact repetition period.
pub open spec fn civil_of(d: int) -> (int, int, int) {
    let z = d + 719468;
    let era = z / 146097;
    let doe = z - era * 146097;
    let yoe = (doe - doe / 1460 + doe / 36524 - doe / 146096) / 365;
    let y = era * 400 + yoe;
    let doy = doe - (365 * yoe + yoe / 4 - yoe / 100);
    let mp = (5 * doy + 2) / 153;
    let day = doy - (153 * mp + 2) / 5 + 1;
    if mp < 10 { (y, mp + 3, day) } else { (y + 1, mp - 9, day) }
}

/// The day count from 1970-01-01 of the civil date `(year, month, day)`
/// (the inverse of [`civil_of`] on real dates).
pub open spec fn days_of_civil(year: int, month: int, day: int) -> int {
    let y = if month <= 2 { year - 1 } else { year };
    let era = y / 400;
    let yoe = y - era * 400;
    let mp = if month > 2 { month - 3 } else { month + 9 };
    let doy = (153 * mp + 2) / 5 + day - 1;
    let doe = yoe * 365 + yoe / 4 - yoe / 100 + doy;
    era * 146097 + doe - 719468
}

/// Within one 400-year era the year-of-era, day-of-year, shifted month
/// and day computed from a day-of-era are in range, and they describe a
/// real date of that era.
proof fn lemma_era_day(doe: u32)
    requires
        doe <= 146096,
    ensures
        ({
            let yoe = (doe - doe / 1460 + doe / 36524 - doe / 146096) / 365;
            let doy = doe - (365 * yoe + yoe / 4 - yoe / 100);
            let mp = (5 * doy + 2) / 153;
            let day = doy - (153 * mp + 2) / 5 + 1;
            let yy = if mp < 10 { yoe } else { yoe + 1 };
            let month = if mp < 10 { mp + 3 } else { mp - 9 };
            let leap = (yy % 4 == 0 && yy % 100 != 0) || yy % 400 == 0;
            &&& 0 <= yoe <= 399
            &&& 0 <= doy <= 365
            &&& 0 <= mp <= 11
            &&& 1 <= day
            &&& (month == 1 || month == 3 || month == 5 || month == 7 || month == 8
                || month == 10 || month == 12) ==> day <= 31
            &&& (month == 4 || month == 6 || month == 9 || month == 11) ==> day <= 30
            &&& month == 2 ==> day <= (if leap { 29int } else { 28int })
        }),
{
    assert(doe <= 146096 ==> {
        let yoe = ((doe - doe / 1460 + doe / 36524 - doe / 146096) / 365) as u32;
        &&& yoe <= 399
        &&& 365 * yoe + yoe / 4 - yoe / 100 <= doe
        &&& doe - (365 * yoe + yoe / 4 - yoe / 100) <= 365
    }) by (bit_vector);
    let yoe = ((doe - doe / 1460 + doe / 36524 - doe / 146096) / 365) as u32;
    let doy = (doe - (365 * yoe + yoe / 4 - yoe / 100)) as u32;
    assert(doy <= 365 ==> {
        let mp = ((5 * doy + 2) / 153) as u32;
        let day = (doy - (153 * mp + 2) / 5 + 1) as u32;
        let month: u32 = if mp < 10 { (mp + 3) as u32 } else { (mp - 9) as u32 };
        &&& mp <= 11
        &&& (153 * mp + 2) / 5 <= doy
        &&& (month == 1 || month == 3 || month == 5 || month == 7 || month == 8
            || month == 10 || month == 12) ==> day <= 31
        &&& (month == 4 || month == 6 || month == 9 || month == 11) ==> day <= 30
        &&& month == 2 ==> day <= 29
        &&& (month == 2 && doy != 365) ==> day <= 28
        &&& (doy == 365 ==> month == 2)
    }) by (bit_vector);
    assert(yoe <= 399 && doe <= 146096 && doe - (365 * yoe + yoe / 4 - yoe / 100) == 365
        && yoe == (doe - doe / 1460 + doe / 36524 - doe / 146096) / 365 ==> {
        let yy = (yoe + 1) as u32;
        (yy % 4 == 0 && yy % 100 != 0) || yy % 400 == 0
    }) by (bit_vector);
}

/// Leap years repeat every 400 years.
proof fn lemma_leap_period(era: int, k: int)
    ensures
        is_leap(era * 400 + k) == is_leap(k),
{
    assert((era * 400 + k) % 4 == k % 4) by (nonlinear_arith);
    assert((era * 400 + k) % 100 == k % 100) by (nonlinear_arith);
    assert((era * 400 + k) % 400 == k % 400) by (nonlinear_arith);
}

/// Every day count names a real date, and converting that date back
/// gives the same day count.
pub proof fn lemma_civil_from_days(d: int)
    ensures
        ({
            let (y, m, day) = civil_of(d);
            &&& is_valid_date(y, m, day)
            &&& days_of_civil(y, m, day) == d
        }),
{
    let z = d + 719468;
    let era = z / 146097;
    let doe = z - era * 146097;
    assert(0 <= doe < 146097) by (nonlinear_arith)
        requires era == z / 146097, doe == z - era * 146097;
    lemma_era_day(doe as u32);
    let yoe = (doe - doe / 1460 + doe / 36524 - doe / 146096) / 365;
    let y = era * 400 + yoe;
    let doy = doe - (365 * yoe + yoe / 4 - yoe / 100);
    let mp = (5 * doy + 2) / 153;
    let day = doy - (153 * mp + 2) / 5 + 1;
    let (ry, rm, rd) = civil_of(d);
    if mp < 10 {
        lemma_leap_period(era, yoe);
    } else {
        lemma_leap_period(era, yoe + 1);
        assert(era * 400 + yoe + 1 == era * 400 + (yoe + 1));
    }
    // The year the inverse starts from is `era * 400 + yoe` either way.
    let yb = if rm <= 2 { ry - 1 } else { ry };
    assert(yb == era * 400 + yoe);
    assert(yb / 400 == era) by (nonlinear_arith)
        requires yb == era * 400 + yoe, 0 <= yoe <= 399;
    let mq = if rm > 2 { rm - 3 } else { rm + 9 };
    assert(mq == mp);
}

/// The civil date of the day `d` days after 1970-01-01.
pub fn civil_from_days(d: i64) -> (r: (i64, u32, u32))
    requires
        i64::MIN + 146_096 - 719_468 <= d <= i64::MAX - 719_468,
    ensures
        (r.0 as int, r.1 as int, r.2 as int) == civil_of(d as int),
{
    let z = d + 719_468;
    let era = if z >= 0 { z } else { z - 146_096 } / 146_097;
    proof {
        if z < 0 {
            let w = -(z - 146_096);
            assert(era == -(w / 146097));
            assert(-(w / 146097) == z / 146097) by (nonlinear_arith)
                requires z < 0, w == 146096 - z;
        }
        assert(0 <= z - era * 146097 < 146097) by (nonlinear_arith)
            requires era == z / 146097;
    }
    let doe = z - era * 146_097;
    proof {
        lemma_era_day(doe as u32);
    }
    let yoe = (doe - doe / 1_460 + doe / 36_524 - doe / 146_096) / 365;
    assert(era * 400 + yoe == (z / 146097) * 400 + yoe);
    assert(-23058430092136939 <= era <= 23058430092136939) by (nonlinear_arith)
        requires era == z / 146097, i64::MIN <= z <= i64::MAX;
    let y = era * 400 + yoe;
    let doy = doe - (365 * yoe + yoe / 4 - yoe / 100);
    let mp = (5 * doy + 2) / 153;
    let day = doy - (153 * mp + 2) / 5 + 1;
    let (y, month) = if mp < 10 {
        (y, mp + 3)
    } else {
        (y + 1, mp - 9)
    };
    (y, month as u32, day as u32)
}

/// `YYYY-MM-DDTHH:MM:SSZ` for `secs` seconds after the Unix epoch, each
/// field rendered as Rust's `{:04}`/`{:02}` render it (the time of day is
/// split with Rust's truncating division).
pub open spec fn iso8601_text(secs: int) -> Seq<char> {
    let days = tdiv(secs, 86400);
    let rem = trem(secs, 86400);
    let hour = tdiv(rem, 3600);
    let minute = trem(tdiv(rem, 60), 60);
    let second = trem(rem, 60);
    let (y, m, d) = civil_of(days);
    padded(y, 4) + seq!['-'] + padded(m, 2) + seq!['-'] + padded(d, 2) + seq!['T']
        + padded(hour, 2) + seq![':'] + padded(minute, 2) + seq![':'] + padded(second, 2)
        + seq!['Z']
}

/// The instant a `YYYY-MM-DDTHH:MM:SSZ` stamp names, in seconds after the
/// Unix epoch; `None` unless the text has exactly that shape (twenty
/// characters, digits in every numeric field) with month 1..=12,
/// day 1..=31, hour <= 23, minute <= 59 and second <= 60.
pub open spec fn iso8601_value(t: Seq<char>) -> Option<int> {
    if t.len() != 20 || t[4] != '-' || t[7] != '-' || t[10] != 'T' || t[13] != ':' || t[16]
        != ':' || t[19] != 'Z' || !all_digits(t.subrange(0, 4)) || !all_digits(t.subrange(5, 7))
        || !all_digits(t.subrange(8, 10)) || !all_digits(t.subrange(11, 13)) || !all_digits(
        t.subrange(14, 16),
    ) || !all_digits(t.subrange(17, 19)) {
        None
    } else {
        let year = digits_value(t.subrange(0, 4));
        let month = digits_value(t.subrange(5, 7));
        let day = digits_value(t.subrange(8, 10));
        let hour = digits_value(t.subrange(11, 13));
        let minute = digits_value(t.subrange(14, 16));
        let second = digits_value(t.subrange(17, 19));
        if !(1 <= month <= 12) || !(1 <= day <= 31) || hour > 23 || minute > 59 || second > 60 {
            None
        } else {
            Some(days_of_civil(year, month, day) * 86400 + hour * 3600 + minute * 60 + second)
        }
    }
}

/// The smallest instant whose UTC year has five digits (10000-01-01).
pub open spec fn year_10000() -> int {
    253402300800
}

/// A readable stamp names an instant no earlier than a hundred billion
/// seconds before the Unix epoch (its year has four digits).
pub proof fn lemma_iso8601_value_floor(t: Seq<char>)
    ensures
        iso8601_value(t) matches Some(v) ==> v >= -100_000_000_000,
{
    if iso8601_value(t) is Some {
        crate::text::lemma_digits_value_bound(t.subrange(0, 4));
        crate::text::lemma_digits_value_bound(t.subrange(5, 7));
        crate::text::lemma_digits_value_bound(t.subrange(11, 13));
        crate::text::lemma_digits_value_bound(t.subrange(14, 16));
        crate::text::lemma_digits_value_bound(t.subrange(17, 19));
        reveal_with_fuel(crate::text::pow10, 5);
        let year = crate::text::digits_value(t.subrange(0, 4));
        let month = crate::text::digits_value(t.subrange(5, 7));
        let day = crate::text::digits_value(t.subrange(8, 10));
        let y = if month <= 2 { year - 1 } else { year };
        assert(-1 <= y < 10000);
        let era = y / 400;
        assert(era >= -1);
        let yoe = y - era * 400;
        assert(0 <= yoe < 400);
        let d = days_of_civil(year, month, day);
        assert(d >= -146097 - 719468) by (nonlinear_arith)
            requires
                d == era * 146097 + (yoe * 365 + yoe / 4 - yoe / 100 + ((153 * (if month > 2 {
                    month - 3
                } else {
                    month + 9
                }) + 2) / 5 + day - 1)) - 719468,
                era >= -1,
                0 <= yoe < 400,
                1 <= month <= 12,
                1 <= day,
        ;
    }
}

/// The day count of a civil date.
pub fn days_from_civil(year: i64, month: u32, day: u32) -> (r: i64)
    requires
        0 <= year <= 9999,
        1 <= month <= 12,
        1 <= day <= 31,
    ensures
        r == days_of_civil(year as int, month as int, day as int),
{
    let y = year - if month <= 2 { 1 } else { 0 };
    let era = if y >= 0 { y } else { y - 399 } / 400;
    proof {
        if y < 0 {
            assert(y == -1);
            assert(era == -1);
            assert(y / 400 == -1);
        }
    }
    let yoe = y - era * 400;
    let m = if month > 2 { month - 3 } else { month + 9 };
    let doy = ((153 * m + 2) / 5) as i64 + day as i64 - 1;
    let doe = yoe * 365 + yoe / 4 - yoe / 100 + doy;
    era * 146_097 + doe - 719_468
}

/// Render `secs` seconds after the Unix epoch as `YYYY-MM-DDTHH:MM:SSZ`.
pub fn utc_iso8601(secs: i64) -> (s: String)
    requires
        -9_000_000_000_000_000 <= secs <= 9_000_000_000_000_000,
    ensures
        s@ == iso8601_text(secs as int),
{
    let out = utc_iso8601_chars(secs);
    string_of(&out)
}

/// The characters of [`iso8601_text`].
pub fn utc_iso8601_chars(secs: i64) -> (out: Vec<char>)
    requires
        -9_000_000_000_000_000 <= secs <= 9_000_000_000_000_000,
    ensures
        out@ == iso8601_text(secs as int),
        out@.len() >= 20,
{
    let days = secs / 86_400;
    let rem = secs % 86_400;
    let (hour, minute, second) = (rem / 3_600, rem / 60 % 60, rem % 60);
    let (year, month, day) = civil_from_days(days);
    let mut out: Vec<char> = Vec::new();
    push_padded(&mut out, year, 4);
    out.push('-');
    push_padded(&mut out, month as i64, 2);
    out.push('-');
    push_padded(&mut out, day as i64, 2);
    out.push('T');
    push_padded(&mut out, hour, 2);
    out.push(':');
    push_padded(&mut out, minute, 2);
    out.push(':');
    push_padded(&mut out, second, 2);
    out.push('Z');
    proof {
        assert(days == tdiv(secs as int, 86400));
        assert(rem == trem(secs as int, 86400));
        assert(hour == tdiv(rem as int, 3600));
        assert(minute == trem(tdiv(rem as int, 60), 60));
        assert(second == trem(rem as int, 60));
        assert(out@ =~= iso8601_text(secs as int));
        crate::text::lemma_padded_len(year as int, 4);
        crate::text::lemma_padded_len(month as int, 2);
        crate::text::lemma_padded_len(day as int, 2);
        crate::text::lemma_padded_len(hour as int, 2);
        crate::text::lemma_padded_len(minute as int, 2);
        crate::text::lemma_padded_len(second as int, 2);
    }
    out
}

/// Parse a `YYYY-MM-DDTHH:MM:SSZ` stamp into seconds after the Unix epoch.
pub fn parse_utc_iso8601(text: &str) -> (r: Option<i64>)
    ensures
        r matches Some(v) ==> iso8601_value(text@) == Some(v as int),
        r is None ==> iso8601_value(text@) is None,
{
    let t = chars_of(text);
    if t.len() != 20 || t[4] != '-' || t[7] != '-' || t[10] != 'T' || t[13] != ':' || t[16]
        != ':' || t[19] != 'Z' {
        return None;
    }
    if !(all_digits_in(&t, 0, 4) && all_digits_in(&t, 5, 7) && all_digits_in(&t, 8, 10)
        && all_digits_in(&t, 11, 13) && all_digits_in(&t, 14, 16) && all_digits_in(&t, 17, 19)) {
        return None;
    }
    let year = digits_in(&t, 0, 4);
    let month = digits_in(&t, 5, 7);
    let day = digits_in(&t, 8, 10);
    let hour = digits_in(&t, 11, 13);
    let minute = digits_in(&t, 14, 16);
    let second = digits_in(&t, 17, 19);
    proof {
        crate::text::lemma_digits_value_bound(t@.subrange(0, 4));
        assert(pow10(4) == 10000) by {
            reveal_with_fuel(pow10, 5);
        }
    }
    if !(1 <= month && month <= 12) || !(1 <= day && day <= 31) || hour > 23 || minute > 59
        || second > 60 {
        return None;
    }
    let days = days_from_civil(year as i64, month as u32, day as u32);
    Some(days * 86_400 + (hour as i64) * 3600 + (minute as i64) * 60 + second as i64)
}

/// Law: a stamp rendered by [`iso8601_text`] parses back to the instant it
/// was rendered from, for every instant from the epoch up to the end of
/// year 9999.
pub proof fn lemma_utc_iso8601_roundtrip(secs: int)
    requires
        0 <= secs < year_10000(),
    ensures
        iso8601_value(iso8601_text(secs)) == Some(secs),
{
    let days = secs / 86400;
    let rem = secs % 86400;
    let hour = rem / 3600;
    let minute = (rem / 60) % 60;
    let second = rem % 60;
    assert(tdiv(secs, 86400) == days);
    assert(trem(secs, 86400) == rem);
    assert(0 <= rem < 86400);
    assert(0 <= hour <= 23);
    assert(0 <= minute <= 59);
    assert(0 <= second <= 59);
    assert(hour * 3600 + minute * 60 + second == rem);
    lemma_civil_from_days(days);
    let (y, m, d) = civil_of(days);
    assert(0 <= days <= 2932896);
    lemma_civil_year_range(days);
    assert(1970 <= y <= 9999);
    assert(pow10(4) == 10000 && pow10(2) == 100) by {
        reveal_with_fuel(pow10, 5);
    }
    lemma_padded_exact(y, 4);
    lemma_padded_exact(m, 2);
    lemma_padded_exact(d, 2);
    lemma_padded_exact(hour, 2);
    lemma_padded_exact(minute, 2);
    lemma_padded_exact(second, 2);
    let t = iso8601_text(secs);
    let py = padded(y, 4);
    let pm = padded(m, 2);
    let pd = padded(d, 2);
    let ph = padded(hour, 2);
    let pmi = padded(minute, 2);
    let ps = padded(second, 2);
    assert(t =~= py + seq!['-'] + pm + seq!['-'] + pd + seq!['T'] + ph + seq![':'] + pmi + seq![
        ':',
    ] + ps + seq!['Z']);
    assert(t.subrange(0, 4) =~= py);
    assert(t.subrange(5, 7) =~= pm);
    assert(t.subrange(8, 10) =~= pd);
    assert(t.subrange(11, 13) =~= ph);
    assert(t.subrange(14, 16) =~= pmi);
    assert(t.subrange(17, 19) =~= ps);
    assert(days * 86400 + rem == secs);
}

/// The years of the day counts from the epoch to the end of year 9999.
proof fn lemma_civil_year_range(days: int)
    requires
        0 <= days <= 2932896,
    ensures
        1970 <= civil_of(days).0 <= 9999,
{
    let z = days + 719468;
    let era = z / 146097;
    let doe = z - era * 146097;
    assert(4 <= era <= 24) by (nonlinear_arith)
        requires era == z / 146097, 719468 <= z <= 3652364;
    lemma_era_day(doe as u32);
    if era == 4 {
        assert(doe == z - 584388);
        assert(doe >= 135080);
        assert(doe >= 135080 ==> (doe - doe / 1460 + doe / 36524 - doe / 146096) / 365 >= 369)
            by (nonlinear_arith);
    }
    if era == 24 {
        assert(doe == z - 3506328);
        assert(doe <= 146036);
        assert(doe <= 146036 ==> (doe - doe / 1460 + doe / 36524 - doe / 146096) / 365 <= 399)
            by (nonlinear_arith);
        let yoe = (doe - doe / 1460 + doe / 36524 - doe / 146096) / 365;
        let doy = doe - (365 * yoe + yoe / 4 - yoe / 100);
        assert(yoe == 399 ==> doy <= 305);
    }
}

/// `YYYY-MM-DD`: ten characters, `-` at positions 4 and 7, digits in the
/// other eight.
pub open spec fn date_shape(t: Seq<char>) -> bool {
    t.len() == 10 && t[4] == '-' && t[7] == '-' && all_digits(t.subrange(0, 4)) && all_digits(
        t.subrange(5, 7),
    ) && all_digits(t.subrange(8, 10))
}

/// The year, month and day fields of a [`date_shape`] text.
pub open spec fn date_fields(t: Seq<char>) -> (int, int, int) {
    (
        digits_value(t.subrange(0, 4)),
        digits_value(t.subrange(5, 7)),
        digits_value(t.subrange(8, 10)),
    )
}

/// An ISO date `YYYY-MM-DD` with month 1..=12 and day 1..=31.
pub open spec fn iso_date(t: Seq<char>) -> bool {
    date_shape(t) && 1 <= date_fields(t).1 <= 12 && 1 <= date_fields(t).2 <= 31
}

/// A real calendar date written `YYYY-MM-DD`.
pub open spec fn real_date(t: Seq<char>) -> bool {
    date_shape(t) && is_valid_date(date_fields(t).0, date_fields(t).1, date_fields(t).2)
}

/// The shape check and the three fields of a `YYYY-MM-DD` text.
fn date_parts(t: &[char]) -> (r: Option<(u64, u64, u64)>)
    ensures
        r is Some <==> date_shape(t@),
        r matches Some(f) ==> (f.0 as int, f.1 as int, f.2 as int) == date_fields(t@),
{
    if t.len() != 10 || t[4] != '-' || t[7] != '-' {
        return None;
    }
    if !(all_digits_in(t, 0, 4) && all_digits_in(t, 5, 7) && all_digits_in(t, 8, 10)) {
        return None;
    }
    Some((digits_in(t, 0, 4), digits_in(t, 5, 7), digits_in(t, 8, 10)))
}

/// Number of days in `month` of `year` (0 for a month outside 1..=12).
pub fn days_in_month(year: u32, month: u32) -> (r: u32)
    ensures
        r == month_days(year as int, month as int),
{
    match month {
        1 | 3 | 5 | 7 | 8 | 10 | 12 => 31,
        4 | 6 | 9 | 11 => 30,
        2 => {
            let leap = (year % 4 == 0 && year % 100 != 0) || year % 400 == 0;
            if leap {
                29
            } else {
                28
            }
        },
        _ => 0,
    }
}

/// Whether `date` is a real calendar date in `YYYY-MM-DD`.
pub fn is_real_date(date: &str) -> (r: bool)
    ensures
        r == real_date(date@),
{
    let t = chars_of(date);
    match date_parts(&t) {
        None => false,
        Some((year, month, day)) => {
            proof {
                crate::text::lemma_digits_value_bound(t@.subrange(0, 4));
                crate::text::lemma_digits_value_bound(t@.subrange(5, 7));
                crate::text::lemma_digits_value_bound(t@.subrange(8, 10));
                assert(pow10(4) == 10000 && pow10(2) == 100) by {
                    reveal_with_fuel(pow10, 5);
                }
            }
            if !(1 <= month && month <= 12) {
                return false;
            }
            1 <= day && day <= days_in_month(year as u32, month as u32) as u64
        },
    }
}

/// Whether `text` is an ISO date `YYYY-MM-DD` (month 1..=12, day 1..=31).
pub fn is_iso_date(text: &str) -> (r: bool)
    ensures
        r == iso_date(text@),
{
    let t = chars_of(text);
    is_iso_date_chars(&t)
}

/// [`iso_date`] on characters.
pub fn is_iso_date_chars(t: &[char]) -> (r: bool)
    ensures
        r == iso_date(t@),
{
    match date_parts(t) {
        None => false,
        Some((_year, month, day)) => 1 <= month && month <= 12 && 1 <= day && day <= 31,
    }
}

/// A day-file name: `YYYY-MM-DD.md` whose date part is an ISO date.
pub open spec fn dayfile_name(name: Seq<char>) -> bool {
    name.len() == 13 && iso_date(name.subrange(0, 10)) && name.subrange(10, 13) =~= seq![
        '.',
        'm',
        'd',
    ]
}

/// Whether `name` is a day-file name `YYYY-MM-DD.md`.
pub fn is_dayfile_name(name: &str) -> (r: bool)
    ensures
        r == dayfile_name(name@),
{
    let t = chars_of(name);
    if t.len() != 13 || t[10] != '.' || t[11] != 'm' || t[12] != 'd' {
        return false;
    }
    let mut head: Vec<char> = Vec::new();
    let mut i: usize = 0;
    while i < 10
        invariant
            i <= 10,
            t@.len() == 13,
            head@ == t@.subrange(0, i as int),
        decreases 10 - i,
    {
        head.push(t[i]);
        i += 1;
        assert(head@ =~= t@.subrange(0, i as int));
    }
    is_iso_date_chars(&head)
}

/// The local calendar date `YYYY-MM-DD` of the instant `secs` shifted by
/// `offset_minutes`: the first ten characters of its UTC stamp.
pub open spec fn local_date_text(secs: int, offset_minutes: int) -> Seq<char> {
    iso8601_text(secs + offset_minutes * 60).take(10)
}

/// [`local_date_text`], for a shifted instant the stamp renderer accepts.
pub fn local_date(secs: i64, offset_minutes: i64) -> (r: String)
    requires
        i64::MIN <= offset_minutes * 60 <= i64::MAX,
        -9_000_000_000_000_000 <= secs + offset_minutes * 60 <= 9_000_000_000_000_000,
    ensures
        r@ == local_date_text(secs as int, offset_minutes as int),
{
    let stamp = utc_iso8601_chars(secs + offset_minutes * 60);
    let mut out: Vec<char> = Vec::new();
    let mut i: usize = 0;
    while i < 10
        invariant
            i <= 10,
            stamp@.len() >= 20,
            out@ == stamp@.take(i as int),
        decreases 10 - i,
    {
        out.push(stamp[i]);
        i += 1;
        assert(out@ =~= stamp@.take(i as int));
    }
    string_of(&out)
}

/// `YYYY-MM-DD` (`{:04}-{:02}-{:02}`) of the civil date of the day that
/// contains the instant `now` (floor division into days).
pub open spec fn floor_date_text(now: int) -> Seq<char> {
    let (y, m, d) = civil_of(now / 86400);
    padded(y, 4) + seq!['-'] + padded(m, 2) + seq!['-'] + padded(d, 2)
}

/// [`floor_date_text`].
pub fn floor_date(now: i64) -> (r: String)
    requires
        -9_000_000_000_000_000 <= now <= 9_000_000_000_000_000,
    ensures
        r@ == floor_date_text(now as int),
{
    let days = if now >= 0 { now / 86_400 } else { (now - 86_399) / 86_400 };
    proof {
        if now < 0 {
            assert(days == now / 86400) by (nonlinear_arith)
                requires now < 0, days == -((86399 - now) / 86400);
        }
    }
    let (year, month, day) = civil_from_days(days);
    let mut out: Vec<char> = Vec::new();
    push_padded(&mut out, year, 4);
    out.push('-');
    push_padded(&mut out, month as i64, 2);
    out.push('-');
    push_padded(&mut out, day as i64, 2);
    assert(out@ =~= floor_date_text(now as int));
    string_of(&out)
}

/// The `<age> ago` text for an age of `secs` seconds: whole minutes below
/// an hour (`51m ago`), hours and zero-padded minutes beyond
/// (`4h05m ago`).
pub open spec fn age_text(secs: int) -> Seq<char> {
    let minutes = tdiv(secs, 60);
    if minutes < 60 {
        padded(minutes, 0) + seq!['m', ' ', 'a', 'g', 'o']
    } else {
        padded(minutes / 60, 0) + seq!['h'] + padded(minutes % 60, 2) + seq![
            'm',
            ' ',
            'a',
            'g',
            'o',
        ]
    }
}

/// [`age_text`].
pub fn render_age(secs: i64) -> (r: String)
    ensures
        r@ == age_text(secs as int),
{
    let minutes = secs / 60;
    let mut out: Vec<char> = Vec::new();
    if minutes < 60 {
        push_padded(&mut out, minutes, 0);
    } else {
        push_padded(&mut out, minutes / 60, 0);
        out.push('h');
        push_padded(&mut out, minutes % 60, 2);
    }
    out.push('m');
    out.push(' ');
    out.push('a');
    out.push('g');
    out.push('o');
    assert(out@ =~= age_text(secs as int));
    string_of(&out)
}

} // verus!
