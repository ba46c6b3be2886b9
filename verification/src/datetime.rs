use vstd::prelude::*;
use vstd::arithmetic::div_mod::lemma_fundamental_div_mod_converse;
use crate::text::{zero_padded, push_zero_padded, pow10, lex_less, lemma_lex_less_concat, lemma_concat_eq, lemma_zero_padded_order, lemma_zero_padded_digits, digits_value, lemma_zero_padded_value};

verus! {

/// Gregorian leap-year rule.
pub open spec fn is_leap_year(y: int) -> bool {
    y % 4 == 0 && (y % 100 != 0 || y % 400 == 0)
}

/// Number of days in month `m` (1 = January) of year `y`.
pub open spec fn days_in_month(y: int, m: int) -> int {
    if m == 2 {
        if is_leap_year(y) { 29 } else { 28 }
    } else if m == 4 || m == 6 || m == 9 || m == 11 {
        30
    } else {
        31
    }
}

/// A year, month and day that name a day of the proleptic Gregorian calendar.
pub open spec fn is_valid_date(y: int, m: int, d: int) -> bool {
    1 <= m <= 12 && 1 <= d <= days_in_month(y, m)
}

/// Days in the months of year `y` that come before month `m`.
pub open spec fn days_before_month(y: int, m: int) -> int
    decreases m,
{
    if m <= 1 {
        0
    } else {
        days_before_month(y, m - 1) + days_in_month(y, m - 1)
    }
}

/// Leap years among the years 1 ..= y - 1 (counted negatively below year 1).
pub open spec fn leap_years_before(y: int) -> int {
    (y - 1) / 4 - (y - 1) / 100 + (y - 1) / 400
}

/// Days from 1970-01-01 to January 1st of year `y` (negative before 1970).
pub open spec fn days_before_year(y: int) -> int {
    365 * (y - 1970) + leap_years_before(y) - leap_years_before(1970)
}

/// Days from 1970-01-01 to the given date (negative before 1970).
pub open spec fn days_since_epoch(y: int, m: int, d: int) -> int {
    days_before_year(y) + days_before_month(y, m) + d - 1
}

/// Each year is 365 days long, 366 if it is a leap year.
#[verifier::spinoff_prover]
pub proof fn lemma_year_length(y: int)
    ensures
        days_before_year(y + 1) == days_before_year(y) + (if is_leap_year(y) { 366int } else { 365int }),
{
    lemma_floor_step(y, 4);
    lemma_floor_step(y, 100);
    lemma_floor_step(y, 400);
}

/// `y / k - (y - 1) / k` is 1 exactly when `k` divides `y` (for the divisors of the leap-year rule).
proof fn lemma_floor_step(y: int, k: int)
    requires
        k == 4 || k == 100 || k == 400,
    ensures
        y / k - (y - 1) / k == (if y % k == 0 { 1int } else { 0int }),
{
}

/// Closed form of `days_before_month` for the twelve months.
proof fn lemma_days_before_month(y: int, m: int)
    requires
        1 <= m <= 12,
    ensures
        days_before_month(y, m) == (if m == 1 { 0int } else if m == 2 { 31int } else if m == 3 {
            59int
        } else if m == 4 { 90int } else if m == 5 { 120int } else if m == 6 { 151int } else if m
            == 7 { 181int } else if m == 8 { 212int } else if m == 9 { 243int } else if m == 10 {
            273int
        } else if m == 11 { 304int } else { 334int }) + (if m > 2 && is_leap_year(y) {
            1int
        } else {
            0int
        }),
{
    reveal_with_fuel(days_before_month, 13);
}

/// Shifting a date by 400 years shifts it by 146097 days and keeps its month lengths.
proof fn lemma_shift_400_years(y: int, m: int, d: int, e: int)
    requires
        1 <= m <= 12,
    ensures
        days_since_epoch(y + 400 * e, m, d) == days_since_epoch(y, m, d) + 146097 * e,
        days_in_month(y + 400 * e, m) == days_in_month(y, m),
{
    lemma_days_before_month(y, m);
    lemma_days_before_month(y + 400 * e, m);
    assert(is_leap_year(y + 400 * e) == is_leap_year(y));
    assert((y + 400 * e - 1) / 4 == (y - 1) / 4 + 100 * e);
    assert((y + 400 * e - 1) / 100 == (y - 1) / 100 + 4 * e);
    assert((y + 400 * e - 1) / 400 == (y - 1) / 400 + e);
}

/// Within a 400-year era counted from March 1st of year 0, the year of era and the
/// day of that (March-based) year, for a day of era `doe`.
proof fn lemma_year_of_era(doe: u32, yoe: u32)
    requires
        doe < 146097,
        yoe == (doe - doe / 1460 + doe / 36524 - doe / 146096) / 365,
    ensures
        yoe <= 399,
        365 * yoe + yoe / 4 - yoe / 100 <= doe,
        doe - (365 * yoe + yoe / 4 - yoe / 100) <= 365,
        doe - (365 * yoe + yoe / 4 - yoe / 100) == 365 ==> (yoe + 1) % 4 == 0 && ((yoe + 1)
            % 100 != 0 || yoe == 399),
{
    assert({
        &&& yoe <= 399
        &&& 365 * yoe + yoe / 4 - yoe / 100 <= doe
        &&& doe - (365 * yoe + yoe / 4 - yoe / 100) <= 365
        &&& doe - (365 * yoe + yoe / 4 - yoe / 100) == 365 ==> (yoe + 1) % 4 == 0 && ((yoe
            + 1) % 100 != 0 || yoe == 399)
    }) by (bit_vector)
        requires
            doe < 146097,
            365 * yoe <= doe - doe / 1460 + doe / 36524 - doe / 146096 < 365 * yoe + 365,
    ;
}

/// Days from March 1st to the first day of the `mp`-th month counted from March (= 0).
proof fn lemma_march_month_start(mp: int)
    requires
        0 <= mp <= 11,
    ensures
        (153 * mp + 2) / 5 == (if mp == 0 { 0int } else if mp == 1 { 31int } else if mp == 2 {
            61int
        } else if mp == 3 { 92int } else if mp == 4 { 122int } else if mp == 5 { 153int } else if mp
            == 6 { 184int } else if mp == 7 { 214int } else if mp == 8 { 245int } else if mp == 9 {
            275int
        } else if mp == 10 { 306int } else { 337int }),
{
}

/// Month (counted from March = 0) and day within that month of the `doy`-th day of a
/// March-based year.
proof fn lemma_month_of_year(doy: u32, mp: u32)
    requires
        doy <= 365,
        mp == (5 * doy + 2) / 153,
    ensures
        mp <= 11,
        (153 * mp + 2) / 5 <= doy,
        doy - (153 * mp + 2) / 5 < (if mp == 1 || mp == 3 || mp == 6 || mp == 8 {
            30int
        } else if mp == 11 {
            29int
        } else {
            31int
        }),
        mp == 11 && doy - (153 * mp + 2) / 5 == 28 ==> doy == 365,
{
    assert({
        &&& mp <= 11
        &&& (153 * mp + 2) / 5 <= doy
        &&& doy - (153 * mp + 2) / 5 < 31
        &&& (mp == 1 || mp == 3 || mp == 6 || mp == 8) ==> doy - (153 * mp + 2) / 5 < 30
        &&& mp == 11 ==> doy - (153 * mp + 2) / 5 < 29
    }) by (bit_vector)
        requires
            doy <= 365,
            153 * mp <= 5 * doy + 2 < 153 * mp + 153,
    ;
    lemma_march_month_start(mp as int);
}

/// The date computed from a day of era is that day, counted from 1970-01-01 within era 0.
proof fn lemma_date_of_era_day(doe: int, yoe: int, mp: int, d: int, m: int, y0: int)
    requires
        0 <= yoe <= 399,
        365 * yoe + yoe / 4 - yoe / 100 <= doe,
        doe - (365 * yoe + yoe / 4 - yoe / 100) <= 365,
        doe - (365 * yoe + yoe / 4 - yoe / 100) == 365 ==> (yoe + 1) % 4 == 0 && ((yoe + 1)
            % 100 != 0 || yoe == 399),
        0 <= mp <= 11,
        (153 * mp + 2) / 5 <= doe - (365 * yoe + yoe / 4 - yoe / 100),
        d == doe - (365 * yoe + yoe / 4 - yoe / 100) - (153 * mp + 2) / 5 + 1,
        d - 1 < (if mp == 1 || mp == 3 || mp == 6 || mp == 8 {
            30int
        } else if mp == 11 {
            29int
        } else {
            31int
        }),
        mp == 11 && d - 1 == 28 ==> doe - (365 * yoe + yoe / 4 - yoe / 100) == 365,
        m == (if mp < 10 { mp + 3 } else { mp - 9 }),
        y0 == (if m <= 2 { yoe + 1 } else { yoe }),
    ensures
        is_valid_date(y0, m, d),
        days_since_epoch(y0, m, d) == doe - 719468,
{
    lemma_days_before_month(y0, m);
    lemma_floor_step(yoe, 4);
    lemma_floor_step(yoe, 100);
    lemma_floor_step(yoe, 400);
    lemma_march_month_start(mp as int);
    assert(yoe / 400 == 0);
    assert(leap_years_before(yoe) + (if is_leap_year(yoe) { 1int } else { 0int }) == yoe / 4
        - yoe / 100);
    assert(leap_years_before(yoe + 1) == yoe / 4 - yoe / 100);
}

/// Converts a count of days since 1970-01-01 into the calendar date (year, month, day)
/// of the proleptic Gregorian calendar.
pub fn days_to_ymd(days: i64) -> (ymd: (i64, i64, i64))
    requires
        days <= i64::MAX - 719468,
    ensures
        is_valid_date(ymd.0 as int, ymd.1 as int, ymd.2 as int),
        days_since_epoch(ymd.0 as int, ymd.1 as int, ymd.2 as int) == days,
        (ymd.0 as int, ymd.1 as int, ymd.2 as int) == date_of_day(days as int),
{
    let z = days + 719468;
    let era = if z >= 0 { z } else { z - 146096 } / 146097;
    proof {
        if z >= 0 {
            lemma_fundamental_div_mod_converse(z as int, 146097, era as int, z - era * 146097);
        }
        assert(era * 146097 <= z < era * 146097 + 146097);
    }
    let doe = (z - era * 146097) as u32;
    let yoe = (doe - doe / 1460 + doe / 36524 - doe / 146096) / 365;
    proof {
        lemma_year_of_era(doe, yoe);
    }
    let y = yoe as i64 + era * 400;
    let doy = doe - (365 * yoe + yoe / 4 - yoe / 100);
    let mp = (5 * doy + 2) / 153;
    proof {
        lemma_month_of_year(doy, mp);
    }
    let d = doy - (153 * mp + 2) / 5 + 1;
    let m = if mp < 10 { mp + 3 } else { mp - 9 };
    let y = if m <= 2 { y + 1 } else { y };
    proof {
        let y0: int = if m <= 2 { yoe + 1 } else { yoe as int };
        lemma_date_of_era_day(doe as int, yoe as int, mp as int, d as int, m as int, y0);
        lemma_shift_400_years(y0, m as int, d as int, era as int);
        lemma_date_of_day(y0 + 400 * era, m as int, d as int);
    }
    (y, m as i64, d as i64)
}

/// Calendar order of two dates: year first, then month, then day.
pub open spec fn date_before(a: (int, int, int), b: (int, int, int)) -> bool {
    a.0 < b.0 || (a.0 == b.0 && (a.1 < b.1 || (a.1 == b.1 && a.2 < b.2)))
}

/// Each year adds at least 365 days.
proof fn lemma_days_before_year_grows(a: int, b: int)
    requires
        a <= b,
    ensures
        days_before_year(a) + 365 * (b - a) <= days_before_year(b),
    decreases b - a,
{
    if a < b {
        lemma_days_before_year_grows(a, b - 1);
        lemma_year_length(b - 1);
    }
}

/// A date that comes earlier in the calendar has a smaller day count.
pub proof fn lemma_days_since_epoch_monotonic(a: (int, int, int), b: (int, int, int))
    requires
        is_valid_date(a.0, a.1, a.2),
        is_valid_date(b.0, b.1, b.2),
        date_before(a, b),
    ensures
        days_since_epoch(a.0, a.1, a.2) < days_since_epoch(b.0, b.1, b.2),
{
    lemma_days_before_month(a.0, a.1);
    lemma_days_before_month(b.0, b.1);
    if a.0 < b.0 {
        lemma_days_before_year_grows(a.0 + 1, b.0);
        lemma_year_length(a.0);
    } else if a.1 < b.1 {
        lemma_days_before_month(a.0, a.1 + 1);
        assert(days_before_month(a.0, a.1) + days_in_month(a.0, a.1) == days_before_month(
            a.0,
            a.1 + 1,
        ));
    }
}

/// Distinct dates have distinct day counts.
pub proof fn lemma_days_since_epoch_injective(a: (int, int, int), b: (int, int, int))
    requires
        is_valid_date(a.0, a.1, a.2),
        is_valid_date(b.0, b.1, b.2),
        days_since_epoch(a.0, a.1, a.2) == days_since_epoch(b.0, b.1, b.2),
    ensures
        a == b,
{
    if date_before(a, b) {
        lemma_days_since_epoch_monotonic(a, b);
    } else if date_before(b, a) {
        lemma_days_since_epoch_monotonic(b, a);
    }
}

/// The date of the day `days` days after 1970-01-01.
pub open spec fn date_of_day(days: int) -> (int, int, int) {
    choose|ymd: (int, int, int)|
        #![trigger days_since_epoch(ymd.0, ymd.1, ymd.2)]
        is_valid_date(ymd.0, ymd.1, ymd.2) && days_since_epoch(ymd.0, ymd.1, ymd.2) == days
}

/// A date is the date of its own day count.
pub proof fn lemma_date_of_day(y: int, m: int, d: int)
    requires
        is_valid_date(y, m, d),
    ensures
        date_of_day(days_since_epoch(y, m, d)) == (y, m, d),
{
    let days = days_since_epoch(y, m, d);
    let w = (y, m, d);
    assert(is_valid_date(w.0, w.1, w.2) && days_since_epoch(w.0, w.1, w.2) == days);
    let c = date_of_day(days);
    lemma_days_since_epoch_injective(c, (y, m, d));
}

/// Days on or after 1970-01-01 fall in 1970 or later.
proof fn lemma_year_from_1970(y: int, m: int, d: int)
    requires
        is_valid_date(y, m, d),
        days_since_epoch(y, m, d) >= 0,
    ensures
        y >= 1970,
{
    if y < 1970 {
        lemma_days_since_epoch_monotonic((y, m, d), (1970, 1, 1));
    }
}

/// `YYYY-MM-DD HH:MM:SS` (UTC) for a count of seconds since 1970-01-01 00:00:00; the year
/// takes more than four digits after 9999.
pub open spec fn timestamp_text(secs: nat) -> Seq<char> {
    let ymd = date_of_day(secs as int / 86400);
    let t = secs % 86400;
    zero_padded(ymd.0 as nat, 4) + seq!['-'] + zero_padded(ymd.1 as nat, 2) + seq!['-']
        + zero_padded(ymd.2 as nat, 2) + seq![' '] + zero_padded(t / 3600, 2) + seq![':']
        + zero_padded((t % 3600) / 60, 2) + seq![':'] + zero_padded(t % 60, 2)
}

/// Formats a count of seconds since 1970-01-01 00:00:00 UTC as `YYYY-MM-DD HH:MM:SS`.
pub fn format_timestamp(secs: u64) -> (text: String)
    ensures
        text@ == timestamp_text(secs as nat),
{
    let days = secs / 86400;
    let tod = secs % 86400;
    let ymd = days_to_ymd(days as i64);
    proof {
        lemma_year_from_1970(ymd.0 as int, ymd.1 as int, ymd.2 as int);
    }
    let mut out = String::new();
    push_zero_padded(&mut out, ymd.0 as u64, 4);
    out.push('-');
    push_zero_padded(&mut out, ymd.1 as u64, 2);
    out.push('-');
    push_zero_padded(&mut out, ymd.2 as u64, 2);
    out.push(' ');
    push_zero_padded(&mut out, tod / 3600, 2);
    out.push(':');
    push_zero_padded(&mut out, (tod % 3600) / 60, 2);
    out.push(':');
    push_zero_padded(&mut out, tod % 60, 2);
    proof {
        assert(out@ =~= timestamp_text(secs as nat));
    }
    out
}

/// Every count of days has a date.
pub proof fn lemma_date_of_day_exists(days: int)
    ensures
        is_valid_date(date_of_day(days).0, date_of_day(days).1, date_of_day(days).2),
        days_since_epoch(date_of_day(days).0, date_of_day(days).1, date_of_day(days).2) == days,
{
    let z = days + 719468;
    let era = z / 146097;
    let doe = z % 146097;
    let yoe = (doe - doe / 1460 + doe / 36524 - doe / 146096) / 365;
    lemma_year_of_era(doe as u32, yoe as u32);
    let doy = doe - (365 * yoe + yoe / 4 - yoe / 100);
    let mp = (5 * doy + 2) / 153;
    lemma_month_of_year(doy as u32, mp as u32);
    let d = doy - (153 * mp + 2) / 5 + 1;
    let m = if mp < 10 { mp + 3 } else { mp - 9 };
    let y0 = if m <= 2 { yoe + 1 } else { yoe };
    lemma_date_of_era_day(doe, yoe, mp, d, m, y0);
    lemma_shift_400_years(y0, m, d, era);
    lemma_date_of_day(y0 + 400 * era, m, d);
}

/// Seconds since 1970-01-01 00:00:00 UTC at which year 10000 begins.
pub open spec fn year_10000_start() -> nat {
    253402300800
}

/// Fields of `timestamp_text` for a count of seconds: year, month, day, hour, minute, second.
spec fn timestamp_fields(secs: nat) -> (nat, nat, nat, nat, nat, nat) {
    let ymd = date_of_day(secs as int / 86400);
    let t = secs % 86400;
    (ymd.0 as nat, ymd.1 as nat, ymd.2 as nat, t / 3600, (t % 3600) / 60, t % 60)
}

/// Lexicographic order of six-field tuples.
spec fn fields_less(a: (nat, nat, nat, nat, nat, nat), b: (nat, nat, nat, nat, nat, nat)) -> bool {
    a.0 < b.0 || (a.0 == b.0 && (a.1 < b.1 || (a.1 == b.1 && (a.2 < b.2 || (a.2 == b.2 && (a.3
        < b.3 || (a.3 == b.3 && (a.4 < b.4 || (a.4 == b.4 && a.5 < b.5)))))))))
}

/// Before year 10000, the fields of a timestamp are in range and ordered as the seconds are.
proof fn lemma_timestamp_fields(a: nat, b: nat)
    requires
        a < year_10000_start(),
        b < year_10000_start(),
    ensures
        timestamp_fields(a).0 < 10000,
        timestamp_fields(a).1 <= 12,
        timestamp_fields(a).2 <= 31,
        timestamp_fields(a).3 < 24,
        fields_less(timestamp_fields(a), timestamp_fields(b)) <==> a < b,
        timestamp_fields(a) == timestamp_fields(b) <==> a == b,
{
    let da = a as int / 86400;
    let db = b as int / 86400;
    lemma_date_of_day_exists(da);
    lemma_date_of_day_exists(db);
    let ya = date_of_day(da);
    let yb = date_of_day(db);
    lemma_year_from_1970(ya.0, ya.1, ya.2);
    lemma_year_from_1970(yb.0, yb.1, yb.2);
    assert(days_since_epoch(10000, 1, 1) == 2932897) by {
        lemma_days_before_month(10000, 1);
    }
    if ya.0 >= 10000 {
        if date_before((10000, 1, 1), ya) {
            lemma_days_since_epoch_monotonic((10000, 1, 1), ya);
        }
    }
    if date_before(ya, yb) {
        lemma_days_since_epoch_monotonic(ya, yb);
    }
    if date_before(yb, ya) {
        lemma_days_since_epoch_monotonic(yb, ya);
    }
    if da == db {
        assert(ya == yb);
    }
}

/// Timestamp texts of instants before year 10000 sort as the instants do: the text of
/// an earlier instant is lexicographically smaller, and equal texts mean equal instants.
pub proof fn lemma_timestamp_text_order(a: nat, b: nat)
    requires
        a < year_10000_start(),
        b < year_10000_start(),
    ensures
        lex_less(timestamp_text(a), timestamp_text(b)) <==> a < b,
        timestamp_text(a) == timestamp_text(b) <==> a == b,
{
    lemma_timestamp_fields(a, b);
    lemma_timestamp_fields(b, a);
    let fa = timestamp_fields(a);
    let fb = timestamp_fields(b);
    reveal_with_fuel(pow10, 5);
    lemma_zero_padded_order(fa.0, fb.0, 4);
    lemma_zero_padded_order(fa.1, fb.1, 2);
    lemma_zero_padded_order(fa.2, fb.2, 2);
    lemma_zero_padded_order(fa.3, fb.3, 2);
    lemma_zero_padded_order(fa.4, fb.4, 2);
    lemma_zero_padded_order(fa.5, fb.5, 2);
    let dash = seq!['-'];
    let space = seq![' '];
    let colon = seq![':'];
    reveal_with_fuel(lex_less, 2);
    assert(!lex_less(dash, dash) && !lex_less(space, space) && !lex_less(colon, colon)) by {
        assert(dash.drop_first() =~= Seq::<char>::empty());
        assert(space.drop_first() =~= Seq::<char>::empty());
        assert(colon.drop_first() =~= Seq::<char>::empty());
    }
    let a1 = zero_padded(fa.0, 4);
    let b1 = zero_padded(fb.0, 4);
    let a2 = a1 + dash;
    let b2 = b1 + dash;
    lemma_lex_less_concat(a1, dash, b1, dash);
    lemma_concat_eq(a1, dash, b1, dash);
    let a3 = a2 + zero_padded(fa.1, 2);
    let b3 = b2 + zero_padded(fb.1, 2);
    lemma_lex_less_concat(a2, zero_padded(fa.1, 2), b2, zero_padded(fb.1, 2));
    lemma_concat_eq(a2, zero_padded(fa.1, 2), b2, zero_padded(fb.1, 2));
    let a4 = a3 + dash;
    let b4 = b3 + dash;
    lemma_lex_less_concat(a3, dash, b3, dash);
    lemma_concat_eq(a3, dash, b3, dash);
    let a5 = a4 + zero_padded(fa.2, 2);
    let b5 = b4 + zero_padded(fb.2, 2);
    lemma_lex_less_concat(a4, zero_padded(fa.2, 2), b4, zero_padded(fb.2, 2));
    lemma_concat_eq(a4, zero_padded(fa.2, 2), b4, zero_padded(fb.2, 2));
    let a6 = a5 + space;
    let b6 = b5 + space;
    lemma_lex_less_concat(a5, space, b5, space);
    lemma_concat_eq(a5, space, b5, space);
    let a7 = a6 + zero_padded(fa.3, 2);
    let b7 = b6 + zero_padded(fb.3, 2);
    lemma_lex_less_concat(a6, zero_padded(fa.3, 2), b6, zero_padded(fb.3, 2));
    lemma_concat_eq(a6, zero_padded(fa.3, 2), b6, zero_padded(fb.3, 2));
    let a8 = a7 + colon;
    let b8 = b7 + colon;
    lemma_lex_less_concat(a7, colon, b7, colon);
    lemma_concat_eq(a7, colon, b7, colon);
    let a9 = a8 + zero_padded(fa.4, 2);
    let b9 = b8 + zero_padded(fb.4, 2);
    lemma_lex_less_concat(a8, zero_padded(fa.4, 2), b8, zero_padded(fb.4, 2));
    lemma_concat_eq(a8, zero_padded(fa.4, 2), b8, zero_padded(fb.4, 2));
    let a10 = a9 + colon;
    let b10 = b9 + colon;
    lemma_lex_less_concat(a9, colon, b9, colon);
    lemma_concat_eq(a9, colon, b9, colon);
    lemma_lex_less_concat(a10, zero_padded(fa.5, 2), b10, zero_padded(fb.5, 2));
    lemma_concat_eq(a10, zero_padded(fa.5, 2), b10, zero_padded(fb.5, 2));
    assert(timestamp_text(a) == a10 + zero_padded(fa.5, 2));
    assert(timestamp_text(b) == b10 + zero_padded(fb.5, 2));
}

/// Before year 10000 a timestamp text is the 19 characters `YYYY-MM-DD HH:MM:SS`: digits,
/// with `-` at positions 4 and 7, a space at 10 and `:` at 13 and 16.
pub proof fn lemma_timestamp_text_shape(secs: nat)
    requires
        secs < year_10000_start(),
    ensures
        timestamp_text(secs).len() == 19,
        timestamp_text(secs)[4] == '-',
        timestamp_text(secs)[7] == '-',
        timestamp_text(secs)[10] == ' ',
        timestamp_text(secs)[13] == ':',
        timestamp_text(secs)[16] == ':',
        forall|i: int|
            0 <= i < 19 && i != 4 && i != 7 && i != 10 && i != 13 && i != 16 ==> '0'
                <= #[trigger] timestamp_text(secs)[i] <= '9',
{
    lemma_timestamp_fields(secs, secs);
    let f = timestamp_fields(secs);
    reveal_with_fuel(pow10, 5);
    lemma_zero_padded_order(f.0, f.0, 4);
    lemma_zero_padded_order(f.1, f.1, 2);
    lemma_zero_padded_order(f.2, f.2, 2);
    lemma_zero_padded_order(f.3, f.3, 2);
    lemma_zero_padded_order(f.4, f.4, 2);
    lemma_zero_padded_order(f.5, f.5, 2);
    lemma_zero_padded_digits(f.0, 4);
    lemma_zero_padded_digits(f.1, 2);
    lemma_zero_padded_digits(f.2, 2);
    lemma_zero_padded_digits(f.3, 2);
    lemma_zero_padded_digits(f.4, 2);
    lemma_zero_padded_digits(f.5, 2);
    let y = zero_padded(f.0, 4);
    let mo = zero_padded(f.1, 2);
    let d = zero_padded(f.2, 2);
    let h = zero_padded(f.3, 2);
    let mi = zero_padded(f.4, 2);
    let s = zero_padded(f.5, 2);
    let t = timestamp_text(secs);
    assert(t =~= y + seq!['-'] + mo + seq!['-'] + d + seq![' '] + h + seq![':'] + mi + seq![':']
        + s);
    assert forall|i: int|
        0 <= i < 19 && i != 4 && i != 7 && i != 10 && i != 13 && i != 16 implies '0'
        <= #[trigger] t[i] <= '9' by {
        if i < 4 {
            assert(t[i] == y[i]);
        } else if i < 7 {
            assert(t[i] == mo[i - 5]);
        } else if i < 10 {
            assert(t[i] == d[i - 8]);
        } else if i < 13 {
            assert(t[i] == h[i - 11]);
        } else if i < 16 {
            assert(t[i] == mi[i - 14]);
        } else {
            assert(t[i] == s[i - 17]);
        }
    }
}

/// Before year 10000 a timestamp text reads back as its instant: its year, month and day
/// digits name a valid date, and that date's day count times 86400 plus its hour, minute and
/// second digits is the count of seconds it was made from.
pub proof fn lemma_timestamp_text_reads_back(secs: nat)
    requires
        secs < year_10000_start(),
    ensures
        ({
            let t = timestamp_text(secs);
            let y = digits_value(t.subrange(0, 4));
            let mo = digits_value(t.subrange(5, 7));
            let d = digits_value(t.subrange(8, 10));
            let h = digits_value(t.subrange(11, 13));
            let mi = digits_value(t.subrange(14, 16));
            let s = digits_value(t.subrange(17, 19));
            &&& is_valid_date(y, mo, d)
            &&& 0 <= h < 24
            &&& 0 <= mi < 60
            &&& 0 <= s < 60
            &&& days_since_epoch(y, mo, d) * 86400 + h * 3600 + mi * 60 + s == secs
        }),
{
    lemma_timestamp_fields(secs, secs);
    lemma_date_of_day_exists(secs as int / 86400);
    let f = timestamp_fields(secs);
    reveal_with_fuel(pow10, 5);
    lemma_zero_padded_order(f.0, f.0, 4);
    lemma_zero_padded_order(f.1, f.1, 2);
    lemma_zero_padded_order(f.2, f.2, 2);
    lemma_zero_padded_order(f.3, f.3, 2);
    lemma_zero_padded_order(f.4, f.4, 2);
    lemma_zero_padded_order(f.5, f.5, 2);
    lemma_zero_padded_value(f.0, 4);
    lemma_zero_padded_value(f.1, 2);
    lemma_zero_padded_value(f.2, 2);
    lemma_zero_padded_value(f.3, 2);
    lemma_zero_padded_value(f.4, 2);
    lemma_zero_padded_value(f.5, 2);
    let t = timestamp_text(secs);
    let ys = zero_padded(f.0, 4);
    let mos = zero_padded(f.1, 2);
    let ds = zero_padded(f.2, 2);
    let hs = zero_padded(f.3, 2);
    let mis = zero_padded(f.4, 2);
    let ss = zero_padded(f.5, 2);
    assert(t =~= ys + seq!['-'] + mos + seq!['-'] + ds + seq![' '] + hs + seq![':'] + mis
        + seq![':'] + ss);
    assert(t.subrange(0, 4) =~= ys);
    assert(t.subrange(5, 7) =~= mos);
    assert(t.subrange(8, 10) =~= ds);
    assert(t.subrange(11, 13) =~= hs);
    assert(t.subrange(14, 16) =~= mis);
    assert(t.subrange(17, 19) =~= ss);
    lemma_year_from_1970(date_of_day(secs as int / 86400).0, date_of_day(secs as int / 86400).1,
        date_of_day(secs as int / 86400).2);
}

} // verus!
