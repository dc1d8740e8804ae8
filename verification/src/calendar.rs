//! Proleptic Gregorian calendar arithmetic: turning a count of days since
//! 1970-01-01 into a civil date.

use vstd::prelude::*;
use vstd::arithmetic::div_mod::lemma_fundamental_div_mod_converse;

verus! {

/// Gregorian leap-year rule.
pub open spec fn is_leap(y: int) -> bool {
    y % 4 == 0 && (y % 100 != 0 || y % 400 == 0)
}

/// Length of month `m` (1..=12) of year `y`.
pub open spec fn days_in_month(y: int, m: int) -> int {
    if m == 2 {
        if is_leap(y) { 29 } else { 28 }
    } else if m == 4 || m == 6 || m == 9 || m == 11 {
        30
    } else {
        31
    }
}

/// Number of days in the months of year `y` that come before month `m`.
pub open spec fn days_before_month(y: int, m: int) -> int
    decreases m,
{
    if m <= 1 {
        0
    } else {
        days_before_month(y, m - 1) + days_in_month(y, m - 1)
    }
}

/// Number of leap years in `[0, y)`; negative (minus the count in `[y, 0)`)
/// when `y` is negative.
pub open spec fn leap_years_before(y: int) -> int {
    (y + 3) / 4 - (y + 99) / 100 + (y + 399) / 400
}

/// A real calendar date.
pub open spec fn valid_date(y: int, m: int, d: int) -> bool {
    1 <= m <= 12 && 1 <= d <= days_in_month(y, m)
}

/// Days from 1970-01-01 to the date `y-m-d` (negative before it).
pub open spec fn days_from_civil(y: int, m: int, d: int) -> int {
    365 * y + leap_years_before(y) + days_before_month(y, m) + d - 1 - 719528
}

proof fn lemma_div_by(x: int, d: int, q: int)
    requires
        0 < d,
        q * d <= x,
        x < q * d + d,
    ensures
        x / d == q,
        x % d == x - q * d,
{
    lemma_fundamental_div_mod_converse(x, d, q, x - q * d);
}

proof fn lemma_days_before_month_table(y: int)
    ensures
        days_before_month(y, 1) == 0,
        days_before_month(y, 2) == 31,
        days_before_month(y, 3) == 59 + (if is_leap(y) { 1int } else { 0 }),
        days_before_month(y, 4) == 90 + (if is_leap(y) { 1int } else { 0 }),
        days_before_month(y, 5) == 120 + (if is_leap(y) { 1int } else { 0 }),
        days_before_month(y, 6) == 151 + (if is_leap(y) { 1int } else { 0 }),
        days_before_month(y, 7) == 181 + (if is_leap(y) { 1int } else { 0 }),
        days_before_month(y, 8) == 212 + (if is_leap(y) { 1int } else { 0 }),
        days_before_month(y, 9) == 243 + (if is_leap(y) { 1int } else { 0 }),
        days_before_month(y, 10) == 273 + (if is_leap(y) { 1int } else { 0 }),
        days_before_month(y, 11) == 304 + (if is_leap(y) { 1int } else { 0 }),
        days_before_month(y, 12) == 334 + (if is_leap(y) { 1int } else { 0 }),
{
    reveal_with_fuel(days_before_month, 13);
}

/// Year `y` written as `4a + b`, `100c + e`, `400f + g` pins down the
/// divisions the leap-year rule and `leap_years_before` use.
proof fn lemma_leap_count_step(y: int)
    ensures
        leap_years_before(y) + (if is_leap(y) { 1int } else { 0 }) - 1 == y / 4 - y / 100 + y / 400,
        leap_years_before(y + 1) == leap_years_before(y) + (if is_leap(y) { 1int } else { 0 }),
{
    let a = y / 4;
    let c = y / 100;
    let f = y / 400;
    lemma_div_by(y, 4, a);
    lemma_div_by(y, 100, c);
    lemma_div_by(y, 400, f);
    // (y + 3) / 4 is a, or a + 1 when 4 does not divide y; likewise for 100 and 400.
    if y % 4 == 0 {
        lemma_div_by(y + 3, 4, a);
        lemma_div_by(y + 4, 4, a + 1);
    } else {
        lemma_div_by(y + 3, 4, a + 1);
        lemma_div_by(y + 4, 4, a + 1);
    }
    if y % 100 == 0 {
        lemma_div_by(y + 99, 100, c);
        lemma_div_by(y + 100, 100, c + 1);
        // 100 | y implies 4 | y
        lemma_div_by(y, 4, 25 * c);
    } else {
        lemma_div_by(y + 99, 100, c + 1);
        lemma_div_by(y + 100, 100, c + 1);
    }
    if y % 400 == 0 {
        lemma_div_by(y + 399, 400, f);
        lemma_div_by(y + 400, 400, f + 1);
        lemma_div_by(y, 100, 4 * f);
    } else {
        lemma_div_by(y + 399, 400, f + 1);
        lemma_div_by(y + 400, 400, f + 1);
    }
}

/// Inside one 400-year era (146097 days, counted from a March 1st),
/// day `doe` falls in March-based year `yoe` of the era, on day `doy` of
/// that year, where `yoe` and `doy` are what the fast formula computes.
proof fn lemma_year_of_era(doe: int)
    requires
        0 <= doe <= 146096,
    ensures
        ({
            let yoe = (doe - doe / 1460 + doe / 36524 - doe / 146096) / 365;
            let doy = doe - (365 * yoe + yoe / 4 - yoe / 100);
            &&& 0 <= yoe <= 399
            &&& 0 <= doy <= 365
            &&& doy == 365 ==> is_leap(yoe + 1)
        }),
{
    // century within the era (the last day of the era stays in century 3)
    let c: int = if doe >= 3 * 36524 { 3 } else if doe >= 2 * 36524 { 2 } else if doe >= 36524 { 1 } else { 0 };
    let t = doe - 36524 * c;
    assert(0 <= t <= 36524);
    assert(t == 36524 ==> c == 3);
    // four-year cycle within the century
    let q: int = t / 1461;
    lemma_fundamental_div_mod_converse(t, 1461, t / 1461, t % 1461);
    assert(0 <= q <= 24) by {
        if q > 24 {
            assert(q * 1461 >= 25 * 1461) by (nonlinear_arith)
                requires q > 24;
        }
        if q < 0 {
            assert(q * 1461 < 0) by (nonlinear_arith)
                requires q < 0;
        }
    }
    let u = t - 1461 * q;
    assert(0 <= u <= 1460) by {
        vstd::arithmetic::div_mod::lemma_fundamental_div_mod(t, 1461);
        vstd::arithmetic::div_mod::lemma_mod_bound(t, 1461);
    }
    // year within the cycle; the leap day of the cycle stays in year 3
    let s: int = if u >= 3 * 365 { 3 } else if u >= 2 * 365 { 2 } else if u >= 365 { 1 } else { 0 };
    let r = u - 365 * s;
    assert(0 <= r <= 365);
    let y = 100 * c + 4 * q + s;
    lemma_div_by(y, 4, 25 * c + q);
    lemma_div_by(y, 100, c);
    assert(365 * y + y / 4 - y / 100 == 36524 * c + 1461 * q + 365 * s);
    assert(doe == 36524 * c + 1461 * q + 365 * s + r);
    // the correction terms of the fast formula
    let big_r = 24 * c + q + 365 * s + r;
    let k: int = if big_r >= 1460 { 1 } else { 0 };
    lemma_div_by(doe, 1460, 25 * c + q + k);
    if doe == 146096 {
        lemma_div_by(doe, 36524, 4);
        lemma_div_by(doe, 146096, 1);
    } else {
        lemma_div_by(doe, 36524, c);
        lemma_div_by(doe, 146096, 0);
    }
    let f = doe - doe / 1460 + doe / 36524 - doe / 146096;
    assert(f == 365 * y + r - k);
    assert(0 <= r - k <= 364);
    lemma_div_by(f, 365, y);
    assert(r == 365 ==> is_leap(y + 1)) by {
        if r == 365 {
            assert(s == 3 && u == 1460);
            lemma_div_by(y + 1, 4, 25 * c + q + 1);
            if q == 24 {
                assert(c == 3);
                lemma_div_by(y + 1, 400, 1);
            } else {
                lemma_div_by(y + 1, 100, c);
            }
        }
    }
}

/// Month of the March-based year that day `doy` (0..=365) falls in, with
/// the first day of that month.
proof fn lemma_month_of_year(doy: int)
    requires
        0 <= doy <= 365,
    ensures
        ({
            let mp = (5 * doy + 2) / 153;
            &&& 0 <= mp <= 11
            &&& (153 * mp + 2) / 5 <= doy
            &&& mp < 11 ==> doy < (153 * (mp + 1) + 2) / 5
        }),
{
    let mp = (5 * doy + 2) / 153;
    vstd::arithmetic::div_mod::lemma_fundamental_div_mod(5 * doy + 2, 153);
    vstd::arithmetic::div_mod::lemma_mod_bound(5 * doy + 2, 153);
    let rem = (5 * doy + 2) % 153;
    assert(5 * doy + 2 == 153 * mp + rem);
    assert(0 <= mp <= 11) by {
        if mp > 11 {
            assert(153 * mp >= 153 * 12) by (nonlinear_arith)
                requires mp > 11;
        }
        if mp < 0 {
            assert(153 * mp < 0) by (nonlinear_arith)
                requires mp < 0;
        }
    }
    let lo = (153 * mp + 2) / 5;
    vstd::arithmetic::div_mod::lemma_fundamental_div_mod(153 * mp + 2, 5);
    vstd::arithmetic::div_mod::lemma_mod_bound(153 * mp + 2, 5);
    let hi = (153 * (mp + 1) + 2) / 5;
    vstd::arithmetic::div_mod::lemma_fundamental_div_mod(153 * (mp + 1) + 2, 5);
    vstd::arithmetic::div_mod::lemma_mod_bound(153 * (mp + 1) + 2, 5);
}

/// The March-based month offsets, one per month.
proof fn lemma_month_offsets()
    ensures
        (153int * 0 + 2) / 5 == 0,
        (153int * 1 + 2) / 5 == 31,
        (153int * 2 + 2) / 5 == 61,
        (153int * 3 + 2) / 5 == 92,
        (153int * 4 + 2) / 5 == 122,
        (153int * 5 + 2) / 5 == 153,
        (153int * 6 + 2) / 5 == 184,
        (153int * 7 + 2) / 5 == 214,
        (153int * 8 + 2) / 5 == 245,
        (153int * 9 + 2) / 5 == 275,
        (153int * 10 + 2) / 5 == 306,
        (153int * 11 + 2) / 5 == 337,
        (153int * 12 + 2) / 5 == 367,
{
    lemma_div_by(153int * 0 + 2, 5, 0);
    lemma_div_by(153int * 1 + 2, 5, 31);
    lemma_div_by(153int * 2 + 2, 5, 61);
    lemma_div_by(153int * 3 + 2, 5, 92);
    lemma_div_by(153int * 4 + 2, 5, 122);
    lemma_div_by(153int * 5 + 2, 5, 153);
    lemma_div_by(153int * 6 + 2, 5, 184);
    lemma_div_by(153int * 7 + 2, 5, 214);
    lemma_div_by(153int * 8 + 2, 5, 245);
    lemma_div_by(153int * 9 + 2, 5, 275);
    lemma_div_by(153int * 10 + 2, 5, 306);
    lemma_div_by(153int * 11 + 2, 5, 337);
    lemma_div_by(153int * 12 + 2, 5, 367);
}

/// Offset of March-based month `mp` from March 1st.
proof fn lemma_month_offset_value(mp: int)
    requires
        0 <= mp <= 11,
    ensures
        (153 * mp + 2) / 5 == (if mp == 0 { 0int } else if mp == 1 { 31 } else if mp == 2 { 61 }
            else if mp == 3 { 92 } else if mp == 4 { 122 } else if mp == 5 { 153 }
            else if mp == 6 { 184 } else if mp == 7 { 214 } else if mp == 8 { 245 }
            else if mp == 9 { 275 } else if mp == 10 { 306 } else { 337 }),
        (153 * (mp + 1) + 2) / 5 == (if mp == 0 { 31int } else if mp == 1 { 61 } else if mp == 2 { 92 }
            else if mp == 3 { 122 } else if mp == 4 { 153 } else if mp == 5 { 184 }
            else if mp == 6 { 214 } else if mp == 7 { 245 } else if mp == 8 { 275 }
            else if mp == 9 { 306 } else if mp == 10 { 337 } else { 367 }),
{
    lemma_month_offsets();
    if mp == 0 {} else if mp == 1 {} else if mp == 2 {} else if mp == 3 {} else if mp == 4 {}
    else if mp == 5 {} else if mp == 6 {} else if mp == 7 {} else if mp == 8 {} else if mp == 9 {}
    else if mp == 10 {} else {}
}

/// The steps of `civil_from_days`, read over the integers, land on a real
/// date whose day count is the input.
proof fn lemma_civil_steps(zz: int, era: int, doe: int, yoe: int, yp: int, doy: int, mp: int, d: int, m: int, y: int)
    requires
        zz == era * 146097 + doe,
        0 <= doe <= 146096,
        yoe == (doe - doe / 1460 + doe / 36524 - doe / 146096) / 365,
        yp == yoe + era * 400,
        doy == doe - (365 * yoe + yoe / 4 - yoe / 100),
        mp == (5 * doy + 2) / 153,
        d == doy - (153 * mp + 2) / 5 + 1,
        m == (if mp < 10 { mp + 3 } else { mp - 9 }),
        y == (if m <= 2 { yp + 1 } else { yp }),
    ensures
        valid_date(y, m, d),
        days_from_civil(y, m, d) == zz - 719468,
{
    lemma_year_of_era(doe);
    lemma_month_of_year(doy);
    lemma_month_offset_value(mp);
    // the era contributes exactly 146097 days per 400 years
    let q4 = yoe / 4;
    let q100 = yoe / 100;
    lemma_fundamental_div_mod_converse(yoe, 4, q4, yoe % 4);
    vstd::arithmetic::div_mod::lemma_fundamental_div_mod(yoe, 4);
    vstd::arithmetic::div_mod::lemma_mod_bound(yoe, 4);
    vstd::arithmetic::div_mod::lemma_fundamental_div_mod(yoe, 100);
    vstd::arithmetic::div_mod::lemma_mod_bound(yoe, 100);
    lemma_div_by(yp, 4, 100 * era + q4);
    lemma_div_by(yp, 100, 4 * era + q100);
    lemma_div_by(yp, 400, era);
    assert(zz == 365 * yp + yp / 4 - yp / 100 + yp / 400 + doy);
    // leap-ness of the civil year holding the February of this March-based year
    assert(is_leap(yoe + 1) == is_leap(yp + 1)) by {
        let a = (yoe + 1) / 4;
        let b = (yoe + 1) / 100;
        let c = (yoe + 1) / 400;
        vstd::arithmetic::div_mod::lemma_fundamental_div_mod(yoe + 1, 4);
        vstd::arithmetic::div_mod::lemma_mod_bound(yoe + 1, 4);
        vstd::arithmetic::div_mod::lemma_fundamental_div_mod(yoe + 1, 100);
        vstd::arithmetic::div_mod::lemma_mod_bound(yoe + 1, 100);
        vstd::arithmetic::div_mod::lemma_fundamental_div_mod(yoe + 1, 400);
        vstd::arithmetic::div_mod::lemma_mod_bound(yoe + 1, 400);
        lemma_div_by(yp + 1, 4, 100 * era + a);
        lemma_div_by(yp + 1, 100, 4 * era + b);
        lemma_div_by(yp + 1, 400, era + c);
    }
    lemma_leap_count_step(yp);
    lemma_days_before_month_table(y);
    if mp < 10 {
        assert(y == yp);
    } else {
        assert(y == yp + 1);
        assert(is_leap(y) == is_leap(yoe + 1));
    }
}

/// The civil date that day `z` (days since 1970-01-01) falls on.
///
/// Howard Hinnant's algorithm: shift to an epoch of 0000-03-01, split into
/// 400-year eras, then into March-based years and months.
pub fn civil_from_days(z: i64) -> (r: (i64, u32, u32))
    requires
        z <= i64::MAX - 719468,
    ensures
        valid_date(r.0 as int, r.1 as int, r.2 as int),
        days_from_civil(r.0 as int, r.1 as int, r.2 as int) == z,
{
    let z = z + 719468;
    let era = if z >= 0 { z } else { z - 146096 } / 146097;
    proof {
        let e = (z as int) / 146097;
        lemma_div_by(z as int, 146097, e);
        assert(era == e);
    }
    let doe = (z - era * 146097) as u64;
    let yoe = (doe - doe / 1460 + doe / 36524 - doe / 146096) / 365;
    let y = yoe as i64 + era * 400;
    let doy = doe - (365 * yoe + yoe / 4 - yoe / 100);
    let mp = (5 * doy + 2) / 153;
    let d = (doy - (153 * mp + 2) / 5 + 1) as u32;
    let m = if mp < 10 { mp + 3 } else { mp - 9 } as u32;
    let y2 = if m <= 2 { y + 1 } else { y };
    proof {
        lemma_civil_steps(z as int, era as int, doe as int, yoe as int, y as int, doy as int,
            mp as int, d as int, m as int, y2 as int);
    }
    (y2, m, d)
}

proof fn lemma_days_before_month_grows(y: int, m1: int, m2: int)
    requires
        1 <= m1 <= m2 <= 13,
    ensures
        days_before_month(y, m1) <= days_before_month(y, m2),
    decreases m2 - m1,
{
    if m1 < m2 {
        lemma_days_before_month_grows(y, m1, m2 - 1);
    }
}

/// Day count of January 1st of year `y`.
spec fn year_start(y: int) -> int {
    days_from_civil(y, 1, 1)
}

proof fn lemma_year_start_grows(y1: int, y2: int)
    requires
        y1 < y2,
    ensures
        year_start(y1) + 365 + (if is_leap(y1) { 1int } else { 0 }) <= year_start(y2),
    decreases y2 - y1,
{
    lemma_leap_count_step(y1);
    reveal_with_fuel(days_before_month, 2);
    if y1 + 1 < y2 {
        lemma_year_start_grows(y1 + 1, y2);
    }
}

proof fn lemma_within_year(y: int, m: int, d: int)
    requires
        valid_date(y, m, d),
    ensures
        year_start(y) <= days_from_civil(y, m, d),
        days_from_civil(y, m, d) < year_start(y) + 365 + (if is_leap(y) { 1int } else { 0 }),
{
    lemma_days_before_month_table(y);
    reveal_with_fuel(days_before_month, 2);
    reveal_with_fuel(days_before_month, 13);
}

/// `y-m-d` is a real date and day number `z` counted from 1970-01-01.
pub open spec fn is_date_of_day(z: int, y: int, m: int, d: int) -> bool {
    valid_date(y, m, d) && days_from_civil(y, m, d) == z
}

/// Two real dates with the same day count are the same date. So the date
/// `civil_from_days` returns is the only one its `ensures` allows, and
/// `civil_from_days` undoes `days_from_civil`.
pub proof fn lemma_date_determined_by_day_count(y1: int, m1: int, d1: int, y2: int, m2: int, d2: int)
    requires
        valid_date(y1, m1, d1),
        valid_date(y2, m2, d2),
        days_from_civil(y1, m1, d1) == days_from_civil(y2, m2, d2),
    ensures
        y1 == y2,
        m1 == m2,
        d1 == d2,
{
    lemma_within_year(y1, m1, d1);
    lemma_within_year(y2, m2, d2);
    if y1 < y2 {
        lemma_year_start_grows(y1, y2);
    } else if y2 < y1 {
        lemma_year_start_grows(y2, y1);
    } else {
        if m1 < m2 {
            lemma_days_before_month_grows(y1, m1 + 1, m2);
        } else if m2 < m1 {
            lemma_days_before_month_grows(y1, m2 + 1, m1);
        }
    }
}

/// The civil date (year, month, day) of the UTC day that `secs` seconds
/// after 1970-01-01T00:00:00Z fall in. The year is cut to `i32` as `as`
/// does; it fits for any `secs` below about 6.7e16.
pub fn epoch_to_ymd(secs: u64) -> (r: (i32, u32, u32))
    ensures
        exists|y: int|
            #[trigger] is_date_of_day((secs / 86400) as int, y, r.1 as int, r.2 as int)
                && r.0 == y as i32 && (i32::MIN <= y <= i32::MAX ==> r.0 == y),
{
    let days = (secs / 86400) as i64;
    let (y, m, d) = civil_from_days(days);
    let year: i32 = if i32::MIN as i64 <= y && y <= i32::MAX as i64 {
        y as i32
    } else {
        #[verifier::truncate] (y as i32)
    };
    let r = (year, m, d);
    assert(r.1 == m && r.2 == d);
    assert(is_date_of_day((secs / 86400) as int, y as int, r.1 as int, r.2 as int));
    r
}

} // verus!
