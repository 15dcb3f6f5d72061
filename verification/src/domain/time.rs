//! UTC timestamp formatting. Callers read the clock; this is a function of
//! a Unix timestamp alone.
use vstd::prelude::*;
use crate::text::{decimal, digit_char, extend_all, padded, padded_chars, string_of};

verus! {

/// The proleptic Gregorian `(year, month, day)` of the day `days` after
/// 1970-01-01 (the days-to-civil conversion by eras of 400 years).
pub open spec fn civil_from_days(days: nat) -> (int, int, int) {
    let z = days + 719468;
    let era = z / 146097;
    let doe = z - era * 146097;
    let yoe = (doe - doe / 1460 + doe / 36524 - doe / 146096) / 365;
    let y = yoe + era * 400;
    let doy = doe - (365 * yoe + yoe / 4 - yoe / 100);
    let mp = (5 * doy + 2) / 153;
    let d = doy - (153 * mp + 2) / 5 + 1;
    let m = if mp < 10 {
        mp + 3
    } else {
        mp - 9
    };
    (if m <= 2 {
        y + 1
    } else {
        y
    }, m, d)
}

/// `YYYY-MM-DDTHH:MM:SSZ` for `secs` seconds after the Unix epoch.
pub open spec fn timestamp_text(secs: nat) -> Seq<char> {
    let (y, m, d) = civil_from_days(secs / 86400);
    let t = secs % 86400;
    padded(y as nat, 4) + seq!['-'] + padded(m as nat, 2) + seq!['-'] + padded(d as nat, 2)
        + seq!['T'] + padded(t / 3600, 2) + seq![':'] + padded((t / 60) % 60, 2) + seq![':']
        + padded(t % 60, 2) + seq!['Z']
}

proof fn lemma_year_of_era(doe: u32, yoe: u32)
    requires
        doe < 146097,
        yoe == ((((doe - doe / 1460) as u32 + doe / 36524) as u32 - doe / 146096) as u32) / 365,
    ensures
        365 * yoe + yoe / 4 - yoe / 100 <= doe,
        doe - (365 * yoe + yoe / 4 - yoe / 100) <= 365,
{
    assert(((365 * yoe) as u32 + yoe / 4) as u32 - yoe / 100 <= doe && doe - ((((365 * yoe) as u32
        + yoe / 4) as u32 - yoe / 100) as u32) <= 365u32) by (bit_vector)
        requires
            doe < 146097u32,
            yoe == ((((doe - doe / 1460) as u32 + doe / 36524) as u32 - doe / 146096) as u32) / 365,
    ;
}

/// The last day of a year of an era (counted from March) is its 366th
/// only when the calendar year that ends it, `yoe + 1`, is a leap year.
proof fn lemma_leap_day_of_era(doe: u32, yoe: u32)
    requires
        doe < 146097,
        yoe == ((((doe - doe / 1460) as u32 + doe / 36524) as u32 - doe / 146096) as u32) / 365,
        doe - ((((365 * yoe) as u32 + yoe / 4) as u32 - yoe / 100) as u32) == 365,
    ensures
        ((yoe + 1) % 4 == 0 && (yoe + 1) % 100 != 0) || (yoe + 1) % 400 == 0,
{
    assert((((yoe + 1) as u32) % 4 == 0 && ((yoe + 1) as u32) % 100 != 0) || ((yoe + 1) as u32) % 400 == 0)
        by (bit_vector)
        requires
            doe < 146097u32,
            yoe == ((((doe - doe / 1460) as u32 + doe / 36524) as u32 - doe / 146096) as u32) / 365,
            doe - ((((365 * yoe) as u32 + yoe / 4) as u32 - yoe / 100) as u32) == 365u32,
    ;
}

/// Days after the Unix epoch to `(year, month, day)`.
fn civil_from_days_exec(days: u64) -> (r: (u64, u32, u32))
    requires
        days <= u64::MAX / 86400,
    ensures
        (r.0 as int, r.1 as int, r.2 as int) == civil_from_days(days as nat),
{
    let z = days + 719468;
    let era = z / 146097;
    let doe = z - era * 146097;
    assert(doe < 146097) by (nonlinear_arith)
        requires
            era == z / 146097,
            doe == z - era * 146097,
    ;
    assert(doe / 146096 <= 1) by (nonlinear_arith)
        requires
            doe < 146097,
    ;
    assert(doe / 1460 <= doe && doe / 36524 <= doe);
    let yoe = (doe - doe / 1460 + doe / 36524 - doe / 146096) / 365;
    proof {
        let d32 = doe as u32;
        let y32 = yoe as u32;
        assert(d32 / 1460 == doe / 1460 && d32 / 36524 == doe / 36524 && d32 / 146096 == doe / 146096);
        lemma_year_of_era(d32, y32);
    }
    let y = yoe + era * 400;
    let doy = doe - (365 * yoe + yoe / 4 - yoe / 100);
    let mp = (5 * doy + 2) / 153;
    assert(mp <= 11);
    assert((153 * mp + 2) / 5 <= doy) by (nonlinear_arith)
        requires
            mp == (5 * doy + 2) / 153,
    ;
    let d = (doy - (153 * mp + 2) / 5 + 1) as u32;
    let m = if mp < 10 {
        mp + 3
    } else {
        mp - 9
    } as u32;
    let y = if m <= 2 {
        y + 1
    } else {
        y
    };
    (y, m, d)
}

/// A leap year of the proleptic Gregorian calendar.
pub open spec fn is_leap_year(y: int) -> bool {
    (y % 4 == 0 && y % 100 != 0) || y % 400 == 0
}

/// The number of days of month `m` (1 to 12) of year `y`.
pub open spec fn days_in_month(y: int, m: int) -> int {
    if m == 2 {
        if is_leap_year(y) {
            29
        } else {
            28
        }
    } else if m == 4 || m == 6 || m == 9 || m == 11 {
        30
    } else {
        31
    }
}

/// The day within a year counted from March 1 falls in a month of that
/// year, at most that month's length into it (the February 29th only as
/// the year's 366th day).
proof fn lemma_day_of_month(doy: u32, mp: u32, d: u32)
    requires
        doy <= 365,
        mp == (((5 * doy) as u32 + 2) as u32) / 153,
        d == ((doy - (((153 * mp) as u32 + 2) as u32) / 5) as u32 + 1) as u32,
    ensures
        mp <= 11,
        1 <= d,
        mp <= 10 ==> d <= (if mp == 1 || mp == 3 || mp == 6 || mp == 8 {
            30u32
        } else {
            31u32
        }),
        mp == 11 ==> d <= 29 && (d == 29 ==> doy == 365),
{
    assert(mp <= 11u32 && 1u32 <= d && (mp <= 10u32 ==> d <= (if mp == 1u32 || mp == 3u32 || mp == 6u32 || mp
        == 8u32 {
        30u32
    } else {
        31u32
    })) && (mp == 11u32 ==> d <= 29u32 && (d == 29u32 ==> doy == 365u32))) by (bit_vector)
        requires
            doy <= 365u32,
            mp == (((5 * doy) as u32 + 2) as u32) / 153,
            d == ((doy - (((153 * mp) as u32 + 2) as u32) / 5) as u32 + 1) as u32,
    ;
}

/// The year of an era (counted from March) and the day within it of the
/// day after `doe`, inside one era: the next day of the same year, or the
/// first day of the next year when `doe` is the last day of its year (its
/// 366th, or its 365th when the year ending it is no leap year).
#[verifier::rlimit(100)]
proof fn lemma_next_day_of_era(doe: u32, yoe: u32, doy: u32, yoe2: u32, doy2: u32)
    requires
        doe < 146096,
        yoe == ((((doe - doe / 1460) as u32 + doe / 36524) as u32 - doe / 146096) as u32) / 365,
        doy == doe - ((((365 * yoe) as u32 + yoe / 4) as u32 - yoe / 100) as u32),
        yoe2 == (((((doe + 1) as u32 - (doe + 1) as u32 / 1460) as u32 + (doe + 1) as u32 / 36524) as u32 - (doe
            + 1) as u32 / 146096) as u32) / 365,
        doy2 == (doe + 1) as u32 - ((((365 * yoe2) as u32 + yoe2 / 4) as u32 - yoe2 / 100) as u32),
    ensures
        (yoe2 == yoe && doy2 == (doy + 1) as u32) || (yoe2 == (yoe + 1) as u32 && doy2 == 0 && (doy == 365 || (
        doy == 364 && !((((yoe + 1) as u32) % 4 == 0 && ((yoe + 1) as u32) % 100 != 0) || ((yoe + 1) as u32) % 400
            == 0)))),
{
    assert((yoe2 == yoe && doy2 == (doy + 1) as u32) || (yoe2 == (yoe + 1) as u32 && doy2 == 0u32 && (doy
        == 365u32 || (doy == 364u32 && !((((yoe + 1) as u32) % 4 == 0 && ((yoe + 1) as u32) % 100 != 0) || ((yoe
        + 1) as u32) % 400 == 0))))) by (bit_vector)
        requires
            doe < 146096u32,
            yoe == ((((doe - doe / 1460) as u32 + doe / 36524) as u32 - doe / 146096) as u32) / 365,
            doy == doe - ((((365 * yoe) as u32 + yoe / 4) as u32 - yoe / 100) as u32),
            yoe2 == (((((doe + 1) as u32 - (doe + 1) as u32 / 1460) as u32 + (doe + 1) as u32 / 36524) as u32 - (
            doe + 1) as u32 / 146096) as u32) / 365,
            doy2 == (doe + 1) as u32 - ((((365 * yoe2) as u32 + yoe2 / 4) as u32 - yoe2 / 100) as u32),
    ;
}

/// The day after `doy` of a year (counted from March), inside the year:
/// the next day of the same month, or the first of the next month after a
/// month's last day.
proof fn lemma_next_day_of_year(doy: u32, mp: u32, d: u32, mp2: u32, d2: u32)
    requires
        doy <= 364,
        mp == (((5 * doy) as u32 + 2) as u32) / 153,
        d == ((doy - (((153 * mp) as u32 + 2) as u32) / 5) as u32 + 1) as u32,
        mp2 == (((5 * ((doy + 1) as u32)) as u32 + 2) as u32) / 153,
        d2 == ((((doy + 1) as u32) - (((153 * mp2) as u32 + 2) as u32) / 5) as u32 + 1) as u32,
    ensures
        mp <= 10 ==> (d < (if mp == 1 || mp == 3 || mp == 6 || mp == 8 {
            30u32
        } else {
            31u32
        }) ==> mp2 == mp && d2 == (d + 1) as u32),
        mp <= 10 ==> (d == (if mp == 1 || mp == 3 || mp == 6 || mp == 8 {
            30u32
        } else {
            31u32
        }) ==> mp2 == (mp + 1) as u32 && d2 == 1),
        mp == 11 ==> mp2 == 11 && d2 == (d + 1) as u32,
{
    assert((mp <= 10u32 ==> (d < (if mp == 1u32 || mp == 3u32 || mp == 6u32 || mp == 8u32 {
        30u32
    } else {
        31u32
    }) ==> mp2 == mp && d2 == (d + 1) as u32)) && (mp <= 10u32 ==> (d == (if mp == 1u32 || mp == 3u32 || mp
        == 6u32 || mp == 8u32 {
        30u32
    } else {
        31u32
    }) ==> mp2 == (mp + 1) as u32 && d2 == 1u32)) && (mp == 11u32 ==> mp2 == 11u32 && d2 == (d + 1) as u32))
        by (bit_vector)
        requires
            doy <= 364u32,
            mp == (((5 * doy) as u32 + 2) as u32) / 153,
            d == ((doy - (((153 * mp) as u32 + 2) as u32) / 5) as u32 + 1) as u32,
            mp2 == (((5 * ((doy + 1) as u32)) as u32 + 2) as u32) / 153,
            d2 == ((((doy + 1) as u32) - (((153 * mp2) as u32 + 2) as u32) / 5) as u32 + 1) as u32,
    ;
}

/// The steps of `civil_from_days` on `days`: the era and day of the era,
/// the year of the era and day of that year (both counted from March),
/// and the month (from March) and day of the month.
proof fn lemma_civil_steps(days: nat) -> (r: (int, u32, u32, u32, u32, u32))
    ensures
        r.0 >= 0,
        r.1 < 146097,
        days + 719468 == r.0 * 146097 + r.1,
        r.2 == ((((r.1 - r.1 / 1460) as u32 + r.1 / 36524) as u32 - r.1 / 146096) as u32) / 365,
        r.3 == r.1 - ((((365 * r.2) as u32 + r.2 / 4) as u32 - r.2 / 100) as u32),
        r.3 <= 365,
        r.4 == (((5 * r.3) as u32 + 2) as u32) / 153,
        r.5 == ((r.3 - (((153 * r.4) as u32 + 2) as u32) / 5) as u32 + 1) as u32,
        r.4 <= 11,
        civil_from_days(days) == (
            r.2 + r.0 * 400 + if r.4 < 10 {
                0int
            } else {
                1int
            },
            if r.4 < 10 {
                r.4 + 3
            } else {
                r.4 - 9
            },
            r.5 as int,
        ),
{
    let z = days + 719468;
    let era = z / 146097;
    let doe = z - era * 146097;
    assert(0 <= doe < 146097 && era >= 0) by (nonlinear_arith)
        requires
            era == z / 146097,
            doe == z - era * 146097,
            z >= 0,
    ;
    let yoe = (doe - doe / 1460 + doe / 36524 - doe / 146096) / 365;
    let d32 = doe as u32;
    assert(d32 / 1460 == doe / 1460 && d32 / 36524 == doe / 36524 && d32 / 146096 == doe / 146096);
    assert(doe / 146096 <= 1) by (nonlinear_arith)
        requires
            doe < 146097,
    ;
    assert(doe / 1460 <= doe && doe / 36524 <= doe) by (nonlinear_arith)
        requires
            0 <= doe,
    ;
    let y32 = ((((d32 - d32 / 1460) as u32 + d32 / 36524) as u32 - d32 / 146096) as u32) / 365;
    assert(y32 == yoe);
    lemma_year_of_era(d32, y32);
    let doy = doe - (365 * yoe + yoe / 4 - yoe / 100);
    let doy32 = (d32 - ((((365 * y32) as u32 + y32 / 4) as u32 - y32 / 100) as u32)) as u32;
    assert(doy32 == doy);
    let mp = (5 * doy + 2) / 153;
    assert(0 <= mp <= 11) by (nonlinear_arith)
        requires
            0 <= doy <= 365,
            mp == (5 * doy + 2) / 153,
    ;
    assert((153 * mp + 2) / 5 <= doy) by (nonlinear_arith)
        requires
            0 <= doy <= 365,
            mp == (5 * doy + 2) / 153,
    ;
    let mp32 = (((5 * doy32) as u32 + 2) as u32) / 153;
    assert(mp32 == mp);
    let dd32 = ((doy32 - (((153 * mp32) as u32 + 2) as u32) / 5) as u32 + 1) as u32;
    assert(dd32 == doy - (153 * mp + 2) / 5 + 1);
    (era as int, d32, y32, doy32, mp32, dd32)
}

/// The date after `(y, m, d)`.
pub open spec fn next_date(y: int, m: int, d: int) -> (int, int, int) {
    if d < days_in_month(y, m) {
        (y, m, d + 1)
    } else if m < 12 {
        (y, m + 1, 1)
    } else {
        (y + 1, 1, 1)
    }
}

/// Consecutive day numbers give consecutive dates: with the epoch's date
/// (1970-01-01), this makes every day number's date the calendar's.
#[verifier::rlimit(50)]
pub proof fn law_next_day_is_the_next_date(days: nat)
    ensures
        civil_from_days(days + 1) == next_date(
            civil_from_days(days).0,
            civil_from_days(days).1,
            civil_from_days(days).2,
        ),
{
    let (era, doe, yoe, doy, mp, d) = lemma_civil_steps(days);
    let (era2, doe2, yoe2, doy2, mp2, d2) = lemma_civil_steps(days + 1);
    lemma_day_of_month(doy, mp, d);
    lemma_day_of_month(doy2, mp2, d2);
    let (y, m, dd) = civil_from_days(days);
    let y0 = yoe + era * 400;
    if doe < 146096 {
        assert(era2 == era && doe2 == doe + 1) by (nonlinear_arith)
            requires
                days + 719468 == era * 146097 + doe,
                days + 1 + 719468 == era2 * 146097 + doe2,
                doe < 146096,
                doe2 < 146097,
                era >= 0,
                era2 >= 0,
        ;
        lemma_next_day_of_era(doe, yoe, doy, yoe2, doy2);
        if yoe2 == yoe {
            assert(doy <= 364);
            lemma_next_day_of_year(doy, mp, d, mp2, d2);
            if mp == 11 && d2 == 29 {
                assert(doy2 == 365);
                lemma_leap_day_of_era(doe2, yoe2);
                let a = yoe + 1;
                assert(y == a + era * 400);
                vstd::arithmetic::div_mod::lemma_mod_multiples_vanish((era * 100) as int, a as int, 4);
                vstd::arithmetic::div_mod::lemma_mod_multiples_vanish((era * 4) as int, a as int, 100);
                vstd::arithmetic::div_mod::lemma_mod_multiples_vanish(era as int, a as int, 400);
                assert(4 * (era * 100) + a == y && 100 * (era * 4) + a == y && 400 * era + a == y);
            }
        } else {
            // The last day of a year of the era: February's last.
            assert(doy2 == 0 && mp2 == 0 && d2 == 1);
            lemma_day_of_month(doy, mp, d);
            assert(mp == 11);
            let a = yoe + 1;
            assert(y == a + era * 400);
            vstd::arithmetic::div_mod::lemma_mod_multiples_vanish((era * 100) as int, a as int, 4);
            vstd::arithmetic::div_mod::lemma_mod_multiples_vanish((era * 4) as int, a as int, 100);
            vstd::arithmetic::div_mod::lemma_mod_multiples_vanish(era as int, a as int, 400);
            assert(4 * (era * 100) + a == y && 100 * (era * 4) + a == y && 400 * era + a == y);
            if doy == 365 {
                assert(d == 29);
                lemma_leap_day_of_era(doe, yoe);
            } else {
                assert(d == 28);
            }
        }
    } else {
        assert(era2 == era + 1 && doe2 == 0) by (nonlinear_arith)
            requires
                days + 719468 == era * 146097 + doe,
                days + 1 + 719468 == era2 * 146097 + doe2,
                doe == 146096,
                doe2 < 146097,
                era >= 0,
                era2 >= 0,
        ;
        assert(yoe == 399 && doy == 365 && mp == 11 && d == 29 && yoe2 == 0 && doy2 == 0 && mp2 == 0 && d2 == 1)
            by (bit_vector)
            requires
                doe == 146096u32,
                yoe == ((((doe - doe / 1460) as u32 + doe / 36524) as u32 - doe / 146096) as u32) / 365,
                doy == doe - ((((365 * yoe) as u32 + yoe / 4) as u32 - yoe / 100) as u32),
                mp == (((5 * doy) as u32 + 2) as u32) / 153,
                d == ((doy - (((153 * mp) as u32 + 2) as u32) / 5) as u32 + 1) as u32,
                doe2 == 0u32,
                yoe2 == ((((doe2 - doe2 / 1460) as u32 + doe2 / 36524) as u32 - doe2 / 146096) as u32) / 365,
                doy2 == doe2 - ((((365 * yoe2) as u32 + yoe2 / 4) as u32 - yoe2 / 100) as u32),
                mp2 == (((5 * doy2) as u32 + 2) as u32) / 153,
                d2 == ((doy2 - (((153 * mp2) as u32 + 2) as u32) / 5) as u32 + 1) as u32,
        ;
        assert(y == 400 * (era + 1));
        vstd::arithmetic::div_mod::lemma_mod_multiples_vanish(era + 1, 0, 400);
    }
}

/// A day number gives a real date: a month from 1 to 12, and a day from 1
/// to that month's length in that year (February 29th in leap years only).
pub proof fn law_civil_date_is_a_real_date(days: nat)
    ensures
        1 <= civil_from_days(days).1 <= 12,
        1 <= civil_from_days(days).2 <= days_in_month(civil_from_days(days).0, civil_from_days(days).1),
{
    let z = days + 719468;
    let era = z / 146097;
    let doe = z - era * 146097;
    assert(0 <= doe < 146097 && era >= 0) by (nonlinear_arith)
        requires
            era == z / 146097,
            doe == z - era * 146097,
            z >= 0,
    ;
    let yoe = (doe - doe / 1460 + doe / 36524 - doe / 146096) / 365;
    let d32 = doe as u32;
    assert(d32 / 1460 == doe / 1460 && d32 / 36524 == doe / 36524 && d32 / 146096 == doe / 146096);
    assert(doe / 146096 <= 1) by (nonlinear_arith)
        requires
            doe < 146097,
    ;
    assert(doe / 1460 <= doe && doe / 36524 <= doe) by (nonlinear_arith)
        requires
            0 <= doe,
    ;
    let y32 = ((((d32 - d32 / 1460) as u32 + d32 / 36524) as u32 - d32 / 146096) as u32) / 365;
    assert(y32 == yoe);
    lemma_year_of_era(d32, y32);
    let doy = doe - (365 * yoe + yoe / 4 - yoe / 100);
    assert(0 <= doy <= 365);
    let mp = (5 * doy + 2) / 153;
    let dd = doy - (153 * mp + 2) / 5 + 1;
    assert(0 <= mp <= 11) by (nonlinear_arith)
        requires
            0 <= doy <= 365,
            mp == (5 * doy + 2) / 153,
    ;
    assert((153 * mp + 2) / 5 <= doy) by (nonlinear_arith)
        requires
            0 <= doy <= 365,
            mp == (5 * doy + 2) / 153,
    ;
    lemma_day_of_month(doy as u32, mp as u32, dd as u32);
    let (y, m, d) = civil_from_days(days);
    assert(d == dd && m == if mp < 10 {
        mp + 3
    } else {
        mp - 9
    });
    if mp == 11 && dd == 29 {
        assert(d32 - ((((365 * y32) as u32 + y32 / 4) as u32 - y32 / 100) as u32) == 365);
        lemma_leap_day_of_era(d32, y32);
        let a = yoe + 1;
        assert(y == a + era * 400);
        vstd::arithmetic::div_mod::lemma_mod_multiples_vanish((era * 100) as int, a as int, 4);
        vstd::arithmetic::div_mod::lemma_mod_multiples_vanish((era * 4) as int, a as int, 100);
        vstd::arithmetic::div_mod::lemma_mod_multiples_vanish(era as int, a as int, 400);
        assert(4 * (era * 100) + a == y && 100 * (era * 4) + a == y && 400 * era + a == y);
    }
}

proof fn lemma_decimal_short(n: nat)
    ensures
        decimal(n).len() >= 1,
        n < 100 ==> decimal(n).len() <= 2,
        1000 <= n < 10000 ==> decimal(n).len() == 4,
    decreases n,
{
    if n >= 10 {
        lemma_decimal_short(n / 10);
        assert(decimal(n).len() == decimal(n / 10).len() + 1);
        if n < 100 {
            assert(n / 10 < 10);
        }
        if 1000 <= n < 10000 {
            assert(100 <= n / 10 < 1000);
            lemma_decimal_short(n / 100);
            assert(n / 10 / 10 == n / 100);
            assert(10 <= n / 100 < 100);
            assert(decimal(n / 10).len() == decimal(n / 100).len() + 1);
            assert(decimal(n / 100).len() == decimal(n / 100 / 10).len() + 1);
            assert(n / 100 / 10 < 10);
        }
    }
}

proof fn lemma_padded_width(n: nat, w: nat)
    requires
        decimal(n).len() <= w,
    ensures
        padded(n, w).len() == w,
{
}

/// The year of every day before the year 10000 has four digits: from 1970
/// to 9999.
proof fn lemma_year_before_ten_thousand(days: nat)
    requires
        days < 2932897,
    ensures
        1970 <= civil_from_days(days).0 <= 9999,
{
    let z = days + 719468;
    let era = z / 146097;
    let doe = z - era * 146097;
    assert(0 <= doe < 146097 && 4 <= era <= 24) by (nonlinear_arith)
        requires
            era == z / 146097,
            doe == z - era * 146097,
            719468 <= z < 3652365,
    ;
    let yoe = (doe - doe / 1460 + doe / 36524 - doe / 146096) / 365;
    let d32 = doe as u32;
    assert(d32 / 1460 == doe / 1460 && d32 / 36524 == doe / 36524 && d32 / 146096 == doe / 146096);
    assert(doe / 146096 <= 1) by (nonlinear_arith)
        requires
            doe < 146097,
    ;
    assert(doe / 1460 <= doe && doe / 36524 <= doe) by (nonlinear_arith)
        requires
            0 <= doe,
    ;
    let y32 = ((((d32 - d32 / 1460) as u32 + d32 / 36524) as u32 - d32 / 146096) as u32) / 365;
    assert(y32 == yoe);
    lemma_year_of_era(d32, y32);
    let doy = doe - (365 * yoe + yoe / 4 - yoe / 100);
    let mp = (5 * doy + 2) / 153;
    let (y, m, d) = civil_from_days(days);
    if era == 24 && yoe == 399 {
        assert(z == 3506328 + doe);
        assert(doy < 306);
        assert(mp < 10) by (nonlinear_arith)
            requires
                0 <= doy < 306,
                mp == (5 * doy + 2) / 153,
        ;
    }
    if days >= 0 {
        assert(era >= 4);
        assert(z < 719468 + 2932897);
    }
    assert(y == (if m <= 2 { yoe + era * 400 + 1 } else { yoe + era * 400 }));
    if era == 4 {
        assert(z - 584388 == doe);
        assert(doe >= 135080);
        assert(yoe >= 369) by (nonlinear_arith)
            requires
                135080 <= doe < 146097,
                doe / 146096 <= 1,
                yoe == (doe - doe / 1460 + doe / 36524 - doe / 146096) / 365,
        ;
    }
}

/// A timestamp before the year 10000 (secs below 253402300800) reads
/// `YYYY-MM-DDTHH:MM:SSZ`: twenty characters, each field at its place and
/// zero-padded to its width.
pub proof fn law_timestamp_text_is_twenty_characters(secs: nat)
    requires
        secs < 253402300800,
    ensures
        timestamp_text(secs).len() == 20,
        timestamp_text(secs)[4] == '-' && timestamp_text(secs)[7] == '-' && timestamp_text(secs)[10] == 'T'
            && timestamp_text(secs)[13] == ':' && timestamp_text(secs)[16] == ':' && timestamp_text(secs)[19] == 'Z',
{
    let (y, m, d) = civil_from_days(secs / 86400);
    let t = secs % 86400;
    lemma_year_before_ten_thousand(secs / 86400);
    law_civil_date_is_a_real_date(secs / 86400);
    lemma_decimal_short(y as nat);
    lemma_decimal_short(m as nat);
    assert(d <= 31);
    lemma_decimal_short(d as nat);
    assert(t / 3600 < 24 && (t / 60) % 60 < 60 && t % 60 < 60);
    lemma_decimal_short(t / 3600);
    lemma_decimal_short((t / 60) % 60);
    lemma_decimal_short(t % 60);
    lemma_padded_width(y as nat, 4);
    lemma_padded_width(m as nat, 2);
    lemma_padded_width(d as nat, 2);
    lemma_padded_width(t / 3600, 2);
    lemma_padded_width((t / 60) % 60, 2);
    lemma_padded_width(t % 60, 2);
}

/// `a` sorts before `b`: both agree up to a position where `a`'s character
/// is the smaller.
pub open spec fn sorts_before(a: Seq<char>, b: Seq<char>) -> bool {
    exists|k: int| 0 <= k < a.len() && k < b.len() && a.take(k) == b.take(k) && (a[k] as u32) < (b[k] as u32)
}

pub open spec fn pow10(w: nat) -> nat
    decreases w,
{
    if w == 0 {
        1
    } else {
        10 * pow10((w - 1) as nat)
    }
}

proof fn lemma_decimal_fits(n: nat, w: nat)
    requires
        1 <= w,
        n < pow10(w),
    ensures
        decimal(n).len() <= w,
    decreases w,
{
    reveal_with_fuel(pow10, 2);
    if n >= 10 {
        assert(w >= 2);
        assert(n / 10 < pow10((w - 1) as nat));
        lemma_decimal_fits(n / 10, (w - 1) as nat);
    }
}

/// A zero-padded number is the padded number without its last digit,
/// followed by that digit.
proof fn lemma_padded_last_digit(n: nat, w: nat)
    requires
        1 <= w,
        n < pow10(w),
    ensures
        padded(n, w).len() == w,
        padded(n, w) == (if w == 1 {
            Seq::<char>::empty()
        } else {
            padded(n / 10, (w - 1) as nat)
        }).push(digit_char((n % 10) as int)),
{
    lemma_decimal_fits(n, w);
    let c = digit_char((n % 10) as int);
    if n >= 10 {
        assert(w >= 2);
        lemma_decimal_fits(n / 10, (w - 1) as nat);
        let d = decimal(n / 10);
        assert(decimal(n) == d.push(c));
        assert(padded(n, w) =~= padded(n / 10, (w - 1) as nat).push(c));
    } else {
        assert(decimal(n) == seq![c]);
        if w >= 2 {
            assert(decimal(0) == seq!['0']);
            assert(padded(0, (w - 1) as nat) =~= Seq::new((w - 1) as nat, |i: int| '0'));
            assert(padded(n, w) =~= padded(n / 10, (w - 1) as nat).push(c));
        } else {
            assert(padded(n, w) =~= Seq::<char>::empty().push(c));
        }
    }
}

/// Zero-padded to the same width, a smaller number sorts first.
proof fn lemma_padded_order(n1: nat, n2: nat, w: nat)
    requires
        1 <= w,
        n1 < n2 < pow10(w),
    ensures
        sorts_before(padded(n1, w), padded(n2, w)),
    decreases w,
{
    reveal_with_fuel(pow10, 2);
    lemma_padded_last_digit(n1, w);
    lemma_padded_last_digit(n2, w);
    let a = padded(n1, w);
    let b = padded(n2, w);
    if n1 / 10 == n2 / 10 {
        let k = w - 1;
        assert(n1 % 10 < n2 % 10);
        if w >= 2 {
            assert(a.take(k) =~= padded(n1 / 10, (w - 1) as nat));
            assert(b.take(k) =~= padded(n2 / 10, (w - 1) as nat));
        } else {
            assert(a.take(k) =~= b.take(k));
        }
        assert(a[k] == digit_char((n1 % 10) as int) && b[k] == digit_char((n2 % 10) as int));
        assert((a[k] as u32) < (b[k] as u32));
    } else {
        assert(n1 / 10 < n2 / 10);
        assert(w >= 2);
        assert(n2 / 10 < pow10((w - 1) as nat));
        lemma_padded_order(n1 / 10, n2 / 10, (w - 1) as nat);
        let p1 = padded(n1 / 10, (w - 1) as nat);
        let p2 = padded(n2 / 10, (w - 1) as nat);
        let k = choose|k: int| 0 <= k < p1.len() && k < p2.len() && p1.take(k) == p2.take(k) && (p1[k] as u32) < (
        p2[k] as u32);
        assert(a.take(k) =~= p1.take(k));
        assert(b.take(k) =~= p2.take(k));
        assert(a[k] == p1[k] && b[k] == p2[k]);
    }
}

/// What sorts first stays first behind a common beginning and before any
/// endings.
proof fn lemma_sorts_before_within(pre: Seq<char>, a: Seq<char>, b: Seq<char>, c: Seq<char>, d: Seq<char>)
    requires
        sorts_before(a, b),
    ensures
        sorts_before(pre + a + c, pre + b + d),
{
    let k = choose|k: int| 0 <= k < a.len() && k < b.len() && a.take(k) == b.take(k) && (a[k] as u32) < (b[k] as u32);
    let x = pre + a + c;
    let y = pre + b + d;
    let j = pre.len() + k;
    assert(x.take(j) =~= pre + a.take(k));
    assert(y.take(j) =~= pre + b.take(k));
    assert(x[j] == a[k] && y[j] == b[k]);
}

/// Later days have later dates.
proof fn lemma_dates_increase(d1: nat, d2: nat)
    requires
        d1 < d2,
    ensures
        ({
            let (y1, m1, e1) = civil_from_days(d1);
            let (y2, m2, e2) = civil_from_days(d2);
            y1 < y2 || (y1 == y2 && (m1 < m2 || (m1 == m2 && e1 < e2)))
        }),
    decreases d2 - d1,
{
    law_next_day_is_the_next_date(d1);
    law_civil_date_is_a_real_date(d1);
    if d1 + 1 < d2 {
        lemma_dates_increase(d1 + 1, d2);
    }
}

/// The time of day `t` (below 86400) as hours, minutes and seconds: a later
/// time has a later triple.
proof fn lemma_clock_increases(t1: nat, t2: nat)
    requires
        t1 < t2 < 86400,
    ensures
        t1 / 3600 < t2 / 3600 || (t1 / 3600 == t2 / 3600 && ((t1 / 60) % 60 < (t2 / 60) % 60 || ((t1 / 60) % 60 == (
            t2 / 60) % 60 && t1 % 60 < t2 % 60))),
{
    assert(t1 / 3600 <= t2 / 3600) by (nonlinear_arith)
        requires
            t1 < t2,
    ;
    assert(t1 / 60 <= t2 / 60) by (nonlinear_arith)
        requires
            t1 < t2,
    ;
    if t1 / 3600 == t2 / 3600 {
        assert(t1 / 60 == 60 * (t1 / 3600) + (t1 / 60) % 60 && t2 / 60 == 60 * (t2 / 3600) + (t2 / 60) % 60) by (
        nonlinear_arith)
            requires
                t1 >= 0,
                t2 >= 0,
        ;
        if (t1 / 60) % 60 == (t2 / 60) % 60 {
            assert(t1 / 60 == t2 / 60);
            assert(t1 == 60 * (t1 / 60) + t1 % 60 && t2 == 60 * (t2 / 60) + t2 % 60) by (nonlinear_arith)
                requires
                    t1 >= 0,
                    t2 >= 0,
            ;
        }
    }
}

/// The text of a date and a time of day, each field zero-padded.
pub open spec fn stamp(y: nat, mo: nat, d: nat, hh: nat, mi: nat, ss: nat) -> Seq<char> {
    padded(y, 4) + seq!['-'] + padded(mo, 2) + seq!['-'] + padded(d, 2) + seq!['T'] + padded(hh, 2) + seq![':']
        + padded(mi, 2) + seq![':'] + padded(ss, 2) + seq!['Z']
}

/// Where the field that starts at `at` and has width `w` stands in a stamp.
proof fn lemma_stamp_field(x: Seq<char>, at: int, w: int, f: Seq<char>)
    requires
        0 <= at,
        at + w <= x.len(),
        f.len() == w,
        x.subrange(at, at + w) == f,
    ensures
        x == x.take(at) + f + x.skip(at + w),
{
    assert(x =~= x.take(at) + f + x.skip(at + w));
}

#[verifier::rlimit(40)]
proof fn lemma_stamp_order(a: (nat, nat, nat, nat, nat, nat), b: (nat, nat, nat, nat, nat, nat))
    requires
        a.0 < 10000 && b.0 < 10000,
        a.1 < 100 && b.1 < 100 && a.2 < 100 && b.2 < 100,
        a.3 < 100 && b.3 < 100 && a.4 < 100 && b.4 < 100 && a.5 < 100 && b.5 < 100,
        a.0 < b.0 || (a.0 == b.0 && (a.1 < b.1 || (a.1 == b.1 && (a.2 < b.2 || (a.2 == b.2 && (a.3 < b.3 || (a.3
            == b.3 && (a.4 < b.4 || (a.4 == b.4 && a.5 < b.5))))))))),
    ensures
        sorts_before(stamp(a.0, a.1, a.2, a.3, a.4, a.5), stamp(b.0, b.1, b.2, b.3, b.4, b.5)),
{
    assert(pow10(2) == 100 && pow10(4) == 10000) by {
        reveal_with_fuel(pow10, 5);
    }
    lemma_padded_last_digit(a.0, 4);
    lemma_padded_last_digit(b.0, 4);
    lemma_padded_last_digit(a.1, 2);
    lemma_padded_last_digit(b.1, 2);
    lemma_padded_last_digit(a.2, 2);
    lemma_padded_last_digit(b.2, 2);
    lemma_padded_last_digit(a.3, 2);
    lemma_padded_last_digit(b.3, 2);
    lemma_padded_last_digit(a.4, 2);
    lemma_padded_last_digit(b.4, 2);
    lemma_padded_last_digit(a.5, 2);
    lemma_padded_last_digit(b.5, 2);
    let x = stamp(a.0, a.1, a.2, a.3, a.4, a.5);
    let z = stamp(b.0, b.1, b.2, b.3, b.4, b.5);
    assert(x.len() == 20 && z.len() == 20);
    let (at, w, f1, f2) = if a.0 < b.0 {
        (0int, 4int, padded(a.0, 4), padded(b.0, 4))
    } else if a.1 < b.1 {
        (5int, 2int, padded(a.1, 2), padded(b.1, 2))
    } else if a.2 < b.2 {
        (8int, 2int, padded(a.2, 2), padded(b.2, 2))
    } else if a.3 < b.3 {
        (11int, 2int, padded(a.3, 2), padded(b.3, 2))
    } else if a.4 < b.4 {
        (14int, 2int, padded(a.4, 2), padded(b.4, 2))
    } else {
        (17int, 2int, padded(a.5, 2), padded(b.5, 2))
    };
    if a.0 < b.0 {
        lemma_padded_order(a.0, b.0, 4);
    } else if a.1 < b.1 {
        lemma_padded_order(a.1, b.1, 2);
    } else if a.2 < b.2 {
        lemma_padded_order(a.2, b.2, 2);
    } else if a.3 < b.3 {
        lemma_padded_order(a.3, b.3, 2);
    } else if a.4 < b.4 {
        lemma_padded_order(a.4, b.4, 2);
    } else {
        lemma_padded_order(a.5, b.5, 2);
    }
    assert(x.subrange(at, at + w) =~= f1);
    assert(z.subrange(at, at + w) =~= f2);
    assert(x.take(at) =~= z.take(at));
    lemma_stamp_field(x, at, w, f1);
    lemma_stamp_field(z, at, w, f2);
    lemma_sorts_before_within(x.take(at), f1, f2, x.skip(at + w), z.skip(at + w));
}

/// Timestamp texts before the year 10000 sort as the seconds do: a later
/// time gives a text that sorts after.
pub proof fn law_timestamp_texts_sort_like_the_seconds(s1: nat, s2: nat)
    requires
        s1 < s2 < 253402300800,
    ensures
        sorts_before(timestamp_text(s1), timestamp_text(s2)),
{
    let days1 = s1 / 86400;
    let days2 = s2 / 86400;
    let t1 = s1 % 86400;
    let t2 = s2 % 86400;
    assert(days1 <= days2) by (nonlinear_arith)
        requires
            s1 < s2,
            days1 == s1 / 86400,
            days2 == s2 / 86400,
    ;
    lemma_year_before_ten_thousand(days1);
    lemma_year_before_ten_thousand(days2);
    law_civil_date_is_a_real_date(days1);
    law_civil_date_is_a_real_date(days2);
    let (y1, m1, e1) = civil_from_days(days1);
    let (y2, m2, e2) = civil_from_days(days2);
    let a = (y1 as nat, m1 as nat, e1 as nat, t1 / 3600, (t1 / 60) % 60, t1 % 60);
    let b = (y2 as nat, m2 as nat, e2 as nat, t2 / 3600, (t2 / 60) % 60, t2 % 60);
    assert(timestamp_text(s1) == stamp(a.0, a.1, a.2, a.3, a.4, a.5));
    assert(timestamp_text(s2) == stamp(b.0, b.1, b.2, b.3, b.4, b.5));
    if days1 < days2 {
        lemma_dates_increase(days1, days2);
    } else {
        assert(t1 < t2) by (nonlinear_arith)
            requires
                s1 < s2,
                s1 / 86400 == s2 / 86400,
                t1 == s1 % 86400,
                t2 == s2 % 86400,
        ;
        lemma_clock_increases(t1, t2);
    }
    lemma_stamp_order(a, b);
}

/// Formats a Unix timestamp (seconds since the epoch, UTC) as
/// `YYYY-MM-DDTHH:MM:SSZ`.
pub fn format_unix_timestamp(secs_since_epoch: u64) -> (r: String)
    ensures
        r@ == timestamp_text(secs_since_epoch as nat),
{
    let days = secs_since_epoch / 86400;
    let time_of_day = secs_since_epoch % 86400;
    let (year, month, day) = civil_from_days_exec(days);
    let hour = time_of_day / 3600;
    let minute = (time_of_day / 60) % 60;
    let second = time_of_day % 60;
    let ghost (y, m, d) = civil_from_days(days as nat);
    let mut out = padded_chars(year, 4);
    out.push('-');
    let ghost s1 = out@;
    extend_all(&mut out, padded_chars(month as u64, 2).as_slice());
    out.push('-');
    extend_all(&mut out, padded_chars(day as u64, 2).as_slice());
    out.push('T');
    let ghost s2 = out@;
    assert(s2 == padded(y as nat, 4) + seq!['-'] + padded(m as nat, 2) + seq!['-'] + padded(d as nat, 2) + seq!['T']);
    extend_all(&mut out, padded_chars(hour, 2).as_slice());
    out.push(':');
    extend_all(&mut out, padded_chars(minute, 2).as_slice());
    out.push(':');
    extend_all(&mut out, padded_chars(second, 2).as_slice());
    out.push('Z');
    assert(out@ =~= timestamp_text(secs_since_epoch as nat));
    string_of(out.as_slice())
}

} // verus!
