//! Proleptic-Gregorian calendar arithmetic on plain integers: Unix day
//! numbers to civil dates and back.
//!
//! Both directions are exact integer computations; the specification
//! functions mirror them over unbounded integers, and all executable
//! divisions run on nonnegative values, where machine and mathematical
//! division agree.

use vstd::prelude::*;

verus! {

/// A calendar date.
#[derive(PartialEq, Eq, Structural, Clone, Copy, Debug)]
pub struct Date {
    pub year: i64,
    pub month: i64,
    pub day: i64,
}

/// Day number (days since 1970-01-01) containing the instant `ts`.
pub open spec fn spec_day_number(ts: int) -> int {
    ts / 86400
}

/// Civil date `(year, month, day)` of day number `z0`.
pub open spec fn spec_civil_from_days(z0: int) -> (int, int, int) {
    let z = z0 + 719468;
    let era = z / 146097;
    let doe = z - era * 146097;
    let yoe = (doe - doe / 1460 + doe / 36524 - doe / 146096) / 365;
    let y = yoe + era * 400;
    let doy0 = doe - (365 * yoe + yoe / 4 - yoe / 100);
    let doy = if doy0 < 0 {
        0
    } else {
        doy0
    };
    let mp = (5 * doy + 2) / 153;
    let d = doy - (153 * mp + 2) / 5 + 1;
    let m = if mp < 10 {
        mp + 3
    } else {
        mp - 9
    };
    (
        if m <= 2 {
            y + 1
        } else {
            y
        },
        m,
        d,
    )
}

/// Day number of the civil date `(y, m, d)`.
pub open spec fn spec_days_from_civil(y: int, m: int, d: int) -> int {
    let yy = if m <= 2 {
        y - 1
    } else {
        y
    };
    let era = yy / 400;
    let yoe = yy - era * 400;
    let mp = if m > 2 {
        m - 3
    } else {
        m + 9
    };
    let doy = (153 * mp + 2) / 5 + d - 1;
    let doe = yoe * 365 + yoe / 4 - yoe / 100 + doy;
    era * 146097 + doe - 719468
}

/// The month after `(y, m)`, wrapping December into January.
pub open spec fn spec_next_month(y: int, m: int) -> (int, int) {
    if m == 12 {
        (y + 1, 1)
    } else {
        (y, m + 1)
    }
}

/// Converts a day number to its civil date.
pub fn civil_from_days(z0: i64) -> (r: Date)
    requires
        0 <= z0 <= 3000000,
    ensures
        (r.year as int, r.month as int, r.day as int) == spec_civil_from_days(z0 as int),
{
    let z: u64 = (z0 as u64) + 719468;
    let era: u64 = z / 146097;
    let doe: u64 = z - era * 146097;
    proof {
        assert(era * 146097 <= z) by {
            assert(z == 146097 * (z / 146097) + z % 146097) by (nonlinear_arith);
            assert(z % 146097 >= 0);
        }
        assert(doe == z - era * 146097);
        assert(doe < 146097) by {
            assert(z == 146097 * (z / 146097) + z % 146097) by (nonlinear_arith);
            assert(z % 146097 < 146097);
        }
    }
    let shrink: u64 = doe / 1460 + doe / 146096;
    proof {
        assert(doe / 1460 * 1460 <= doe) by {
            assert(doe == 1460 * (doe / 1460) + doe % 1460) by (nonlinear_arith);
            assert(doe % 1460 >= 0);
        }
        assert(doe / 146096 <= 1);
        assert(shrink <= doe);
    }
    let yoe: u64 = (doe - shrink + doe / 36524) / 365;
    let y: u64 = yoe + era * 400;
    let grow: u64 = 365 * yoe + yoe / 4;
    proof {
        assert(yoe <= 401);
        assert(yoe / 100 <= grow);
    }
    let sub: u64 = grow - yoe / 100;
    let doy: u64 = if doe < sub {
        0
    } else {
        doe - sub
    };
    let mp: u64 = (5 * doy + 2) / 153;
    proof {
        assert(153 * mp <= 5 * doy + 2) by {
            let a = 5 * doy + 2;
            assert(a == 153 * (a / 153) + a % 153) by (nonlinear_arith);
            assert(a % 153 >= 0);
        }
        assert((153 * mp + 2) / 5 <= doy) by {
            assert(153 * mp + 2 <= 5 * doy + 4);
            assert((153 * mp + 2) / 5 <= (5 * doy + 4) / 5) by {
                vstd::arithmetic::div_mod::lemma_div_is_ordered(
                    (153 * mp + 2) as int,
                    (5 * doy + 4) as int,
                    5,
                );
            }
            assert((5 * doy + 4) / 5 == doy) by (nonlinear_arith);
        }
    }
    let d: u64 = doy - (153 * mp + 2) / 5 + 1;
    let m: u64 = if mp < 10 {
        mp + 3
    } else {
        mp - 9
    };
    let year: u64 = if m <= 2 {
        y + 1
    } else {
        y
    };
    Date { year: year as i64, month: m as i64, day: d as i64 }
}

/// Converts a civil date to its day number.  The day of month is not
/// checked against the month's length; the callers only hand dates read
/// back from `civil_from_days` or the first of a month.
pub fn days_from_civil(y: i64, m: i64, d: i64) -> (r: i64)
    requires
        1 <= y <= 20000000,
        1 <= m <= 20000000,
        1 <= d <= 31,
    ensures
        r as int == spec_days_from_civil(y as int, m as int, d as int),
{
    let yy: u64 = if m <= 2 {
        (y - 1) as u64
    } else {
        y as u64
    };
    let era: u64 = yy / 400;
    let yoe: u64 = yy - era * 400;
    proof {
        assert(era * 400 <= yy) by {
            assert(yy == 400 * (yy / 400) + yy % 400) by (nonlinear_arith);
            assert(yy % 400 >= 0);
        }
        assert(yoe < 400) by {
            assert(yy == 400 * (yy / 400) + yy % 400) by (nonlinear_arith);
            assert(yy % 400 < 400);
        }
    }
    let mp: u64 = if m > 2 {
        (m - 3) as u64
    } else {
        (m + 9) as u64
    };
    let doy: u64 = (153 * mp + 2) / 5 + (d as u64) - 1;
    let doe: u64 = yoe * 365 + yoe / 4 - yoe / 100 + doy;
    proof {
        assert(yoe / 100 <= yoe * 365 + yoe / 4);
    }
    let days_shifted: u64 = era * 146097 + doe;
    (days_shifted as i64) - 719468
}

/// Day number of the first second of the day holding `ts`.
pub fn day_number_of_timestamp(ts: i64) -> (r: i64)
    requires
        0 <= ts <= crate::TS_MAX,
    ensures
        r as int == spec_day_number(ts as int),
        0 <= r <= 2932896,
{
    let r: u64 = (ts as u64) / 86400;
    proof {
        assert((ts as u64) / 86400 <= 253402300799u64 / 86400) by {
            vstd::arithmetic::div_mod::lemma_div_is_ordered(ts as int, 253402300799, 86400);
        }
    }
    r as i64
}

/// Civil date of the instant `ts`.
pub fn date_of_timestamp(ts: i64) -> (r: Date)
    requires
        0 <= ts <= crate::TS_MAX,
    ensures
        (r.year as int, r.month as int, r.day as int)
            == spec_civil_from_days(spec_day_number(ts as int)),
{
    let z = day_number_of_timestamp(ts);
    civil_from_days(z)
}

/// Coarse range of a day number computed from bounded date fields.
pub proof fn lemma_days_bounds(y: int, m: int, d: int)
    requires
        1 <= y <= 300000,
        1 <= m <= 300000,
        1 <= d <= 31,
    ensures
        -719468 <= spec_days_from_civil(y, m, d) <= 200000000,
{
    let yy = if m <= 2 { y - 1 } else { y };
    assert(0 <= yy <= 300000);
    let era = yy / 400;
    assert(0 <= era <= 750) by {
        vstd::arithmetic::div_mod::lemma_div_pos_is_pos(yy, 400);
        vstd::arithmetic::div_mod::lemma_div_is_ordered(yy, 300000, 400);
        assert(300000int / 400 == 750);
    }
    let yoe = yy - era * 400;
    assert(0 <= yoe < 400) by {
        vstd::arithmetic::div_mod::lemma_fundamental_div_mod(yy, 400);
        vstd::arithmetic::div_mod::lemma_mod_division_less_than_divisor(yy, 400);
    }
    let mp = if m > 2 { m - 3 } else { m + 9 };
    assert(0 <= mp <= 300000);
    let doy = (153 * mp + 2) / 5 + d - 1;
    assert(0 <= doy <= 9180031) by {
        vstd::arithmetic::div_mod::lemma_div_pos_is_pos(153 * mp + 2, 5);
        vstd::arithmetic::div_mod::lemma_div_is_ordered(153 * mp + 2, (153 * 300000 + 2) as int, 5);
        assert((153 * 300000 + 2) as int / 5 == 9180000);
    }
    let doe = yoe * 365 + yoe / 4 - yoe / 100 + doy;
    assert(0 <= doe <= 9325765) by {
        vstd::arithmetic::div_mod::lemma_div_pos_is_pos(yoe, 4);
        vstd::arithmetic::div_mod::lemma_div_pos_is_pos(yoe, 100);
        vstd::arithmetic::div_mod::lemma_div_is_ordered(yoe, 399, 4);
        assert(399int / 4 == 99);
        vstd::arithmetic::div_mod::lemma_div_nonincreasing(yoe, 100);
    }
    assert(era * 146097 <= 109572750);
}

/// Dividing `n` and `n - 1` by `k` differ by one exactly when `k`
/// divides `n`.
proof fn lemma_div_step(n: int, k: int)
    requires
        n >= 1,
        k >= 2,
    ensures
        n % k == 0 ==> n / k == (n - 1) / k + 1,
        n % k != 0 ==> n / k == (n - 1) / k,
{
    vstd::arithmetic::div_mod::lemma_fundamental_div_mod(n, k);
    vstd::arithmetic::div_mod::lemma_mod_division_less_than_divisor(n, k);
    if n % k == 0 {
        assert(n - 1 == (n / k - 1) * k + (k - 1)) by (nonlinear_arith)
            requires
                n == k * (n / k) + n % k,
                n % k == 0,
        ;
        vstd::arithmetic::div_mod::lemma_fundamental_div_mod_converse(n - 1, k, n / k - 1, k - 1);
    } else {
        assert(n - 1 == (n / k) * k + (n % k - 1)) by (nonlinear_arith)
            requires
                n == k * (n / k) + n % k,
        ;
        vstd::arithmetic::div_mod::lemma_fundamental_div_mod_converse(n - 1, k, n / k, n % k - 1);
    }
}

/// Advancing to the first day of the next calendar month increases the
/// day number by at least 28 days.
pub proof fn lemma_days_next_month(y: int, m: int)
    requires
        1 <= y <= 19000000,
        1 <= m <= 19000000,
    ensures
        ({
            let (y2, m2) = spec_next_month(y, m);
            spec_days_from_civil(y2, m2, 1) >= spec_days_from_civil(y, m, 1) + 28
        }),
{
    if m == 12 {
        // both sides share the shifted year; day-of-year moves 275 to 306
        assert(((153 * 9 + 2) as int) / 5 == 275);
        assert(((153 * 10 + 2) as int) / 5 == 306);
    } else if m == 1 {
        assert(((153 * 10 + 2) as int) / 5 == 306);
        assert(((153 * 11 + 2) as int) / 5 == 337);
    } else if m == 2 {
        // the shifted year steps by 365 or 366; day-of-year falls 337 to 0
        assert(((153 * 11 + 2) as int) / 5 == 337);
        assert((2 as int) / 5 == 0);
        lemma_div_step(y, 400);
        vstd::arithmetic::div_mod::lemma_fundamental_div_mod(y, 400);
        vstd::arithmetic::div_mod::lemma_mod_division_less_than_divisor(y, 400);
        if y % 400 == 0 {
            assert(y - 400 * (y / 400) == 0);
            assert((y - 1) / 400 == y / 400 - 1);
            assert((y - 1) - 400 * ((y - 1) / 400) == 399);
            assert((399 as int) / 4 == 99);
            assert((399 as int) / 100 == 3);
        } else {
            assert((y - 1) / 400 == y / 400);
            let yoe1 = y - 400 * (y / 400);
            let yoe0 = (y - 1) - 400 * ((y - 1) / 400);
            assert(yoe1 == y % 400);
            assert(1 <= yoe1 <= 399);
            assert(yoe0 == yoe1 - 1);
            lemma_div_step(yoe1, 4);
            lemma_div_step(yoe1, 100);
            if yoe1 % 100 == 0 {
                vstd::arithmetic::div_mod::lemma_fundamental_div_mod(yoe1, 100);
                assert(100 * (yoe1 / 100) == 4 * (25 * (yoe1 / 100))) by (nonlinear_arith);
                vstd::arithmetic::div_mod::lemma_fundamental_div_mod_converse(
                    yoe1,
                    4,
                    25 * (yoe1 / 100),
                    0,
                );
                assert(yoe1 % 4 == 0);
            }
            assert(yoe1 / 4 - yoe0 / 4 >= yoe1 / 100 - yoe0 / 100);
        }
    } else {
        // within the shifted year: day-of-year grows by at least 30
        let n = 153 * (m - 3) + 2;
        assert(n >= 2);
        vstd::arithmetic::div_mod::lemma_hoist_over_denominator(n, 30, 5nat);
        assert(n / 5 + 30 == (n + 150) / 5);
        vstd::arithmetic::div_mod::lemma_div_is_ordered(n + 150, n + 153, 5);
        assert(153 * ((m + 1) - 3) + 2 == n + 153);
    }
}

/// Ranges of the date read back from a day number in the supported span;
/// enough to feed the date into `days_from_civil` again.
pub proof fn lemma_civil_ranges(z0: int)
    requires
        0 <= z0 <= 3000000,
    ensures
        ({
            let (y, m, d) = spec_civil_from_days(z0);
            1 <= y <= 12000 && 1 <= m <= 6000 && 1 <= d <= 3000000
        }),
{
    let z = z0 + 719468;
    let era = z / 146097;
    assert(4 <= era <= 26) by {
        vstd::arithmetic::div_mod::lemma_div_is_ordered(584388, z, 146097);
        vstd::arithmetic::div_mod::lemma_div_is_ordered(z, 3944618, 146097);
        assert(584388int / 146097 == 4);
        assert(3944618int / 146097 == 26);
    }
    let doe = z - era * 146097;
    assert(0 <= doe < 146097) by {
        assert(z == 146097 * (z / 146097) + z % 146097) by (nonlinear_arith);
    }
    let num = doe - doe / 1460 + doe / 36524 - doe / 146096;
    assert(0 <= num <= 146100) by {
        assert(doe / 1460 * 1460 <= doe) by {
            assert(doe == 1460 * (doe / 1460) + doe % 1460) by (nonlinear_arith);
        }
        assert(0 <= doe / 146096 <= 1);
        assert(0 <= doe / 36524 <= 4) by {
            vstd::arithmetic::div_mod::lemma_div_is_ordered(doe, 146097, 36524);
            assert(146097int / 36524 == 4);
        }
        assert(doe / 1460 + doe / 146096 <= doe);
    }
    let yoe = num / 365;
    assert(0 <= yoe <= 400) by {
        vstd::arithmetic::div_mod::lemma_div_is_ordered(num, 146100, 365);
        assert(146100int / 365 == 400);
    }
    let y = yoe + era * 400;
    assert(1600 <= y <= 11000);
    let doy0 = doe - (365 * yoe + yoe / 4 - yoe / 100);
    let doy = if doy0 < 0 { 0 } else { doy0 };
    assert(0 <= doy <= doe) by {
        assert(yoe / 100 <= 365 * yoe + yoe / 4);
    }
    let mp = (5 * doy + 2) / 153;
    assert(0 <= mp <= 4774) by {
        vstd::arithmetic::div_mod::lemma_div_is_ordered(5 * doy + 2, (5 * 146096 + 2) as int, 153);
        assert((5 * 146096 + 2) as int / 153 == 4774);
    }
    let d = doy - (153 * mp + 2) / 5 + 1;
    assert(1 <= d <= 3000000) by {
        assert(153 * mp <= 5 * doy + 2) by {
            let a = 5 * doy + 2;
            assert(a == 153 * (a / 153) + a % 153) by (nonlinear_arith);
        }
        assert(153 * mp + 2 <= 5 * doy + 4);
        vstd::arithmetic::div_mod::lemma_div_is_ordered(153 * mp + 2, 5 * doy + 4, 5);
        assert((5 * doy + 4) / 5 == doy) by (nonlinear_arith);
        assert(0 <= (153 * mp + 2) / 5) by {
            assert(153 * mp + 2 >= 0);
        }
    }
    let m = if mp < 10 { mp + 3 } else { mp - 9 };
    assert(1 <= m <= 6000);
}

} // verus!
