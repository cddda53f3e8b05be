//! Proleptic-Gregorian calendar arithmetic for dates at or after 1970-01-01.
//!
//! The mathematical model is `days_before_year`, a recursive sum of year
//! lengths since the epoch year.  The executable code uses the closed-form
//! count `(y - 1970) * 365 + (y - 1969) / 4` corrected by the number of
//! non-leap century years from 2000 on; `lemma_days_before_year_formula`
//! proves that form equal to the model.
use vstd::prelude::*;

verus! {

pub const EPOCH_YEAR: u64 = 1970;

pub const MICROS_PER_SECOND: u64 = 1000000;

pub const MICROS_PER_MINUTE: u64 = 60000000;

pub const MICROS_PER_HOUR: u64 = 3600000000;

pub const MICROS_PER_DAY: u64 = 86400000000;

/// A year is leap when divisible by 4, except centuries not divisible by 400.
pub open spec fn is_leap_year(y: int) -> bool {
    y % 4 == 0 && (y % 100 != 0 || y % 400 == 0)
}

pub open spec fn year_len(y: int) -> int {
    if is_leap_year(y) {
        366
    } else {
        365
    }
}

/// Number of days in month `m` (1 to 12) of a leap or non-leap year.
pub open spec fn days_in_month(leap: bool, m: int) -> int {
    if m == 1 {
        31
    } else if m == 2 {
        if leap {
            29
        } else {
            28
        }
    } else if m == 3 {
        31
    } else if m == 4 {
        30
    } else if m == 5 {
        31
    } else if m == 6 {
        30
    } else if m == 7 {
        31
    } else if m == 8 {
        31
    } else if m == 9 {
        30
    } else if m == 10 {
        31
    } else if m == 11 {
        30
    } else {
        31
    }
}

/// Days elapsed in a year strictly before month `m` (1 to 13) begins.
pub open spec fn days_before_month(leap: bool, m: int) -> int
    decreases m,
{
    if m <= 1 {
        0
    } else {
        days_before_month(leap, m - 1) + days_in_month(leap, m - 1)
    }
}

/// Days from the epoch to the start of year `y`.
pub open spec fn days_before_year(y: int) -> int
    decreases y,
{
    if y <= 1970 {
        0
    } else {
        days_before_year(y - 1) + year_len(y - 1)
    }
}

/// Number of non-leap years among `c, c + 100, c + 200, ...` strictly below `y`.
pub open spec fn nonleap_centuries(c: int, y: int) -> int
    decreases (if y > c {
        y - c
    } else {
        0
    }),
{
    if c >= y {
        0
    } else {
        (if !is_leap_year(c) {
            1int
        } else {
            0int
        }) + nonleap_centuries(c + 100, y)
    }
}

pub open spec fn time_of_day_micros(h: int, mi: int, s: int, us: int) -> int {
    h * (MICROS_PER_HOUR as int) + mi * (MICROS_PER_MINUTE as int) + s * (
    MICROS_PER_SECOND as int) + us
}

/// Days from the epoch to the civil date `(y, m, d)`.
pub open spec fn day_index(y: int, m: int, d: int) -> int {
    days_before_year(y) + days_before_month(is_leap_year(y), m) + (d - 1)
}

/// Microseconds from the epoch to the civil instant, the value every
/// timestamp constructor and decoder is measured against.
pub open spec fn civil_micros(y: int, m: int, d: int, h: int, mi: int, s: int, us: int) -> int {
    day_index(y, m, d) * (MICROS_PER_DAY as int) + time_of_day_micros(h, mi, s, us)
}

/// The civil tuples this library accepts: at or after the epoch year, with
/// every field inside its calendar range.
pub open spec fn valid_civil(y: int, m: int, d: int, h: int, mi: int, s: int, us: int) -> bool {
    &&& 1970 <= y
    &&& 1 <= m <= 12
    &&& 1 <= d <= days_in_month(is_leap_year(y), m)
    &&& 0 <= h <= 23
    &&& 0 <= mi <= 59
    &&& 0 <= s <= 59
    &&& 0 <= us < 1000000
}

/// A civil tuple `(year, month, day, hour, minute, second, microsecond)`.
pub open spec fn valid_civil_t(c: (u64, u64, u64, u64, u64, u64, u64)) -> bool {
    valid_civil(
        c.0 as int,
        c.1 as int,
        c.2 as int,
        c.3 as int,
        c.4 as int,
        c.5 as int,
        c.6 as int,
    )
}

pub open spec fn civil_micros_t(c: (u64, u64, u64, u64, u64, u64, u64)) -> int {
    civil_micros(c.0 as int, c.1 as int, c.2 as int, c.3 as int, c.4 as int, c.5 as int, c.6 as int)
}

pub proof fn lemma_days_before_month_table(leap: bool)
    ensures
        days_before_month(leap, 1) == 0,
        days_before_month(leap, 2) == 31,
        days_before_month(leap, 3) == if leap { 60int } else { 59int },
        days_before_month(leap, 4) == if leap { 91int } else { 90int },
        days_before_month(leap, 5) == if leap { 121int } else { 120int },
        days_before_month(leap, 6) == if leap { 152int } else { 151int },
        days_before_month(leap, 7) == if leap { 182int } else { 181int },
        days_before_month(leap, 8) == if leap { 213int } else { 212int },
        days_before_month(leap, 9) == if leap { 244int } else { 243int },
        days_before_month(leap, 10) == if leap { 274int } else { 273int },
        days_before_month(leap, 11) == if leap { 305int } else { 304int },
        days_before_month(leap, 12) == if leap { 335int } else { 334int },
        days_before_month(leap, 13) == if leap { 366int } else { 365int },
{
    assert(days_before_month(leap, 1) == 0);
    assert(days_before_month(leap, 2) == 31);
    assert(days_before_month(leap, 3) == days_before_month(leap, 2) + days_in_month(leap, 2));
    assert(days_before_month(leap, 4) == days_before_month(leap, 3) + days_in_month(leap, 3));
    assert(days_before_month(leap, 5) == days_before_month(leap, 4) + days_in_month(leap, 4));
    assert(days_before_month(leap, 6) == days_before_month(leap, 5) + days_in_month(leap, 5));
    assert(days_before_month(leap, 7) == days_before_month(leap, 6) + days_in_month(leap, 6));
    assert(days_before_month(leap, 8) == days_before_month(leap, 7) + days_in_month(leap, 7));
    assert(days_before_month(leap, 9) == days_before_month(leap, 8) + days_in_month(leap, 8));
    assert(days_before_month(leap, 10) == days_before_month(leap, 9) + days_in_month(leap, 9));
    assert(days_before_month(leap, 11) == days_before_month(leap, 10) + days_in_month(leap, 10));
    assert(days_before_month(leap, 12) == days_before_month(leap, 11) + days_in_month(leap, 11));
    assert(days_before_month(leap, 13) == days_before_month(leap, 12) + days_in_month(leap, 12));
}

/// Every month holds at least 28 days, so the cumulative offsets grow by at
/// least 28 per month; the month list totals exactly one year.
pub proof fn lemma_days_before_month_bounds(leap: bool, m: int)
    requires
        1 <= m <= 13,
    ensures
        28 * (m - 1) <= days_before_month(leap, m) <= 31 * (m - 1),
    decreases m,
{
    if m > 1 {
        lemma_days_before_month_bounds(leap, m - 1);
    }
}

pub proof fn lemma_days_before_month_monotonic(leap: bool, m1: int, m2: int)
    requires
        1 <= m1 <= m2 <= 13,
    ensures
        days_before_month(leap, m1) <= days_before_month(leap, m2),
    decreases m2 - m1,
{
    if m1 < m2 {
        lemma_days_before_month_monotonic(leap, m1, m2 - 1);
    }
}

pub proof fn lemma_days_before_year_bounds(y: int)
    requires
        1970 <= y,
    ensures
        365 * (y - 1970) <= days_before_year(y) <= 366 * (y - 1970),
    decreases y,
{
    if y > 1970 {
        lemma_days_before_year_bounds(y - 1);
    }
}

pub proof fn lemma_days_before_year_monotonic(y1: int, y2: int)
    requires
        1970 <= y1 <= y2,
    ensures
        days_before_year(y1) <= days_before_year(y2),
    decreases y2 - y1,
{
    if y1 < y2 {
        lemma_days_before_year_monotonic(y1, y2 - 1);
    }
}

/// Incrementing a quotient's dividend by one raises the quotient exactly
/// when the new dividend is a multiple of the divisor.
proof fn lemma_div_step(a: int, d: int)
    requires
        0 <= a,
        0 < d,
    ensures
        (a + 1) / d == a / d + (if (a + 1) % d == 0 {
            1int
        } else {
            0int
        }),
{
    vstd::arithmetic::div_mod::lemma_fundamental_div_mod(a, d);
    vstd::arithmetic::div_mod::lemma_mod_bound(a, d);
    if a % d < d - 1 {
        assert(a + 1 == (a / d) * d + (a % d + 1)) by {
            vstd::arithmetic::mul::lemma_mul_is_commutative(d, a / d);
        }
        vstd::arithmetic::div_mod::lemma_fundamental_div_mod_converse(a + 1, d, a / d, a % d + 1);
    } else {
        assert(a + 1 == (a / d + 1) * d + 0) by {
            vstd::arithmetic::mul::lemma_mul_is_distributive_add_other_way(d, a / d, 1);
            vstd::arithmetic::mul::lemma_mul_is_commutative(d, a / d);
        }
        vstd::arithmetic::div_mod::lemma_fundamental_div_mod_converse(a + 1, d, a / d + 1, 0);
    }
}

/// Shifting by a multiple of the modulus does not change a residue.
proof fn lemma_mod_shift(x: int, k: int, d: int)
    requires
        0 < d,
    ensures
        (x + k * d) % d == x % d,
{
    vstd::arithmetic::div_mod::lemma_fundamental_div_mod(x, d);
    vstd::arithmetic::div_mod::lemma_mod_bound(x, d);
    assert(x + k * d == (x / d + k) * d + x % d) by {
        vstd::arithmetic::mul::lemma_mul_is_distributive_add_other_way(d, x / d, k);
        vstd::arithmetic::mul::lemma_mul_is_commutative(d, x / d);
    }
    vstd::arithmetic::div_mod::lemma_fundamental_div_mod_converse(x + k * d, d, x / d + k, x % d);
}

/// Counting non-leap centuries below `y + 1` counts one more than below `y`
/// exactly when `y` itself is a non-leap year on the century grid.
proof fn lemma_nonleap_centuries_step(c: int, y: int)
    ensures
        nonleap_centuries(c, y + 1) == nonleap_centuries(c, y) + (if c <= y && (y - c) % 100 == 0
            && !is_leap_year(y) {
            1int
        } else {
            0int
        }),
    decreases (if y > c {
        y - c
    } else {
        0
    }),
{
    if c >= y + 1 {
        // both counts are zero and the grid has not reached y
    } else if c == y {
        assert(nonleap_centuries(c + 100, y + 1) == 0);
        assert((y - c) % 100 == 0);
    } else {
        // c < y: both sides share the head term at c, recurse on the tail
        lemma_nonleap_centuries_step(c + 100, y);
        assert((y - (c + 100)) % 100 == (y - c) % 100) by {
            lemma_mod_shift(y - c - 100, 1, 100);
        }
        if (y - c) % 100 == 0 && c + 100 > y {
            // a positive multiple of 100 cannot lie below 100
            vstd::arithmetic::div_mod::lemma_fundamental_div_mod(y - c, 100);
            assert(false);
        }
    }
}

/// The closed-form day count of the encoder: naive 365-day years, plus one
/// day for each fourth year since 1969, minus one for each non-leap century
/// from 2000 on.  Equal to the recursive model for every year from the epoch.
pub proof fn lemma_days_before_year_formula(y: int)
    requires
        1970 <= y,
    ensures
        days_before_year(y) == (y - 1970) * 365 + (y - 1969) / 4 - nonleap_centuries(2000, y),
    decreases y,
{
    if y == 1970 {
        assert(nonleap_centuries(2000, 1970) == 0);
    } else {
        let p = y - 1;
        lemma_days_before_year_formula(p);
        // quotient step for the divide-by-4 leap count
        lemma_div_step(p - 1969, 4);
        assert((p - 1968) % 4 == p % 4) by {
            lemma_mod_shift(p, -492, 4);
        }
        // century-correction step
        assert((p - 2000) % 100 == p % 100) by {
            lemma_mod_shift(p, -20, 100);
        }
        lemma_nonleap_centuries_step(2000, p);
        if p % 100 == 0 {
            // a century year is always a fourth year ...
            vstd::arithmetic::div_mod::lemma_fundamental_div_mod(p, 100);
            assert(p == 100 * (p / 100));
            lemma_mod_shift(0, 25 * (p / 100), 4);
            assert(p % 4 == 0);
            // ... and none lies strictly between 1970 and 2000
            if p < 2000 {
                assert(false);
            }
        }
    }
}

/// True exactly for Gregorian leap years.
pub fn leap_year(y: u64) -> (r: bool)
    ensures
        r == is_leap_year(y as int),
{
    y % 4 == 0 && (y % 100 != 0 || y % 400 == 0)
}

pub fn year_len_count(y: u64) -> (r: u64)
    ensures
        r == year_len(y as int),
{
    if leap_year(y) {
        366
    } else {
        365
    }
}

pub fn days_in_month_count(leap: bool, m: u64) -> (r: u64)
    requires
        1 <= m <= 12,
    ensures
        r == days_in_month(leap, m as int),
{
    if m == 1 {
        31
    } else if m == 2 {
        if leap {
            29
        } else {
            28
        }
    } else if m == 3 {
        31
    } else if m == 4 {
        30
    } else if m == 5 {
        31
    } else if m == 6 {
        30
    } else if m == 7 {
        31
    } else if m == 8 {
        31
    } else if m == 9 {
        30
    } else if m == 10 {
        31
    } else if m == 11 {
        30
    } else {
        31
    }
}

pub fn days_before_month_count(leap: bool, m: u64) -> (r: u64)
    requires
        1 <= m <= 13,
    ensures
        r == days_before_month(leap, m as int),
{
    proof {
        lemma_days_before_month_table(leap);
    }
    if m == 1 {
        0
    } else if m == 2 {
        31
    } else if m == 3 {
        if leap {
            60
        } else {
            59
        }
    } else if m == 4 {
        if leap {
            91
        } else {
            90
        }
    } else if m == 5 {
        if leap {
            121
        } else {
            120
        }
    } else if m == 6 {
        if leap {
            152
        } else {
            151
        }
    } else if m == 7 {
        if leap {
            182
        } else {
            181
        }
    } else if m == 8 {
        if leap {
            213
        } else {
            212
        }
    } else if m == 9 {
        if leap {
            244
        } else {
            243
        }
    } else if m == 10 {
        if leap {
            274
        } else {
            273
        }
    } else if m == 11 {
        if leap {
            305
        } else {
            304
        }
    } else if m == 12 {
        if leap {
            335
        } else {
            334
        }
    } else {
        if leap {
            366
        } else {
            365
        }
    }
}

/// Days from the epoch to the start of year `y`, by the closed-form count
/// with an explicit scan over the century years from 2000 on.
pub fn days_before_year_count(y: u64) -> (r: u64)
    requires
        1970 <= y < 600000,
    ensures
        r == days_before_year(y as int),
{
    let mut c: u64 = 2000;
    let mut non_leap: u64 = 0;
    while c < y
        invariant
            1970 <= y < 600000,
            2000 <= c <= 600100,
            non_leap * 100 <= c - 2000,
            non_leap + nonleap_centuries(c as int, y as int) == nonleap_centuries(2000, y as int),
        decreases (if y as int > c as int {
            y as int - c as int
        } else {
            0
        }),
    {
        proof {
            assert(nonleap_centuries(c as int, y as int) == (if !is_leap_year(c as int) {
                1int
            } else {
                0int
            }) + nonleap_centuries(c as int + 100, y as int));
        }
        if !leap_year(c) {
            non_leap = non_leap + 1;
        }
        c = c + 100;
    }
    proof {
        lemma_days_before_year_formula(y as int);
        lemma_days_before_year_bounds(y as int);
    }
    let leap_years = (y - 1969) / 4;
    let base = (y - 1970) * 365 + leap_years;
    base - non_leap
}

} // verus!
