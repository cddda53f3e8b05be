//! Conversion between civil calendar fields and a microsecond count since
//! the Unix epoch, with ISO-8601 text formatting and parsing.
use std::time::SystemTime;
use std::time::UNIX_EPOCH;
use vstd::prelude::*;

pub mod calendar;
pub mod digits;
pub mod text;
pub mod laws;

verus! {

use crate::calendar::{
    EPOCH_YEAR,
    MICROS_PER_SECOND,
    MICROS_PER_MINUTE,
    MICROS_PER_HOUR,
    MICROS_PER_DAY,
    is_leap_year,
    year_len,
    days_before_month,
    days_before_year,
    time_of_day_micros,
    day_index,
    civil_micros,
    valid_civil,
    leap_year,
    year_len_count,
    days_in_month_count,
    days_before_month_count,
    days_before_year_count,
    lemma_days_before_month_table,
    lemma_days_before_month_bounds,
    lemma_days_before_year_bounds,
    valid_civil_t,
    civil_micros_t,
};
use crate::digits::parse_u64_str;
use crate::text::{
    parse_iso_datetime,
    iso_datetime_chars,
    iso_date_chars,
    find_char,
    split3_str,
    parse_seconds_str,
    format_iso_datetime,
    format_iso_date,
    lemma_first_occ_is,
    lemma_first_occ_absent,
};

/// Relies on std::time::SystemTime::now and Duration::as_micros for the
/// number of microseconds the system clock stands past the Unix epoch;
/// aborts, as intended, if the clock reads before the epoch.
#[verifier::external_body]
fn clock_micros_now() -> u64 {
    SystemTime::now().duration_since(UNIX_EPOCH).unwrap().as_micros() as u64
}

/// A point in time: microseconds since 1970-01-01T00:00:00Z.
pub struct Utime {
    timestamp: u64,
}

impl View for Utime {
    type V = u64;

    closed spec fn view(&self) -> u64 {
        self.timestamp
    }
}

/// The one error this library reports: the input was invalid.
#[derive(Debug)]
pub struct Error {}

impl Error {
    fn new() -> Self {
        Self {}
    }
}

impl Utime {
    /// The epoch instant itself.
    pub fn new() -> (r: Self)
        ensures
            r@ == 0,
    {
        Self { timestamp: 0 }
    }

    pub fn is_zero(&self) -> (r: bool)
        ensures
            r == (self@ == 0),
    {
        self.timestamp == 0
    }

    pub fn as_micros(&self) -> (r: u64)
        ensures
            r == self@,
    {
        self.timestamp
    }

    pub fn as_milis(&self) -> (r: u64)
        ensures
            r == self@ / 1000,
    {
        self.timestamp / 1000
    }

    pub fn as_seconds(&self) -> (r: u64)
        ensures
            r == self@ / 1000000,
    {
        self.timestamp / 1000000
    }

    /// Encode civil fields as a timestamp.  Succeeds exactly on valid civil
    /// tuples whose microsecond count fits the 64-bit scale.
    pub fn from_date_time(
        year: u64,
        month: u64,
        day: u64,
        hour: u64,
        minute: u64,
        second: u64,
        microseconds: u64,
    ) -> (r: Result<Self, Error>)
        ensures
            match r {
                Ok(t) => valid_civil(
                    year as int,
                    month as int,
                    day as int,
                    hour as int,
                    minute as int,
                    second as int,
                    microseconds as int,
                ) && civil_micros(
                    year as int,
                    month as int,
                    day as int,
                    hour as int,
                    minute as int,
                    second as int,
                    microseconds as int,
                ) <= u64::MAX && t@ == civil_micros(
                    year as int,
                    month as int,
                    day as int,
                    hour as int,
                    minute as int,
                    second as int,
                    microseconds as int,
                ),
                Err(_) => !(valid_civil(
                    year as int,
                    month as int,
                    day as int,
                    hour as int,
                    minute as int,
                    second as int,
                    microseconds as int,
                ) && civil_micros(
                    year as int,
                    month as int,
                    day as int,
                    hour as int,
                    minute as int,
                    second as int,
                    microseconds as int,
                ) <= u64::MAX),
            },
    {
        if year < EPOCH_YEAR {
            return Err(Error::new());
        }
        if month < 1 || month > 12 {
            return Err(Error::new());
        }
        if hour > 23 {
            return Err(Error::new());
        }
        if minute > 59 {
            return Err(Error::new());
        }
        if second > 59 {
            return Err(Error::new());
        }
        if microseconds >= MICROS_PER_SECOND {
            return Err(Error::new());
        }
        let is_leap = leap_year(year);
        let max_days = days_in_month_count(is_leap, month);
        if day < 1 || day > max_days {
            return Err(Error::new());
        }
        // from here on the tuple is valid; only the 64-bit range can fail
        if year >= 600000 {
            proof {
                lemma_days_before_year_bounds(year as int);
                lemma_days_before_month_bounds(is_leap_year(year as int), month as int);
                assert(day_index(year as int, month as int, day as int) >= 218280950);
                vstd::arithmetic::mul::lemma_mul_inequality(
                    218280950,
                    day_index(year as int, month as int, day as int),
                    MICROS_PER_DAY as int,
                );
            }
            return Err(Error::new());
        }
        let year_days = days_before_year_count(year);
        proof {
            lemma_days_before_year_bounds(year as int);
            lemma_days_before_month_bounds(is_leap_year(year as int), month as int);
        }
        let month_days = days_before_month_count(is_leap, month);
        let day_count = year_days + month_days + (day - 1);
        let tod = hour * MICROS_PER_HOUR + minute * MICROS_PER_MINUTE + second * MICROS_PER_SECOND
            + microseconds;
        proof {
            assert(day_count == day_index(year as int, month as int, day as int));
            assert(tod == time_of_day_micros(
                hour as int,
                minute as int,
                second as int,
                microseconds as int,
            ));
        }
        if day_count > 213503982 || (day_count == 213503982 && tod > 28909551615) {
            proof {
                if day_count > 213503982 {
                    vstd::arithmetic::mul::lemma_mul_inequality(
                        213503983,
                        day_count as int,
                        MICROS_PER_DAY as int,
                    );
                }
            }
            return Err(Error::new());
        }
        proof {
            if day_count <= 213503981 {
                vstd::arithmetic::mul::lemma_mul_inequality(
                    day_count as int,
                    213503981,
                    MICROS_PER_DAY as int,
                );
            }
        }
        Ok(Self { timestamp: day_count * MICROS_PER_DAY + tod })
    }

    /// Decode this timestamp into its unique civil field tuple
    /// `(year, month, day, hour, minute, second, microsecond)`.
    pub fn to_components(&self) -> (r: (u64, u64, u64, u64, u64, u64, u64))
        ensures
            valid_civil(
                r.0 as int,
                r.1 as int,
                r.2 as int,
                r.3 as int,
                r.4 as int,
                r.5 as int,
                r.6 as int,
            ),
            civil_micros(
                r.0 as int,
                r.1 as int,
                r.2 as int,
                r.3 as int,
                r.4 as int,
                r.5 as int,
                r.6 as int,
            ) == self@,
    {
        let v = self.timestamp;
        let days = v / MICROS_PER_DAY;
        let rem_day = v % MICROS_PER_DAY;
        let hour = rem_day / MICROS_PER_HOUR;
        let rem_hour = rem_day % MICROS_PER_HOUR;
        let minute = rem_hour / MICROS_PER_MINUTE;
        let rem_min = rem_hour % MICROS_PER_MINUTE;
        let second = rem_min / MICROS_PER_SECOND;
        let micro = rem_min % MICROS_PER_SECOND;
        proof {
            assert(v == days * MICROS_PER_DAY + rem_day && rem_day < MICROS_PER_DAY
                && days <= 213503982) by {
                vstd::arithmetic::div_mod::lemma_fundamental_div_mod(
                    v as int,
                    MICROS_PER_DAY as int,
                );
                vstd::arithmetic::div_mod::lemma_mod_bound(v as int, MICROS_PER_DAY as int);
                if days as int > 213503982 {
                    vstd::arithmetic::mul::lemma_mul_inequality(
                        213503983,
                        days as int,
                        MICROS_PER_DAY as int,
                    );
                }
            }
            assert(rem_day == hour * MICROS_PER_HOUR + rem_hour && rem_hour < MICROS_PER_HOUR
                && hour <= 23) by {
                vstd::arithmetic::div_mod::lemma_fundamental_div_mod(
                    rem_day as int,
                    MICROS_PER_HOUR as int,
                );
                vstd::arithmetic::div_mod::lemma_mod_bound(rem_day as int, MICROS_PER_HOUR as int);
                if hour as int > 23 {
                    vstd::arithmetic::mul::lemma_mul_inequality(
                        24,
                        hour as int,
                        MICROS_PER_HOUR as int,
                    );
                }
            }
            assert(rem_hour == minute * MICROS_PER_MINUTE + rem_min && rem_min < MICROS_PER_MINUTE
                && minute <= 59) by {
                vstd::arithmetic::div_mod::lemma_fundamental_div_mod(
                    rem_hour as int,
                    MICROS_PER_MINUTE as int,
                );
                vstd::arithmetic::div_mod::lemma_mod_bound(
                    rem_hour as int,
                    MICROS_PER_MINUTE as int,
                );
                if minute as int > 59 {
                    vstd::arithmetic::mul::lemma_mul_inequality(
                        60,
                        minute as int,
                        MICROS_PER_MINUTE as int,
                    );
                }
            }
            assert(rem_min == second * MICROS_PER_SECOND + micro && micro < MICROS_PER_SECOND
                && second <= 59) by {
                vstd::arithmetic::div_mod::lemma_fundamental_div_mod(
                    rem_min as int,
                    MICROS_PER_SECOND as int,
                );
                vstd::arithmetic::div_mod::lemma_mod_bound(
                    rem_min as int,
                    MICROS_PER_SECOND as int,
                );
                if second as int > 59 {
                    vstd::arithmetic::mul::lemma_mul_inequality(
                        60,
                        second as int,
                        MICROS_PER_SECOND as int,
                    );
                }
            }
        }
        // the year guess never overshoots: every year has at most 366 days
        let mut year = days / 366 + 1970;
        proof {
            vstd::arithmetic::div_mod::lemma_fundamental_div_mod(days as int, 366);
            vstd::arithmetic::div_mod::lemma_mod_bound(days as int, 366);
            lemma_days_before_year_bounds(year as int);
        }
        let mut doy = days - days_before_year_count(year);
        loop
            invariant
                1970 <= year <= 586913,
                days <= 213503982,
                days_before_year(year as int) + doy == days,
            ensures
                1970 <= year <= 586913,
                days_before_year(year as int) + doy == days,
                doy < year_len(year as int),
            decreases doy,
        {
            let yl = year_len_count(year);
            if doy < yl {
                break ;
            }
            doy = doy - yl;
            year = year + 1;
            proof {
                lemma_days_before_year_bounds(year as int);
            }
        }
        // the month guess never undershoots: every month has at least 28 days
        let is_leap = leap_year(year);
        let mut month = doy / 28 + 1;
        if month > 12 {
            month = 12;
        }
        proof {
            vstd::arithmetic::div_mod::lemma_fundamental_div_mod(doy as int, 28);
            vstd::arithmetic::div_mod::lemma_mod_bound(doy as int, 28);
            lemma_days_before_month_bounds(is_leap, month as int + 1);
            lemma_days_before_month_table(is_leap);
        }
        loop
            invariant
                1 <= month <= 12,
                is_leap == is_leap_year(year as int),
                doy < year_len(year as int),
                doy < days_before_month(is_leap, month as int + 1),
            ensures
                1 <= month <= 12,
                days_before_month(is_leap, month as int) <= doy < days_before_month(
                    is_leap,
                    month as int + 1,
                ),
            decreases month,
        {
            let before = days_before_month_count(is_leap, month);
            if before <= doy {
                break ;
            }
            month = month - 1;
            proof {
                if month < 1 {
                    assert(days_before_month(is_leap, 1) == 0);
                    assert(false);
                }
            }
        }
        let day = doy - days_before_month_count(is_leap, month) + 1;
        proof {
            assert(day_index(year as int, month as int, day as int) == days);
        }
        (year, month, day, hour, minute, second, micro)
    }

    /// The current instant by the system clock.
    pub fn now() -> Self {
        Self { timestamp: clock_micros_now() }
    }

    /// Parse an ISO-8601 date-time text.  Succeeds exactly when the text is
    /// well-formed and its fields encode (all encoder checks apply).
    pub fn from_iso_3601_datetime(dt: String) -> (r: Result<Self, Error>)
        ensures
            match r {
                Ok(t) => parse_iso_datetime(dt@) matches Some(c) && valid_civil_t(c)
                    && civil_micros_t(c) <= u64::MAX && t@ == civil_micros_t(c),
                Err(_) => parse_iso_datetime(dt@) matches Some(c) ==> !(valid_civil_t(c)
                    && civil_micros_t(c) <= u64::MAX),
            },
    {
        let s = dt.as_str();
        let n = s.unicode_len();
        let ti = match find_char(s, 'T') {
            None => {
                proof {
                    lemma_first_occ_absent(s@, 'T');
                }
                return Err(Error::new());
            },
            Some(i) => i,
        };
        proof {
            lemma_first_occ_is(s@, 'T', ti as int);
        }
        let date_part = s.substring_char(0, ti);
        let time_part = s.substring_char(ti + 1, n);
        proof {
            assert(date_part@ =~= s@.take(ti as int));
            assert(time_part@ =~= s@.skip(ti as int + 1));
        }
        let (ys, ms, ds) = match split3_str(date_part, '-') {
            None => {
                return Err(Error::new());
            },
            Some(p) => p,
        };
        let (hs, mis, ss) = match split3_str(time_part, ':') {
            None => {
                return Err(Error::new());
            },
            Some(p) => p,
        };
        let sn = ss.unicode_len();
        if sn == 0 {
            return Err(Error::new());
        }
        if ss.get_char(sn - 1) != 'Z' {
            return Err(Error::new());
        }
        let body = ss.substring_char(0, sn - 1);
        proof {
            assert(body@ =~= ss@.drop_last());
        }
        let year = match parse_u64_str(ys) {
            None => {
                return Err(Error::new());
            },
            Some(v) => v,
        };
        let month = match parse_u64_str(ms) {
            None => {
                return Err(Error::new());
            },
            Some(v) => v,
        };
        let day = match parse_u64_str(ds) {
            None => {
                return Err(Error::new());
            },
            Some(v) => v,
        };
        let hour = match parse_u64_str(hs) {
            None => {
                return Err(Error::new());
            },
            Some(v) => v,
        };
        let minute = match parse_u64_str(mis) {
            None => {
                return Err(Error::new());
            },
            Some(v) => v,
        };
        let (second, micro) = match parse_seconds_str(body) {
            None => {
                return Err(Error::new());
            },
            Some(p) => p,
        };
        Self::from_date_time(year, month, day, hour, minute, second, micro)
    }

    /// Render as `YYYY-MM-DDTHH:MM:SS.fffZ`: the text of the civil tuple
    /// this timestamp decodes to, its fraction in milliseconds.
    pub fn as_iso_8601_datetime(&self) -> (r: String)
        ensures
            exists|c: (u64, u64, u64, u64, u64, u64, u64)|
                #[trigger] valid_civil_t(c) && civil_micros_t(c) == self@ && r@
                    == iso_datetime_chars(
                    c.0 as int,
                    c.1 as int,
                    c.2 as int,
                    c.3 as int,
                    c.4 as int,
                    c.5 as int,
                    c.6 as int,
                ),
    {
        let (year, month, day, hour, minute, second, micro) = self.to_components();
        let r = format_iso_datetime(year, month, day, hour, minute, second, micro);
        proof {
            let c = (year, month, day, hour, minute, second, micro);
            assert(valid_civil_t(c) && civil_micros_t(c) == self@ && r@ == iso_datetime_chars(
                c.0 as int,
                c.1 as int,
                c.2 as int,
                c.3 as int,
                c.4 as int,
                c.5 as int,
                c.6 as int,
            ));
        }
        r
    }

    /// Render the date part alone as `YYYY-MM-DD`.
    pub fn as_iso_8601_date(&self) -> (r: String)
        ensures
            exists|c: (u64, u64, u64, u64, u64, u64, u64)|
                #[trigger] valid_civil_t(c) && civil_micros_t(c) == self@ && r@ == iso_date_chars(
                    c.0 as int,
                    c.1 as int,
                    c.2 as int,
                ),
    {
        let (year, month, day, hour, minute, second, micro) = self.to_components();
        let r = format_iso_date(year, month, day);
        proof {
            let c = (year, month, day, hour, minute, second, micro);
            assert(valid_civil_t(c) && civil_micros_t(c) == self@ && r@ == iso_date_chars(
                c.0 as int,
                c.1 as int,
                c.2 as int,
            ));
        }
        r
    }
}

} // verus!
