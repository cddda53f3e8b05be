//! The library-wide laws: encoding is strictly monotonic in the civil
//! fields, hence injective, so decoding round-trips; and February 29 is a
//! valid date exactly in leap years.
use vstd::prelude::*;

verus! {

use crate::calendar::{
    MICROS_PER_DAY,
    is_leap_year,
    year_len,
    days_before_month,
    days_before_year,
    time_of_day_micros,
    day_index,
    valid_civil,
    valid_civil_t,
    civil_micros_t,
    lemma_days_before_month_table,
    lemma_days_before_month_bounds,
    lemma_days_before_month_monotonic,
    lemma_days_before_year_monotonic,
};
use crate::digits::{
    is_digit_char,
    digits_val,
    dec_chars,
    pad2_chars,
    pad3_chars,
    num_val,
    lemma_dec_chars_correct,
    lemma_pad2_correct,
    lemma_pad3_correct,
};
use crate::text::{
    split3,
    zeros,
    pad_fraction,
    micros_of_fraction,
    parse_seconds,
    parse_iso_datetime,
    iso_date_chars,
    iso_time_chars,
    iso_datetime_chars,
    lemma_first_occ_is,
    lemma_first_occ_absent,
};

/// Lexicographic order on civil tuples, most significant field first.
pub open spec fn civil_lex_less(
    a: (u64, u64, u64, u64, u64, u64, u64),
    b: (u64, u64, u64, u64, u64, u64, u64),
) -> bool {
    ||| a.0 < b.0
    ||| (a.0 == b.0 && a.1 < b.1)
    ||| (a.0 == b.0 && a.1 == b.1 && a.2 < b.2)
    ||| (a.0 == b.0 && a.1 == b.1 && a.2 == b.2 && a.3 < b.3)
    ||| (a.0 == b.0 && a.1 == b.1 && a.2 == b.2 && a.3 == b.3 && a.4 < b.4)
    ||| (a.0 == b.0 && a.1 == b.1 && a.2 == b.2 && a.3 == b.3 && a.4 == b.4 && a.5 < b.5)
    ||| (a.0 == b.0 && a.1 == b.1 && a.2 == b.2 && a.3 == b.3 && a.4 == b.4 && a.5 == b.5 && a.6
        < b.6)
}

/// Within a valid date, month offset plus day stays below the year length.
proof fn lemma_day_of_year_bound(c: (u64, u64, u64, u64, u64, u64, u64))
    requires
        valid_civil_t(c),
    ensures
        0 <= days_before_month(is_leap_year(c.0 as int), c.1 as int) + c.2 - 1 < year_len(
            c.0 as int,
        ),
{
    let leap = is_leap_year(c.0 as int);
    lemma_days_before_month_bounds(leap, c.1 as int);
    lemma_days_before_month_monotonic(leap, c.1 as int + 1, 13);
    lemma_days_before_month_table(leap);
}

/// An earlier day index means a strictly earlier instant, whatever the two
/// times of day are.
proof fn lemma_day_index_dominates(
    a: (u64, u64, u64, u64, u64, u64, u64),
    b: (u64, u64, u64, u64, u64, u64, u64),
)
    requires
        valid_civil_t(a),
        valid_civil_t(b),
        day_index(a.0 as int, a.1 as int, a.2 as int) < day_index(b.0 as int, b.1 as int, b.2 as int),
    ensures
        civil_micros_t(a) < civil_micros_t(b),
{
    let da = day_index(a.0 as int, a.1 as int, a.2 as int);
    let db = day_index(b.0 as int, b.1 as int, b.2 as int);
    vstd::arithmetic::mul::lemma_mul_inequality(da + 1, db, MICROS_PER_DAY as int);
}

/// Monotonicity: increasing any civil field while the more significant
/// fields stay fixed yields a strictly greater microsecond count.
pub proof fn lemma_civil_micros_monotonic(
    a: (u64, u64, u64, u64, u64, u64, u64),
    b: (u64, u64, u64, u64, u64, u64, u64),
)
    requires
        valid_civil_t(a),
        valid_civil_t(b),
        civil_lex_less(a, b),
    ensures
        civil_micros_t(a) < civil_micros_t(b),
{
    let la = is_leap_year(a.0 as int);
    lemma_day_of_year_bound(a);
    lemma_day_of_year_bound(b);
    if a.0 < b.0 {
        assert(days_before_year(a.0 as int + 1) == days_before_year(a.0 as int) + year_len(
            a.0 as int,
        ));
        lemma_days_before_year_monotonic(a.0 as int + 1, b.0 as int);
        lemma_day_index_dominates(a, b);
    } else if a.1 < b.1 {
        lemma_days_before_month_monotonic(la, a.1 as int + 1, b.1 as int);
        lemma_day_index_dominates(a, b);
    } else if a.2 < b.2 {
        lemma_day_index_dominates(a, b);
    } else {
        // the dates agree; compare times of day field by field
        assert(time_of_day_micros(a.3 as int, a.4 as int, a.5 as int, a.6 as int)
            < time_of_day_micros(b.3 as int, b.4 as int, b.5 as int, b.6 as int));
    }
}

/// Round trip: the encoding of a valid civil tuple determines the tuple, so
/// decoding a timestamp built from civil fields reproduces those fields.
pub proof fn lemma_civil_micros_injective(
    a: (u64, u64, u64, u64, u64, u64, u64),
    b: (u64, u64, u64, u64, u64, u64, u64),
)
    requires
        valid_civil_t(a),
        valid_civil_t(b),
        civil_micros_t(a) == civil_micros_t(b),
    ensures
        a == b,
{
    if civil_lex_less(a, b) {
        lemma_civil_micros_monotonic(a, b);
    } else if civil_lex_less(b, a) {
        lemma_civil_micros_monotonic(b, a);
    }
}

proof fn lemma_digits_val_push_zero(x: Seq<char>)
    ensures
        digits_val(x.push('0')) == digits_val(x) * 10,
{
    assert(x.push('0').drop_last() =~= x);
    assert(x.push('0').last() == '0');
}

/// Formatting then parsing reproduces every field exactly, except the
/// microseconds, which the three-digit fraction truncates to milliseconds.
pub proof fn lemma_iso_text_round_trip(c: (u64, u64, u64, u64, u64, u64, u64))
    requires
        valid_civil_t(c),
    ensures
        parse_iso_datetime(
            iso_datetime_chars(
                c.0 as int,
                c.1 as int,
                c.2 as int,
                c.3 as int,
                c.4 as int,
                c.5 as int,
                c.6 as int,
            ),
        ) matches Some(p) && p.0 == c.0 && p.1 == c.1 && p.2 == c.2 && p.3 == c.3 && p.4 == c.4
            && p.5 == c.5 && p.6 == (c.6 as int / 1000) * 1000,
{
    let y = c.0 as int;
    let m = c.1 as int;
    let d = c.2 as int;
    let h = c.3 as int;
    let mi = c.4 as int;
    let s = c.5 as int;
    let us = c.6 as int;
    let ms = us / 1000;
    vstd::arithmetic::div_mod::lemma_fundamental_div_mod(us, 1000);
    vstd::arithmetic::div_mod::lemma_mod_bound(us, 1000);
    lemma_dec_chars_correct(y);
    lemma_pad2_correct(m);
    lemma_pad2_correct(d);
    lemma_pad2_correct(h);
    lemma_pad2_correct(mi);
    lemma_pad2_correct(s);
    lemma_pad3_correct(ms);
    let dy = dec_chars(y);
    let pm = pad2_chars(m);
    let pd = pad2_chars(d);
    let ph = pad2_chars(h);
    let pmi = pad2_chars(mi);
    let ps = pad2_chars(s);
    let pms = pad3_chars(ms);
    let el = dy.len() as int;
    let date = iso_date_chars(y, m, d);
    let time = iso_time_chars(h, mi, s, ms);
    let full = iso_datetime_chars(y, m, d, h, mi, s, us);
    assert(date.len() == el + 6);
    assert(time.len() == 13);
    assert(full.len() == el + 20);
    // the date segment holds only digits and dashes, so the first 'T' is
    // the one the formatter wrote
    assert forall|j: int| 0 <= j < el + 6 implies full[j] == date[j] by {}
    assert(full[el + 6] == 'T');
    assert forall|j: int| 0 <= j < el + 6 implies date[j] != 'T' by {
        if j < el {
            assert(date[j] == dy[j]);
            assert(is_digit_char(dy[j]));
        } else if j == el {
            assert(date[j] == '-');
        } else if j < el + 3 {
            assert(date[j] == pm[j - el - 1]);
            assert(is_digit_char(pm[j - el - 1]));
        } else if j == el + 3 {
            assert(date[j] == '-');
        } else {
            assert(date[j] == pd[j - el - 4]);
            assert(is_digit_char(pd[j - el - 4]));
        }
    }
    lemma_first_occ_is(full, 'T', el + 6);
    assert(full.take(el + 6) =~= date);
    assert(full.skip(el + 7) =~= time);
    // the date splits back into its three fields
    assert forall|j: int| 0 <= j < el implies date[j] != '-' by {
        assert(date[j] == dy[j]);
        assert(is_digit_char(dy[j]));
    }
    assert(date[el] == '-');
    lemma_first_occ_is(date, '-', el);
    let rest = date.skip(el + 1);
    assert(rest =~= pm + seq!['-'] + pd);
    assert(rest[0] == pm[0] && rest[1] == pm[1] && rest[2] == '-');
    lemma_first_occ_is(rest, '-', 2);
    let third = rest.skip(3);
    assert(third =~= pd);
    lemma_first_occ_absent(third, '-');
    assert(date.take(el) =~= dy);
    assert(rest.take(2) =~= pm);
    assert(split3(date, '-') == Some((dy, pm, pd)));
    assert(num_val(dy) == Some(c.0)) by {
        assert(digits_val(dy) == y);
    }
    assert(num_val(pm) == Some(c.1));
    assert(num_val(pd) == Some(c.2));
    // the time splits back into its three fields
    let ss = ps + seq!['.'] + pms + seq!['Z'];
    assert(time[0] == ph[0] && time[1] == ph[1] && time[2] == ':');
    lemma_first_occ_is(time, ':', 2);
    let rest2 = time.skip(3);
    assert(rest2 =~= pmi + seq![':'] + ps + seq!['.'] + pms + seq!['Z']);
    assert(rest2[0] == pmi[0] && rest2[1] == pmi[1] && rest2[2] == ':');
    lemma_first_occ_is(rest2, ':', 2);
    let third2 = rest2.skip(3);
    assert(third2 =~= ss);
    assert forall|j: int| 0 <= j < ss.len() implies ss[j] != ':' by {
        if j < 2 {
            assert(ss[j] == ps[j]);
            assert(is_digit_char(ps[j]));
        } else if j == 2 {
            assert(ss[j] == '.');
        } else if j < 6 {
            assert(ss[j] == pms[j - 3]);
            assert(is_digit_char(pms[j - 3]));
        } else {
            assert(ss[j] == 'Z');
        }
    }
    lemma_first_occ_absent(ss, ':');
    assert(time.take(2) =~= ph);
    assert(rest2.take(2) =~= pmi);
    assert(split3(time, ':') == Some((ph, pmi, ss)));
    assert(num_val(ph) == Some(c.3));
    assert(num_val(pmi) == Some(c.4));
    // the seconds field: two digits, a dot, the millisecond fraction, 'Z'
    assert(ss.len() == 7);
    assert(ss.last() == 'Z');
    let body = ss.drop_last();
    assert(body =~= ps + seq!['.'] + pms);
    assert(body[0] == ps[0] && body[1] == ps[1] && body[2] == '.');
    assert(is_digit_char(ps[0]) && is_digit_char(ps[1]));
    lemma_first_occ_is(body, '.', 2);
    assert(body.take(2) =~= ps);
    assert(num_val(ps) == Some(c.5));
    let fp = body.skip(3);
    assert(fp =~= pms);
    // the fraction denotes the truncated microseconds
    let pad = pad_fraction(pms);
    assert(pad =~= pms.push('0').push('0').push('0')) by {
        assert(zeros(3).len() == 3);
        assert(zeros(3)[0] == '0' && zeros(3)[1] == '0' && zeros(3)[2] == '0');
    }
    lemma_digits_val_push_zero(pms);
    lemma_digits_val_push_zero(pms.push('0'));
    lemma_digits_val_push_zero(pms.push('0').push('0'));
    assert(micros_of_fraction(pms) == ms * 1000);
    assert(parse_seconds(body) == Some((c.5, (ms * 1000) as u64)));
    assert(parse_iso_datetime(full) == Some(
        (c.0, c.1, c.2, c.3, c.4, c.5, (ms * 1000) as u64),
    ));
}

/// The millisecond truncation the text format applies, seen on the
/// timestamp scale: re-encoding the parsed fields rounds the microsecond
/// count down to a whole millisecond.
pub proof fn lemma_millisecond_truncation(c: (u64, u64, u64, u64, u64, u64, u64))
    requires
        valid_civil_t(c),
    ensures
        valid_civil_t((c.0, c.1, c.2, c.3, c.4, c.5, ((c.6 as int / 1000) * 1000) as u64)),
        civil_micros_t((c.0, c.1, c.2, c.3, c.4, c.5, ((c.6 as int / 1000) * 1000) as u64)) == (
        civil_micros_t(c) / 1000) * 1000,
{
    let us = c.6 as int;
    let base = civil_micros_t(c) - us;
    vstd::arithmetic::div_mod::lemma_fundamental_div_mod(us, 1000);
    vstd::arithmetic::div_mod::lemma_mod_bound(us, 1000);
    let v = civil_micros_t(c);
    // the date-and-time part below the microseconds is a whole second, so a
    // whole millisecond: truncation touches the microsecond field alone
    assert(base == (day_index(c.0 as int, c.1 as int, c.2 as int) * 86400000 + (c.3 as int)
        * 3600000 + (c.4 as int) * 60000 + (c.5 as int) * 1000) * 1000) by {
        vstd::arithmetic::mul::lemma_mul_is_distributive_add_other_way(
            1000,
            day_index(c.0 as int, c.1 as int, c.2 as int) * 86400000,
            (c.3 as int) * 3600000 + (c.4 as int) * 60000 + (c.5 as int) * 1000,
        );
        vstd::arithmetic::mul::lemma_mul_is_associative(
            day_index(c.0 as int, c.1 as int, c.2 as int),
            86400000,
            1000,
        );
    }
    let q = day_index(c.0 as int, c.1 as int, c.2 as int) * 86400000 + (c.3 as int) * 3600000 + (
    c.4 as int) * 60000 + (c.5 as int) * 1000;
    assert(v == 1000 * (q + us / 1000) + us % 1000) by {
        vstd::arithmetic::mul::lemma_mul_is_commutative(q, 1000);
    }
    vstd::arithmetic::div_mod::lemma_fundamental_div_mod_converse(v, 1000, q + us / 1000, us % 1000);
    assert((v / 1000) * 1000 == q * 1000 + (us / 1000) * 1000) by {
        vstd::arithmetic::mul::lemma_mul_is_distributive_add_other_way(1000, q, us / 1000);
    }
    assert(civil_micros_t((c.0, c.1, c.2, c.3, c.4, c.5, ((us / 1000) * 1000) as u64)) == base + (us
        / 1000) * 1000);
    assert(q * 1000 == base) by {
        vstd::arithmetic::mul::lemma_mul_is_commutative(q, 1000);
    }
}

/// February 29 is a valid civil date exactly in leap years.
pub proof fn lemma_feb29_iff_leap(y: u64, h: u64, mi: u64, s: u64, us: u64)
    requires
        1970 <= y,
        h <= 23,
        mi <= 59,
        s <= 59,
        us < 1000000,
    ensures
        valid_civil(y as int, 2, 29, h as int, mi as int, s as int, us as int) <==> is_leap_year(
            y as int,
        ),
{
}

} // verus!
