//! ISO-8601 text: the exact character sequences the formatter produces, the
//! grammar the parser accepts, and verified executable helpers for both.
//!
//! The parser's grammar is `date 'T' time` where the date splits on `-` into
//! exactly three all-digit fields, the time splits on `:` into exactly three
//! fields, and the last time field is seconds, optionally with a dot and a
//! decimal fraction, ending in `Z`.  The fraction denotes microseconds by its
//! first six digits, right-padded with zeros.
use vstd::prelude::*;

verus! {

use vstd::string::StringExecFns;
use vstd::string::StrSliceExecFns;
use crate::digits::{
    is_digit_char,
    digit_val,
    all_digits,
    digits_val,
    pow10,
    dec_chars,
    pad2_chars,
    pad3_chars,
    num_val,
    lemma_digits_val_bounds,
    u64_dec_string,
    pad2_string,
    pad3_string,
    parse_u64_str,
};

/// Index of the first occurrence of `c` in `s`, or -1 when absent.
pub open spec fn first_occ(s: Seq<char>, c: char) -> int
    decreases s.len(),
{
    if s.len() == 0 {
        -1
    } else if s[0] == c {
        0
    } else {
        let r = first_occ(s.drop_first(), c);
        if r < 0 {
            -1
        } else {
            r + 1
        }
    }
}

pub proof fn lemma_first_occ_is(s: Seq<char>, c: char, i: int)
    requires
        0 <= i < s.len(),
        s[i] == c,
        forall|j: int| 0 <= j < i ==> s[j] != c,
    ensures
        first_occ(s, c) == i,
    decreases s.len(),
{
    if i > 0 {
        assert(forall|j: int| 0 <= j < i - 1 ==> s.drop_first()[j] == #[trigger] s[j + 1]);
        lemma_first_occ_is(s.drop_first(), c, i - 1);
    }
}

pub proof fn lemma_first_occ_absent(s: Seq<char>, c: char)
    requires
        forall|j: int| 0 <= j < s.len() ==> s[j] != c,
    ensures
        first_occ(s, c) == -1,
    decreases s.len(),
{
    if s.len() > 0 {
        lemma_first_occ_absent(s.drop_first(), c);
    }
}

/// Split on a separator that must occur exactly twice: the three parts
/// around its two occurrences.
pub open spec fn split3(s: Seq<char>, sep: char) -> Option<(Seq<char>, Seq<char>, Seq<char>)> {
    let i = first_occ(s, sep);
    if i < 0 {
        None
    } else {
        let rest = s.skip(i + 1);
        let j = first_occ(rest, sep);
        if j < 0 {
            None
        } else {
            let third = rest.skip(j + 1);
            if first_occ(third, sep) >= 0 {
                None
            } else {
                Some((s.take(i), rest.take(j), third))
            }
        }
    }
}

pub open spec fn zeros(k: int) -> Seq<char> {
    Seq::new(k as nat, |i: int| '0')
}

/// A fraction field brought to exactly six digits: truncated or
/// right-padded with zeros.
pub open spec fn pad_fraction(f: Seq<char>) -> Seq<char> {
    if f.len() >= 6 {
        f.take(6)
    } else {
        f + zeros(6 - f.len())
    }
}

/// The microseconds a fraction field denotes.
pub open spec fn micros_of_fraction(f: Seq<char>) -> int {
    digits_val(pad_fraction(f))
}

/// The seconds field of the time segment: digits, optionally followed by a
/// dot and an all-digit fraction, denoting whole seconds and microseconds.
pub open spec fn parse_seconds(s: Seq<char>) -> Option<(u64, u64)> {
    let p = first_occ(s, '.');
    if p < 0 {
        match num_val(s) {
            Some(sec) => Some((sec, 0)),
            None => None,
        }
    } else {
        let ip = s.take(p);
        let fp = s.skip(p + 1);
        match num_val(ip) {
            Some(sec) => if all_digits(fp) {
                Some((sec, micros_of_fraction(fp) as u64))
            } else {
                None
            },
            None => None,
        }
    }
}

/// The civil fields an ISO-8601 date-time text denotes, if well-formed.
pub open spec fn parse_iso_datetime(s: Seq<char>) -> Option<(u64, u64, u64, u64, u64, u64, u64)> {
    let ti = first_occ(s, 'T');
    if ti < 0 {
        None
    } else {
        match (split3(s.take(ti), '-'), split3(s.skip(ti + 1), ':')) {
            (Some((ys, ms, ds)), Some((hs, mis, ss))) => {
                if ss.len() == 0 || ss.last() != 'Z' {
                    None
                } else {
                    match (num_val(ys), num_val(ms), num_val(ds), num_val(hs), num_val(mis),
                    parse_seconds(ss.drop_last())) {
                        (Some(y), Some(mo), Some(d), Some(h), Some(mi), Some(sus)) => Some(
                            (y, mo, d, h, mi, sus.0, sus.1),
                        ),
                        _ => None,
                    }
                }
            },
            _ => None,
        }
    }
}

/// `YYYY-MM-DD` (the year unpadded, as many digits as it needs).
pub open spec fn iso_date_chars(y: int, m: int, d: int) -> Seq<char> {
    dec_chars(y) + seq!['-'] + pad2_chars(m) + seq!['-'] + pad2_chars(d)
}

/// `HH:MM:SS.fffZ` with a millisecond fraction.
pub open spec fn iso_time_chars(h: int, mi: int, s: int, ms: int) -> Seq<char> {
    pad2_chars(h) + seq![':'] + pad2_chars(mi) + seq![':'] + pad2_chars(s) + seq!['.'] + pad3_chars(
        ms,
    ) + seq!['Z']
}

/// The full date-time text; the fraction carries milliseconds only.
pub open spec fn iso_datetime_chars(
    y: int,
    m: int,
    d: int,
    h: int,
    mi: int,
    s: int,
    us: int,
) -> Seq<char> {
    iso_date_chars(y, m, d) + seq!['T'] + iso_time_chars(h, mi, s, us / 1000)
}

/// First occurrence of `c` in `s`, scanning left to right.
pub fn find_char(s: &str, c: char) -> (r: Option<usize>)
    ensures
        match r {
            Some(i) => i < s@.len() && s@[i as int] == c && (forall|j: int|
                0 <= j < i ==> s@[j] != c),
            None => forall|j: int| 0 <= j < s@.len() ==> s@[j] != c,
        },
{
    let n = s.unicode_len();
    let mut i: usize = 0;
    while i < n
        invariant
            n == s@.len(),
            i <= n,
            forall|j: int| 0 <= j < i ==> s@[j] != c,
        decreases n - i,
    {
        if s.get_char(i) == c {
            return Some(i);
        }
        i = i + 1;
    }
    None
}

/// Split on a separator that must occur exactly twice.
pub fn split3_str<'a>(s: &'a str, sep: char) -> (r: Option<(&'a str, &'a str, &'a str)>)
    ensures
        match r {
            Some(parts) => split3(s@, sep) == Some((parts.0@, parts.1@, parts.2@)),
            None => split3(s@, sep) is None,
        },
{
    let n = s.unicode_len();
    let i = match find_char(s, sep) {
        None => {
            proof {
                lemma_first_occ_absent(s@, sep);
            }
            return None;
        },
        Some(i) => i,
    };
    proof {
        lemma_first_occ_is(s@, sep, i as int);
    }
    let first = s.substring_char(0, i);
    let rest = s.substring_char(i + 1, n);
    proof {
        assert(first@ =~= s@.take(i as int));
        assert(rest@ =~= s@.skip(i as int + 1));
    }
    let j = match find_char(rest, sep) {
        None => {
            proof {
                lemma_first_occ_absent(rest@, sep);
            }
            return None;
        },
        Some(j) => j,
    };
    proof {
        lemma_first_occ_is(rest@, sep, j as int);
    }
    let rn = rest.unicode_len();
    let second = rest.substring_char(0, j);
    let third = rest.substring_char(j + 1, rn);
    proof {
        assert(second@ =~= rest@.take(j as int));
        assert(third@ =~= rest@.skip(j as int + 1));
    }
    match find_char(third, sep) {
        Some(k) => {
            proof {
                lemma_first_occ_is(third@, sep, k as int);
            }
            None
        },
        None => {
            proof {
                lemma_first_occ_absent(third@, sep);
            }
            Some((first, second, third))
        },
    }
}

/// Microseconds denoted by an all-digit fraction field: its first six
/// digits, right-padded with zeros; rejects a field with other characters.
fn fraction_micros(fs: &str) -> (r: Option<u64>)
    ensures
        all_digits(fs@) ==> r == Some((micros_of_fraction(fs@) as u64)) && micros_of_fraction(fs@)
            < 1000000,
        !all_digits(fs@) ==> r is None,
{
    let n = fs.unicode_len();
    let mut i: usize = 0;
    while i < n
        invariant
            n == fs@.len(),
            i <= n,
            forall|j: int| 0 <= j < i ==> is_digit_char(#[trigger] fs@[j]),
        decreases n - i,
    {
        let c = fs.get_char(i);
        let code = c as u32;
        if code < 48 || code > 57 {
            proof {
                assert(!is_digit_char(fs@[i as int]));
            }
            return None;
        }
        i = i + 1;
    }
    let ghost pad = pad_fraction(fs@);
    proof {
        reveal_with_fuel(pow10, 8);
        assert(pad.len() == 6);
        assert(all_digits(pad)) by {
            assert(forall|j: int| 0 <= j < 6 ==> is_digit_char(#[trigger] pad[j]));
        }
    }
    let mut us: u64 = 0;
    let mut k: usize = 0;
    while k < 6
        invariant
            k <= 6,
            n == fs@.len(),
            all_digits(fs@),
            pad == pad_fraction(fs@),
            pad.len() == 6,
            all_digits(pad),
            us == digits_val(pad.take(k as int)),
            us < pow10(k as nat),
        decreases 6 - k,
    {
        proof {
            reveal_with_fuel(pow10, 8);
        }
        let d: u64;
        if k < n {
            let c = fs.get_char(k);
            d = (c as u32 - 48) as u64;
            proof {
                assert(pad[k as int] == fs@[k as int]);
            }
        } else {
            d = 0;
            proof {
                assert(pad[k as int] == zeros(6 - fs@.len())[k - fs@.len()]);
                assert(pad[k as int] == '0');
            }
        }
        proof {
            assert(d == digit_val(pad[k as int]));
            assert(pad.take(k as int + 1).drop_last() =~= pad.take(k as int));
            assert(pad.take(k as int + 1).last() == pad[k as int]);
            assert(all_digits(pad.take(k as int + 1))) by {
                assert(forall|j: int|
                    0 <= j < k + 1 ==> pad.take(k as int + 1)[j] == #[trigger] pad[j]);
            }
            lemma_digits_val_bounds(pad.take(k as int + 1));
        }
        us = us * 10 + d;
        k = k + 1;
    }
    proof {
        assert(pad.take(6) =~= pad);
        reveal_with_fuel(pow10, 8);
    }
    Some(us)
}

/// The seconds field: digits, an optional dot-fraction, already without the
/// trailing `Z`.
pub fn parse_seconds_str(s: &str) -> (r: Option<(u64, u64)>)
    ensures
        r == parse_seconds(s@),
{
    match find_char(s, '.') {
        None => {
            proof {
                lemma_first_occ_absent(s@, '.');
            }
            match parse_u64_str(s) {
                Some(sec) => Some((sec, 0)),
                None => None,
            }
        },
        Some(p) => {
            proof {
                lemma_first_occ_is(s@, '.', p as int);
            }
            let n = s.unicode_len();
            let ip = s.substring_char(0, p);
            let fp = s.substring_char(p + 1, n);
            proof {
                assert(ip@ =~= s@.take(p as int));
                assert(fp@ =~= s@.skip(p as int + 1));
            }
            match parse_u64_str(ip) {
                None => None,
                Some(sec) => {
                    match fraction_micros(fp) {
                        None => None,
                        Some(us) => Some((sec, us)),
                    }
                },
            }
        },
    }
}

/// `YYYY-MM-DD` for the given fields.
pub fn format_iso_date(y: u64, m: u64, d: u64) -> (r: String)
    requires
        m <= 99,
        d <= 99,
    ensures
        r@ == iso_date_chars(y as int, m as int, d as int),
{
    let mut r = u64_dec_string(y);
    r.append("-");
    let pm = pad2_string(m);
    r.append(pm.as_str());
    r.append("-");
    let pd = pad2_string(d);
    r.append(pd.as_str());
    proof {
        reveal_strlit("-");
        assert(r@ =~= iso_date_chars(y as int, m as int, d as int));
    }
    r
}

/// `YYYY-MM-DDTHH:MM:SS.fffZ` for the given fields; the fraction shows the
/// microseconds truncated to milliseconds.
pub fn format_iso_datetime(y: u64, m: u64, d: u64, h: u64, mi: u64, s: u64, us: u64) -> (r: String)
    requires
        m <= 99,
        d <= 99,
        h <= 99,
        mi <= 99,
        s <= 99,
        us <= 999999,
    ensures
        r@ == iso_datetime_chars(y as int, m as int, d as int, h as int, mi as int, s as int,
        us as int),
{
    let mut r = format_iso_date(y, m, d);
    r.append("T");
    let ph = pad2_string(h);
    r.append(ph.as_str());
    r.append(":");
    let pmi = pad2_string(mi);
    r.append(pmi.as_str());
    r.append(":");
    let ps = pad2_string(s);
    r.append(ps.as_str());
    r.append(".");
    let pms = pad3_string(us / 1000);
    r.append(pms.as_str());
    r.append("Z");
    proof {
        reveal_strlit("T");
        reveal_strlit(":");
        reveal_strlit(".");
        reveal_strlit("Z");
        assert(r@ =~= iso_datetime_chars(y as int, m as int, d as int, h as int, mi as int,
        s as int, us as int));
    }
    r
}

} // verus!
