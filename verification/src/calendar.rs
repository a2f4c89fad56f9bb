//! Dates of the Gregorian calendar from counts of seconds.
use crate::chars::{push_chars, string_of};
use crate::numerals::{
    decimal, decimal_chars, law_small_numbers_are_short, law_zeros_in_front_do_not_count,
    numeral_value, pad_left, padded,
};
use vstd::prelude::*;

verus! {

/// Whether a year has a leap day.
pub open spec fn is_leap(y: int) -> bool {
    y % 4 == 0 && (y % 100 != 0 || y % 400 == 0)
}

/// The number of days of a month.
pub open spec fn month_days(y: int, m: int) -> int {
    if m == 2 {
        if is_leap(y) {
            29
        } else {
            28
        }
    } else if m == 4 || m == 6 || m == 9 || m == 11 {
        30
    } else {
        31
    }
}

/// The number of days of a year before a month.
pub open spec fn days_before_month(y: int, m: int) -> int
    decreases m,
{
    if m <= 1 {
        0
    } else {
        days_before_month(y, m - 1) + month_days(y, m - 1)
    }
}

/// The number of leap days before a year, counted from the year 1.
pub open spec fn leap_days_before(y: int) -> int {
    (y - 1) / 4 - (y - 1) / 100 + (y - 1) / 400
}

/// The number of days from the first day of 1970 to a date.
pub open spec fn day_number(y: int, m: int, d: int) -> int {
    365 * (y - 1970) + leap_days_before(y) - leap_days_before(1970) + days_before_month(y, m) + (d
        - 1)
}

/// Whether a year, a month and a day are a date.
pub open spec fn is_date(y: int, m: int, d: int) -> bool {
    1 <= m <= 12 && 1 <= d <= month_days(y, m)
}

proof fn lemma_months(y: int)
    ensures
        days_before_month(y, 1) == 0,
        days_before_month(y, 2) == 31,
        ({
            let f = if is_leap(y) {
                1int
            } else {
                0int
            };
            &&& days_before_month(y, 3) == 59 + f
            &&& days_before_month(y, 4) == 90 + f
            &&& days_before_month(y, 5) == 120 + f
            &&& days_before_month(y, 6) == 151 + f
            &&& days_before_month(y, 7) == 181 + f
            &&& days_before_month(y, 8) == 212 + f
            &&& days_before_month(y, 9) == 243 + f
            &&& days_before_month(y, 10) == 273 + f
            &&& days_before_month(y, 11) == 304 + f
            &&& days_before_month(y, 12) == 334 + f
            &&& days_before_month(y, 13) == 365 + f
        }),
{
    reveal_with_fuel(days_before_month, 14);
}

/// The leap days up to and with a year.
proof fn lemma_leap_days(y: int)
    requires
        y >= 0,
    ensures
        leap_days_before(y + 1) == y / 4 - y / 100 + y / 400,
        y >= 1 ==> leap_days_before(y + 1) == leap_days_before(y) + if is_leap(y) {
            1int
        } else {
            0int
        },
{
}

/// The year and the day of the year, where years begin in March, from the parts
/// of a number of days: whole cycles of 400 years, then of 100, 4 and 1.
proof fn lemma_cycles(a: int, c: int, b: int, e: int, doy: int)
    requires
        0 <= a,
        0 <= c <= 3,
        0 <= b <= 24,
        0 <= e <= 3,
        0 <= doy <= 365,
        doy == 365 ==> e == 3 && (b < 24 || c == 3),
    ensures
        ({
            let y = 400 * a + 100 * c + 4 * b + e;
            &&& 365 * y + y / 4 - y / 100 + y / 400 + doy == 146097 * a + 36524 * c + 1461 * b + 365
                * e + doy
            &&& doy == 365 ==> is_leap(y + 1)
        }),
{
    let y = 400 * a + 100 * c + 4 * b + e;
    assert(y / 4 == 100 * a + 25 * c + b);
    assert(y / 100 == 4 * a + c);
    assert(y / 400 == a);
    if doy == 365 {
        assert((y + 1) % 4 == 0);
        if b < 24 {
            assert((y + 1) % 100 == 4 * b + 4);
        } else {
            assert((y + 1) % 400 == 0);
        }
    }
}

/// The month and the day of the month, counted from March, of a day of the year.
proof fn lemma_month_of(doy: int, mp: int)
    requires
        0 <= doy <= 365,
        mp == (5 * doy + 2) / 153,
    ensures
        0 <= mp <= 11,
        mp == 0 ==> 0 <= doy <= 30 && (153 * mp + 2) / 5 == 0,
        mp == 1 ==> 31 <= doy <= 60 && (153 * mp + 2) / 5 == 31,
        mp == 2 ==> 61 <= doy <= 91 && (153 * mp + 2) / 5 == 61,
        mp == 3 ==> 92 <= doy <= 121 && (153 * mp + 2) / 5 == 92,
        mp == 4 ==> 122 <= doy <= 152 && (153 * mp + 2) / 5 == 122,
        mp == 5 ==> 153 <= doy <= 183 && (153 * mp + 2) / 5 == 153,
        mp == 6 ==> 184 <= doy <= 213 && (153 * mp + 2) / 5 == 184,
        mp == 7 ==> 214 <= doy <= 244 && (153 * mp + 2) / 5 == 214,
        mp == 8 ==> 245 <= doy <= 274 && (153 * mp + 2) / 5 == 245,
        mp == 9 ==> 275 <= doy <= 305 && (153 * mp + 2) / 5 == 275,
        mp == 10 ==> 306 <= doy <= 336 && (153 * mp + 2) / 5 == 306,
        mp == 11 ==> 337 <= doy <= 365 && (153 * mp + 2) / 5 == 337,
{
}

/// The date of a day of a year that begins in March.
proof fn lemma_date(y0: int, doy: int, mp: int, y: int, m: int, d: int)
    requires
        y0 >= 1,
        0 <= doy <= 365,
        doy == 365 ==> is_leap(y0 + 1),
        mp == (5 * doy + 2) / 153,
        d == doy - (153 * mp + 2) / 5 + 1,
        m == if mp < 10 {
            mp + 3
        } else {
            mp - 9
        },
        y == if m <= 2 {
            y0 + 1
        } else {
            y0
        },
    ensures
        is_date(y, m, d),
        day_number(y, m, d) == 365 * y0 + y0 / 4 - y0 / 100 + y0 / 400 + doy - 719468,
{
    lemma_month_of(doy, mp);
    lemma_leap_days(y0);
    lemma_months(y0);
    lemma_months(y0 + 1);
    assert(leap_days_before(1970) == 477);
    if mp == 0 {
    } else if mp == 1 {
    } else if mp == 2 {
    } else if mp == 3 {
    } else if mp == 4 {
    } else if mp == 5 {
    } else if mp == 6 {
    } else if mp == 7 {
    } else if mp == 8 {
    } else if mp == 9 {
    } else if mp == 10 {
    } else {
        assert(mp == 11);
    }
}

/// The date of the day with the given number, counted from the first day of 1970.
pub fn date_of(days: u64) -> (r: (u64, u64, u64))
    requires
        days <= 200_000_000_000_000,
    ensures
        is_date(r.0 as int, r.1 as int, r.2 as int),
        day_number(r.0 as int, r.1 as int, r.2 as int) == days,
        r.0 >= 1969,
{
    // Years are taken to begin in March, so that the leap day comes last.
    let z: u64 = days + 719468;
    let a: u64 = z / 146097;
    let r0: u64 = z % 146097;
    let c: u64 = if r0 / 36524 < 3 {
        r0 / 36524
    } else {
        3
    };
    let r1: u64 = r0 - c * 36524;
    let b: u64 = r1 / 1461;
    let r2: u64 = r1 % 1461;
    let e: u64 = if r2 / 365 < 3 {
        r2 / 365
    } else {
        3
    };
    let doy: u64 = r2 - e * 365;
    assert(b <= 24 && doy <= 365);
    assert(doy == 365 ==> e == 3 && (b < 24 || c == 3));
    proof {
        lemma_cycles(a as int, c as int, b as int, e as int, doy as int);
    }
    let y0: u64 = 400 * a + 100 * c + 4 * b + e;
    let mp: u64 = (5 * doy + 2) / 153;
    proof {
        lemma_month_of(doy as int, mp as int);
    }
    let d: u64 = doy - (153 * mp + 2) / 5 + 1;
    let m: u64 = if mp < 10 {
        mp + 3
    } else {
        mp - 9
    };
    let y: u64 = if m <= 2 {
        y0 + 1
    } else {
        y0
    };
    proof {
        let yi = y0 as int;
        assert(z == 365 * yi + yi / 4 - yi / 100 + yi / 400 + doy);
        assert(yi >= 1969) by {
            assert(a >= 4);
            assert(146097 * a + 36524 * c + 1461 * b + 365 * e + doy >= 719468);
            if a == 4 {
                assert(36524 * c + 1461 * b + 365 * e + doy >= 135080);
                assert(c == 3);
                assert(1461 * b + 365 * e + doy >= 25508);
                assert(b >= 17);
            }
        }
        lemma_date(yi, doy as int, mp as int, y as int, m as int, d as int);
    }
    (y, m, d)
}

/// The text of a time: date, time of day and milliseconds, in UTC.
pub open spec fn iso_form(
    y: int,
    m: int,
    d: int,
    h: int,
    mi: int,
    s: int,
    millis: int,
) -> Seq<char> {
    padded(decimal(y as nat), 4, '0') + seq!['-'] + padded(decimal(m as nat), 2, '0') + seq!['-']
        + padded(decimal(d as nat), 2, '0') + seq!['T'] + padded(decimal(h as nat), 2, '0')
        + seq![':'] + padded(decimal(mi as nat), 2, '0') + seq![':'] + padded(
        decimal(s as nat),
        2,
        '0',
    ) + seq!['.'] + padded(decimal(millis as nat), 3, '0') + seq!['Z']
}

/// Whether a text is that of a time, given in seconds since the start of 1970 and
/// milliseconds.
pub open spec fn is_iso(secs: int, millis: int, text: Seq<char>) -> bool {
    let t = secs % 86400;
    exists|y: int, m: int, d: int|
        #![trigger day_number(y, m, d)]
        {
            &&& y >= 1
            &&& is_date(y, m, d)
            &&& day_number(y, m, d) == secs / 86400
            &&& text == iso_form(y, m, d, t / 3600, t % 3600 / 60, t % 60, millis)
        }
}

fn push_padded(out: &mut Vec<char>, n: u64, width: usize)
    ensures
        final(out)@ == old(out)@ + padded(decimal(n as nat), width as nat, '0'),
{
    let d = decimal_chars(n);
    push_chars(out, pad_left(d.as_slice(), width, '0').as_slice());
}

/// The text of a time, given in seconds since the start of 1970 and milliseconds.
pub fn iso_time(secs: u64, millis: u32) -> (r: String)
    requires
        secs <= i64::MAX,
    ensures
        is_iso(secs as int, millis as int, r@),
{
    let t: u64 = secs % 86400;
    let (y, m, d) = date_of(secs / 86400);
    let mut out: Vec<char> = Vec::new();
    push_padded(&mut out, y, 4);
    out.push('-');
    push_padded(&mut out, m, 2);
    out.push('-');
    push_padded(&mut out, d, 2);
    out.push('T');
    push_padded(&mut out, t / 3600, 2);
    out.push(':');
    push_padded(&mut out, t % 3600 / 60, 2);
    out.push(':');
    push_padded(&mut out, t % 60, 2);
    out.push('.');
    push_padded(&mut out, millis as u64, 3);
    out.push('Z');
    proof {
        let si = secs as int;
        let ti = si % 86400;
        assert(out@ =~= iso_form(
            y as int,
            m as int,
            d as int,
            ti / 3600,
            ti % 3600 / 60,
            ti % 60,
            millis as int,
        ));
        assert(day_number(y as int, m as int, d as int) == si / 86400);
    }
    string_of(out.as_slice())
}

// ---------------------------------------------------------------------------
// Laws
// ---------------------------------------------------------------------------

/// The day after the last one of a month is the first of the next.
pub proof fn law_months_follow(y: int, m: int)
    requires
        1 <= m < 12,
    ensures
        day_number(y, m, month_days(y, m)) + 1 == day_number(y, m + 1, 1),
{
}

/// The day after the last one of a year is the first of the next.
pub proof fn law_years_follow(y: int)
    requires
        y >= 1,
    ensures
        day_number(y, 12, 31) + 1 == day_number(y + 1, 1, 1),
{
    lemma_months(y);
    lemma_months(y + 1);
    lemma_leap_days(y);
}

proof fn lemma_day_in_year(y: int, m: int, d: int)
    requires
        is_date(y, m, d),
        y >= 1,
    ensures
        day_number(y, 1, 1) <= day_number(y, m, d) < day_number(y + 1, 1, 1),
{
    lemma_months(y);
    lemma_months(y + 1);
    lemma_leap_days(y);
}

proof fn lemma_years_grow(y: int, z: int)
    requires
        1 <= y <= z,
    ensures
        day_number(y, 1, 1) <= day_number(z, 1, 1),
    decreases z - y,
{
    if y < z {
        lemma_months(y);
        lemma_months(y + 1);
        lemma_leap_days(y);
        lemma_years_grow(y + 1, z);
    }
}

/// Different dates have different numbers, so a number names one date.
pub proof fn law_dates_are_unique(y1: int, m1: int, d1: int, y2: int, m2: int, d2: int)
    requires
        is_date(y1, m1, d1),
        is_date(y2, m2, d2),
        y1 >= 1,
        y2 >= 1,
        day_number(y1, m1, d1) == day_number(y2, m2, d2),
    ensures
        y1 == y2,
        m1 == m2,
        d1 == d2,
{
    lemma_day_in_year(y1, m1, d1);
    lemma_day_in_year(y2, m2, d2);
    if y1 < y2 {
        lemma_years_grow(y1 + 1, y2);
    } else if y2 < y1 {
        lemma_years_grow(y2 + 1, y1);
    }
    lemma_months(y1);
}

/// The text of a time spells it: the year, the month and the day, and the hours, minutes,
/// seconds and thousandths, each at its place and filled up with zeros. Years of more than
/// four digits are left out.
pub proof fn law_times_are_spelled_out(
    secs: int,
    millis: int,
    text: Seq<char>,
    y: int,
    m: int,
    d: int,
)
    requires
        is_iso(secs, millis, text),
        0 <= secs,
        0 <= millis < 1000,
        1 <= y < 10000,
        is_date(y, m, d),
        day_number(y, m, d) == secs / 86400,
    ensures
        text.len() == 24,
        numeral_value(text.subrange(0, 4)) == y,
        numeral_value(text.subrange(5, 7)) == m,
        numeral_value(text.subrange(8, 10)) == d,
        86400 * day_number(y, m, d) + 3600 * numeral_value(text.subrange(11, 13)) + 60
            * numeral_value(text.subrange(14, 16)) + numeral_value(text.subrange(17, 19)) == secs,
        numeral_value(text.subrange(14, 16)) < 60,
        numeral_value(text.subrange(17, 19)) < 60,
        numeral_value(text.subrange(20, 23)) == millis,
        text[4] == '-' && text[7] == '-' && text[10] == 'T' && text[13] == ':' && text[16] == ':'
            && text[19] == '.' && text[23] == 'Z',
{
    let t = secs % 86400;
    let (y1, m1, d1) = choose|y: int, m: int, d: int|
        #![trigger day_number(y, m, d)]
        {
            &&& y >= 1
            &&& is_date(y, m, d)
            &&& day_number(y, m, d) == secs / 86400
            &&& text == iso_form(y, m, d, t / 3600, t % 3600 / 60, t % 60, millis)
        };
    law_dates_are_unique(y, m, d, y1, m1, d1);
    let h = t / 3600;
    let mi = t % 3600 / 60;
    let s = t % 60;
    law_small_numbers_are_short(y as nat);
    law_small_numbers_are_short(m as nat);
    law_small_numbers_are_short(d as nat);
    law_small_numbers_are_short(h as nat);
    law_small_numbers_are_short(mi as nat);
    law_small_numbers_are_short(s as nat);
    law_small_numbers_are_short(millis as nat);
    law_zeros_in_front_do_not_count(y as nat, 4);
    law_zeros_in_front_do_not_count(m as nat, 2);
    law_zeros_in_front_do_not_count(d as nat, 2);
    law_zeros_in_front_do_not_count(h as nat, 2);
    law_zeros_in_front_do_not_count(mi as nat, 2);
    law_zeros_in_front_do_not_count(s as nat, 2);
    law_zeros_in_front_do_not_count(millis as nat, 3);
    assert(text.subrange(0, 4) =~= padded(decimal(y as nat), 4, '0'));
    assert(text.subrange(5, 7) =~= padded(decimal(m as nat), 2, '0'));
    assert(text.subrange(8, 10) =~= padded(decimal(d as nat), 2, '0'));
    assert(text.subrange(11, 13) =~= padded(decimal(h as nat), 2, '0'));
    assert(text.subrange(14, 16) =~= padded(decimal(mi as nat), 2, '0'));
    assert(text.subrange(17, 19) =~= padded(decimal(s as nat), 2, '0'));
    assert(text.subrange(20, 23) =~= padded(decimal(millis as nat), 3, '0'));
    assert(86400 * (secs / 86400) + 3600 * h + 60 * mi + s == secs) by (nonlinear_arith)
        requires
            t == secs % 86400,
            h == t / 3600,
            mi == t % 3600 / 60,
            s == t % 60,
            0 <= secs,
    ;
}

/// The first day of 1970 is day zero; months have 31 or 30 days, and the second has 29 in
/// years that four divides, but for those that a hundred divides and four hundred does not,
/// and else 28.
pub proof fn law_months_have_their_days(y: int, m: int)
    ensures
        day_number(1970, 1, 1) == 0,
        m == 1 || m == 3 || m == 5 || m == 7 || m == 8 || m == 10 || m == 12 ==> month_days(y, m)
            == 31,
        m == 4 || m == 6 || m == 9 || m == 11 ==> month_days(y, m) == 30,
        y % 400 == 0 ==> month_days(y, 2) == 29,
        y % 100 == 0 && y % 400 != 0 ==> month_days(y, 2) == 28,
        y % 4 == 0 && y % 100 != 0 ==> month_days(y, 2) == 29,
        y % 4 != 0 ==> month_days(y, 2) == 28,
{
    assert(y % 400 == 0 ==> y % 4 == 0) by (nonlinear_arith);
    assert(y % 100 == 0 ==> y % 4 == 0) by (nonlinear_arith);
}

} // verus!
