//! The moment of archiving as text: an RFC 3339 timestamp in UTC, to the
//! second, from a count of seconds since the Unix epoch.

use vstd::prelude::*;

use crate::text::{decimal, push_decimal, string_of};

verus! {

/// The civil date (year, month, day) of the day `days` after 1970-01-01, in
/// the proleptic Gregorian calendar.
pub open spec fn civil_date(days: int) -> (int, int, int) {
    let z = days + 719468;
    let era = z / 146097;
    let doe = z - era * 146097;
    let yoe = (doe - doe / 1460 + doe / 36524 - doe / 146096) / 365;
    let doy = doe - (365 * yoe + yoe / 4 - yoe / 100);
    let mp = (5 * doy + 2) / 153;
    let day = doy - (153 * mp + 2) / 5 + 1;
    let month = if mp < 10 {
        mp + 3
    } else {
        mp - 9
    };
    let year = yoe + era * 400 + if month <= 2 {
        1int
    } else {
        0int
    };
    (year, month, day)
}

/// `n` in decimal, with zeros in front up to `width` digits.
pub open spec fn padded(n: nat, width: nat) -> Seq<char> {
    let digits = decimal(n);
    if digits.len() < width {
        Seq::new((width - digits.len()) as nat, |i: int| '0') + digits
    } else {
        digits
    }
}

/// The timestamp `YYYY-MM-DDThh:mm:ssZ` of the moment `seconds` after the
/// Unix epoch.
pub open spec fn timestamp(seconds: nat) -> Seq<char> {
    let (year, month, day) = civil_date((seconds / 86400) as int);
    let rest = seconds % 86400;
    padded(year as nat, 4) + seq!['-'] + padded(month as nat, 2) + seq!['-'] + padded(
        day as nat,
        2,
    ) + seq!['T'] + padded(rest / 3600, 2) + seq![':'] + padded((rest % 3600) / 60, 2) + seq![':']
        + padded(rest % 60, 2) + seq!['Z']
}

fn push_padded(out: &mut Vec<char>, n: u64, width: usize)
    ensures
        final(out)@ == old(out)@ + padded(n as nat, width as nat),
{
    let mut digits: Vec<char> = Vec::new();
    push_decimal(&mut digits, n as u128);
    assert(digits@ == decimal(n as nat));
    let ghost start = out@;
    if digits.len() < width {
        let k = width - digits.len();
        let mut i: usize = 0;
        while i < k
            invariant
                i <= k,
                out@ == start + Seq::new(i as nat, |j: int| '0'),
            decreases k - i,
        {
            out.push('0');
            assert(Seq::new((i + 1) as nat, |j: int| '0') == Seq::new(i as nat, |j: int| '0').push(
                '0',
            ));
            i = i + 1;
        }
    }
    let ghost mid = out@;
    let mut i: usize = 0;
    while i < digits.len()
        invariant
            i <= digits.len(),
            out@ == mid + digits@.take(i as int),
        decreases digits.len() - i,
    {
        out.push(digits[i]);
        assert(digits@.take(i + 1) == digits@.take(i as int).push(digits@[i as int]));
        i = i + 1;
    }
    assert(digits@.take(digits.len() as int) == digits@);
}

/// The civil date of the day `days` after 1970-01-01.
fn date_of(days: u64) -> (date: (u64, u64, u64))
    requires
        days <= 213503982334601,
    ensures
        civil_date(days as int) == (date.0 as int, date.1 as int, date.2 as int),
{
    let z: u64 = days + 719468;
    let era: u64 = z / 146097;
    assert(era * 146097 <= z) by (nonlinear_arith)
        requires
            era == z / 146097,
    ;
    let doe: u64 = z - era * 146097;
    assert(doe < 146097) by (nonlinear_arith)
        requires
            era == z / 146097,
            doe == z - era * 146097,
    ;
    let yoe: u64 = (doe - doe / 1460 + doe / 36524 - doe / 146096) / 365;
    assert(yoe <= 400);
    assert(365 * yoe + yoe / 4 - yoe / 100 <= doe) by (nonlinear_arith)
        requires
            doe < 146097,
            yoe == (doe - doe / 1460 + doe / 36524 - doe / 146096) / 365,
    ;
    let doy: u64 = doe - (365 * yoe + yoe / 4 - yoe / 100);
    assert(doy < 400) by (nonlinear_arith)
        requires
            doe < 146097,
            yoe == (doe - doe / 1460 + doe / 36524 - doe / 146096) / 365,
            doy == doe - (365 * yoe + yoe / 4 - yoe / 100),
    ;
    let mp: u64 = (5 * doy + 2) / 153;
    assert((153 * mp + 2) / 5 <= doy) by (nonlinear_arith)
        requires
            mp == (5 * doy + 2) / 153,
    ;
    let day: u64 = doy - (153 * mp + 2) / 5 + 1;
    let month: u64 = if mp < 10 {
        mp + 3
    } else {
        mp - 9
    };
    let year: u64 = yoe + era * 400 + if month <= 2 {
        1
    } else {
        0
    };
    (year, month, day)
}

/// The timestamp `YYYY-MM-DDThh:mm:ssZ` of the moment `seconds` after the
/// Unix epoch, in UTC.
pub fn utc_timestamp(seconds: u64) -> (text: String)
    ensures
        text@ == timestamp(seconds as nat),
{
    let days = seconds / 86400;
    let rest = seconds % 86400;
    let (year, month, day) = date_of(days);
    let mut out: Vec<char> = Vec::new();
    push_padded(&mut out, year, 4);
    out.push('-');
    push_padded(&mut out, month, 2);
    out.push('-');
    push_padded(&mut out, day, 2);
    out.push('T');
    push_padded(&mut out, rest / 3600, 2);
    out.push(':');
    push_padded(&mut out, (rest % 3600) / 60, 2);
    out.push(':');
    push_padded(&mut out, rest % 60, 2);
    out.push('Z');
    string_of(out.as_slice())
}


/// The first day, counted in the 400-year era, of year `yoe` of the era
/// (years begin on 1 March).
spec fn year_start(yoe: int) -> int {
    if yoe >= 400 {
        146097
    } else {
        365 * yoe + yoe / 4 - yoe / 100
    }
}

proof fn lemma_year_of_era(doe: int)
    requires
        0 <= doe < 146097,
    ensures
        ({
            let yoe = (doe - doe / 1460 + doe / 36524 - doe / 146096) / 365;
            &&& 0 <= yoe <= 399
            &&& year_start(yoe) <= doe < year_start(yoe + 1)
        }),
{
}


/// Whether `year` is a leap year of the Gregorian calendar.
pub open spec fn is_leap(year: int) -> bool {
    year % 4 == 0 && (year % 100 != 0 || year % 400 == 0)
}

/// The number of days of `month` in `year`.
pub open spec fn month_length(year: int, month: int) -> int {
    if month == 2 {
        if is_leap(year) {
            29
        } else {
            28
        }
    } else if month == 4 || month == 6 || month == 9 || month == 11 {
        30
    } else {
        31
    }
}

/// The day after `date`, a (year, month, day).
pub open spec fn next_day(date: (int, int, int)) -> (int, int, int) {
    let (year, month, day) = date;
    if day < month_length(year, month) {
        (year, month, day + 1)
    } else if month < 12 {
        (year, month + 1, 1)
    } else {
        (year + 1, 1, 1)
    }
}

/// The first day, counted in the year from 1 March, of month `mp` of that year.
spec fn month_start(mp: int) -> int {
    (153 * mp + 2) / 5
}

proof fn lemma_month_of_year(doy: int)
    requires
        0 <= doy <= 365,
    ensures
        ({
            let mp = (5 * doy + 2) / 153;
            &&& 0 <= mp <= 11
            &&& month_start(mp) <= doy
            &&& mp < 11 ==> doy < month_start(mp + 1)
        }),
{
}

proof fn lemma_month_lengths(year: int, mp: int)
    requires
        0 <= mp <= 10,
    ensures
        month_start(mp + 1) - month_start(mp) == month_length(
            year,
            if mp < 10 {
                mp + 3
            } else {
                mp - 9
            },
        ),
        month_start(11) == 337,
{
}

proof fn lemma_year_length(era: int, yoe: int)
    requires
        0 <= yoe <= 399,
    ensures
        year_start(yoe + 1) - year_start(yoe) == if is_leap(era * 400 + yoe + 1) {
            366int
        } else {
            365int
        },
        year_start(0) == 0,
{
}

proof fn lemma_year_start_grows(a: int, b: int)
    requires
        0 <= a < b <= 400,
    ensures
        year_start(a + 1) <= year_start(b),
{
}


proof fn lemma_next_in_era(era: int, doe: int)
    requires
        era >= 0,
        0 <= doe < 146096,
    ensures
        civil_date(era * 146097 + doe + 1 - 719468) == next_day(
            civil_date(era * 146097 + doe - 719468),
        ),
{
    let z = era * 146097 + doe;
    assert(z / 146097 == era);
    assert((z + 1) / 146097 == era);
    lemma_year_of_era(doe);
    lemma_year_of_era(doe + 1);
    let yoe = (doe - doe / 1460 + doe / 36524 - doe / 146096) / 365;
    let d2 = doe + 1;
    let yoe2 = (d2 - d2 / 1460 + d2 / 36524 - d2 / 146096) / 365;
    lemma_year_length(era, yoe);
    if yoe2 > yoe {
        lemma_year_start_grows(yoe, yoe2);
    }
    if yoe2 < yoe {
        lemma_year_start_grows(yoe2, yoe);
    }
    let doy = doe - year_start(yoe);
    let doy2 = d2 - year_start(yoe2);
    lemma_month_of_year(doy);
    lemma_month_of_year(doy2);
    let mp = (5 * doy + 2) / 153;
    let civil_year = yoe + era * 400 + if mp >= 10 {
        1int
    } else {
        0int
    };
    if mp <= 10 {
        lemma_month_lengths(civil_year, mp);
    } else {
        lemma_month_lengths(civil_year, 0);
    }
}

proof fn lemma_next_across_eras(era: int)
    requires
        era >= 0,
    ensures
        civil_date(era * 146097 + 146096 + 1 - 719468) == next_day(
            civil_date(era * 146097 + 146096 - 719468),
        ),
{
    let z = era * 146097 + 146096;
    assert(z / 146097 == era);
    assert((z + 1) / 146097 == era + 1);
    assert(year_start(399) == 145731);
    assert(is_leap(era * 400 + 400));
}

/// `civil_date` is the Gregorian calendar counted from 1970-01-01: day 0 is
/// 1 January 1970, and each next day is the day after in that calendar
/// (the next day of the month, the first of the next month, or 1 January of
/// the next year after 31 December), leap years being those divisible by 4
/// but not by 100, or by 400.
pub proof fn law_civil_date_is_gregorian(days: int)
    requires
        days >= 0,
    ensures
        civil_date(0) == (1970int, 1int, 1int),
        civil_date(days + 1) == next_day(civil_date(days)),
{
    let z = days + 719468;
    let era = z / 146097;
    let doe = z - era * 146097;
    assert(0 <= doe < 146097);
    assert(days == era * 146097 + doe - 719468);
    if doe < 146096 {
        lemma_next_in_era(era, doe);
    } else {
        lemma_next_across_eras(era);
    }
    assert(719468int / 146097 == 4);
    lemma_year_of_era(719468 - 4 * 146097);
}

} // verus!
