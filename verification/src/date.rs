//! Validation of `YYYY-MM-DD` calendar dates, including leap years.

use vstd::prelude::*;

verus! {

/// `c` is one of the decimal digit characters `'0'..='9'`.
pub open spec fn spec_is_digit(c: char) -> bool {
    48 <= c as u32 && c as u32 <= 57
}

/// Numeric value of a decimal digit character.
pub open spec fn spec_digit_val(c: char) -> int {
    c as u32 - 48
}

/// Gregorian leap-year rule.
pub open spec fn spec_is_leap_year(y: int) -> bool {
    (y % 4 == 0 && y % 100 != 0) || y % 400 == 0
}

/// Number of days in month `m` of year `y` (months counted from 1).
pub open spec fn spec_days_in_month(y: int, m: int) -> int {
    if m == 2 {
        if spec_is_leap_year(y) {
            29
        } else {
            28
        }
    } else if m == 4 || m == 6 || m == 9 || m == 11 {
        30
    } else {
        31
    }
}

/// The year encoded by the first four characters of a date string.
pub open spec fn spec_year_of(s: Seq<char>) -> int {
    spec_digit_val(s[0]) * 1000 + spec_digit_val(s[1]) * 100 + spec_digit_val(s[2]) * 10
        + spec_digit_val(s[3])
}

/// The month encoded by characters five and six of a date string.
pub open spec fn spec_month_of(s: Seq<char>) -> int {
    spec_digit_val(s[5]) * 10 + spec_digit_val(s[6])
}

/// The day encoded by the last two characters of a date string.
pub open spec fn spec_day_of(s: Seq<char>) -> int {
    spec_digit_val(s[8]) * 10 + spec_digit_val(s[9])
}

/// `s` has the exact shape `YYYY-MM-DD` and names an existing calendar day:
/// four digit year, month between 1 and 12, day between 1 and the length of
/// that month in that year.
pub open spec fn spec_valid_date(s: Seq<char>) -> bool {
    &&& s.len() == 10
    &&& spec_is_digit(s[0])
    &&& spec_is_digit(s[1])
    &&& spec_is_digit(s[2])
    &&& spec_is_digit(s[3])
    &&& s[4] == '-'
    &&& spec_is_digit(s[5])
    &&& spec_is_digit(s[6])
    &&& s[7] == '-'
    &&& spec_is_digit(s[8])
    &&& spec_is_digit(s[9])
    &&& 1 <= spec_month_of(s)
    &&& spec_month_of(s) <= 12
    &&& 1 <= spec_day_of(s)
    &&& spec_day_of(s) <= spec_days_in_month(spec_year_of(s), spec_month_of(s))
}

/// Numeric value of a digit character, or `None` when `c` is no digit.
fn char_digit(c: char) -> (r: Option<u32>)
    ensures
        r is Some <==> spec_is_digit(c),
        r is Some ==> r.unwrap() == spec_digit_val(c) && r.unwrap() <= 9,
{
    let v = c as u32;
    if 48 <= v && v <= 57 {
        Some(v - 48)
    } else {
        None
    }
}

/// Decides whether `s` is a syntactically valid `YYYY-MM-DD` calendar date.
pub fn is_valid_date(s: &str) -> (r: bool)
    ensures
        r == spec_valid_date(s@),
{
    if s.unicode_len() != 10 {
        return false;
    }
    if s.get_char(4) != '-' || s.get_char(7) != '-' {
        return false;
    }
    let d0 = char_digit(s.get_char(0));
    let d1 = char_digit(s.get_char(1));
    let d2 = char_digit(s.get_char(2));
    let d3 = char_digit(s.get_char(3));
    let d5 = char_digit(s.get_char(5));
    let d6 = char_digit(s.get_char(6));
    let d8 = char_digit(s.get_char(8));
    let d9 = char_digit(s.get_char(9));
    match (d0, d1, d2, d3, d5, d6, d8, d9) {
        (Some(y0), Some(y1), Some(y2), Some(y3), Some(m0), Some(m1), Some(dd0), Some(dd1)) => {
            let y: u32 = y0 * 1000 + y1 * 100 + y2 * 10 + y3;
            let m: u32 = m0 * 10 + m1;
            let d: u32 = dd0 * 10 + dd1;
            if m < 1 || m > 12 {
                return false;
            }
            let leap: bool = (y % 4 == 0 && y % 100 != 0) || y % 400 == 0;
            let days: u32 = if m == 2 {
                if leap {
                    29
                } else {
                    28
                }
            } else if m == 4 || m == 6 || m == 9 || m == 11 {
                30
            } else {
                31
            };
            1 <= d && d <= days
        },
        _ => false,
    }
}

} // verus!
