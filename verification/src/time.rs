//! Validation of the optional `time` attribute: an RFC 3339 date-time such
//! as `2024-01-01T00:00:00Z`, with an optional fractional second and either
//! a `Z` suffix or a numeric offset.

use vstd::prelude::*;

verus! {

pub open spec fn is_digit(b: u8) -> bool {
    0x30 <= b && b <= 0x39
}

pub open spec fn digit_val(b: u8) -> int {
    b - 0x30
}

/// The two-digit number at positions `i`, `i + 1`.
pub open spec fn two_digit(s: Seq<u8>, i: int) -> int {
    digit_val(s[i]) * 10 + digit_val(s[i + 1])
}

/// The four-digit number at positions `i` .. `i + 3`.
pub open spec fn four_digit(s: Seq<u8>, i: int) -> int {
    two_digit(s, i) * 100 + two_digit(s, i + 2)
}

pub open spec fn is_leap_year(y: int) -> bool {
    y % 4 == 0 && (y % 100 != 0 || y % 400 == 0)
}

pub open spec fn days_in_month(y: int, m: int) -> int {
    if m == 1 || m == 3 || m == 5 || m == 7 || m == 8 || m == 10 || m == 12 {
        31
    } else if m == 4 || m == 6 || m == 9 || m == 11 {
        30
    } else if m == 2 {
        if is_leap_year(y) {
            29
        } else {
            28
        }
    } else {
        0
    }
}

/// First position at or after `i` that does not hold a digit.
pub open spec fn digits_end(s: Seq<u8>, i: int) -> int
    decreases s.len() - i,
{
    if 0 <= i < s.len() && is_digit(s[i]) {
        digits_end(s, i + 1)
    } else {
        i
    }
}

/// A valid zone designator starting at `i` and running to the end of `s`:
/// `Z`, `z`, or a signed `hh:mm` offset.
pub open spec fn valid_offset(s: Seq<u8>, i: int) -> bool {
    if i + 1 == s.len() {
        s[i] == 0x5a || s[i] == 0x7a  // 'Z' | 'z'
    } else if i + 6 == s.len() {
        &&& (s[i] == 0x2b || s[i] == 0x2d)  // '+' | '-'
        &&& is_digit(s[i + 1]) && is_digit(s[i + 2])
        &&& s[i + 3] == 0x3a  // ':'
        &&& is_digit(s[i + 4]) && is_digit(s[i + 5])
        &&& two_digit(s, i + 1) <= 23
        &&& two_digit(s, i + 4) <= 59
    } else {
        false
    }
}

/// Whether `s` is an RFC 3339 date-time: `YYYY-MM-DDThh:mm:ss`, an optional
/// `.digits` fraction, and a zone designator, with the fields in range
/// (month, day against the month's length and leap years, hour, minute,
/// second including a leap second, offset).
pub open spec fn is_rfc3339(s: Seq<u8>) -> bool {
    &&& s.len() >= 20
    &&& is_digit(s[0]) && is_digit(s[1]) && is_digit(s[2]) && is_digit(s[3])
    &&& s[4] == 0x2d  // '-'
    &&& is_digit(s[5]) && is_digit(s[6])
    &&& s[7] == 0x2d  // '-'
    &&& is_digit(s[8]) && is_digit(s[9])
    &&& s[10] == 0x54 || s[10] == 0x74  // 'T' | 't'
    &&& is_digit(s[11]) && is_digit(s[12])
    &&& s[13] == 0x3a  // ':'
    &&& is_digit(s[14]) && is_digit(s[15])
    &&& s[16] == 0x3a  // ':'
    &&& is_digit(s[17]) && is_digit(s[18])
    &&& 1 <= two_digit(s, 5) <= 12
    &&& 1 <= two_digit(s, 8) <= days_in_month(four_digit(s, 0), two_digit(s, 5))
    &&& two_digit(s, 11) <= 23
    &&& two_digit(s, 14) <= 59
    &&& two_digit(s, 17) <= 60
    &&& if s[19] == 0x2e {  // '.'
        digits_end(s, 20) > 20 && valid_offset(s, digits_end(s, 20))
    } else {
        valid_offset(s, 19)
    }
}

fn read_digit(s: &[u8], i: usize) -> (r: Option<u32>)
    requires
        i < s@.len(),
    ensures
        match r {
            Some(v) => is_digit(s@[i as int]) && v == digit_val(s@[i as int]),
            None => !is_digit(s@[i as int]),
        },
{
    let b = s[i];
    if 0x30 <= b && b <= 0x39 {
        Some((b - 0x30) as u32)
    } else {
        None
    }
}

fn read_two_digit(s: &[u8], i: usize) -> (r: Option<u32>)
    requires
        i + 1 < s@.len(),
    ensures
        match r {
            Some(v) => is_digit(s@[i as int]) && is_digit(s@[i + 1]) && v == two_digit(
                s@,
                i as int,
            ),
            None => !(is_digit(s@[i as int]) && is_digit(s@[i + 1])),
        },
{
    let n = s.len();
    let hi = read_digit(s, i);
    let lo = read_digit(s, i + 1);
    match (hi, lo) {
        (Some(h), Some(l)) => Some(h * 10 + l),
        _ => None,
    }
}

fn check_offset(s: &[u8], i: usize) -> (r: bool)
    requires
        i <= s@.len(),
    ensures
        r == valid_offset(s@, i as int),
{
    if s.len() - i == 1 {
        let b = s[i];
        b == 0x5a || b == 0x7a
    } else if s.len() - i == 6 {
        let sign = s[i];
        if sign != 0x2b && sign != 0x2d {
            return false;
        }
        if s[i + 3] != 0x3a {
            return false;
        }
        let hh = read_two_digit(s, i + 1);
        let mm = read_two_digit(s, i + 4);
        match (hh, mm) {
            (Some(h), Some(m)) => h <= 23 && m <= 59,
            _ => false,
        }
    } else {
        false
    }
}

/// Checks that `s` is an RFC 3339 date-time.
pub fn check_rfc3339(s: &[u8]) -> (r: bool)
    ensures
        r == is_rfc3339(s@),
{
    if s.len() < 20 {
        return false;
    }
    let year_hi = read_two_digit(s, 0);
    let year_lo = read_two_digit(s, 2);
    let (yh, yl) = match (year_hi, year_lo) {
        (Some(a), Some(b)) => (a, b),
        _ => { return false; },
    };
    let year = yh * 100 + yl;
    if s[4] != 0x2d || s[7] != 0x2d {
        return false;
    }
    if !(s[10] == 0x54 || s[10] == 0x74) {
        return false;
    }
    if s[13] != 0x3a || s[16] != 0x3a {
        return false;
    }
    let month = match read_two_digit(s, 5) {
        Some(m) => m,
        None => { return false; },
    };
    let day = match read_two_digit(s, 8) {
        Some(d) => d,
        None => { return false; },
    };
    let hour = match read_two_digit(s, 11) {
        Some(h) => h,
        None => { return false; },
    };
    let minute = match read_two_digit(s, 14) {
        Some(m) => m,
        None => { return false; },
    };
    let second = match read_two_digit(s, 17) {
        Some(x) => x,
        None => { return false; },
    };
    if !(1 <= month && month <= 12) {
        return false;
    }
    let leap = year % 4 == 0 && (year % 100 != 0 || year % 400 == 0);
    let month_len: u32 = if month == 1 || month == 3 || month == 5 || month == 7 || month == 8
        || month == 10 || month == 12 {
        31
    } else if month == 4 || month == 6 || month == 9 || month == 11 {
        30
    } else if leap {
        29
    } else {
        28
    };
    proof {
        assert(year == four_digit(s@, 0));
        assert(leap == is_leap_year(year as int));
        assert(month_len == days_in_month(four_digit(s@, 0), two_digit(s@, 5)));
    }
    if !(1 <= day && day <= month_len) {
        return false;
    }
    if !(hour <= 23 && minute <= 59 && second <= 60) {
        return false;
    }
    if s[19] == 0x2e {
        let mut i: usize = 20;
        while i < s.len() && 0x30 <= s[i] && s[i] <= 0x39
            invariant
                20 <= i <= s@.len(),
                digits_end(s@, 20) == digits_end(s@, i as int),
            decreases s@.len() - i,
        {
            i = i + 1;
        }
        proof {
            assert(digits_end(s@, i as int) == i);
        }
        if i == 20 {
            return false;
        }
        check_offset(s, i)
    } else {
        check_offset(s, 19)
    }
}

} // verus!
