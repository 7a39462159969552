//! Calendar dates, held as plain year, month and day fields.
//!
//! A document's publish date travels through the store as text in the
//! form `YYYY-MM-DD`.  The store parses, orders and re-renders such
//! dates; it never needs a time zone or the time of day.

use vstd::prelude::*;
use crate::num::{
    dec_digits_padded,
    digit_val,
    digits_val,
    is_digit,
    push_decimal_padded2,
    push_decimal_padded4,
};

verus! {

/// A calendar date.  Valid values (see [`Date::wf`]) have a four-digit
/// year and a real day of a real month, leap years accounted for.
#[derive(Clone, Copy, PartialEq, Eq, Structural, Debug, Hash)]
pub struct Date {
    pub year: u16,
    pub month: u8,
    pub day: u8,
}

pub open spec fn is_leap_year(y: int) -> bool {
    (y % 4 == 0 && y % 100 != 0) || y % 400 == 0
}

pub open spec fn spec_days_in_month(y: int, m: int) -> int {
    if m == 2 {
        if is_leap_year(y) {
            29
        } else {
            28
        }
    } else if m == 4 || m == 6 || m == 9 || m == 11 {
        30
    } else {
        31
    }
}

impl Date {
    /// A well-formed date: four-digit year, real month, real day.
    pub open spec fn wf(self) -> bool {
        &&& self.year <= 9999
        &&& 1 <= self.month <= 12
        &&& 1 <= self.day <= spec_days_in_month(self.year as int, self.month as int)
    }

    /// A single number that orders dates chronologically.
    pub open spec fn key(self) -> int {
        self.year as int * 10000 + self.month as int * 100 + self.day as int
    }

    /// Whether `self` falls strictly before `other`.
    pub fn is_before(&self, other: &Date) -> (r: bool)
        requires
            self.wf(),
            other.wf(),
        ensures
            r == (self.key() < other.key()),
    {
        if self.year != other.year {
            self.year < other.year
        } else if self.month != other.month {
            self.month < other.month
        } else {
            self.day < other.day
        }
    }

    /// The date rendered as `YYYY-MM-DD`.
    pub fn render(&self) -> (r: String)
        requires
            self.wf(),
        ensures
            r@ == date_chars(*self),
    {
        let mut out = String::new();
        push_decimal_padded4(&mut out, self.year as u32);
        out.append("-");
        push_decimal_padded2(&mut out, self.month as u32);
        out.append("-");
        push_decimal_padded2(&mut out, self.day as u32);
        proof {
            reveal_strlit("-");
            assert("-"@ =~= seq!['-']);
            assert(out@ =~= date_chars(*self));
        }
        out
    }
}

/// The `YYYY-MM-DD` rendering of a date.
pub open spec fn date_chars(d: Date) -> Seq<char> {
    dec_digits_padded(d.year as int, 4) + seq!['-'] + dec_digits_padded(d.month as int, 2)
        + seq!['-'] + dec_digits_padded(d.day as int, 2)
}

/// Text in the form `YYYY-MM-DD` that names a well-formed date.
pub open spec fn is_date_str(s: Seq<char>) -> bool {
    &&& s.len() == 10
    &&& is_digit(s[0]) && is_digit(s[1]) && is_digit(s[2]) && is_digit(s[3])
    &&& s[4] == '-'
    &&& is_digit(s[5]) && is_digit(s[6])
    &&& s[7] == '-'
    &&& is_digit(s[8]) && is_digit(s[9])
    &&& date_of_str(s).wf()
}

/// The date that text in the form `YYYY-MM-DD` names.
pub open spec fn date_of_str(s: Seq<char>) -> Date {
    Date {
        year: digits_val(s.subrange(0, 4)) as u16,
        month: digits_val(s.subrange(5, 7)) as u8,
        day: digits_val(s.subrange(8, 10)) as u8,
    }
}

proof fn lemma_digits_val2(q: Seq<char>)
    requires
        q.len() == 2,
    ensures
        digits_val(q) == digit_val(q[0]) * 10 + digit_val(q[1]),
{
    let d1 = q.drop_last();
    assert(d1.last() == q[0]);
    assert(d1.drop_last() =~= Seq::<char>::empty());
    assert(digits_val(Seq::<char>::empty()) == 0);
    assert(digits_val(d1) == digit_val(q[0]));
    assert(q.last() == q[1]);
}

proof fn lemma_digits_val4(q: Seq<char>)
    requires
        q.len() == 4,
    ensures
        digits_val(q) == ((digit_val(q[0]) * 10 + digit_val(q[1])) * 10 + digit_val(q[2])) * 10
            + digit_val(q[3]),
{
    let d3 = q.drop_last();
    let d2 = d3.drop_last();
    lemma_digits_val2(d2);
    assert(d2[0] == q[0]);
    assert(d2[1] == q[1]);
    assert(d3.last() == q[2]);
    assert(q.last() == q[3]);
    assert(digits_val(d3) == digits_val(d2) * 10 + digit_val(q[2]));
}

fn exec_days_in_month(y: u16, m: u8) -> (r: u8)
    ensures
        r as int == spec_days_in_month(y as int, m as int),
{
    if m == 2 {
        if (y % 4 == 0 && y % 100 != 0) || y % 400 == 0 {
            29
        } else {
            28
        }
    } else if m == 4 || m == 6 || m == 9 || m == 11 {
        30
    } else {
        31
    }
}

fn digit_of(c: char) -> (r: Option<u32>)
    ensures
        match r {
            Some(v) => is_digit(c) && v == digit_val(c) && v <= 9,
            None => !is_digit(c),
        },
{
    let u = c as u32;
    if 48 <= u && u <= 57 {
        Some(u - 48)
    } else {
        None
    }
}

/// Parse text in the form `YYYY-MM-DD` into a date; reject anything
/// else, malformed text and impossible calendar dates alike.
pub fn parse_date(s: &str) -> (r: Option<Date>)
    ensures
        match r {
            Some(d) => is_date_str(s@) && d == date_of_str(s@),
            None => !is_date_str(s@),
        },
{
    if s.unicode_len() != 10 {
        return None;
    }
    let c0 = digit_of(s.get_char(0));
    let c1 = digit_of(s.get_char(1));
    let c2 = digit_of(s.get_char(2));
    let c3 = digit_of(s.get_char(3));
    let c5 = digit_of(s.get_char(5));
    let c6 = digit_of(s.get_char(6));
    let c8 = digit_of(s.get_char(8));
    let c9 = digit_of(s.get_char(9));
    if s.get_char(4) != '-' || s.get_char(7) != '-' {
        return None;
    }
    match (c0, c1, c2, c3, c5, c6, c8, c9) {
        (Some(y0), Some(y1), Some(y2), Some(y3), Some(m0), Some(m1), Some(d0), Some(d1)) => {
            let year: u32 = ((y0 * 10 + y1) * 10 + y2) * 10 + y3;
            let month: u32 = m0 * 10 + m1;
            let day: u32 = d0 * 10 + d1;
            proof {
                lemma_digits_val4(s@.subrange(0, 4));
                lemma_digits_val2(s@.subrange(5, 7));
                lemma_digits_val2(s@.subrange(8, 10));
            }
            let date = Date { year: year as u16, month: month as u8, day: day as u8 };
            if 1 <= month && month <= 12 && 1 <= day && day <= exec_days_in_month(
                year as u16,
                month as u8,
            ) as u32 {
                assert(date == date_of_str(s@));
                assert(date.wf());
                Some(date)
            } else {
                assert(!date_of_str(s@).wf());
                None
            }
        },
        _ => None,
    }
}

} // verus!
