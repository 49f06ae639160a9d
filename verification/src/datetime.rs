//! Calendar timestamps as plain values: validity (month lengths, leap
//! years), parsing of the three textual forms the site uses, and rendering.

use vstd::prelude::*;
use crate::text::{
    all_dec_digits, dec_str, dec_val, find_char, pad_str, padded_u32_to_string, parse_dec_u32,
};

verus! {

/// A calendar timestamp held as plain fields.
#[derive(Clone, Copy, PartialEq, Eq, Structural, Debug)]
pub struct SimpleDateTime {
    pub year: u32,
    pub month: u8,
    pub day: u8,
    pub hour: u8,
    pub minute: u8,
    pub second: u8,
}

pub open spec fn spec_is_leap_year(y: nat) -> bool {
    (y % 4 == 0 && y % 100 != 0) || y % 400 == 0
}

pub open spec fn spec_days_in_month(y: nat, m: nat) -> nat {
    if m == 1 || m == 3 || m == 5 || m == 7 || m == 8 || m == 10 || m == 12 {
        31
    } else if m == 4 || m == 6 || m == 9 || m == 11 {
        30
    } else if m == 2 {
        if spec_is_leap_year(y) {
            29
        } else {
            28
        }
    } else {
        0
    }
}

impl SimpleDateTime {
    /// A well-formed timestamp: fields within calendar ranges.
    pub open spec fn wf(&self) -> bool {
        &&& self.year <= 9999
        &&& 1 <= self.month <= 12
        &&& 1 <= self.day <= spec_days_in_month(self.year as nat, self.month as nat)
        &&& self.hour <= 23
        &&& self.minute <= 59
        &&& self.second <= 59
    }
}

/// Whether a year is a leap year.
pub fn is_leap_year(y: u32) -> (r: bool)
    ensures
        r == spec_is_leap_year(y as nat),
{
    (y % 4 == 0 && y % 100 != 0) || y % 400 == 0
}

/// The number of days in a month, zero for an invalid month number.
pub fn days_in_month(y: u32, m: u8) -> (r: u8)
    ensures
        r as nat == spec_days_in_month(y as nat, m as nat),
{
    if m == 1 || m == 3 || m == 5 || m == 7 || m == 8 || m == 10 || m == 12 {
        31
    } else if m == 4 || m == 6 || m == 9 || m == 11 {
        30
    } else if m == 2 {
        if is_leap_year(y) {
            29
        } else {
            28
        }
    } else {
        0
    }
}

/// Whether the given fields form a well-formed timestamp.
pub open spec fn spec_fields_valid(
    year: nat,
    month: nat,
    day: nat,
    hour: nat,
    minute: nat,
    second: nat,
) -> bool {
    &&& year <= 9999
    &&& 1 <= month <= 12
    &&& 1 <= day <= spec_days_in_month(year, month)
    &&& hour <= 23
    &&& minute <= 59
    &&& second <= 59
}

/// Builds a timestamp from plain fields, rejecting invalid calendars.
pub fn try_date_time(year: u32, month: u32, day: u32, hour: u32, minute: u32, second: u32) -> (r:
    Option<SimpleDateTime>)
    ensures
        match r {
            Some(t) => spec_fields_valid(
                year as nat,
                month as nat,
                day as nat,
                hour as nat,
                minute as nat,
                second as nat,
            ) && t == (SimpleDateTime {
                year,
                month: month as u8,
                day: day as u8,
                hour: hour as u8,
                minute: minute as u8,
                second: second as u8,
            }) && t.wf(),
            None => !spec_fields_valid(
                year as nat,
                month as nat,
                day as nat,
                hour as nat,
                minute as nat,
                second as nat,
            ),
        },
{
    if year <= 9999 && 1 <= month && month <= 12 && hour <= 23 && minute <= 59 && second <= 59 {
        let dim = days_in_month(year, month as u8);
        if 1 <= day && day <= dim as u32 {
            Some(
                SimpleDateTime {
                    year,
                    month: month as u8,
                    day: day as u8,
                    hour: hour as u8,
                    minute: minute as u8,
                    second: second as u8,
                },
            )
        } else {
            None
        }
    } else {
        None
    }
}

/// The timestamp a freshly created record carries before extraction fills it.
pub fn default_date_time() -> (r: SimpleDateTime)
    ensures
        r == (SimpleDateTime { year: 2019u32, month: 1u8, day: 1u8, hour: 0u8, minute: 0u8, second: 0u8 }),
        r.wf(),
{
    SimpleDateTime { year: 2019, month: 1, day: 1, hour: 0, minute: 0, second: 0 }
}

/// The textual rendering of a timestamp: zero-padded
/// `YYYY-MM-DD HH:MM:SS`.
pub open spec fn date_time_text(t: SimpleDateTime) -> Seq<char> {
    pad_str(t.year as nat, 4) + "-"@ + pad_str(t.month as nat, 2) + "-"@ + pad_str(
        t.day as nat,
        2,
    ) + " "@ + pad_str(t.hour as nat, 2) + ":"@ + pad_str(t.minute as nat, 2) + ":"@ + pad_str(
        t.second as nat,
        2,
    )
}

impl SimpleDateTime {
    /// Renders the timestamp as text.
    pub fn to_text(&self) -> (r: String)
        ensures
            r@ == date_time_text(*self),
    {
        let mut r = padded_u32_to_string(self.year, 4);
        r.append("-");
        r.append(padded_u32_to_string(self.month as u32, 2).as_str());
        r.append("-");
        r.append(padded_u32_to_string(self.day as u32, 2).as_str());
        r.append(" ");
        r.append(padded_u32_to_string(self.hour as u32, 2).as_str());
        r.append(":");
        r.append(padded_u32_to_string(self.minute as u32, 2).as_str());
        r.append(":");
        r.append(padded_u32_to_string(self.second as u32, 2).as_str());
        r
    }
}

/// A decimal field of a date, read from a slice of the input.
pub open spec fn spec_num_field(s: Seq<char>) -> Option<u32> {
    if s.len() >= 1 && all_dec_digits(s) && dec_val(s) <= u32::MAX {
        Some(dec_val(s) as u32)
    } else {
        None
    }
}

/// Splits a string at the first occurrence of a separator; the separator is
/// dropped. Yields the whole string and nothing when the separator is
/// absent.
pub open spec fn spec_split_once(s: Seq<char>, c: char) -> (Seq<char>, Option<Seq<char>>) {
    match crate::text::find_char_spec(s, c) {
        Some(i) => (s.subrange(0, i), Some(s.subrange(i + 1, s.len() as int))),
        None => (s, None),
    }
}

/// Splits at the first occurrence of a separator character.
pub fn split_once(s: &str, c: char) -> (r: (String, Option<String>))
    ensures
        (r.0@, match r.1 {
            Some(rest) => Some(rest@),
            None => None,
        }) == spec_split_once(s@, c),
{
    match find_char(s, c) {
        Some(i) => {
            let head = s.substring_char(0, i).to_owned();
            let len = s.unicode_len();
            let tail = s.substring_char(i + 1, len).to_owned();
            proof {
                assert(exists|j: int|
                    0 <= j < s@.len() && s@[j] == c && forall|k: int| 0 <= k < j ==> s@[k] != c)
                    by {
                    assert(0 <= i as int && (i as int) < s@.len() && s@[i as int] == c);
                }
                let j = choose|j: int|
                    0 <= j < s@.len() && s@[j] == c && forall|k: int| 0 <= k < j ==> s@[k] != c;
                if j < i as int {
                    assert(s@[j] != c);
                } else if (i as int) < j {
                    assert(s@[i as int] != c);
                }
                assert(j == i as int);
            }
            (head, Some(tail))
        },
        None => (s.to_owned(), None),
    }
}

} // verus!
