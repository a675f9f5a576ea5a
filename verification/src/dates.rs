//! Calendar dates as plain year, month and day numbers, with the Gregorian
//! validity rule, an ordering, the two accepted input forms and the two
//! printed forms.

use vstd::prelude::*;
use vstd::string::*;
use crate::digits::{
    all_digits, dec_pad, digits_val, lemma_char_at, lemma_dec_pad_val, lemma_split_at,
    parse_digits, pow10, push_dec_pad,
};

verus! {

/// A calendar day: year `0..=9999`, month and day starting at one.
#[derive(Clone, Copy, Debug, PartialEq, Eq, Structural)]
pub struct Date {
    pub year: u32,
    pub month: u32,
    pub day: u32,
}

pub open spec fn is_leap_year(y: int) -> bool {
    y % 4 == 0 && (y % 100 != 0 || y % 400 == 0)
}

pub open spec fn days_in_month(y: int, m: int) -> int {
    if m == 2 {
        if is_leap_year(y) {
            29
        } else {
            28
        }
    } else if m == 4 || m == 6 || m == 9 || m == 11 {
        30
    } else {
        31
    }
}

impl Date {
    /// The components name a real day of a four-digit year.
    pub open spec fn wf(self) -> bool {
        &&& self.year <= 9999
        &&& 1 <= self.month <= 12
        &&& 1 <= self.day <= days_in_month(self.year as int, self.month as int)
    }

    /// Chronological order, never-after: year first, then month, then day.
    pub open spec fn spec_before_eq(self, other: Date) -> bool {
        ||| self.year < other.year
        ||| (self.year == other.year && self.month < other.month)
        ||| (self.year == other.year && self.month == other.month && self.day <= other.day)
    }

    /// Builds a date when the components form one.
    pub fn new(year: u32, month: u32, day: u32) -> (r: Option<Date>)
        ensures
            match r {
                Some(d) => d == (Date { year, month, day }) && d.wf(),
                None => !(Date { year, month, day }).wf(),
            },
    {
        let d = Date { year, month, day };
        if year <= 9999 && 1 <= month && month <= 12 && 1 <= day && day <= d.days_in_month_exec() {
            Some(d)
        } else {
            None
        }
    }

    /// Decides `wf`.
    pub fn is_valid(&self) -> (r: bool)
        ensures
            r == self.wf(),
    {
        self.year <= 9999 && 1 <= self.month && self.month <= 12 && 1 <= self.day && self.day
            <= self.days_in_month_exec()
    }

    fn days_in_month_exec(&self) -> (r: u32)
        ensures
            r as int == days_in_month(self.year as int, self.month as int),
    {
        if self.month == 2 {
            let leap = self.year % 4 == 0 && (self.year % 100 != 0 || self.year % 400 == 0);
            if leap {
                29
            } else {
                28
            }
        } else if self.month == 4 || self.month == 6 || self.month == 9 || self.month == 11 {
            30
        } else {
            31
        }
    }

    /// Decides `spec_before_eq`.
    pub fn before_eq(&self, other: &Date) -> (r: bool)
        ensures
            r == self.spec_before_eq(*other),
    {
        if self.year != other.year {
            self.year < other.year
        } else if self.month != other.month {
            self.month < other.month
        } else {
            self.day <= other.day
        }
    }
}

/// Why a date token was rejected.
#[derive(Clone, Copy, Debug, PartialEq, Eq, Structural)]
pub enum DateError {
    /// Non-digits where the compact form's day stands.
    BadDay,
    /// Non-digits where the compact form's month stands.
    BadMonth,
    /// Non-digits where the compact form's year stands.
    BadYear,
    /// The components do not form a real calendar day.
    InvalidComponents,
    /// Neither `ddmmyyyy` nor `dd.mm.yyyy`.
    BadFormat,
}

/// Mathematical reading of a date token: eight digits are `ddmmyyyy`; a
/// ten-character token with dots after the day and the month is
/// `dd.mm.yyyy`; nothing else is accepted.
pub open spec fn date_value(s: Seq<char>) -> Result<Date, DateError> {
    if s.len() == 8 {
        if !all_digits(s.subrange(0, 2)) {
            Err(DateError::BadDay)
        } else if !all_digits(s.subrange(2, 4)) {
            Err(DateError::BadMonth)
        } else if !all_digits(s.subrange(4, 8)) {
            Err(DateError::BadYear)
        } else {
            let d = Date {
                year: digits_val(s.subrange(4, 8)) as u32,
                month: digits_val(s.subrange(2, 4)) as u32,
                day: digits_val(s.subrange(0, 2)) as u32,
            };
            if d.wf() {
                Ok(d)
            } else {
                Err(DateError::InvalidComponents)
            }
        }
    } else if s.len() == 10 && s[2] == '.' && s[5] == '.' && all_digits(s.subrange(0, 2))
        && all_digits(s.subrange(3, 5)) && all_digits(s.subrange(6, 10)) {
        let d = Date {
            year: digits_val(s.subrange(6, 10)) as u32,
            month: digits_val(s.subrange(3, 5)) as u32,
            day: digits_val(s.subrange(0, 2)) as u32,
        };
        if d.wf() {
            Ok(d)
        } else {
            Err(DateError::InvalidComponents)
        }
    } else {
        Err(DateError::BadFormat)
    }
}

/// Parses a date token in either accepted form; returns exactly `date_value`.
pub fn parse_date(date_str: &str) -> (r: Result<Date, DateError>)
    ensures
        r == date_value(date_str@),
{
    let n = date_str.unicode_len();
    if n == 8 {
        let day = match parse_digits(date_str, 0, 2) {
            Some(v) => v,
            None => {
                return Err(DateError::BadDay);
            },
        };
        let month = match parse_digits(date_str, 2, 4) {
            Some(v) => v,
            None => {
                return Err(DateError::BadMonth);
            },
        };
        let year = match parse_digits(date_str, 4, 8) {
            Some(v) => v,
            None => {
                return Err(DateError::BadYear);
            },
        };
        match Date::new(year, month, day) {
            Some(d) => Ok(d),
            None => Err(DateError::InvalidComponents),
        }
    } else if n == 10 {
        if date_str.get_char(2) != '.' || date_str.get_char(5) != '.' {
            return Err(DateError::BadFormat);
        }
        let day = match parse_digits(date_str, 0, 2) {
            Some(v) => v,
            None => {
                return Err(DateError::BadFormat);
            },
        };
        let month = match parse_digits(date_str, 3, 5) {
            Some(v) => v,
            None => {
                return Err(DateError::BadFormat);
            },
        };
        let year = match parse_digits(date_str, 6, 10) {
            Some(v) => v,
            None => {
                return Err(DateError::BadFormat);
            },
        };
        match Date::new(year, month, day) {
            Some(d) => Ok(d),
            None => Err(DateError::InvalidComponents),
        }
    } else {
        Err(DateError::BadFormat)
    }
}

/// The compact written form `ddmmyyyy`.
pub open spec fn compact_rep(d: Date) -> Seq<char> {
    dec_pad(d.day as nat, 2) + dec_pad(d.month as nat, 2) + dec_pad(d.year as nat, 4)
}

/// Both accepted ways to write a day parse back to that day: the compact
/// `ddmmyyyy` form and the dotted `dd.mm.yyyy` form of a valid date give
/// the same parse, the date itself.
pub proof fn lemma_date_forms_agree(d: Date)
    requires
        d.wf(),
    ensures
        date_value(compact_rep(d)) == Ok::<Date, DateError>(d),
        date_value(dotted_rep(d)) == Ok::<Date, DateError>(d),
{
    assert(pow10(4) == 10000 && pow10(2) == 100) by {
        reveal_with_fuel(pow10, 5);
    }
    let day = dec_pad(d.day as nat, 2);
    let mon = dec_pad(d.month as nat, 2);
    let yr = dec_pad(d.year as nat, 4);
    let dot = seq!['.'];
    lemma_dec_pad_val(d.day as nat, 2);
    lemma_dec_pad_val(d.month as nat, 2);
    lemma_dec_pad_val(d.year as nat, 4);
    let c = compact_rep(d);
    assert(c.subrange(0, c.len() as int) =~= c);
    lemma_split_at(c, 0, day + mon, yr);
    lemma_split_at(c, 0, day, mon);
    let t = dotted_rep(d);
    assert(t.subrange(0, t.len() as int) =~= t);
    lemma_split_at(t, 0, day + dot + mon + dot, yr);
    lemma_split_at(t, 0, day + dot + mon, dot);
    lemma_split_at(t, 0, day + dot, mon);
    lemma_split_at(t, 0, day, dot);
    lemma_char_at(t, 2, '.');
    lemma_char_at(t, 5, '.');
}

/// The printed form `dd.mm.yyyy`.
pub open spec fn dotted_rep(d: Date) -> Seq<char> {
    dec_pad(d.day as nat, 2) + seq!['.'] + dec_pad(d.month as nat, 2) + seq!['.'] + dec_pad(
        d.year as nat,
        4,
    )
}

/// The stored form `yyyy-mm-dd`.
pub open spec fn iso_rep(d: Date) -> Seq<char> {
    dec_pad(d.year as nat, 4) + seq!['-'] + dec_pad(d.month as nat, 2) + seq!['-'] + dec_pad(
        d.day as nat,
        2,
    )
}

/// Appends `dd.mm.yyyy` to `out`.
pub fn push_dotted(out: &mut Vec<char>, d: Date)
    ensures
        final(out)@ == old(out)@ + dotted_rep(d),
{
    push_dec_pad(out, d.day, 2);
    out.push('.');
    push_dec_pad(out, d.month, 2);
    out.push('.');
    push_dec_pad(out, d.year, 4);
    assert(out@ =~= old(out)@ + dotted_rep(d));
}

/// Appends `yyyy-mm-dd` to `out`.
pub fn push_iso(out: &mut Vec<char>, d: Date)
    ensures
        final(out)@ == old(out)@ + iso_rep(d),
{
    push_dec_pad(out, d.year, 4);
    out.push('-');
    push_dec_pad(out, d.month, 2);
    out.push('-');
    push_dec_pad(out, d.day, 2);
    assert(out@ =~= old(out)@ + iso_rep(d));
}

} // verus!
