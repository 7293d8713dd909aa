//! Calendar dates: validity, their `YYYY-MM-DD` text, and reading dates typed by the user.

use vstd::prelude::*;
use crate::error::LedgerError;
use crate::text::{
    all_digits, digits_value, is_digit, is_trimmed, lemma_four_digits, lemma_two_digits,
    parse_digits, push_char, push_four_digits, push_two_digits, two_digits, four_digits,
};
use chrono::Datelike;

verus! {

/// A calendar date with a four-digit year.
#[derive(Debug, Clone, Copy, PartialEq, Eq, Structural)]
pub struct Date {
    pub year: u32,
    pub month: u32,
    pub day: u32,
}

pub open spec fn is_leap_year(y: int) -> bool {
    (y % 4 == 0 && y % 100 != 0) || y % 400 == 0
}

/// The number of days of month `m` (1 to 12) in year `y`.
pub open spec fn month_length(y: int, m: int) -> int {
    if m == 2 {
        if is_leap_year(y) {
            29
        } else {
            28
        }
    } else if m == 4 || m == 6 || m == 9 || m == 11 {
        30
    } else {
        31
    }
}

/// Whether year, month and day name a date that `Date` can hold.
pub open spec fn valid_ymd(y: int, m: int, d: int) -> bool {
    0 <= y <= 9999 && 1 <= m <= 12 && 1 <= d <= month_length(y, m)
}

/// The date with these parts, if they name one.
pub open spec fn date_of(y: int, m: int, d: int) -> Option<Date> {
    if valid_ymd(y, m, d) {
        Some(Date { year: y as u32, month: m as u32, day: d as u32 })
    } else {
        None
    }
}

impl Date {
    pub open spec fn wf(self) -> bool {
        valid_ymd(self.year as int, self.month as int, self.day as int)
    }

    /// The position of the date on the calendar: later dates have larger keys.
    pub open spec fn key(self) -> int {
        self.year * 10000 + self.month * 100 + self.day
    }

    /// The date with these parts, if they name a valid date with a year from 0 to 9999.
    pub fn from_parts(y: i64, m: u32, d: u32) -> (r: Option<Date>)
        ensures
            r == date_of(y as int, m as int, d as int),
    {
        if y < 0 || y > 9999 || m < 1 || m > 12 || d < 1 {
            return None;
        }
        let y = y as u32;
        if d <= days_in_month(y, m) {
            Some(Date { year: y, month: m, day: d })
        } else {
            None
        }
    }

    /// The key of `self`, as a machine integer.
    pub fn sort_key(&self) -> (r: u32)
        requires
            self.wf(),
        ensures
            r == self.key(),
    {
        self.year * 10000 + self.month * 100 + self.day
    }

    /// The text `YYYY-MM-DD`.
    pub fn to_text(&self) -> (r: String)
        requires
            self.wf(),
        ensures
            r@ == date_text(*self),
    {
        let mut s = String::new();
        push_four_digits(&mut s, self.year);
        push_char(&mut s, '-');
        push_two_digits(&mut s, self.month);
        push_char(&mut s, '-');
        push_two_digits(&mut s, self.day);
        assert(s@ =~= date_text(*self));
        s
    }
}

/// The number of days of month `m` in year `y`.
pub fn days_in_month(y: u32, m: u32) -> (r: u32)
    requires
        1 <= m <= 12,
    ensures
        r == month_length(y as int, m as int),
{
    if m == 2 {
        if (y % 4 == 0 && y % 100 != 0) || y % 400 == 0 {
            29
        } else {
            28
        }
    } else if m == 4 || m == 6 || m == 9 || m == 11 {
        30
    } else {
        31
    }
}

/// A date written `YYYY-MM-DD`.
pub open spec fn date_text(d: Date) -> Seq<char> {
    four_digits(d.year as nat) + seq!['-'] + two_digits(d.month as nat) + seq!['-'] + two_digits(
        d.day as nat,
    )
}

/// The date that the text `YYYY-MM-DD` names, if it has exactly that shape and names a valid date.
pub open spec fn date_from_text(s: Seq<char>) -> Option<Date> {
    if s.len() == 10 && s[4] == '-' && s[7] == '-' && all_digits(s.subrange(0, 4)) && all_digits(
        s.subrange(5, 7),
    ) && all_digits(s.subrange(8, 10)) {
        date_of(
            digits_value(s.subrange(0, 4)),
            digits_value(s.subrange(5, 7)),
            digits_value(s.subrange(8, 10)),
        )
    } else {
        None
    }
}

/// Reads the date written `YYYY-MM-DD` in `cs[from..to]`.
pub fn parse_date(cs: &Vec<char>, from: usize, to: usize) -> (r: Option<Date>)
    requires
        from <= to <= cs@.len(),
    ensures
        r == date_from_text(cs@.subrange(from as int, to as int)),
{
    let ghost s = cs@.subrange(from as int, to as int);
    if to - from != 10 || cs[from + 4] != '-' || cs[from + 7] != '-' {
        return None;
    }
    assert(s.subrange(0, 4) =~= cs@.subrange(from as int, from + 4));
    assert(s.subrange(5, 7) =~= cs@.subrange(from + 5, from + 7));
    assert(s.subrange(8, 10) =~= cs@.subrange(from + 8, from + 10));
    let y = parse_digits(cs, from, from + 4, 9999);
    let m = parse_digits(cs, from + 5, from + 7, 99);
    let d = parse_digits(cs, from + 8, from + 10, 99);
    proof {
        if all_digits(s.subrange(0, 4)) {
            lemma_digits_bound(s.subrange(0, 4));
        }
        if all_digits(s.subrange(5, 7)) {
            lemma_digits_bound(s.subrange(5, 7));
        }
        if all_digits(s.subrange(8, 10)) {
            lemma_digits_bound(s.subrange(8, 10));
        }
    }
    match (y, m, d) {
        (Some(y), Some(m), Some(d)) => Date::from_parts(y as i64, m as u32, d as u32),
        _ => None,
    }
}

/// Four digits denote at most 9999, two at most 99.
proof fn lemma_digits_bound(s: Seq<char>)
    requires
        all_digits(s),
    ensures
        0 <= digits_value(s),
        s.len() == 2 ==> digits_value(s) <= 99,
        s.len() == 4 ==> digits_value(s) <= 9999,
    decreases s.len(),
{
    if s.len() > 0 {
        let t = s.drop_last();
        assert(all_digits(t)) by {
            assert forall|j: int| 0 <= j < t.len() implies is_digit(#[trigger] t[j]) by {
                assert(t[j] == s[j]);
            }
        }
        lemma_digits_bound(t);
        assert(is_digit(s[s.len() - 1]));
        if s.len() == 2 {
            lemma_digits_bound_len(t, 1);
        }
        if s.len() == 4 {
            lemma_digits_bound_len(t, 3);
        }
    }
}

proof fn lemma_digits_bound_len(s: Seq<char>, n: nat)
    requires
        all_digits(s),
        s.len() == n,
    ensures
        0 <= digits_value(s),
        n == 1 ==> digits_value(s) <= 9,
        n == 3 ==> digits_value(s) <= 999,
        n == 2 ==> digits_value(s) <= 99,
    decreases n,
{
    if n > 0 {
        let t = s.drop_last();
        assert(all_digits(t)) by {
            assert forall|j: int| 0 <= j < t.len() implies is_digit(#[trigger] t[j]) by {
                assert(t[j] == s[j]);
            }
        }
        lemma_digits_bound_len(t, (n - 1) as nat);
        assert(is_digit(s[s.len() - 1]));
        if n == 1 {
            assert(t =~= Seq::<char>::empty());
            assert(digits_value(t) == 0);
        }
    }
}

/// A valid date written as text reads back as the same date.
pub proof fn lemma_date_text_round_trip(d: Date)
    requires
        d.wf(),
    ensures
        date_from_text(date_text(d)) == Some(d),
        date_text(d).len() == 10,
        !date_text(d).contains(','),
        !date_text(d).contains('\n'),
        is_trimmed(date_text(d)),
{
    let s = date_text(d);
    lemma_four_digits(d.year as nat);
    lemma_two_digits(d.month as nat);
    lemma_two_digits(d.day as nat);
    assert(s.subrange(0, 4) =~= four_digits(d.year as nat));
    assert(s.subrange(5, 7) =~= two_digits(d.month as nat));
    assert(s.subrange(8, 10) =~= two_digits(d.day as nat));
    assert forall|i: int| 0 <= i < 10 implies #[trigger] s[i] == '-' || is_digit(s[i]) by {
        if i < 4 {
            assert(s[i] == four_digits(d.year as nat)[i]);
        } else if 5 <= i < 7 {
            assert(s[i] == two_digits(d.month as nat)[i - 5]);
        } else if 8 <= i < 10 {
            assert(s[i] == two_digits(d.day as nat)[i - 8]);
        }
    }
    assert(!s.contains(',')) by {
        if s.contains(',') {
            let j = choose|j: int| 0 <= j < s.len() && s[j] == ',';
            assert(s[j] == '-' || is_digit(s[j]));
        }
    }
    assert(!s.contains('\n')) by {
        if s.contains('\n') {
            let j = choose|j: int| 0 <= j < s.len() && s[j] == '\n';
            assert(s[j] == '-' || is_digit(s[j]));
        }
    }
    assert(s[0] == '-' || is_digit(s[0]));
    assert(s[9] == '-' || is_digit(s[9]));
}

/// What chrono's date parser makes of a text with the format `%Y-%m-%d`: year, month
/// and day, or nothing.
pub uninterp spec fn calendar_parse(s: Seq<char>) -> Option<(int, int, int)>;

/// Relies on chrono's `NaiveDate::parse_from_str` with the format `%Y-%m-%d`: the outcome
/// depends on the text alone, and a date it gives has a month from 1 to 12 and a day from 1 to 31.
#[verifier::external_body]
fn parse_calendar_date(s: &str) -> (r: Option<(i32, u32, u32)>)
    ensures
        r matches Some(t) ==> calendar_parse(s@) == Some((t.0 as int, t.1 as int, t.2 as int))
            && 1 <= t.1 <= 12 && 1 <= t.2 <= 31,
        r is None ==> calendar_parse(s@) is None,
{
    match chrono::NaiveDate::parse_from_str(s, "%Y-%m-%d") {
        Ok(d) => Some((d.year(), d.month(), d.day())),
        Err(_) => None,
    }
}

/// The date that a user-typed text names, read as chrono reads `%Y-%m-%d`, as a `Date`.
pub open spec fn typed_date(s: Seq<char>) -> Result<Date, LedgerError> {
    match calendar_parse(s) {
        Some(t) => match date_of(t.0, t.1, t.2) {
            Some(d) => Ok(d),
            None => Err(LedgerError::ParseFailure),
        },
        None => Err(LedgerError::ParseFailure),
    }
}

/// Reads a date typed by the user.
pub fn get_date(date: &str) -> (r: Result<Date, LedgerError>)
    ensures
        r == typed_date(date@),
{
    match parse_calendar_date(date) {
        Some(t) => match Date::from_parts(t.0 as i64, t.1, t.2) {
            Some(d) => Ok(d),
            None => Err(LedgerError::ParseFailure),
        },
        None => Err(LedgerError::ParseFailure),
    }
}

/// The date that a reading of the local clock names: `clock` holds today's year, month and
/// day, or nothing when the clock could not be read.
pub open spec fn clock_date(clock: Option<(i32, u32, u32)>) -> Result<Date, LedgerError> {
    match clock {
        Some(t) => match date_of(t.0 as int, t.1 as int, t.2 as int) {
            Some(d) => Ok(d),
            None => Err(LedgerError::ParseFailure),
        },
        None => Err(LedgerError::ParseFailure),
    }
}

/// Today's date from a reading of the local clock; it fails when there was no reading or
/// the year is not a four-digit one.
pub fn date_from_clock(clock: Option<(i32, u32, u32)>) -> (r: Result<Date, LedgerError>)
    ensures
        r == clock_date(clock),
{
    match clock {
        Some(t) => match Date::from_parts(t.0 as i64, t.1, t.2) {
            Some(d) => Ok(d),
            None => Err(LedgerError::ParseFailure),
        },
        None => Err(LedgerError::ParseFailure),
    }
}

/// The date named by `poss_date`, or today's date, read from `clock`, when there is none.
pub fn get_date_or_today(poss_date: &Option<String>, clock: Option<(i32, u32, u32)>) -> (r: Result<
    Date,
    LedgerError,
>)
    ensures
        poss_date matches Some(s) ==> r == typed_date(s@),
        poss_date is None ==> r == clock_date(clock),
{
    match poss_date {
        None => date_from_clock(clock),
        Some(s) => get_date(s.as_str()),
    }
}

} // verus!
