//! Calendar dates and times of day.
//!
//! Dates are proleptic Gregorian dates of the years 0000 to 9999, written
//! `YYYY-MM-DD`; each has a day number, counted from 0000-01-01. Times of day
//! are written `HH:MM` and held as minutes after midnight.

use vstd::prelude::*;
use vstd::string::*;
use crate::text::{
    digit_value,
    is_digit,
    lemma_two_digits,
    lemma_two_digits_of,
    push_two_digits,
    read_digit,
    two_digits,
};

verus! {

/// The day number of 9999-12-31, the last date that can be written.
pub const LAST_DAY: i64 = 3652424;

pub const MINUTES_PER_DAY: i64 = 1440;

pub open spec fn is_leap(y: int) -> bool {
    y % 4 == 0 && (y % 100 != 0 || y % 400 == 0)
}

pub open spec fn year_length(y: int) -> int {
    if is_leap(y) {
        366
    } else {
        365
    }
}

pub open spec fn days_in_month(y: int, m: int) -> int {
    if m == 2 {
        if is_leap(y) {
            29
        } else {
            28
        }
    } else if m == 4 || m == 6 || m == 9 || m == 11 {
        30
    } else {
        31
    }
}

/// Days of year `y` that lie before its month `m`.
pub open spec fn days_before_month(y: int, m: int) -> int
    decreases m,
{
    if m <= 1 {
        0
    } else {
        days_before_month(y, m - 1) + days_in_month(y, m - 1)
    }
}

/// Days that lie before year `y`, counted from year 0.
pub open spec fn days_before_year(y: int) -> int
    decreases y,
{
    if y <= 0 {
        0
    } else {
        days_before_year(y - 1) + year_length(y - 1)
    }
}

/// The day of the week of a day number: 0 is Sunday, 6 is Saturday.
pub open spec fn weekday_of(n: int) -> int {
    (n + 6) % 7
}

/// A calendar date.
#[derive(Clone, Copy, Debug, PartialEq, Eq, Structural)]
pub struct Date {
    pub year: u16,
    pub month: u8,
    pub day: u8,
}

impl Date {
    /// The date exists in the calendar.
    pub open spec fn valid(self) -> bool {
        &&& self.year <= 9999
        &&& 1 <= self.month <= 12
        &&& 1 <= self.day <= days_in_month(self.year as int, self.month as int)
    }

    /// Days between 0000-01-01 and this date.
    pub open spec fn day_number(self) -> int {
        days_before_year(self.year as int) + days_before_month(self.year as int, self.month as int)
            + self.day - 1
    }
}

pub proof fn lemma_year_closed_form(y: int)
    requires
        y >= 0,
    ensures
        days_before_year(y) == 365 * y + (y + 3) / 4 - (y + 99) / 100 + (y + 399) / 400,
    decreases y,
{
    if y > 0 {
        lemma_year_closed_form(y - 1);
    }
}

pub proof fn lemma_years_monotone(a: int, b: int)
    requires
        0 <= a <= b,
    ensures
        days_before_year(a) <= days_before_year(b),
        days_before_year(a) >= 0,
    decreases b,
{
    if a < b {
        lemma_years_monotone(a, b - 1);
    } else if a > 0 {
        lemma_years_monotone(a - 1, a - 1);
    }
}

/// The months of a year start where the table says, and fill the year.
pub proof fn lemma_month_table(y: int)
    ensures
        days_before_month(y, 1) == 0,
        days_before_month(y, 2) == 31,
        days_before_month(y, 3) == year_length(y) - 306,
        days_before_month(y, 4) == year_length(y) - 275,
        days_before_month(y, 5) == year_length(y) - 245,
        days_before_month(y, 6) == year_length(y) - 214,
        days_before_month(y, 7) == year_length(y) - 184,
        days_before_month(y, 8) == year_length(y) - 153,
        days_before_month(y, 9) == year_length(y) - 122,
        days_before_month(y, 10) == year_length(y) - 92,
        days_before_month(y, 11) == year_length(y) - 61,
        days_before_month(y, 12) == year_length(y) - 31,
{
    reveal_with_fuel(days_before_month, 13);
}

/// A valid date lies within its year, and within the range of day numbers.
pub proof fn lemma_day_number_bounds(d: Date)
    requires
        d.valid(),
    ensures
        days_before_year(d.year as int) <= d.day_number() < days_before_year(d.year as int + 1),
        0 <= d.day_number() <= LAST_DAY,
{
    lemma_month_table(d.year as int);
    lemma_years_monotone(0, d.year as int);
    lemma_years_monotone(d.year as int + 1, 10000);
    lemma_year_closed_form(10000);
}

/// Different valid dates have different day numbers.
pub proof fn lemma_day_number_injective(a: Date, b: Date)
    requires
        a.valid(),
        b.valid(),
        a.day_number() == b.day_number(),
    ensures
        a == b,
{
    lemma_day_number_bounds(a);
    lemma_day_number_bounds(b);
    if a.year < b.year {
        lemma_years_monotone(a.year as int + 1, b.year as int);
    } else if b.year < a.year {
        lemma_years_monotone(b.year as int + 1, a.year as int);
    } else {
        lemma_month_table(a.year as int);
    }
}

/// The text of a date: `YYYY-MM-DD`.
pub open spec fn date_text(d: Date) -> Seq<char> {
    two_digits(d.year as int / 100) + two_digits(d.year as int % 100) + seq!['-'] + two_digits(
        d.month as int,
    ) + seq!['-'] + two_digits(d.day as int)
}

/// The text has the shape `dddd-dd-dd`.
pub open spec fn date_shape(s: Seq<char>) -> bool {
    &&& s.len() == 10
    &&& is_digit(s[0]) && is_digit(s[1]) && is_digit(s[2]) && is_digit(s[3])
    &&& s[4] == '-'
    &&& is_digit(s[5]) && is_digit(s[6])
    &&& s[7] == '-'
    &&& is_digit(s[8]) && is_digit(s[9])
}

/// The date that a text denotes, if it is well formed and the date exists.
pub open spec fn parse_date(s: Seq<char>) -> Option<Date> {
    if date_shape(s) {
        let y = 100 * (10 * digit_value(s[0]) + digit_value(s[1])) + 10 * digit_value(s[2])
            + digit_value(s[3]);
        let m = 10 * digit_value(s[5]) + digit_value(s[6]);
        let d = 10 * digit_value(s[8]) + digit_value(s[9]);
        if 1 <= m <= 12 && 1 <= d <= days_in_month(y, m) {
            Some(Date { year: y as u16, month: m as u8, day: d as u8 })
        } else {
            None
        }
    } else {
        None
    }
}

/// The day number that a text denotes.
pub open spec fn parse_day(s: Seq<char>) -> Option<int> {
    match parse_date(s) {
        Some(d) => Some(d.day_number()),
        None => None,
    }
}

/// A day number that a text denotes is the day number of a date that can be written.
pub proof fn lemma_parse_day_bounds(s: Seq<char>)
    requires
        parse_day(s) is Some,
    ensures
        0 <= parse_day(s)->0 <= LAST_DAY,
{
    lemma_parsed_date_text(s);
    lemma_day_number_bounds(parse_date(s)->0);
}

/// Writing a valid date and reading it back gives the same date.
pub proof fn lemma_date_text_parses(d: Date)
    requires
        d.valid(),
    ensures
        parse_date(date_text(d)) == Some(d),
{
    let s = date_text(d);
    let y = d.year as int;
    lemma_two_digits(y / 100);
    lemma_two_digits(y % 100);
    lemma_two_digits(d.month as int);
    lemma_two_digits(d.day as int);
    assert(s.len() == 10);
    assert(s[0] == two_digits(y / 100)[0] && s[1] == two_digits(y / 100)[1]);
    assert(s[2] == two_digits(y % 100)[0] && s[3] == two_digits(y % 100)[1]);
    assert(s[4] == '-' && s[7] == '-');
    assert(s[5] == two_digits(d.month as int)[0] && s[6] == two_digits(d.month as int)[1]);
    assert(s[8] == two_digits(d.day as int)[0] && s[9] == two_digits(d.day as int)[1]);
    assert(date_shape(s));
}

/// A text that denotes a date is the text of that date.
pub proof fn lemma_parsed_date_text(s: Seq<char>)
    requires
        parse_date(s) is Some,
    ensures
        parse_date(s)->0.valid(),
        date_text(parse_date(s)->0) == s,
{
    let d = parse_date(s)->0;
    let hi = 10 * digit_value(s[0]) + digit_value(s[1]);
    let lo = 10 * digit_value(s[2]) + digit_value(s[3]);
    lemma_two_digits_of(s[0], s[1]);
    lemma_two_digits_of(s[2], s[3]);
    lemma_two_digits_of(s[5], s[6]);
    lemma_two_digits_of(s[8], s[9]);
    assert(d.year as int == 100 * hi + lo);
    assert(d.year as int / 100 == hi && d.year as int % 100 == lo);
    assert(date_text(d) =~= s);
}

/// Minutes after midnight that a text `HH:MM` denotes.
pub open spec fn parse_clock(s: Seq<char>) -> Option<int> {
    if s.len() == 5 && is_digit(s[0]) && is_digit(s[1]) && s[2] == ':' && is_digit(s[3]) && is_digit(
        s[4],
    ) {
        let h = 10 * digit_value(s[0]) + digit_value(s[1]);
        let m = 10 * digit_value(s[3]) + digit_value(s[4]);
        if h <= 23 && m <= 59 {
            Some(60 * h + m)
        } else {
            None
        }
    } else {
        None
    }
}

pub fn leap_year(y: u16) -> (r: bool)
    ensures
        r == is_leap(y as int),
{
    y % 4 == 0 && (y % 100 != 0 || y % 400 == 0)
}

pub fn month_length(y: u16, m: u8) -> (r: u8)
    ensures
        r as int == days_in_month(y as int, m as int),
{
    if m == 2 {
        if leap_year(y) {
            29
        } else {
            28
        }
    } else if m == 4 || m == 6 || m == 9 || m == 11 {
        30
    } else {
        31
    }
}

fn year_start(y: u16) -> (r: i64)
    requires
        y <= 10000,
    ensures
        r as int == days_before_year(y as int),
        0 <= r <= LAST_DAY + 1,
{
    proof {
        lemma_year_closed_form(y as int);
    }
    let y: i64 = y as i64;
    365 * y + (y + 3) / 4 - (y + 99) / 100 + (y + 399) / 400
}

fn month_start(y: u16, m: u8) -> (r: i64)
    requires
        1 <= m <= 12,
    ensures
        r as int == days_before_month(y as int, m as int),
        0 <= r <= 335,
{
    proof {
        lemma_month_table(y as int);
    }
    let mut total: i64 = 0;
    let mut k: u8 = 1;
    while k < m
        invariant
            1 <= k <= m <= 12,
            total as int == days_before_month(y as int, k as int),
            0 <= total <= 31 * (k - 1),
        decreases m - k,
    {
        total = total + month_length(y, k) as i64;
        k += 1;
    }
    total
}

/// Reads two decimal digits at `at` and `at + 1`.
fn read_pair(text: &str, at: usize) -> (r: Option<u8>)
    requires
        at <= 8,
        at + 1 < text@.len(),
    ensures
        r is Some <==> is_digit(text@[at as int]) && is_digit(text@[at + 1]),
        r matches Some(v) ==> v as int == 10 * digit_value(text@[at as int]) + digit_value(
            text@[at + 1],
        ),
{
    match read_digit(text.get_char(at)) {
        None => None,
        Some(hi) => match read_digit(text.get_char(at + 1)) {
            None => None,
            Some(lo) => Some(10 * hi + lo),
        },
    }
}

impl Date {
    /// Makes a date from its parts, if it exists in the calendar.
    pub fn new(year: u16, month: u8, day: u8) -> (r: Option<Date>)
        ensures
            r == (if (Date { year, month, day }).valid() {
                Some(Date { year, month, day })
            } else {
                None::<Date>
            }),
    {
        if year <= 9999 && 1 <= month && month <= 12 && 1 <= day && day <= month_length(year, month) {
            Some(Date { year, month, day })
        } else {
            None
        }
    }

    /// The day number of the date.
    pub fn ordinal(&self) -> (r: i64)
        requires
            self.valid(),
        ensures
            r as int == self.day_number(),
            0 <= r <= LAST_DAY,
    {
        proof {
            lemma_day_number_bounds(*self);
        }
        year_start(self.year) + month_start(self.year, self.month) + (self.day as i64 - 1)
    }

    /// The date that has day number `n`.
    pub fn from_ordinal(n: i64) -> (r: Date)
        requires
            0 <= n <= LAST_DAY,
        ensures
            r.valid(),
            r.day_number() == n as int,
    {
        let mut y: u16 = (n / 366) as u16;
        proof {
            lemma_year_closed_form(y as int);
            lemma_year_closed_form(10000);
        }
        while year_start(y + 1) <= n
            invariant
                0 <= n <= LAST_DAY,
                y <= 9999,
                days_before_year(y as int) <= n,
                days_before_year(10000) == LAST_DAY + 1,
            decreases 9999 - y,
        {
            y += 1;
        }
        let mut rest: i64 = n - year_start(y);
        let mut m: u8 = 1;
        proof {
            lemma_month_table(y as int);
        }
        while m < 12 && rest >= month_length(y, m) as i64
            invariant
                1 <= m <= 12,
                y <= 9999,
                rest as int == n - days_before_year(y as int) - days_before_month(y as int, m as int),
                0 <= rest,
                n < days_before_year(y as int + 1),
            decreases 12 - m,
        {
            rest = rest - month_length(y, m) as i64;
            m += 1;
        }
        Date { year: y, month: m, day: (rest + 1) as u8 }
    }

    /// The day of the week: 0 is Sunday, 6 is Saturday.
    pub fn weekday(&self) -> (r: u8)
        requires
            self.valid(),
        ensures
            r as int == weekday_of(self.day_number()),
            r <= 6,
    {
        weekday_of_ordinal(self.ordinal())
    }

    /// Reads a date written `YYYY-MM-DD`.
    pub fn parse(text: &str) -> (r: Option<Date>)
        ensures
            r == parse_date(text@),
            r matches Some(d) ==> d.valid(),
    {
        if text.unicode_len() != 10 {
            return None;
        }
        if text.get_char(4) != '-' || text.get_char(7) != '-' {
            return None;
        }
        let hi = read_pair(text, 0);
        let lo = read_pair(text, 2);
        let mm = read_pair(text, 5);
        let dd = read_pair(text, 8);
        match (hi, lo, mm, dd) {
            (Some(hi), Some(lo), Some(month), Some(day)) => {
                let year: u16 = 100 * (hi as u16) + lo as u16;
                Date::new(year, month, day)
            },
            _ => None,
        }
    }

    /// Writes the date as `YYYY-MM-DD`.
    pub fn to_text(&self) -> (r: String)
        requires
            self.valid(),
        ensures
            r@ == date_text(*self),
    {
        proof {
            reveal_strlit("-");
        }
        let mut out = String::new();
        push_two_digits(&mut out, (self.year / 100) as u8);
        push_two_digits(&mut out, (self.year % 100) as u8);
        out.append("-");
        push_two_digits(&mut out, self.month);
        out.append("-");
        push_two_digits(&mut out, self.day);
        assert(out@ =~= date_text(*self));
        out
    }
}

/// The day of the week of a day number.
pub fn weekday_of_ordinal(n: i64) -> (r: u8)
    requires
        0 <= n <= LAST_DAY,
    ensures
        r as int == weekday_of(n as int),
        r <= 6,
{
    ((n + 6) % 7) as u8
}

/// Reads a date and gives its day number.
pub fn read_day(text: &str) -> (r: Option<i64>)
    ensures
        r is Some <==> parse_day(text@) is Some,
        r matches Some(n) ==> parse_day(text@) == Some(n as int) && 0 <= n <= LAST_DAY,
{
    match Date::parse(text) {
        Some(d) => Some(d.ordinal()),
        None => None,
    }
}

/// Reads a time of day written `HH:MM`, as minutes after midnight.
pub fn read_clock(text: &str) -> (r: Option<i64>)
    ensures
        r is Some <==> parse_clock(text@) is Some,
        r matches Some(v) ==> parse_clock(text@) == Some(v as int) && 0 <= v < MINUTES_PER_DAY,
{
    if text.unicode_len() != 5 {
        return None;
    }
    if text.get_char(2) != ':' {
        return None;
    }
    match (read_pair(text, 0), read_pair(text, 3)) {
        (Some(h), Some(m)) => {
            if h <= 23 && m <= 59 {
                Some(60 * (h as i64) + m as i64)
            } else {
                None
            }
        },
        _ => None,
    }
}

/// The text of the date with day number `n`.
pub open spec fn day_text(n: int) -> Seq<char> {
    date_text(date_of_day(n))
}

/// The date with day number `n`.
pub open spec fn date_of_day(n: int) -> Date {
    choose|d: Date| d.valid() && d.day_number() == n
}

/// Writes the date with day number `n`.
pub fn write_day(n: i64) -> (r: String)
    requires
        0 <= n <= LAST_DAY,
    ensures
        r@ == day_text(n as int),
        parse_day(r@) == Some(n as int),
{
    let d = Date::from_ordinal(n);
    proof {
        let c = date_of_day(n as int);
        lemma_day_number_injective(d, c);
        lemma_date_text_parses(d);
    }
    d.to_text()
}

} // verus!
