//! Calendar dates: which days exist, their order, the week that follows a day,
//! and dates as text.

use crate::text::{
    decimal, digit_char, digit_value, digits_value, four_digits, is_digit, push_decimal,
    push_four_digits, push_two_digits, two_digits,
};
use std::str::FromStr;
use vstd::prelude::*;
use vstd::string::{StrSliceExecFns, StringExecFns};

verus! {

/// Leap years of the proleptic Gregorian calendar.
pub open spec fn is_leap_year(year: int) -> bool {
    year % 4 == 0 && (year % 100 != 0 || year % 400 == 0)
}

/// Number of days of a month; months outside 1..=12 are given 31 so that the
/// function is total.
pub open spec fn days_in_month(year: int, month: int) -> int {
    if month == 2 {
        if is_leap_year(year) {
            29
        } else {
            28
        }
    } else if month == 4 || month == 6 || month == 9 || month == 11 {
        30
    } else {
        31
    }
}

/// A year, month and day as mathematical integers: the model of a [`Date`].
pub struct Ymd {
    pub year: int,
    pub month: int,
    pub day: int,
}

impl Ymd {
    /// The triple names a day that exists in the calendar.
    pub open spec fn valid(self) -> bool {
        1 <= self.month <= 12 && 1 <= self.day <= days_in_month(self.year, self.month)
    }

    /// Strictly earlier, comparing year, then month, then day.
    pub open spec fn before(self, other: Ymd) -> bool {
        self.year < other.year || (self.year == other.year && (self.month < other.month || (
        self.month == other.month && self.day < other.day)))
    }

    /// Earlier or equal.
    pub open spec fn not_after(self, other: Ymd) -> bool {
        !other.before(self)
    }

    /// The following calendar day.
    pub open spec fn next(self) -> Ymd {
        if self.day < days_in_month(self.year, self.month) {
            Ymd { day: self.day + 1, ..self }
        } else if self.month < 12 {
            Ymd { year: self.year, month: self.month + 1, day: 1 }
        } else {
            Ymd { year: self.year + 1, month: 1, day: 1 }
        }
    }

    /// The day reached after `n` steps of [`Ymd::next`].
    pub open spec fn plus_days(self, n: nat) -> Ymd
        decreases n,
    {
        if n == 0 {
            self
        } else {
            self.plus_days((n - 1) as nat).next()
        }
    }

    /// `self` lies in the week that starts at `today`: it is not before `today`
    /// and not after the seventh day from `today`.
    pub open spec fn in_week_from(self, today: Ymd) -> bool {
        today.not_after(self) && self.not_after(today.plus_days(7))
    }

    /// The year as text: four digits for the years 0 to 9999, a sign and at least
    /// four digits for the others.
    pub open spec fn year_text(self) -> Seq<char> {
        if 0 <= self.year <= 9999 {
            four_digits(self.year as nat)
        } else if self.year > 9999 {
            seq!['+'] + decimal(self.year as nat)
        } else if self.year >= -9999 {
            seq!['-'] + four_digits((-self.year) as nat)
        } else {
            seq!['-'] + decimal((-self.year) as nat)
        }
    }

    /// The date as text, in the form `YYYY-MM-DD`.
    pub open spec fn text(self) -> Seq<char> {
        self.year_text() + seq!['-'] + two_digits(self.month as nat) + seq!['-'] + two_digits(
            self.day as nat,
        )
    }
}

/// A calendar date without a time of day.
#[derive(Clone, Copy, Debug, PartialEq, Eq, Structural)]
pub struct Date {
    year: i32,
    month: u8,
    day: u8,
}

impl View for Date {
    type V = Ymd;

    closed spec fn view(&self) -> Ymd {
        Ymd { year: self.year as int, month: self.month as int, day: self.day as int }
    }
}

/// The date a triple of machine integers stands for, where it names a real day.
pub open spec fn date_of_ymd(year: i32, month: u32, day: u32) -> Option<Ymd> {
    let ymd = Ymd { year: year as int, month: month as int, day: day as int };
    if ymd.valid() {
        Some(ymd)
    } else {
        None
    }
}

/// The text has the form `YYYY-MM-DD`: four digits, a hyphen, two digits, a
/// hyphen, two digits, and nothing else.
pub open spec fn iso_shaped(text: Seq<char>) -> bool {
    &&& text.len() == 10
    &&& is_digit(text[0])
    &&& is_digit(text[1])
    &&& is_digit(text[2])
    &&& is_digit(text[3])
    &&& text[4] == '-'
    &&& is_digit(text[5])
    &&& is_digit(text[6])
    &&& text[7] == '-'
    &&& is_digit(text[8])
    &&& is_digit(text[9])
}

/// The year, month and day that the digits of a text of the form `YYYY-MM-DD` spell.
pub open spec fn ymd_of_iso(text: Seq<char>) -> Ymd {
    Ymd {
        year: digits_value(text.subrange(0, 4)) as int,
        month: digits_value(text.subrange(5, 7)) as int,
        day: digits_value(text.subrange(8, 10)) as int,
    }
}

/// The date that a text denotes, if any: the text has the form `YYYY-MM-DD`, and
/// its digits spell a day of the calendar.
pub open spec fn date_of_text(text: Seq<char>) -> Option<Ymd> {
    if iso_shaped(text) && ymd_of_iso(text).valid() {
        Some(ymd_of_iso(text))
    } else {
        None
    }
}

/// Calls `chrono::NaiveDate::from_str` on a text of the form `YYYY-MM-DD` and
/// hands back the year, month and day of the date it returns. The contract
/// claims what the documentation of the format `%Y-%m-%d` says of such a text:
/// the date is the one that the digits spell, and the text is refused exactly
/// where they spell no day of the calendar. Nothing is claimed of other texts.
#[verifier::external_body]
fn parse_ymd(text: &str) -> (parsed: Option<(i32, u32, u32)>)
    requires
        iso_shaped(text@),
    ensures
        match parsed {
            Some((year, month, day)) => date_of_text(text@) == Some(
                Ymd { year: year as int, month: month as int, day: day as int },
            ),
            None => date_of_text(text@) is None,
        },
{
    match chrono::NaiveDate::from_str(text) {
        Ok(date) => Some(
            (
                chrono::Datelike::year(&date),
                chrono::Datelike::month(&date),
                chrono::Datelike::day(&date),
            ),
        ),
        Err(_) => None,
    }
}

fn digit_at(text: &str, at: usize) -> (digit: bool)
    requires
        at < text@.len(),
    ensures
        digit == is_digit(text@[at as int]),
{
    let c = text.get_char(at);
    '0' <= c && c <= '9'
}

fn hyphen_at(text: &str, at: usize) -> (hyphen: bool)
    requires
        at < text@.len(),
    ensures
        hyphen == (text@[at as int] == '-'),
{
    text.get_char(at) == '-'
}

/// Whether the text has the form `YYYY-MM-DD`.
pub fn has_iso_shape(text: &str) -> (shaped: bool)
    ensures
        shaped == iso_shaped(text@),
{
    text.unicode_len() == 10 && digit_at(text, 0) && digit_at(text, 1) && digit_at(text, 2)
        && digit_at(text, 3) && hyphen_at(text, 4) && digit_at(text, 5) && digit_at(text, 6)
        && hyphen_at(text, 7) && digit_at(text, 8) && digit_at(text, 9)
}

/// A multiple of 400 that lifts every year this library computes with above zero.
const YEAR_SHIFT: i64 = 2_147_484_000;

fn leap_year(year: i64) -> (leap: bool)
    requires
        -YEAR_SHIFT <= year <= YEAR_SHIFT,
    ensures
        leap == is_leap_year(year as int),
{
    let lifted: u64 = (year + YEAR_SHIFT) as u64;
    assert(lifted as int == year + 400 * 5_368_710);
    assert(lifted % 4 == year as int % 4 && lifted % 100 == year as int % 100 && lifted % 400
        == year as int % 400);
    lifted % 4 == 0 && (lifted % 100 != 0 || lifted % 400 == 0)
}

fn month_length(year: i64, month: u8) -> (days: u8)
    requires
        -YEAR_SHIFT <= year <= YEAR_SHIFT,
    ensures
        days == days_in_month(year as int, month as int),
{
    if month == 2 {
        if leap_year(year) {
            29
        } else {
            28
        }
    } else if month == 4 || month == 6 || month == 9 || month == 11 {
        30
    } else {
        31
    }
}

impl Date {
    /// Every `Date` built by this library satisfies this.
    pub open spec fn wf(&self) -> bool {
        self@.valid()
    }

    /// Builds the date, or nothing where the calendar has no such day.
    pub fn from_ymd(year: i32, month: u32, day: u32) -> (date: Option<Date>)
        ensures
            match date {
                Some(d) => d.wf() && date_of_ymd(year, month, day) == Some(d@),
                None => date_of_ymd(year, month, day) is None,
            },
    {
        if month < 1 || month > 12 || day < 1 || day > 31 {
            return None;
        }
        let m: u8 = month as u8;
        let d: u8 = day as u8;
        if d > month_length(year as i64, m) {
            return None;
        }
        Some(Date { year, month: m, day: d })
    }

    /// Reads a date from a text of the form `YYYY-MM-DD`.
    pub fn parse(text: &str) -> (date: Option<Date>)
        ensures
            match date {
                Some(d) => d.wf() && date_of_text(text@) == Some(d@),
                None => date_of_text(text@) is None,
            },
    {
        if !has_iso_shape(text) {
            return None;
        }
        match parse_ymd(text) {
            Some((year, month, day)) => Date::from_ymd(year, month, day),
            None => None,
        }
    }

    /// The year; the year 0 is the one before the year 1.
    pub fn year(&self) -> (year: i32)
        ensures
            year == self@.year,
    {
        self.year
    }

    /// The month, from 1 to 12.
    pub fn month(&self) -> (month: u32)
        ensures
            month == self@.month,
    {
        self.month as u32
    }

    /// The day of the month, from 1.
    pub fn day(&self) -> (day: u32)
        ensures
            day == self@.day,
    {
        self.day as u32
    }

    /// Appends the date in the form `YYYY-MM-DD`.
    pub fn push_text(&self, out: &mut String)
        ensures
            final(out)@ == old(out)@ + self@.text(),
    {
        let year: i64 = self.year as i64;
        if 0 <= year && year <= 9999 {
            push_four_digits(out, year as u64);
        } else if year > 9999 {
            out.append("+");
            push_decimal(out, year as u64);
        } else if year >= -9999 {
            out.append("-");
            push_four_digits(out, (-year) as u64);
        } else {
            out.append("-");
            push_decimal(out, (-year) as u64);
        }
        proof {
            reveal_strlit("+");
            reveal_strlit("-");
            assert(out@ =~= old(out)@ + self@.year_text());
        }
        out.append("-");
        push_two_digits(out, self.month as u64);
        out.append("-");
        push_two_digits(out, self.day as u64);
        assert(out@ =~= old(out)@ + self@.text());
    }

    /// The date in the form `YYYY-MM-DD`.
    pub fn to_text(&self) -> (text: String)
        ensures
            text@ == self@.text(),
    {
        let mut text = String::new();
        self.push_text(&mut text);
        assert(text@ =~= self@.text());
        text
    }

    /// Strictly earlier than `other`.
    pub fn before(&self, other: &Date) -> (earlier: bool)
        ensures
            earlier == self@.before(other@),
    {
        self.year < other.year || (self.year == other.year && (self.month < other.month || (
        self.month == other.month && self.day < other.day)))
    }

    /// Whether this date falls within the seven days that follow `today`, `today`
    /// itself included.
    pub fn within_week_from(&self, today: &Date) -> (within: bool)
        ensures
            within == self@.in_week_from(today@),
    {
        if self.before(today) {
            return false;
        }
        let mut year: i64 = today.year as i64;
        let mut month: u8 = today.month;
        let mut day: u8 = today.day;
        let mut steps: u8 = 0;
        while steps < 7
            invariant
                steps <= 7,
                today.year <= year <= today.year + steps,
                (Ymd { year: year as int, month: month as int, day: day as int })
                    == today@.plus_days(steps as nat),
            decreases 7 - steps,
        {
            if day < month_length(year, month) {
                day = day + 1;
            } else if month < 12 {
                month = month + 1;
                day = 1;
            } else {
                year = year + 1;
                month = 1;
                day = 1;
            }
            steps = steps + 1;
        }
        let own_year: i64 = self.year as i64;
        !(year < own_year || (year == own_year && (month < self.month || (month == self.month
            && day < self.day))))
    }
}

/// No valid date lies strictly between a valid date and the day after it.
pub proof fn lemma_next_is_successor(a: Ymd, b: Ymd)
    requires
        a.valid(),
        b.valid(),
        a.before(b),
    ensures
        a.next().valid(),
        a.before(a.next()),
        a.next().not_after(b),
{
}

/// Adding days keeps a date valid and never moves it back.
pub proof fn lemma_plus_days_valid(a: Ymd, n: nat)
    requires
        a.valid(),
    ensures
        a.plus_days(n).valid(),
        a.not_after(a.plus_days(n)),
        n > 0 ==> a.before(a.plus_days(n)),
    decreases n,
{
    if n > 0 {
        lemma_plus_days_valid(a, (n - 1) as nat);
    }
}

/// Within a week of `today` means: one of the eight days `today`, `today + 1`,
/// ..., `today + 7`.
pub proof fn lemma_in_week_is_one_of_eight_days(today: Ymd, date: Ymd)
    requires
        today.valid(),
        date.valid(),
    ensures
        date.in_week_from(today) <==> exists|k: nat| k <= 7 && date == today.plus_days(k),
{
    if date.in_week_from(today) {
        lemma_between_is_reached(today, date, 7);
    }
    if exists|k: nat| k <= 7 && date == today.plus_days(k) {
        let k = choose|k: nat| k <= 7 && date == today.plus_days(k);
        lemma_plus_days_monotone(today, k, 7);
        lemma_plus_days_valid(today, k);
    }
}

/// More days lead to a later date.
pub proof fn lemma_plus_days_monotone(a: Ymd, i: nat, j: nat)
    requires
        a.valid(),
        i <= j,
    ensures
        a.plus_days(i).not_after(a.plus_days(j)),
    decreases j,
{
    if i < j {
        lemma_plus_days_monotone(a, i, (j - 1) as nat);
        lemma_plus_days_valid(a, (j - 1) as nat);
        let p = a.plus_days((j - 1) as nat);
        assert(p.before(p.next()));
    }
}

proof fn lemma_between_is_reached(a: Ymd, d: Ymd, n: nat)
    requires
        a.valid(),
        d.valid(),
        a.not_after(d),
        d.not_after(a.plus_days(n)),
    ensures
        exists|k: nat| k <= n && d == a.plus_days(k),
    decreases n,
{
    if n == 0 {
        assert(d == a.plus_days(0));
    } else {
        let p = a.plus_days((n - 1) as nat);
        lemma_plus_days_valid(a, (n - 1) as nat);
        if d.not_after(p) {
            lemma_between_is_reached(a, d, (n - 1) as nat);
            let k = choose|k: nat| k <= (n - 1) as nat && d == a.plus_days(k);
            assert(k <= n && d == a.plus_days(k));
        } else {
            lemma_next_is_successor(p, d);
            assert(d == a.plus_days(n));
        }
    }
}

proof fn lemma_digit(d: int)
    requires
        0 <= d <= 9,
    ensures
        is_digit(digit_char(d)),
        digit_value(digit_char(d)) == d,
{
}

proof fn lemma_two_digits_value(n: nat)
    requires
        n < 100,
    ensures
        digits_value(two_digits(n)) == n,
{
    let text = two_digits(n);
    lemma_digit((n / 10 % 10) as int);
    lemma_digit((n % 10) as int);
    assert(text.drop_last() =~= seq![text[0]]);
    assert(text.drop_last().drop_last() =~= Seq::<char>::empty());
    reveal_with_fuel(digits_value, 3);
}

proof fn lemma_four_digits_value(n: nat)
    requires
        n < 10000,
    ensures
        digits_value(four_digits(n)) == n,
{
    let text = four_digits(n);
    let high = two_digits(n / 100);
    lemma_two_digits_value(n / 100);
    lemma_digit((n / 10 % 10) as int);
    lemma_digit((n % 10) as int);
    assert(text.drop_last().drop_last() =~= high);
    assert(text.drop_last().last() == digit_char((n / 10 % 10) as int));
    assert(text.last() == digit_char((n % 10) as int));
    reveal_with_fuel(digits_value, 3);
}

/// A date of a year from 0 to 9999, written as text, is read back as that date.
pub proof fn lemma_shown_date_is_read(date: Ymd)
    requires
        date.valid(),
        0 <= date.year <= 9999,
    ensures
        iso_shaped(date.text()),
        date_of_text(date.text()) == Some(date),
{
    let text = date.text();
    let year = four_digits(date.year as nat);
    let month = two_digits(date.month as nat);
    let day = two_digits(date.day as nat);
    assert(text =~= seq![
        year[0],
        year[1],
        year[2],
        year[3],
        '-',
        month[0],
        month[1],
        '-',
        day[0],
        day[1],
    ]);
    lemma_digit(date.year / 100 / 10 % 10);
    lemma_digit(date.year / 100 % 10);
    lemma_digit(date.year / 10 % 10);
    lemma_digit(date.year % 10);
    lemma_digit(date.month / 10 % 10);
    lemma_digit(date.month % 10);
    lemma_digit(date.day / 10 % 10);
    lemma_digit(date.day % 10);
    assert(text.subrange(0, 4) =~= year);
    assert(text.subrange(5, 7) =~= month);
    assert(text.subrange(8, 10) =~= day);
    lemma_four_digits_value(date.year as nat);
    lemma_two_digits_value(date.month as nat);
    lemma_two_digits_value(date.day as nat);
}

} // verus!
