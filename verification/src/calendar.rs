//! Calendar dates: which dates exist, how many days lie between them, and
//! which date a time text names.

use vstd::prelude::*;
use vstd::string::{StrSliceExecFns, StringExecFns};

verus! {

/// A date of the proleptic Gregorian calendar, from the year 0 on.
#[derive(Clone, Copy, Debug, PartialEq, Eq, Structural)]
pub struct Date {
    pub year: u16,
    pub month: u8,
    pub day: u8,
}

/// Every fourth year is a leap year, but of the full centuries only every
/// fourth.
pub open spec fn is_leap_year(year: int) -> bool {
    year % 4 == 0 && (year % 100 != 0 || year % 400 == 0)
}

/// The number of days of a year.
pub open spec fn year_length(year: int) -> int {
    if is_leap_year(year) {
        366
    } else {
        365
    }
}

/// The number of days of a month of a year.
pub open spec fn month_length(year: int, month: int) -> int {
    if month == 2 {
        if is_leap_year(year) {
            29
        } else {
            28
        }
    } else if month == 4 || month == 6 || month == 9 || month == 11 {
        30
    } else {
        31
    }
}

/// The number of days in the years from 0 up to, not including, `year`.
pub open spec fn days_before_year(year: int) -> int
    decreases year,
{
    if year <= 0 {
        0
    } else {
        days_before_year(year - 1) + year_length(year - 1)
    }
}

/// The number of days of `year` in the months before `month`.
pub open spec fn days_before_month(year: int, month: int) -> int
    decreases month,
{
    if month <= 1 {
        0
    } else {
        days_before_month(year, month - 1) + month_length(year, month - 1)
    }
}

impl Date {
    /// Whether the date exists in the calendar.
    pub open spec fn is_valid(self) -> bool {
        1 <= self.month <= 12 && 1 <= self.day <= month_length(self.year as int, self.month as int)
    }

    /// The number of days from the first of January of the year 0 to this
    /// date.
    pub open spec fn day_number(self) -> int {
        days_before_year(self.year as int) + days_before_month(self.year as int, self.month as int)
            + self.day - 1
    }

    /// Whether this date is earlier than `other`.
    pub open spec fn is_earlier_than(self, other: Date) -> bool {
        self.year < other.year || (self.year == other.year && (self.month < other.month || (
        self.month == other.month && self.day < other.day)))
    }

    /// Reports whether the date exists in the calendar.
    pub fn is_real(&self) -> (ok: bool)
        ensures
            ok == self.is_valid(),
    {
        1 <= self.month && self.month <= 12 && 1 <= self.day && self.day <= days_in_month(
            self.year,
            self.month,
        )
    }

    /// The date with these parts, if it exists in the calendar.
    pub fn from_parts(year: u16, month: u8, day: u8) -> (date: Option<Date>)
        ensures
            date == (if (Date { year, month, day }).is_valid() {
                Some(Date { year, month, day })
            } else {
                None
            }),
    {
        let date = Date { year, month, day };
        if date.is_real() {
            Some(date)
        } else {
            None
        }
    }

    /// The number of days from the first of January of the year 0 to this
    /// date.
    pub fn to_day_number(&self) -> (days: i64)
        ensures
            days == self.day_number(),
            -1 <= days <= 24_000_000,
    {
        let y: i64 = self.year as i64;
        proof {
            lemma_days_before_year(self.year as int);
        }
        let years: i64 = 365 * y + (y + 3) / 4 - (y + 99) / 100 + (y + 399) / 400;
        let mut months: i64 = 0;
        let mut m: u8 = 1;
        while m < self.month
            invariant
                1 <= m,
                m <= self.month || self.month == 0,
                self.month == 0 ==> m == 1,
                months == days_before_month(self.year as int, m as int),
                0 <= months <= 31 * (m - 1),
            decreases self.month - m,
        {
            months = months + days_in_month(self.year, m) as i64;
            m = m + 1;
        }
        years + months + self.day as i64 - 1
    }
}

/// The days before a year, counted at once: 365 for each year and one more
/// for each leap year.
pub proof fn lemma_days_before_year(year: int)
    requires
        0 <= year,
    ensures
        days_before_year(year) == 365 * year + (year + 3) / 4 - (year + 99) / 100 + (year + 399)
            / 400,
    decreases year,
{
    if year > 0 {
        lemma_days_before_year(year - 1);
        let last = year - 1;
        assert((last + 4) / 4 - (last + 3) / 4 == if last % 4 == 0 {
            1int
        } else {
            0int
        });
        assert((last + 100) / 100 - (last + 99) / 100 == if last % 100 == 0 {
            1int
        } else {
            0int
        });
        assert((last + 400) / 400 - (last + 399) / 400 == if last % 400 == 0 {
            1int
        } else {
            0int
        });
        assert(last % 400 == 0 ==> last % 100 == 0);
        assert(last % 100 == 0 ==> last % 4 == 0);
    }
}

/// The days before a month grow with the month.
pub proof fn lemma_days_before_month_grow(year: int, a: int, b: int)
    requires
        1 <= a <= b,
    ensures
        days_before_month(year, a) + (if a < b {
            month_length(year, a)
        } else {
            0
        }) <= days_before_month(year, b),
    decreases b,
{
    if a < b {
        lemma_days_before_month_grow(year, a, b - 1);
    }
}

/// The days before a year grow with the year.
pub proof fn lemma_days_before_year_grow(a: int, b: int)
    requires
        0 <= a <= b,
    ensures
        days_before_year(a) + (if a < b {
            year_length(a)
        } else {
            0
        }) <= days_before_year(b),
    decreases b,
{
    if a < b {
        lemma_days_before_year_grow(a, b - 1);
    }
}

/// Within a year no date reaches the year's length.
pub proof fn lemma_day_in_year(date: Date)
    requires
        date.is_valid(),
    ensures
        days_before_month(date.year as int, date.month as int) + date.day <= year_length(
            date.year as int,
        ),
{
    reveal_with_fuel(days_before_month, 13);
}

/// An earlier date has a smaller day number.
pub proof fn lemma_day_number_ascends(a: Date, b: Date)
    requires
        a.is_valid(),
        b.is_valid(),
        a.is_earlier_than(b),
    ensures
        a.day_number() < b.day_number(),
{
    lemma_days_before_month_grow(b.year as int, 1, b.month as int);
    if a.year < b.year {
        lemma_days_before_year_grow(a.year as int, b.year as int);
        lemma_day_in_year(a);
    } else if a.month < b.month {
        lemma_days_before_month_grow(a.year as int, a.month as int, b.month as int);
    }
}

/// Reports whether `year` is a leap year.
pub fn is_leap(year: u16) -> (leap: bool)
    ensures
        leap == is_leap_year(year as int),
{
    year % 4 == 0 && (year % 100 != 0 || year % 400 == 0)
}

/// The number of days of a month of a year.
pub fn days_in_month(year: u16, month: u8) -> (days: u8)
    ensures
        days == month_length(year as int, month as int),
{
    if month == 2 {
        if is_leap(year) {
            29
        } else {
            28
        }
    } else if month == 4 || month == 6 || month == 9 || month == 11 {
        30
    } else {
        31
    }
}

/// Whether the character is one of the ten digits.
pub open spec fn is_digit(c: char) -> bool {
    '0' <= c <= '9'
}

/// The value of a digit.
pub open spec fn digit_value(c: char) -> int {
    c as int - '0' as int
}

/// The number that the `count` digits of `text` from `start` on write, if
/// all of them are digits.
pub open spec fn number_at(text: Seq<char>, start: int, count: int) -> Option<int>
    decreases count,
{
    if count <= 0 {
        Some(0)
    } else if !is_digit(text[start + count - 1]) {
        None
    } else {
        match number_at(text, start, count - 1) {
            Some(high) => Some(10 * high + digit_value(text[start + count - 1])),
            None => None,
        }
    }
}

/// The date that a time text names: the text starts with four digits of
/// the year, two of the month and two of the day, joined by hyphens; there
/// it ends, or a blank or the letter T follows, and after that anything.
/// A text of another shape, or one that writes a date which does not exist,
/// names no date.
pub open spec fn date_of_text(text: Seq<char>) -> Option<Date> {
    if text.len() >= 10 && text[4] == '-' && text[7] == '-' && (text.len() == 10 || text[10] == ' '
        || text[10] == 'T') {
        match (number_at(text, 0, 4), number_at(text, 5, 2), number_at(text, 8, 2)) {
            (Some(year), Some(month), Some(day)) => {
                let date = Date { year: year as u16, month: month as u8, day: day as u8 };
                if date.is_valid() {
                    Some(date)
                } else {
                    None
                }
            },
            _ => None,
        }
    } else {
        None
    }
}

/// Reads the number that `count` digits of `text` from `start` on write.
fn read_number(text: &str, start: usize, count: usize) -> (number: Option<u16>)
    requires
        count <= 4,
        start + count <= text@.len() <= usize::MAX,
    ensures
        match number {
            Some(n) => number_at(text@, start as int, count as int) == Some(n as int),
            None => number_at(text@, start as int, count as int) is None,
        },
{
    let mut value: u16 = 0;
    let mut i: usize = 0;
    while i < count
        invariant
            i <= count <= 4,
            start + count <= text@.len() <= usize::MAX,
            number_at(text@, start as int, i as int) == Some(value as int),
            value < 10 * 10 * 10 * 10,
            i < 4 ==> value < 10 * 10 * 10,
            i < 3 ==> value < 10 * 10,
            i < 2 ==> value < 10,
            i < 1 ==> value < 1,
        decreases count - i,
    {
        let c = text.get_char(start + i);
        if !('0' <= c && c <= '9') {
            proof {
                lemma_number_at_stops(text@, start as int, i as int + 1, count as int);
            }
            return None;
        }
        let digit: u16 = (c as u32 - '0' as u32) as u16;
        value = 10 * value + digit;
        i = i + 1;
    }
    Some(value)
}

/// Once a run of characters holds no number, no longer run from the same
/// start does.
pub proof fn lemma_number_at_stops(text: Seq<char>, start: int, short: int, long: int)
    requires
        0 < short <= long,
        number_at(text, start, short) is None,
    ensures
        number_at(text, start, long) is None,
    decreases long,
{
    if short < long {
        lemma_number_at_stops(text, start, short, long - 1);
    }
}

/// Reads the date that a time text names.
pub fn parse_date(text: &str) -> (date: Option<Date>)
    ensures
        date == date_of_text(text@),
{
    let n = text.unicode_len();
    if n < 10 {
        return None;
    }
    if text.get_char(4) != '-' || text.get_char(7) != '-' {
        return None;
    }
    if n > 10 {
        let c = text.get_char(10);
        if c != ' ' && c != 'T' {
            return None;
        }
    }
    let year = read_number(text, 0, 4);
    let month = read_number(text, 5, 2);
    let day = read_number(text, 8, 2);
    match (year, month, day) {
        (Some(y), Some(m), Some(d)) => Date::from_parts(y, m as u8, d as u8),
        _ => None,
    }
}

/// The character that writes a decimal digit.
pub open spec fn digit_char(digit: int) -> char {
    ('0' as int + digit) as char
}

/// The two characters that write the last two decimal digits of a number.
pub open spec fn two_digits(number: int) -> Seq<char> {
    seq![digit_char((number / 10) % 10), digit_char(number % 10)]
}

/// The four characters that write the last four decimal digits of a
/// number.
pub open spec fn four_digits(number: int) -> Seq<char> {
    two_digits(number / 100) + two_digits(number)
}

/// The text that writes a date: four digits of the year, two of the month
/// and two of the day, joined by hyphens. Of a year beyond 9999 the last
/// four digits are written.
pub open spec fn text_of_date(date: Date) -> Seq<char> {
    four_digits(date.year as int) + seq!['-'] + two_digits(date.month as int) + seq!['-']
        + two_digits(date.day as int)
}

/// The text of one decimal digit.
fn digit_text(digit: u8) -> (text: &'static str)
    requires
        digit < 10,
    ensures
        text@ == seq![digit_char(digit as int)],
{
    proof {
        reveal_strlit("0");
        reveal_strlit("1");
        reveal_strlit("2");
        reveal_strlit("3");
        reveal_strlit("4");
        reveal_strlit("5");
        reveal_strlit("6");
        reveal_strlit("7");
        reveal_strlit("8");
        reveal_strlit("9");
    }
    let text = if digit == 0 {
        "0"
    } else if digit == 1 {
        "1"
    } else if digit == 2 {
        "2"
    } else if digit == 3 {
        "3"
    } else if digit == 4 {
        "4"
    } else if digit == 5 {
        "5"
    } else if digit == 6 {
        "6"
    } else if digit == 7 {
        "7"
    } else if digit == 8 {
        "8"
    } else {
        "9"
    };
    assert(text@ =~= seq![digit_char(digit as int)]);
    text
}

/// Appends the last two decimal digits of a number to a text.
fn append_two_digits(text: &mut String, number: u16)
    ensures
        final(text)@ == old(text)@ + two_digits(number as int),
{
    let ghost before = text@;
    text.append(digit_text(((number / 10) % 10) as u8));
    text.append(digit_text((number % 10) as u8));
    assert(text@ =~= before + two_digits(number as int));
}

impl Date {
    /// Writes the date as a text of ten characters.
    pub fn to_text(&self) -> (text: String)
        ensures
            text@ == text_of_date(*self),
    {
        proof {
            reveal_strlit("-");
        }
        let mut text = String::new();
        append_two_digits(&mut text, self.year / 100);
        append_two_digits(&mut text, self.year);
        assert(text@ =~= four_digits(self.year as int));
        text.append("-");
        append_two_digits(&mut text, self.month as u16);
        text.append("-");
        append_two_digits(&mut text, self.day as u16);
        assert("-"@ =~= seq!['-']);
        text
    }
}

/// Two characters that write a number below one hundred hold that number.
pub proof fn lemma_two_digits_hold(text: Seq<char>, start: int, number: int)
    requires
        0 <= start,
        start + 2 <= text.len(),
        0 <= number < 100,
        text[start] == digit_char(number / 10),
        text[start + 1] == digit_char(number % 10),
    ensures
        number_at(text, start, 2) == Some(number),
{
    reveal_with_fuel(number_at, 3);
    assert(is_digit(text[start]) && digit_value(text[start]) == number / 10);
    assert(is_digit(text[start + 1]) && digit_value(text[start + 1]) == number % 10);
}

/// Four characters that write a number below ten thousand hold that
/// number.
pub proof fn lemma_four_digits_hold(text: Seq<char>, start: int, number: int)
    requires
        0 <= start,
        start + 4 <= text.len(),
        0 <= number < 10000,
        text[start] == digit_char(number / 1000),
        text[start + 1] == digit_char((number / 100) % 10),
        text[start + 2] == digit_char((number / 10) % 10),
        text[start + 3] == digit_char(number % 10),
    ensures
        number_at(text, start, 4) == Some(number),
{
    lemma_two_digits_hold(text, start, number / 100);
    assert(number_at(text, start, 2) == Some(number / 100));
    assert(is_digit(text[start + 2]) && digit_value(text[start + 2]) == (number / 10) % 10);
    assert(is_digit(text[start + 3]) && digit_value(text[start + 3]) == number % 10);
    assert(number_at(text, start, 3) == Some(number / 10)) by {
        reveal_with_fuel(number_at, 2);
    }
    assert(number_at(text, start, 4) == Some(number)) by {
        reveal_with_fuel(number_at, 2);
    }
}

/// A date that exists, of a year up to 9999, is read back from its text as
/// it was.
pub proof fn law_date_text_round_trip(date: Date)
    requires
        date.is_valid(),
        date.year <= 9999,
    ensures
        date_of_text(text_of_date(date)) == Some(date),
{
    let text = text_of_date(date);
    let year = date.year as int;
    let month = date.month as int;
    let day = date.day as int;
    assert(text =~= seq![
        digit_char(((year / 100) / 10) % 10),
        digit_char((year / 100) % 10),
        digit_char((year / 10) % 10),
        digit_char(year % 10),
        '-',
        digit_char((month / 10) % 10),
        digit_char(month % 10),
        '-',
        digit_char((day / 10) % 10),
        digit_char(day % 10),
    ]);
    assert(((year / 100) / 10) % 10 == year / 1000);
    assert((month / 10) % 10 == month / 10);
    assert((day / 10) % 10 == day / 10);
    lemma_four_digits_hold(text, 0, year);
    lemma_two_digits_hold(text, 5, month);
    lemma_two_digits_hold(text, 8, day);
}

} // verus!
