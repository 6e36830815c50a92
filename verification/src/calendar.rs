//! Timestamps: the canonical form `YYYY-MM-DD HH:MM:SS`, the clock and date recognition.

use vstd::prelude::*;
use vstd::string::*;
use chrono::{Datelike, Timelike};
use crate::database::Database;
use crate::text::{
    chars_of, decimal, four_digits, is_digit, push_decimal, push_two_digits, two_digits,
};

verus! {

/// Whether `s` has the form `YYYY-MM-DD HH:MM:SS`: nineteen characters, digits and separators
/// each in their place.
pub open spec fn is_canonical(s: Seq<char>) -> bool {
    &&& s.len() == 19
    &&& forall|i: int|
        0 <= i < 19 && i != 4 && i != 7 && i != 10 && i != 13 && i != 16 ==> is_digit(
            #[trigger] s[i],
        )
    &&& s[4] == '-'
    &&& s[7] == '-'
    &&& s[10] == ' '
    &&& s[13] == ':'
    &&& s[16] == ':'
}

/// Whether a text has the canonical form.
pub fn is_canonical_text(s: &str) -> (b: bool)
    ensures
        b == is_canonical(s@),
{
    let v = chars_of(s);
    if v.len() != 19 {
        return false;
    }
    let mut i: usize = 0;
    while i < 19
        invariant
            i <= 19,
            v@.len() == 19,
            v@ == s@,
            forall|j: int|
                0 <= j < i && j != 4 && j != 7 && j != 10 && j != 13 && j != 16 ==> is_digit(
                    #[trigger] v@[j],
                ),
            forall|j: int| 0 <= j < i && (j == 4 || j == 7) ==> v@[j] == '-',
            forall|j: int| 0 <= j < i && j == 10 ==> v@[j] == ' ',
            forall|j: int| 0 <= j < i && (j == 13 || j == 16) ==> v@[j] == ':',
        decreases 19 - i,
    {
        let c = v[i];
        let fits = if i == 4 || i == 7 {
            c == '-'
        } else if i == 10 {
            c == ' '
        } else if i == 13 || i == 16 {
            c == ':'
        } else {
            '0' <= c && c <= '9'
        };
        if !fits {
            return false;
        }
        i += 1;
    }
    true
}

/// A day of the calendar, as plain numbers.
#[derive(Debug, PartialEq, Eq, Clone, Copy)]
pub struct CalendarDate {
    pub year: i32,
    pub month: u32,
    pub day: u32,
}

/// A day and a time of day, as plain numbers. A nanosecond of a thousand million or more marks
/// a leap second, which is shown as the second after.
#[derive(Debug, PartialEq, Eq, Clone, Copy)]
pub struct Timestamp {
    pub year: i32,
    pub month: u32,
    pub day: u32,
    pub hour: u32,
    pub minute: u32,
    pub second: u32,
    pub nanosecond: u32,
}

impl CalendarDate {
    /// Whether month and day lie within what a calendar has: a month from 1 to 12 and a day
    /// from 1 to 31.
    pub open spec fn in_range(self) -> bool {
        1 <= self.month <= 12 && 1 <= self.day <= 31
    }

    /// The first moment of the day.
    pub open spec fn midnight(self) -> Timestamp {
        Timestamp {
            year: self.year,
            month: self.month,
            day: self.day,
            hour: 0,
            minute: 0,
            second: 0,
            nanosecond: 0,
        }
    }

    /// The first moment of the day.
    pub fn at_midnight(&self) -> (t: Timestamp)
        ensures
            t == self.midnight(),
    {
        Timestamp {
            year: self.year,
            month: self.month,
            day: self.day,
            hour: 0,
            minute: 0,
            second: 0,
            nanosecond: 0,
        }
    }
}

impl Timestamp {
    /// The second as it is written: a leap second counts as the sixtieth.
    pub open spec fn shown_second(self) -> int {
        self.second + if self.nanosecond >= 1_000_000_000 {
            1int
        } else {
            0int
        }
    }

    /// Whether each field fits the width that the canonical form gives it.
    pub open spec fn fits(self) -> bool {
        &&& 0 <= self.year <= 9999
        &&& self.month < 100
        &&& self.day < 100
        &&& self.hour < 100
        &&& self.minute < 100
        &&& self.shown_second() < 100
    }

    /// Whether the fields lie within what a calendar and a clock have: a month from 1 to 12,
    /// a day from 1 to 31, an hour below 24, minute and second below 60, and a nanosecond
    /// below two thousand million.
    pub open spec fn in_range(self) -> bool {
        &&& 1 <= self.month <= 12
        &&& 1 <= self.day <= 31
        &&& self.hour <= 23
        &&& self.minute <= 59
        &&& self.second <= 59
        &&& self.nanosecond < 2_000_000_000
    }

    /// The year and the month, as `YYYY-MM`. A year from 0 to 9999 has four digits; any other
    /// year has its sign and at least four digits, so that it begins no canonical date.
    pub open spec fn month_text(self) -> Seq<char> {
        year_text(self.year as int) + seq!['-'] + month_number_text(self.month as nat)
    }

    /// The timestamp in canonical form.
    pub open spec fn canonical_text(self) -> Seq<char> {
        self.month_text() + seq!['-'] + two_digits(self.day as nat) + seq![' '] + two_digits(
            self.hour as nat,
        ) + seq![':'] + two_digits(self.minute as nat) + seq![':'] + two_digits(
            self.shown_second() as nat,
        )
    }

    /// What is written of a timestamp that fits is canonical, and begins with its month.
    pub proof fn lemma_canonical_text(self)
        requires
            self.fits(),
        ensures
            is_canonical(self.canonical_text()),
            self.month_text() == self.canonical_text().take(7),
            self.month_text().len() == 7,
    {
        let s = self.canonical_text();
        assert(s.len() == 19);
        assert forall|i: int|
            0 <= i < 19 && i != 4 && i != 7 && i != 10 && i != 13 && i != 16 implies is_digit(
            #[trigger] s[i],
        ) by {
            lemma_two_digits(self.year as nat / 100);
            lemma_two_digits(self.year as nat % 100);
            lemma_two_digits(self.month as nat);
            lemma_two_digits(self.day as nat);
            lemma_two_digits(self.hour as nat);
            lemma_two_digits(self.minute as nat);
            lemma_two_digits(self.shown_second() as nat);
        }
        assert(self.month_text() =~= s.take(7));
    }

    /// Appends the year and the month.
    fn push_month(&self, out: &mut String)
        ensures
            final(out)@ == old(out)@ + self.month_text(),
    {
        proof {
            reveal_strlit("-");
            reveal_strlit("+");
        }
        if 0 <= self.year && self.year <= 9999 {
            let y: u32 = self.year as u32;
            push_two_digits(out, y / 100);
            push_two_digits(out, y % 100);
        } else if self.year > 9999 {
            out.append("+");
            push_decimal(out, self.year as u128);
        } else {
            out.append("-");
            let y: u32 = (-(self.year as i64)) as u32;
            if y <= 9999 {
                push_two_digits(out, y / 100);
                push_two_digits(out, y % 100);
            } else {
                push_decimal(out, y as u128);
            }
        }
        assert(out@ =~= old(out)@ + year_text(self.year as int));
        out.append("-");
        if self.month < 100 {
            push_two_digits(out, self.month);
        } else {
            push_decimal(out, self.month as u128);
        }
        assert(out@ =~= old(out)@ + self.month_text());
    }

    fn fits_width(&self) -> (b: bool)
        ensures
            b == self.fits(),
    {
        0 <= self.year && self.year <= 9999 && self.month < 100 && self.day < 100 && self.hour
            < 100 && self.minute < 100 && self.second < 100 && (self.second < 99
            || self.nanosecond < 1_000_000_000)
    }

    /// The year and the month, as `YYYY-MM`.
    pub fn month_key(&self) -> (month: String)
        ensures
            month@ == self.month_text(),
    {
        let mut out = String::new();
        self.push_month(&mut out);
        assert(out@ =~= self.month_text());
        out
    }

    /// The timestamp as `YYYY-MM-DD HH:MM:SS`, where it fits that form: a year from 0 to 9999
    /// and every other field below one hundred.
    pub fn canonical(&self) -> (r: Option<String>)
        ensures
            match r {
                Some(s) => self.fits() && s@ == self.canonical_text() && is_canonical(s@),
                None => !self.fits(),
            },
    {
        if !self.fits_width() {
            return None;
        }
        let shown: u32 = if self.nanosecond >= 1_000_000_000 {
            self.second + 1
        } else {
            self.second
        };
        proof {
            reveal_strlit("-");
            reveal_strlit(" ");
            reveal_strlit(":");
        }
        let mut out = String::new();
        self.push_month(&mut out);
        out.append("-");
        push_two_digits(&mut out, self.day);
        out.append(" ");
        push_two_digits(&mut out, self.hour);
        out.append(":");
        push_two_digits(&mut out, self.minute);
        out.append(":");
        push_two_digits(&mut out, shown);
        proof {
            assert(out@ =~= self.canonical_text());
            self.lemma_canonical_text();
        }
        Some(out)
    }
}

/// A year as it is written: four digits from 0 to 9999, else its sign and at least four
/// digits.
pub open spec fn year_text(year: int) -> Seq<char> {
    if 0 <= year <= 9999 {
        four_digits(year as nat)
    } else if year > 9999 {
        seq!['+'] + decimal(year as nat)
    } else if year >= -9999 {
        seq!['-'] + four_digits((-year) as nat)
    } else {
        seq!['-'] + decimal((-year) as nat)
    }
}

/// The number of a month as it is written: with two digits at least.
pub open spec fn month_number_text(month: nat) -> Seq<char> {
    if month < 100 {
        two_digits(month)
    } else {
        decimal(month)
    }
}

/// A canonical date begins with the month of no year outside 0 to 9999: such a month is
/// written with a sign.
pub proof fn lemma_month_of_far_year(t: Timestamp, date: Seq<char>)
    requires
        !(0 <= t.year <= 9999),
        is_canonical(date),
    ensures
        !t.month_text().is_prefix_of(date),
{
    let m = t.month_text();
    assert(m[0] == '+' || m[0] == '-');
    if m.is_prefix_of(date) {
        assert(date.subrange(0, m.len() as int)[0] == date[0]);
        assert(is_digit(date[0]));
    }
}

proof fn lemma_two_digits(n: nat)
    requires
        n < 100,
    ensures
        is_digit(two_digits(n)[0]),
        is_digit(two_digits(n)[1]),
{
}

/// What `chrono::NaiveDateTime::parse_from_str` makes of a text under a format: the fields of
/// the date and time it returns, or `None` where it returns an error.
pub uninterp spec fn naive_datetime_parse(text: Seq<char>, format: Seq<char>) -> Option<Timestamp>;

/// What `chrono::NaiveDate::parse_from_str` makes of a text under a format: the fields of the
/// date it returns, or `None` where it returns an error.
pub uninterp spec fn naive_date_parse(text: Seq<char>, format: Seq<char>) -> Option<CalendarDate>;

/// Calls `chrono::NaiveDateTime::parse_from_str` and hands back the fields of what it
/// returns. The parse is a function of the text and the format alone, and the fields lie
/// within the ranges that chrono documents for them; the contract claims no more than that.
#[verifier::external_body]
fn parse_naive_datetime(text: &str, format: &str) -> (r: Option<Timestamp>)
    ensures
        r == naive_datetime_parse(text@, format@),
        r matches Some(t) ==> t.in_range(),
{
    match chrono::NaiveDateTime::parse_from_str(text, format) {
        Ok(t) => Some(
            Timestamp {
                year: t.year(),
                month: t.month(),
                day: t.day(),
                hour: t.hour(),
                minute: t.minute(),
                second: t.second(),
                nanosecond: t.nanosecond(),
            },
        ),
        Err(_) => None,
    }
}

/// Calls `chrono::NaiveDate::parse_from_str` and hands back the fields of what it returns.
/// The parse is a function of the text and the format alone, and month and day lie within
/// the ranges that chrono documents for them; the contract claims no more than that.
#[verifier::external_body]
fn parse_naive_date(text: &str, format: &str) -> (r: Option<CalendarDate>)
    ensures
        r == naive_date_parse(text@, format@),
        r matches Some(d) ==> d.in_range(),
{
    match chrono::NaiveDate::parse_from_str(text, format) {
        Ok(d) => Some(CalendarDate { year: d.year(), month: d.month(), day: d.day() }),
        Err(_) => None,
    }
}

/// The formats in which a date is looked for, in the order in which they are tried.
pub open spec fn date_formats() -> Seq<Seq<char>> {
    seq![
        "%Y-%m-%d"@,
        "%m/%d/%Y"@,
        "%d/%m/%Y"@,
        "%Y/%m/%d"@,
        "%m-%d-%Y"@,
        "%d-%m-%Y"@,
        "%Y-%m-%d %H:%M:%S"@,
        "%m/%d/%Y %H:%M"@,
    ]
}

/// What one format makes of a text: a date with a time, or else a date alone, taken at
/// midnight.
pub open spec fn reading(text: Seq<char>, format: Seq<char>) -> Option<Timestamp> {
    match naive_datetime_parse(text, format) {
        Some(t) => Some(t),
        None => match naive_date_parse(text, format) {
            Some(d) => Some(d.midnight()),
            None => None,
        },
    }
}

/// What the first of `formats` that matches makes of a text.
pub open spec fn first_reading(text: Seq<char>, formats: Seq<Seq<char>>) -> Option<Timestamp>
    decreases formats.len(),
{
    if formats.len() == 0 {
        None
    } else {
        match reading(text, formats.first()) {
            Some(t) => Some(t),
            None => first_reading(text, formats.drop_first()),
        }
    }
}

/// The moment that a text of a file stands for: the text followed by a midnight time in
/// canonical form if that can be read, else what the first matching format makes of it.
pub open spec fn recognized(text: Seq<char>) -> Option<Timestamp> {
    match naive_datetime_parse(text + " 00:00:00"@, "%Y-%m-%d %H:%M:%S"@) {
        Some(t) => Some(t),
        None => first_reading(text, date_formats()),
    }
}

/// The canonical form of the moment that a text stands for; `None` where no format matches
/// or the moment does not fit the canonical form.
pub open spec fn normalized_date(text: Seq<char>) -> Option<Seq<char>> {
    match recognized(text) {
        Some(t) => if t.fits() {
            Some(t.canonical_text())
        } else {
            None
        },
        None => None,
    }
}

/// A date that was put into canonical form has the canonical form.
pub proof fn lemma_normalized_date_is_canonical(text: Seq<char>)
    ensures
        normalized_date(text) matches Some(d) ==> is_canonical(d),
{
    if let Some(t) = recognized(text) {
        if t.fits() {
            t.lemma_canonical_text();
        }
    }
}

fn date_format(i: usize) -> (f: &'static str)
    requires
        i < 8,
    ensures
        f@ == date_formats()[i as int],
{
    match i {
        0 => "%Y-%m-%d",
        1 => "%m/%d/%Y",
        2 => "%d/%m/%Y",
        3 => "%Y/%m/%d",
        4 => "%m-%d-%Y",
        5 => "%d-%m-%Y",
        6 => "%Y-%m-%d %H:%M:%S",
        _ => "%m/%d/%Y %H:%M",
    }
}

/// What one format makes of a text.
fn read_with(text: &str, format: &str) -> (r: Option<Timestamp>)
    ensures
        r == reading(text@, format@),
        r matches Some(t) ==> t.in_range(),
{
    match parse_naive_datetime(text, format) {
        Some(t) => Some(t),
        None => match parse_naive_date(text, format) {
            Some(d) => Some(d.at_midnight()),
            None => None,
        },
    }
}

/// Looks for the moment that a text stands for.
pub fn recognize(text: &str) -> (r: Option<Timestamp>)
    ensures
        r == recognized(text@),
        r matches Some(t) ==> t.in_range(),
{
    let padded = String::from_str(text).concat(" 00:00:00");
    let mut found = parse_naive_datetime(padded.as_str(), "%Y-%m-%d %H:%M:%S");
    let mut i: usize = 0;
    assert(date_formats().skip(0) =~= date_formats());
    while i < 8 && found.is_none()
        invariant
            i <= 8,
            date_formats().len() == 8,
            match found {
                Some(t) => recognized(text@) == Some(t) && t.in_range(),
                None => recognized(text@) == first_reading(text@, date_formats().skip(i as int)),
            },
        decreases 8 - i,
    {
        found = read_with(text, date_format(i));
        assert(date_formats().skip(i as int).drop_first() =~= date_formats().skip(i + 1));
        i += 1;
    }
    found
}

/// Whether a text is the canonical form of a moment whose fields lie within what a calendar
/// and a clock have, in a year from 0 to 9999.
pub open spec fn names_moment(date: Seq<char>) -> bool {
    exists|t: Timestamp| #[trigger] t.in_range() && t.fits() && date == t.canonical_text()
}

impl Database {
    /// Puts a date of a file into canonical form. The known formats are tried in a fixed
    /// order and the first that matches wins, also where another would match as well.
    pub fn parse_date(date_str: &str) -> (r: Result<String, String>)
        ensures
            match normalized_date(date_str@) {
                Some(d) => r is Ok && r->Ok_0@ == d && is_canonical(d),
                None => r is Err && r->Err_0@ == "Unsupported date format"@,
            },
            r matches Ok(d) ==> names_moment(d@),
    {
        match recognize(date_str) {
            Some(t) => match t.canonical() {
                Some(d) => {
                    assert(t.in_range() && t.fits() && d@ == t.canonical_text());
                    Ok(d)
                },
                None => Err(String::from_str("Unsupported date format")),
            },
            None => Err(String::from_str("Unsupported date format")),
        }
    }
}

} // verus!
