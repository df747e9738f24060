//! Dates and times: their fields, when they are valid, and their text.

use vstd::prelude::*;
use crate::number::{digit, lemma_digit};

verus! {

/// A calendar date.
#[derive(Clone, Copy, Debug, PartialEq, Eq)]
pub struct Date {
    pub year: u16,
    pub month: u8,
    pub day: u8,
}

/// A time of day, to the nanosecond.
#[derive(Clone, Copy, Debug, PartialEq, Eq)]
pub struct Time {
    pub hour: u8,
    pub minute: u8,
    pub second: u8,
    pub nanosecond: u32,
}

/// The distance of a local time from UTC.
#[derive(Clone, Copy, Debug, PartialEq, Eq)]
pub enum Offset {
    /// UTC itself, written `Z`.
    Z,
    /// A signed number of minutes east of UTC.
    Custom { minutes: i16 },
}

/// A date, a time, or both, with or without an offset.
///
/// The four forms of the grammar are: offset date-time (all three fields),
/// local date-time (date and time), local date and local time.
#[derive(Clone, Copy, Debug, PartialEq, Eq)]
pub struct Datetime {
    pub date: Option<Date>,
    pub time: Option<Time>,
    pub offset: Option<Offset>,
}

/// Whether `year` has a 29th of February in the Gregorian calendar.
pub open spec fn leap_year(year: int) -> bool {
    year % 4 == 0 && (year % 100 != 0 || year % 400 == 0)
}

/// The number of days of `month` (1 to 12) in `year`.
pub open spec fn days_in_month(year: int, month: int) -> int {
    if month == 2 {
        if leap_year(year) {
            29
        } else {
            28
        }
    } else if month == 4 || month == 6 || month == 9 || month == 11 {
        30
    } else {
        31
    }
}

impl Date {
    /// The date exists in the calendar and its year has four digits.
    pub open spec fn valid(self) -> bool {
        &&& self.year <= 9999
        &&& 1 <= self.month <= 12
        &&& 1 <= self.day <= days_in_month(self.year as int, self.month as int)
    }

    /// Decides [`Date::valid`].
    pub fn is_valid(&self) -> (ok: bool)
        ensures
            ok == self.valid(),
    {
        if self.year > 9999 || self.month < 1 || self.month > 12 || self.day < 1 {
            return false;
        }
        let leap = self.year % 4 == 0 && (self.year % 100 != 0 || self.year % 400 == 0);
        let last: u8 = if self.month == 2 {
            if leap {
                29
            } else {
                28
            }
        } else if self.month == 4 || self.month == 6 || self.month == 9 || self.month == 11 {
            30
        } else {
            31
        };
        self.day <= last
    }
}

impl Time {
    /// Hour, minute, second and fraction are in range; a leap second
    /// (second 60) is allowed.
    pub open spec fn valid(self) -> bool {
        &&& self.hour <= 23
        &&& self.minute <= 59
        &&& self.second <= 60
        &&& self.nanosecond <= 999_999_999
    }

    /// Decides [`Time::valid`].
    pub fn is_valid(&self) -> (ok: bool)
        ensures
            ok == self.valid(),
    {
        self.hour <= 23 && self.minute <= 59 && self.second <= 60 && self.nanosecond <= 999_999_999
    }
}

impl Offset {
    /// The offset is less than a day.
    pub open spec fn valid(self) -> bool {
        match self {
            Offset::Z => true,
            Offset::Custom { minutes } => -1440 < minutes < 1440,
        }
    }

    /// Decides [`Offset::valid`].
    pub fn is_valid(&self) -> (ok: bool)
        ensures
            ok == self.valid(),
    {
        match self {
            Offset::Z => true,
            Offset::Custom { minutes } => -1440 < *minutes && *minutes < 1440,
        }
    }
}

impl Datetime {
    /// The value has one of the four forms of the grammar and each part
    /// that is present is valid.
    pub open spec fn valid(self) -> bool {
        &&& self.date is Some || self.time is Some
        &&& self.offset is Some ==> self.date is Some && self.time is Some
        &&& self.date matches Some(d) ==> d.valid()
        &&& self.time matches Some(t) ==> t.valid()
        &&& self.offset matches Some(o) ==> o.valid()
    }

    /// Decides [`Datetime::valid`].
    pub fn is_valid(&self) -> (ok: bool)
        ensures
            ok == self.valid(),
    {
        let date_ok = match &self.date {
            Some(d) => d.is_valid(),
            None => true,
        };
        let time_ok = match &self.time {
            Some(t) => t.is_valid(),
            None => true,
        };
        let offset_ok = match &self.offset {
            Some(o) => self.date.is_some() && self.time.is_some() && o.is_valid(),
            None => true,
        };
        (self.date.is_some() || self.time.is_some()) && date_ok && time_ok && offset_ok
    }
}

/// The last `width` decimal digits of `n`, with zeros in front where it has
/// fewer.
pub open spec fn padded(n: int, width: int) -> Seq<char>
    decreases width,
{
    if width <= 0 {
        Seq::empty()
    } else {
        padded(n / 10, width - 1).push(digit(n % 10))
    }
}

/// The digits of a fraction of `width` digits, without the zeros at its end.
pub open spec fn fraction_digits(n: int, width: int) -> Seq<char>
    decreases width,
{
    if width <= 0 {
        Seq::empty()
    } else if n % 10 == 0 {
        fraction_digits(n / 10, width - 1)
    } else {
        padded(n, width)
    }
}

/// A date as `YYYY-MM-DD`.
pub open spec fn date_text(d: Date) -> Seq<char> {
    padded(d.year as int, 4) + seq!['-'] + padded(d.month as int, 2) + seq!['-'] + padded(
        d.day as int,
        2,
    )
}

/// A time as `hh:mm:ss`, followed by a point and the fraction of the second
/// where there is one.
pub open spec fn time_text(t: Time) -> Seq<char> {
    let whole = padded(t.hour as int, 2) + seq![':'] + padded(t.minute as int, 2) + seq![':']
        + padded(t.second as int, 2);
    if t.nanosecond == 0 {
        whole
    } else {
        whole + seq!['.'] + fraction_digits(t.nanosecond as int, 9)
    }
}

/// An offset as `Z`, or as a sign and `hh:mm`.
pub open spec fn offset_text(o: Offset) -> Seq<char> {
    match o {
        Offset::Z => seq!['Z'],
        Offset::Custom { minutes } => {
            let sign = if minutes < 0 {
                '-'
            } else {
                '+'
            };
            let distance: int = if minutes < 0 {
                -(minutes as int)
            } else {
                minutes as int
            };
            seq![sign] + padded(distance / 60, 2) + seq![':'] + padded(distance % 60, 2)
        },
    }
}

/// A date and time in the form of RFC 3339: the date, a `T` and the time,
/// and the offset, as far as each is there.
pub open spec fn datetime_text(d: Datetime) -> Seq<char> {
    let date = match d.date {
        Some(date) => date_text(date),
        None => Seq::empty(),
    };
    let time = match d.time {
        Some(time) => if d.date is Some {
            seq!['T'] + time_text(time)
        } else {
            time_text(time)
        },
        None => Seq::empty(),
    };
    let offset = match d.offset {
        Some(offset) => offset_text(offset),
        None => Seq::empty(),
    };
    date + time + offset
}

/// `to_string` of `toml::value::Datetime`, on a value with the same fields.
/// It writes the date with four, two and two digits, the time with two
/// digits each and the fraction without the zeros at its end, the offset
/// as `Z` or with its sign, and a `T` between date and time. To write an
/// offset it negates negative minutes, which a valid offset allows.
#[verifier::external_body]
pub(crate) fn render_datetime(d: &Datetime) -> (r: String)
    requires
        d.valid(),
    ensures
        r@ == datetime_text(*d),
{
    let date = d.date.map(|x| toml::value::Date { year: x.year, month: x.month, day: x.day });
    let time = d.time.map(|x| toml::value::Time {
        hour: x.hour, minute: x.minute, second: x.second, nanosecond: x.nanosecond,
    });
    let offset = d.offset.map(|x| match x {
        Offset::Z => toml::value::Offset::Z,
        Offset::Custom { minutes } => toml::value::Offset::Custom { minutes },
    });
    toml::value::Datetime { date, time, offset }.to_string()
}

/// A character of which the text of a date and time is made.
pub open spec fn is_datetime_char(c: char) -> bool {
    ('0' <= c && c <= '9') || c == '-' || c == ':' || c == '.' || c == 'T' || c == 'Z' || c == '+'
}

/// Padded digits are digits, as many as asked for.
pub proof fn lemma_padded(n: int, width: int)
    requires
        0 <= n,
        0 <= width,
    ensures
        padded(n, width).len() == width,
        forall|i: int| 0 <= i < width ==> is_datetime_char(#[trigger] padded(n, width)[i]),
    decreases width,
{
    if width > 0 {
        lemma_padded(n / 10, width - 1);
        lemma_digit(n % 10);
    }
}

/// The digits of a fraction are digits.
pub proof fn lemma_fraction_digits(n: int, width: int)
    requires
        0 <= n,
        0 <= width,
    ensures
        forall|i: int|
            0 <= i < fraction_digits(n, width).len() ==> is_datetime_char(
                #[trigger] fraction_digits(n, width)[i],
            ),
    decreases width,
{
    let digits = fraction_digits(n, width);
    if width > 0 {
        if n % 10 == 0 {
            lemma_fraction_digits(n / 10, width - 1);
            assert(digits == fraction_digits(n / 10, width - 1));
        } else {
            lemma_padded(n, width);
            assert(digits == padded(n, width));
        }
    }
    assert forall|i: int| 0 <= i < digits.len() implies is_datetime_char(#[trigger] digits[i]) by {
        if width > 0 {
            if n % 10 == 0 {
                assert(digits[i] == fraction_digits(n / 10, width - 1)[i]);
            } else {
                assert(digits[i] == padded(n, width)[i]);
            }
        }
    }
}

/// The text of a date and time is made of digits, `-`, `:`, `.`, `T`, `Z`
/// and `+` only.
pub proof fn lemma_datetime_chars(d: Datetime)
    ensures
        forall|i: int|
            0 <= i < datetime_text(d).len() ==> is_datetime_char(#[trigger] datetime_text(d)[i]),
{
    let date = match d.date {
        Some(date) => date_text(date),
        None => Seq::empty(),
    };
    let time = match d.time {
        Some(time) => if d.date is Some {
            seq!['T'] + time_text(time)
        } else {
            time_text(time)
        },
        None => Seq::empty(),
    };
    let offset = match d.offset {
        Some(offset) => offset_text(offset),
        None => Seq::empty(),
    };
    assert forall|i: int| 0 <= i < date.len() implies is_datetime_char(#[trigger] date[i]) by {
        let x = d.date.unwrap();
        lemma_padded(x.year as int, 4);
        lemma_padded(x.month as int, 2);
        lemma_padded(x.day as int, 2);
    }
    assert forall|i: int| 0 <= i < time.len() implies is_datetime_char(#[trigger] time[i]) by {
        let x = d.time.unwrap();
        lemma_padded(x.hour as int, 2);
        lemma_padded(x.minute as int, 2);
        lemma_padded(x.second as int, 2);
        lemma_fraction_digits(x.nanosecond as int, 9);
    }
    assert forall|i: int| 0 <= i < offset.len() implies is_datetime_char(#[trigger] offset[i]) by {
        match d.offset.unwrap() {
            Offset::Z => {},
            Offset::Custom { minutes } => {
                let distance: int = if minutes < 0 {
                    -(minutes as int)
                } else {
                    minutes as int
                };
                lemma_padded(distance / 60, 2);
                lemma_padded(distance % 60, 2);
            },
        }
    }
}

} // verus!
