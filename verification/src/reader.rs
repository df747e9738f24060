//! A reader of JSON text, in ghost code.
//!
//! Nothing here runs. The reader says what a JSON text means, so that the
//! writer can be held to it: see [`crate::laws`].

use vstd::prelude::*;
use crate::number::{integer_end, number_end};

verus! {

/// A JSON value as a reader of JSON sees it.
pub enum Json {
    Null,
    Bool(bool),
    /// A number without fraction and exponent, by its value.
    Integer(int),
    /// A number with a fraction or an exponent, by its text.
    Float(Seq<char>),
    String(Seq<char>),
    Array(Seq<Json>),
    /// The keys of an object and, index by index, their values, in the
    /// order of the text.
    Object(Seq<Seq<char>>, Seq<Json>),
}

/// `word` stands in `s` at `at`.
pub open spec fn occurs(s: Seq<char>, at: int, word: Seq<char>) -> bool {
    &&& 0 <= at
    &&& at + word.len() <= s.len()
    &&& forall|i: int| 0 <= i < word.len() ==> s[at + i] == #[trigger] word[i]
}

/// `c` is a hexadecimal digit, in either case.
pub open spec fn is_hex(c: char) -> bool {
    ('0' <= c && c <= '9') || ('a' <= c && c <= 'f') || ('A' <= c && c <= 'F')
}

/// The value of a hexadecimal digit.
pub open spec fn hex_value(c: char) -> int {
    if '0' <= c && c <= '9' {
        c as int - '0' as int
    } else if 'a' <= c && c <= 'f' {
        c as int - 'a' as int + 10
    } else {
        c as int - 'A' as int + 10
    }
}

/// The number that the four hexadecimal digits at `at` stand for.
pub open spec fn hex_code(s: Seq<char>, at: int) -> int {
    hex_value(s[at]) * 4096 + hex_value(s[at + 1]) * 256 + hex_value(s[at + 2]) * 16 + hex_value(
        s[at + 3],
    )
}

/// The character that a short escape stands for: the letter after the
/// backslash decides.
pub open spec fn short_escape(letter: char) -> Option<char> {
    if letter == '"' {
        Some('"')
    } else if letter == '\\' {
        Some('\\')
    } else if letter == '/' {
        Some('/')
    } else if letter == 'b' {
        Some('\u{8}')
    } else if letter == 'f' {
        Some('\u{c}')
    } else if letter == 'n' {
        Some('\n')
    } else if letter == 'r' {
        Some('\r')
    } else if letter == 't' {
        Some('\t')
    } else {
        None
    }
}

/// Reads the rest of a string whose opening quote stands before `at`:
/// the characters read, appended to `read`, and the place after the
/// closing quote. A `\u` escape is read where it names a character by
/// itself; half of a surrogate pair is not.
pub open spec fn read_string(s: Seq<char>, at: int, read: Seq<char>) -> Option<(Seq<char>, int)>
    decreases s.len() - at,
{
    if at < 0 || at >= s.len() {
        None
    } else if s[at] == '"' {
        Some((read, at + 1))
    } else if s[at] == '\\' {
        if at + 1 >= s.len() {
            None
        } else if s[at + 1] == 'u' {
            if at + 6 <= s.len() && is_hex(s[at + 2]) && is_hex(s[at + 3]) && is_hex(s[at + 4])
                && is_hex(s[at + 5]) && !(0xD800 <= hex_code(s, at + 2) <= 0xDFFF) {
                read_string(s, at + 6, read.push(hex_code(s, at + 2) as char))
            } else {
                None
            }
        } else {
            match short_escape(s[at + 1]) {
                Some(c) => read_string(s, at + 2, read.push(c)),
                None => None,
            }
        }
    } else if (s[at] as u32) < 0x20 {
        None
    } else {
        read_string(s, at + 1, read.push(s[at]))
    }
}

/// The value of the digits of `s` from `from` up to `end`.
pub open spec fn digits_value(s: Seq<char>, from: int, end: int) -> int
    decreases end - from,
{
    if end <= from {
        0
    } else {
        10 * digits_value(s, from, end - 1) + (s[end - 1] as int - '0' as int)
    }
}

/// Reads the number that starts at `at`: an integer where it has neither
/// fraction nor exponent, a float otherwise.
pub open spec fn read_number(s: Seq<char>, at: int) -> Option<(Json, int)> {
    match number_end(s, at) {
        None => None,
        Some(end) => if integer_end(s, at) == Some(end) {
            if s[at] == '-' {
                Some((Json::Integer(-digits_value(s, at + 1, end)), end))
            } else {
                Some((Json::Integer(digits_value(s, at, end)), end))
            }
        } else {
            Some((Json::Float(s.subrange(at, end)), end))
        },
    }
}

/// `c` is white space: a space, a tab, a line feed or a carriage return.
pub open spec fn is_space(c: char) -> bool {
    c == ' ' || c == '\t' || c == '\n' || c == '\r'
}

/// The first place at or after `at` where no white space stands.
pub open spec fn skip_space(s: Seq<char>, at: int) -> int
    decreases s.len() - at,
{
    if 0 <= at < s.len() && is_space(s[at]) {
        skip_space(s, at + 1)
    } else {
        at
    }
}

/// Where the next part of the text starts: behind the white space at `at`,
/// never before `at` and never behind the end of the text.
pub open spec fn next_part(s: Seq<char>, at: int) -> int {
    let after = skip_space(s, at);
    if at <= after <= s.len() {
        after
    } else {
        at
    }
}

/// Reads the value that starts at or after `from`, behind white space: the
/// value and the place after it, or `None` where no value starts there.
pub open spec fn read_value(s: Seq<char>, from: int) -> Option<(Json, int)>
    decreases s.len() - from, 0nat,
{
    let at = next_part(s, from);
    if at < 0 || at >= s.len() {
        None
    } else if s[at] == 'n' {
        if occurs(s, at, seq!['n', 'u', 'l', 'l']) {
            Some((Json::Null, at + 4))
        } else {
            None
        }
    } else if s[at] == 't' {
        if occurs(s, at, seq!['t', 'r', 'u', 'e']) {
            Some((Json::Bool(true), at + 4))
        } else {
            None
        }
    } else if s[at] == 'f' {
        if occurs(s, at, seq!['f', 'a', 'l', 's', 'e']) {
            Some((Json::Bool(false), at + 5))
        } else {
            None
        }
    } else if s[at] == '"' {
        match read_string(s, at + 1, Seq::empty()) {
            Some((text, end)) => Some((Json::String(text), end)),
            None => None,
        }
    } else if s[at] == '[' {
        let first = next_part(s, at + 1);
        if first < s.len() && s[first] == ']' {
            Some((Json::Array(Seq::empty()), first + 1))
        } else {
            read_elements(s, first, Seq::empty())
        }
    } else if s[at] == '{' {
        let first = next_part(s, at + 1);
        if first < s.len() && s[first] == '}' {
            Some((Json::Object(Seq::empty(), Seq::empty()), first + 1))
        } else {
            read_members(s, first, Seq::empty(), Seq::empty())
        }
    } else {
        read_number(s, at)
    }
}

/// Reads the elements of an array from `at` up to its closing bracket;
/// `read` holds the elements before `at`.
pub open spec fn read_elements(s: Seq<char>, at: int, read: Seq<Json>) -> Option<(Json, int)>
    decreases s.len() - at, 1nat,
{
    match read_value(s, at) {
        None => None,
        Some((element, after)) => {
            let end = next_part(s, after);
            if end <= at || end >= s.len() {
                None
            } else if s[end] == ',' {
                read_elements(s, end + 1, read.push(element))
            } else if s[end] == ']' {
                Some((Json::Array(read.push(element)), end + 1))
            } else {
                None
            }
        },
    }
}

/// Reads the members of an object from `from` up to its closing brace;
/// `keys` and `values` hold the members before `from`.
pub open spec fn read_members(
    s: Seq<char>,
    from: int,
    keys: Seq<Seq<char>>,
    values: Seq<Json>,
) -> Option<(Json, int)>
    decreases s.len() - from, 1nat,
{
    let at = next_part(s, from);
    if at < 0 || at >= s.len() || s[at] != '"' {
        None
    } else {
        match read_string(s, at + 1, Seq::empty()) {
            None => None,
            Some((key, after_key)) => {
                let colon = next_part(s, after_key);
                if colon <= at || colon >= s.len() || s[colon] != ':' {
                    None
                } else {
                    match read_value(s, colon + 1) {
                        None => None,
                        Some((value, after)) => {
                            let end = next_part(s, after);
                            if end <= at || end >= s.len() {
                                None
                            } else if s[end] == ',' {
                                read_members(s, end + 1, keys.push(key), values.push(value))
                            } else if s[end] == '}' {
                                Some((Json::Object(keys.push(key), values.push(value)), end + 1))
                            } else {
                                None
                            }
                        },
                    }
                }
            },
        }
    }
}

/// Reads a whole text as one JSON value, with white space allowed before
/// and behind it and between its parts.
pub open spec fn read_json(s: Seq<char>) -> Option<Json> {
    match read_value(s, 0) {
        Some((value, after)) => if next_part(s, after) == s.len() {
            Some(value)
        } else {
            None
        },
        None => None,
    }
}

} // verus!
