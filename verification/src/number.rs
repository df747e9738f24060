//! The number grammar of JSON, and the form in which a float is written.

use vstd::prelude::*;
use vstd::string::*;

verus! {

/// `c` is one of the ten decimal digits.
pub open spec fn is_digit(c: char) -> bool {
    '0' <= c && c <= '9'
}

/// The character of the decimal digit `n`.
pub open spec fn digit(n: int) -> char {
    seq!['0', '1', '2', '3', '4', '5', '6', '7', '8', '9'][n]
}

/// The ten digits stand in their order, from `0` on.
pub proof fn lemma_digit(n: int)
    requires
        0 <= n < 10,
    ensures
        is_digit(digit(n)),
        digit(n) as int - '0' as int == n,
        digit(n) == '0' <==> n == 0,
{
    if n == 0 {
    } else if n == 1 {
    } else if n == 2 {
    } else if n == 3 {
    } else if n == 4 {
    } else if n == 5 {
    } else if n == 6 {
    } else if n == 7 {
    } else if n == 8 {
    } else {
    }
}

/// The first index at or after `from` at which `s` has no digit.
pub open spec fn digits_end(s: Seq<char>, from: int) -> int
    decreases s.len() - from,
{
    if 0 <= from < s.len() && is_digit(s[from]) {
        digits_end(s, from + 1)
    } else {
        from
    }
}

/// Where the integer part of the number that starts at `from` ends: an
/// optional minus sign, then either a single `0` or a digit from 1 to 9
/// followed by any digits. `None` where no such part starts there.
pub open spec fn integer_end(s: Seq<char>, from: int) -> Option<int> {
    let a: int = if 0 <= from < s.len() && s[from] == '-' {
        from + 1
    } else {
        from
    };
    if !(0 <= a < s.len() && is_digit(s[a])) {
        None
    } else {
        let b = if s[a] == '0' {
            a + 1
        } else {
            digits_end(s, a)
        };
        if b < s.len() && is_digit(s[b]) {
            None
        } else {
            Some(b)
        }
    }
}

/// Where the fraction that may follow an integer part ending at `b` ends: a
/// point and at least one digit, or nothing. `None` where a point stands
/// without a digit.
pub open spec fn fraction_end(s: Seq<char>, b: int) -> Option<int> {
    if 0 <= b < s.len() && s[b] == '.' {
        let c = digits_end(s, b + 1);
        if c == b + 1 {
            None
        } else {
            Some(c)
        }
    } else {
        Some(b)
    }
}

/// Where the exponent that may follow at `c` ends: `e` or `E`, an optional
/// sign and at least one digit, or nothing. `None` where the letter stands
/// without a digit.
pub open spec fn exponent_end(s: Seq<char>, c: int) -> Option<int> {
    if 0 <= c < s.len() && (s[c] == 'e' || s[c] == 'E') {
        let d = if c + 1 < s.len() && (s[c + 1] == '+' || s[c + 1] == '-') {
            c + 2
        } else {
            c + 1
        };
        let f = digits_end(s, d);
        if f == d {
            None
        } else {
            Some(f)
        }
    } else {
        Some(c)
    }
}

/// Where the JSON number that starts at `from` ends, or `None` where no
/// number starts there.
pub open spec fn number_end(s: Seq<char>, from: int) -> Option<int> {
    match integer_end(s, from) {
        None => None,
        Some(b) => match fraction_end(s, b) {
            None => None,
            Some(c) => exponent_end(s, c),
        },
    }
}

/// `s` is a JSON number, all of it.
pub open spec fn is_number(s: Seq<char>) -> bool {
    number_end(s, 0) == Some(s.len() as int)
}

/// `s` is a JSON number with a fraction or an exponent.
pub open spec fn is_float_token(s: Seq<char>) -> bool {
    is_number(s) && integer_end(s, 0) != Some(s.len() as int)
}

/// The JSON token for a float whose decimal text is `text`: the text itself
/// where it is a number with a fraction or an exponent; the text and `.0`
/// where it is a number without either, so that it cannot be taken for an
/// integer; `null` where it is no number.
pub open spec fn float_token(text: Seq<char>) -> Seq<char> {
    if is_float_token(text) {
        text
    } else if is_number(text) {
        text + seq!['.', '0']
    } else {
        seq!['n', 'u', 'l', 'l']
    }
}

/// Every character up to the end of a run of digits is a digit.
pub proof fn lemma_digits_end(s: Seq<char>, from: int)
    requires
        0 <= from <= s.len(),
    ensures
        from <= digits_end(s, from) <= s.len(),
        forall|i: int| from <= i < digits_end(s, from) ==> is_digit(#[trigger] s[i]),
        digits_end(s, from) < s.len() ==> !is_digit(s[digits_end(s, from)]),
    decreases s.len() - from,
{
    if from < s.len() && is_digit(s[from]) {
        lemma_digits_end(s, from + 1);
    }
}

/// A number is made of ASCII characters only.
pub proof fn lemma_number_is_ascii(s: Seq<char>)
    requires
        is_number(s),
    ensures
        vstd::utf8::is_ascii_chars(s),
{
    let a: int = if s.len() > 0 && s[0] == '-' {
        1
    } else {
        0
    };
    lemma_digits_end(s, a);
    let b = integer_end(s, 0).unwrap();
    if b < s.len() {
        lemma_digits_end(s, b + 1);
    }
    let c = fraction_end(s, b).unwrap();
    if c < s.len() {
        lemma_digits_end(s, c + 1);
        if c + 1 < s.len() {
            lemma_digits_end(s, c + 2);
        }
    }
    assert forall|i: int| 0 <= i < s.len() implies '\0' <= #[trigger] s[i] <= '\u{7f}' by {
        if i < a {
        } else if i < b {
        } else if i < c {
        } else {
        }
    }
}

/// The ASCII codes of the characters that a number is made of.
const MINUS: u8 = 45;

const PLUS: u8 = 43;

const POINT: u8 = 46;

const ZERO: u8 = 48;

const NINE: u8 = 57;

const LOWER_E: u8 = 101;

const UPPER_E: u8 = 69;

/// The end of the run of digits of `text` that starts at `from`.
fn scan_digits(text: &str, n: usize, from: usize) -> (end: usize)
    requires
        text.is_ascii(),
        n == text@.len(),
        from <= n,
    ensures
        end == digits_end(text@, from as int),
        from <= end <= n,
{
    let mut i: usize = from;
    while i < n && is_digit_byte(text.get_ascii(i))
        invariant
            text.is_ascii(),
            n == text@.len(),
            from <= i <= n,
            digits_end(text@, from as int) == digits_end(text@, i as int),
        decreases n - i,
    {
        i = i + 1;
    }
    i
}

/// Whether the ASCII byte `b` is a decimal digit.
fn is_digit_byte(b: u8) -> (r: bool)
    ensures
        r == (ZERO <= b <= NINE),
{
    ZERO <= b && b <= NINE
}

/// Writes a float, given as its decimal text, as a JSON token: see
/// [`float_token`].
pub fn render_float(text: &str) -> (r: String)
    ensures
        r@ == float_token(text@),
{
    proof {
        reveal_strlit("null");
        reveal_strlit(".0");
        if is_number(text@) {
            lemma_number_is_ascii(text@);
        }
    }
    if !text.is_ascii() {
        assert("null"@ =~= seq!['n', 'u', 'l', 'l']);
        return "null".to_owned();
    }
    let n: usize = text.unicode_len();
    let a: usize = if n > 0 && text.get_ascii(0) == MINUS {
        1
    } else {
        0
    };
    let mut ok: bool = a < n && is_digit_byte(text.get_ascii(a));
    let mut b: usize = a;
    if ok {
        b = if text.get_ascii(a) == ZERO {
            a + 1
        } else {
            scan_digits(text, n, a)
        };
        if b < n && is_digit_byte(text.get_ascii(b)) {
            ok = false;
        }
    }
    let mut c: usize = b;
    if ok && b < n && text.get_ascii(b) == POINT {
        c = scan_digits(text, n, b + 1);
        if c == b + 1 {
            ok = false;
        }
    }
    let mut f: usize = c;
    if ok && c < n && (text.get_ascii(c) == LOWER_E || text.get_ascii(c) == UPPER_E) {
        let d: usize = if c + 1 < n && (text.get_ascii(c + 1) == PLUS || text.get_ascii(c + 1) == MINUS) {
            c + 2
        } else {
            c + 1
        };
        f = scan_digits(text, n, d);
        if f == d {
            ok = false;
        }
    }
    assert(ok ==> number_end(text@, 0) == Some(f as int));
    assert(!ok ==> number_end(text@, 0) is None);
    if ok && f == n {
        let mut out = text.to_owned();
        if b == n {
            out.append(".0");
            assert(".0"@ =~= seq!['.', '0']);
        }
        out
    } else {
        assert("null"@ =~= seq!['n', 'u', 'l', 'l']);
        "null".to_owned()
    }
}

} // verus!
