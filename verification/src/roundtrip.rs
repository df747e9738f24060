//! What the writer writes, the reader reads back.

use vstd::prelude::*;
use crate::datetime::datetime_text;
use crate::json::{decimal, digits, element_texts, escape, escape_all, hex_digit,
    joined, json_text, member_texts, quoted};
use crate::number::{digit, digits_end, exponent_end, float_token, fraction_end, integer_end,
    is_digit, is_float_token, is_number, lemma_digit, lemma_digits_end, number_end};
use crate::reader::{digits_value, hex_code, hex_value, is_hex, is_space, occurs,
    read_elements, read_json, read_members, read_number, read_string, read_value, short_escape,
    Json};
use crate::value::{lemma_no_defects, Tree};

verus! {

/// Where two words stand one after the other, each stands in its place.
pub proof fn lemma_occurs_split(s: Seq<char>, at: int, a: Seq<char>, b: Seq<char>)
    requires
        occurs(s, at, a + b),
    ensures
        occurs(s, at, a),
        occurs(s, at + a.len(), b),
{
    let whole = a + b;
    assert forall|i: int| 0 <= i < a.len() implies s[at + i] == #[trigger] a[i] by {
        assert(whole[i] == a[i]);
    }
    assert forall|i: int| 0 <= i < b.len() implies s[at + a.len() + i] == #[trigger] b[i] by {
        assert(whole[a.len() + i] == b[i]);
    }
}

/// A hexadecimal digit is read as the value it was written for.
pub proof fn lemma_hex_digit(n: int)
    requires
        0 <= n < 16,
    ensures
        is_hex(hex_digit(n)),
        hex_value(hex_digit(n)) == n,
{
    if n == 0 {
    } else if n == 1 {
    } else if n == 2 {
    } else if n == 3 {
    } else if n == 4 {
    } else if n == 5 {
    } else if n == 6 {
    } else if n == 7 {
    } else if n == 8 {
    } else if n == 9 {
    } else if n == 10 {
    } else if n == 11 {
    } else if n == 12 {
    } else if n == 13 {
    } else if n == 14 {
    } else {
    }
}

/// The reader takes the escaped form of one character for that character.
proof fn lemma_read_escape(c: char, s: Seq<char>, at: int, read: Seq<char>)
    requires
        occurs(s, at, escape(c)),
    ensures
        read_string(s, at, read) == read_string(s, at + escape(c).len(), read.push(c)),
{
    let e = escape(c);
    assert(s[at] == e[0]);
    if c == '"' || c == '\\' || c == '\u{8}' || c == '\u{c}' || c == '\n' || c == '\r' || c
        == '\t' {
        assert(s[at + 1] == e[1]);
        assert(short_escape(e[1]) == Some(c));
    } else if (c as u32) < 0x20 {
        let high = (c as u32 / 16) as int;
        let low = (c as u32 % 16) as int;
        lemma_hex_digit(high);
        lemma_hex_digit(low);
        assert(s[at + 1] == e[1]);
        assert(s[at + 2] == e[2]);
        assert(s[at + 3] == e[3]);
        assert(s[at + 4] == e[4]);
        assert(s[at + 5] == e[5]);
        assert(hex_value('0') == 0);
        assert(hex_code(s, at + 2) == c as u32);
        assert(hex_code(s, at + 2) as char == c);
    } else {
    }
}

/// The reader takes an escaped text, up to the closing quote, for the
/// text that was escaped.
pub proof fn lemma_read_escaped(x: Seq<char>, s: Seq<char>, at: int, read: Seq<char>)
    requires
        occurs(s, at, escape_all(x) + seq!['"']),
    ensures
        read_string(s, at, read) == Some((read + x, at + escape_all(x).len() + 1)),
    decreases x.len(),
{
    let quote = seq!['"'];
    if x.len() == 0 {
        assert(s[at] == quote[0]);
        assert(read + x =~= read);
    } else {
        let c = x[0];
        let rest = x.skip(1);
        assert(escape_all(x) + quote =~= escape(c) + (escape_all(rest) + quote));
        lemma_occurs_split(s, at, escape(c), escape_all(rest) + quote);
        lemma_read_escape(c, s, at, read);
        lemma_read_escaped(rest, s, at + escape(c).len(), read.push(c));
        assert(read.push(c) + rest =~= read + x);
    }
}

/// A string is read back as it was.
pub proof fn lemma_read_quoted(x: Seq<char>, s: Seq<char>, at: int)
    requires
        occurs(s, at, quoted(x)),
    ensures
        s[at] == '"',
        read_string(s, at + 1, Seq::empty()) == Some((x, at + quoted(x).len())),
        read_value(s, at) == Some((Json::String(x), at + quoted(x).len())),
{
    let quote = seq!['"'];
    assert(quoted(x) =~= quote + (escape_all(x) + quote));
    lemma_occurs_split(s, at, quote, escape_all(x) + quote);
    assert(s[at] == quote[0]);
    lemma_read_escaped(x, s, at + 1, Seq::empty());
    assert(Seq::<char>::empty() + x =~= x);
}

/// A value ends at `at`: the text ends there, or a comma or a closing
/// bracket or brace stands there.
pub open spec fn ends_value(s: Seq<char>, at: int) -> bool {
    at == s.len() || (0 <= at < s.len() && (s[at] == ',' || s[at] == ']' || s[at] == '}'))
}

/// A run of digits that is followed by no digit ends where it ends.
proof fn lemma_digits_run(s: Seq<char>, from: int, end: int)
    requires
        0 <= from <= end <= s.len(),
        forall|i: int| from <= i < end ==> is_digit(#[trigger] s[i]),
        end == s.len() || !is_digit(s[end]),
    ensures
        digits_end(s, from) == end,
    decreases end - from,
{
    if from < end {
        assert(is_digit(s[from]));
        lemma_digits_run(s, from + 1, end);
    }
}

/// The digits of a number: at least one, digits all, and no zero in
/// front of a number of two digits or more.
proof fn lemma_digits_shape(n: nat)
    ensures
        digits(n).len() >= 1,
        forall|i: int| 0 <= i < digits(n).len() ==> is_digit(#[trigger] digits(n)[i]),
        n < 10 ==> digits(n).len() == 1,
        n >= 10 ==> digits(n)[0] != '0',
        n >= 1 ==> digits(n)[0] != '0',
    decreases n,
{
    if n < 10 {
        lemma_digit(n as int);
    } else {
        lemma_digits_shape(n / 10);
        lemma_digit((n % 10) as int);
        let front = digits(n / 10);
        assert(digits(n)[0] == front[0]);
        assert forall|i: int| 0 <= i < digits(n).len() implies is_digit(#[trigger] digits(n)[i]) by {
            if i < front.len() {
                assert(digits(n)[i] == front[i]);
            }
        }
    }
}

/// The digits of a number are read as that number.
proof fn lemma_digits_value(n: nat, s: Seq<char>, p: int)
    requires
        occurs(s, p, digits(n)),
    ensures
        digits_value(s, p, p + digits(n).len()) == n,
    decreases n,
{
    let d = digits(n);
    if n < 10 {
        lemma_digit(n as int);
        assert(s[p] == d[0]);
        assert(digits_value(s, p, p) == 0);
    } else {
        let front = digits(n / 10);
        let last = seq![digit((n % 10) as int)];
        assert(d =~= front + last);
        lemma_occurs_split(s, p, front, last);
        lemma_digits_value(n / 10, s, p);
        lemma_digit((n % 10) as int);
        assert(s[p + front.len()] == last[0]);
    }
}

/// An integer is read back as it was.
pub proof fn lemma_read_decimal(i: int, s: Seq<char>, at: int)
    requires
        occurs(s, at, decimal(i)),
        ends_value(s, at + decimal(i).len()),
    ensures
        read_value(s, at) == Some((Json::Integer(i), at + decimal(i).len())),
{
    let n: nat = if i < 0 {
        (-i) as nat
    } else {
        i as nat
    };
    let d = digits(n);
    let p = if i < 0 {
        at + 1
    } else {
        at
    };
    lemma_digits_shape(n);
    if i < 0 {
        let minus = seq!['-'];
        lemma_occurs_split(s, at, minus, d);
        assert(s[at] == minus[0]);
    }
    assert(occurs(s, p, d));
    let end = p + d.len();
    assert(s[p] == d[0]);
    assert forall|k: int| p <= k < end implies is_digit(#[trigger] s[k]) by {
        assert(s[p + (k - p)] == d[k - p]);
    }
    lemma_digits_run(s, p, end);
    if d.len() > 1 {
        lemma_digits_run(s, p + 1, end);
    }
    lemma_digits_value(n, s, p);
    assert(integer_end(s, at) == Some(end));
    assert(number_end(s, at) == Some(end));
}

/// A run of digits inside a word ends in a text where it ends in the
/// word, if no digit follows the word in the text.
proof fn lemma_digits_end_transfer(token: Seq<char>, s: Seq<char>, at: int, j: int)
    requires
        occurs(s, at, token),
        0 <= j <= token.len(),
        at + token.len() == s.len() || !is_digit(s[at + token.len()]),
    ensures
        digits_end(s, at + j) == at + digits_end(token, j),
    decreases token.len() - j,
{
    if j < token.len() {
        assert(s[at + j] == token[j]);
        if is_digit(token[j]) {
            lemma_digits_end_transfer(token, s, at, j + 1);
        }
    }
}

/// The integer part of a word ends in a text where it ends in the word,
/// if no digit follows the word in the text.
proof fn lemma_integer_end_transfer(token: Seq<char>, s: Seq<char>, at: int)
    requires
        occurs(s, at, token),
        integer_end(token, 0) is Some,
        at + token.len() == s.len() || !is_digit(s[at + token.len()]),
    ensures
        integer_end(s, at) == Some(at + integer_end(token, 0).unwrap()),
{
    assert(s[at] == token[0]);
    let a: int = if token[0] == '-' {
        1
    } else {
        0
    };
    assert(s[at + a] == token[a]);
    lemma_digits_end_transfer(token, s, at, a);
    lemma_digits_end(token, a);
    let b = integer_end(token, 0).unwrap();
    if b < token.len() {
        assert(s[at + b] == token[b]);
    }
}

/// A number is a number wherever it stands, if a value ends behind it.
proof fn lemma_number_end_transfer(token: Seq<char>, s: Seq<char>, at: int)
    requires
        occurs(s, at, token),
        is_number(token),
        ends_value(s, at + token.len()),
    ensures
        number_end(s, at) == Some(at + token.len()),
        integer_end(s, at) == Some(at + integer_end(token, 0).unwrap()),
{
    lemma_integer_end_transfer(token, s, at);
    let len = token.len() as int;
    let b = integer_end(token, 0).unwrap();
    assert(0 <= b <= len) by {
        let a: int = if token[0] == '-' {
            1
        } else {
            0
        };
        lemma_digits_end(token, a);
    }
    if b < len {
        assert(s[at + b] == token[b]);
        lemma_digits_end_transfer(token, s, at, b + 1);
        lemma_digits_end(token, b + 1);
    }
    let c = fraction_end(token, b).unwrap();
    assert(b <= c <= len);
    assert(fraction_end(s, at + b) == Some(at + c));
    if c < len {
        assert(s[at + c] == token[c]);
        if c + 1 < len {
            assert(s[at + c + 1] == token[c + 1]);
            lemma_digits_end_transfer(token, s, at, c + 2);
        }
        lemma_digits_end_transfer(token, s, at, c + 1);
    }
    assert(exponent_end(s, at + c) == Some(at + len));
}

/// A number without fraction and exponent, with `.0` behind it, is a
/// number with a fraction.
pub proof fn lemma_plain_float(text: Seq<char>)
    requires
        is_number(text),
        integer_end(text, 0) == Some(text.len() as int),
    ensures
        is_float_token(text + seq!['.', '0']),
{
    let token = text + seq!['.', '0'];
    let len = text.len() as int;
    assert(occurs(token, 0, text)) by {
        assert forall|i: int| 0 <= i < text.len() implies token[0 + i] == #[trigger] text[i] by {}
    }
    assert(token[len] == '.');
    assert(token[len + 1] == '0');
    lemma_integer_end_transfer(text, token, 0);
    assert(digits_end(token, len + 2) == len + 2);
    assert(digits_end(token, len + 1) == len + 2);
    assert(fraction_end(token, len) == Some(len + 2));
    assert(exponent_end(token, len + 2) == Some(len + 2));
}

/// What a reader makes of a float: a number with a fraction or an
/// exponent where the float has a decimal text, `null` where not.
pub open spec fn float_image(text: Seq<char>) -> Json {
    if is_number(text) {
        Json::Float(float_token(text))
    } else {
        Json::Null
    }
}

/// A float is read back as a float, never as an integer.
pub proof fn lemma_read_float(text: Seq<char>, s: Seq<char>, at: int)
    requires
        occurs(s, at, float_token(text)),
        ends_value(s, at + float_token(text).len()),
    ensures
        read_value(s, at) == Some((float_image(text), at + float_token(text).len())),
        is_number(text) ==> is_float_token(float_token(text)),
{
    let token = float_token(text);
    assert(s[at] == token[0]);
    if is_number(text) {
        if !is_float_token(text) {
            lemma_plain_float(text);
        }
        lemma_number_end_transfer(token, s, at);
        assert(s.subrange(at, at + token.len()) =~= token);
        assert(read_number(s, at) == Some((Json::Float(token), at + token.len())));
    } else {
        assert(token =~= seq!['n', 'u', 'l', 'l']);
    }
}

/// What a reader of JSON makes of the text of a tree. The type of each
/// value is kept: a string is a string, an integer an integer, a float a
/// float (or `null`, where it has no decimal text), a boolean a boolean;
/// a datetime is the string of its text; an array is an array and a table
/// an object, with their items in the same order.
pub open spec fn image(t: Tree) -> Json
    decreases t, 0nat,
{
    match t {
        Tree::String(s) => Json::String(s),
        Tree::Integer(i) => Json::Integer(i as int),
        Tree::Float(text) => float_image(text),
        Tree::Boolean(b) => Json::Bool(b),
        Tree::Datetime(d) => Json::String(datetime_text(d)),
        Tree::Array(items) => Json::Array(images(items)),
        Tree::Table(keys, values) => Json::Object(keys, images(values)),
    }
}

/// The image of each of `items`.
pub open spec fn images(items: Seq<Tree>) -> Seq<Json>
    decreases items, 1nat,
{
    Seq::new(
        items.len(),
        |i: int|
            if 0 <= i < items.len() {
                image(items[i])
            } else {
                Json::Null
            },
    )
}

/// Where the piece of index `k` starts, when the joined pieces start at
/// `base`.
pub open spec fn piece_start(pieces: Seq<Seq<char>>, k: int, base: int) -> int {
    if k <= 0 {
        base
    } else {
        base + joined(pieces, k).len() + 1
    }
}

/// Where joined pieces stand in a text, each piece stands in its place,
/// with a comma behind every piece but the last.
proof fn lemma_piece_place(pieces: Seq<Seq<char>>, n: int, k: int, s: Seq<char>, base: int)
    requires
        0 <= k < n <= pieces.len(),
        occurs(s, base, joined(pieces, n)),
    ensures
        occurs(s, piece_start(pieces, k, base), pieces[k]),
        piece_start(pieces, k, base) + pieces[k].len() == base + joined(pieces, k + 1).len(),
        k + 1 < n ==> s[base + joined(pieces, k + 1).len()] == ',',
        k + 1 == n ==> joined(pieces, k + 1) == joined(pieces, n),
    decreases n - k,
{
    let comma = seq![','];
    if k + 1 < n {
        let front = joined(pieces, n - 1);
        assert(joined(pieces, n) =~= front + (comma + pieces[n - 1]));
        lemma_occurs_split(s, base, front, comma + pieces[n - 1]);
        lemma_occurs_split(s, base + front.len(), comma, pieces[n - 1]);
        assert(s[base + front.len()] == comma[0]);
        lemma_piece_place(pieces, n - 1, k, s, base);
    } else if k > 0 {
        let front = joined(pieces, k);
        assert(joined(pieces, n) =~= front + (comma + pieces[k]));
        lemma_occurs_split(s, base, front, comma + pieces[k]);
        lemma_occurs_split(s, base + front.len(), comma, pieces[k]);
    }
}

/// The text of a tree is not empty, and it starts with no closing bracket
/// or brace and with no white space.
proof fn lemma_text_start(t: Tree)
    ensures
        json_text(t).len() > 0,
        json_text(t)[0] != ']',
        json_text(t)[0] != '}',
        !is_space(json_text(t)[0]),
{
    match t {
        Tree::Integer(i) => {
            let n: nat = if i < 0 {
                (-i) as nat
            } else {
                i as nat
            };
            lemma_digits_shape(n);
            assert(is_digit(digits(n)[0]));
        },
        Tree::Float(text) => {
            if is_number(text) {
                assert(text.len() > 0);
                assert(float_token(text)[0] == text[0]);
            } else {
                assert(float_token(text) =~= seq!['n', 'u', 'l', 'l']);
            }
        },
        _ => {},
    }
}

/// A tree without a defect is read back, where its text stands and a
/// value ends behind it, as its image.
pub proof fn lemma_read_value(t: Tree, budget: nat, s: Seq<char>, at: int)
    requires
        t.defect(budget) is None,
        occurs(s, at, json_text(t)),
        ends_value(s, at + json_text(t).len()),
    ensures
        read_value(s, at) == Some((image(t), at + json_text(t).len())),
    decreases t, 0nat,
{
    lemma_text_start(t);
    assert(s[at] == json_text(t)[0]);
    match t {
        Tree::String(x) => {
            lemma_read_quoted(x, s, at);
        },
        Tree::Integer(i) => {
            lemma_read_decimal(i as int, s, at);
        },
        Tree::Float(text) => {
            lemma_read_float(text, s, at);
        },
        Tree::Boolean(b) => {
        },
        Tree::Datetime(d) => {
            lemma_read_quoted(datetime_text(d), s, at);
        },
        Tree::Array(items) => {
            let open = seq!['['];
            let close = seq![']'];
            let inner = joined(element_texts(items), items.len() as int);
            assert(json_text(t) =~= open + (inner + close));
            lemma_occurs_split(s, at, open, inner + close);
            lemma_occurs_split(s, at + 1, inner, close);
            assert(s[at + 1 + inner.len()] == close[0]);
            if items.len() == 0 {
                assert(images(items) =~= Seq::empty());
            } else {
                lemma_no_defects(items, (budget - 1) as nat, 0);
                lemma_piece_place(element_texts(items), items.len() as int, 0, s, at + 1);
                lemma_text_start(items[0]);
                assert(s[at + 1] == json_text(items[0])[0]);
                lemma_read_elements(items, (budget - 1) as nat, 0, s, at + 1, Seq::empty());
            }
        },
        Tree::Table(keys, values) => {
            let open = seq!['{'];
            let close = seq!['}'];
            let inner = joined(member_texts(keys, values), values.len() as int);
            assert(json_text(t) =~= open + (inner + close));
            lemma_occurs_split(s, at, open, inner + close);
            lemma_occurs_split(s, at + 1, inner, close);
            assert(s[at + 1 + inner.len()] == close[0]);
            if values.len() == 0 {
                assert(images(values) =~= Seq::empty());
                assert(keys =~= Seq::empty());
            } else {
                lemma_no_defects(values, (budget - 1) as nat, 0);
                lemma_piece_place(member_texts(keys, values), values.len() as int, 0, s, at + 1);
                let first = member_texts(keys, values)[0];
                assert(first[0] == '"');
                assert(s[at + 1] == first[0]);
                lemma_read_members(
                    keys,
                    values,
                    (budget - 1) as nat,
                    0,
                    s,
                    at + 1,
                    Seq::empty(),
                    Seq::empty(),
                );
            }
        },
    }
}

/// The elements of an array from the one of index `k` on are read back,
/// up to the closing bracket, as their images.
proof fn lemma_read_elements(
    items: Seq<Tree>,
    budget: nat,
    k: int,
    s: Seq<char>,
    base: int,
    read: Seq<Json>,
)
    requires
        0 <= k < items.len(),
        forall|j: int| 0 <= j < items.len() ==> (#[trigger] items[j]).defect(budget) is None,
        occurs(s, base, joined(element_texts(items), items.len() as int)),
        base + joined(element_texts(items), items.len() as int).len() < s.len(),
        s[base + joined(element_texts(items), items.len() as int).len()] == ']',
        read.len() == k,
        forall|j: int| 0 <= j < k ==> read[j] == image(items[j]),
    ensures
        read_elements(s, piece_start(element_texts(items), k, base), read) == Some(
            (
                Json::Array(images(items)),
                base + joined(element_texts(items), items.len() as int).len() + 1,
            ),
        ),
    decreases items, items.len() - k,
{
    let pieces = element_texts(items);
    let n = items.len() as int;
    let at = piece_start(pieces, k, base);
    lemma_piece_place(pieces, n, k, s, base);
    assert(pieces[k] == json_text(items[k]));
    let end = at + json_text(items[k]).len();
    lemma_text_start(items[k]);
    assert(items[k].defect(budget) is None);
    lemma_read_value(items[k], budget, s, at);
    let next = read.push(image(items[k]));
    if k + 1 < n {
        assert(end + 1 == piece_start(pieces, k + 1, base));
        lemma_read_elements(items, budget, k + 1, s, base, next);
    } else {
        assert(next =~= images(items));
    }
}

/// The members of a table from the one of index `k` on are read back, up
/// to the closing brace, as their keys and the images of their values.
proof fn lemma_read_members(
    keys: Seq<Seq<char>>,
    values: Seq<Tree>,
    budget: nat,
    k: int,
    s: Seq<char>,
    base: int,
    read_keys: Seq<Seq<char>>,
    read_values: Seq<Json>,
)
    requires
        0 <= k < values.len(),
        keys.len() == values.len(),
        forall|j: int| 0 <= j < values.len() ==> (#[trigger] values[j]).defect(budget) is None,
        occurs(s, base, joined(member_texts(keys, values), values.len() as int)),
        base + joined(member_texts(keys, values), values.len() as int).len() < s.len(),
        s[base + joined(member_texts(keys, values), values.len() as int).len()] == '}',
        read_keys.len() == k,
        read_values.len() == k,
        forall|j: int| 0 <= j < k ==> read_keys[j] == keys[j],
        forall|j: int| 0 <= j < k ==> read_values[j] == image(values[j]),
    ensures
        read_members(s, piece_start(member_texts(keys, values), k, base), read_keys, read_values)
            == Some(
            (
                Json::Object(keys, images(values)),
                base + joined(member_texts(keys, values), values.len() as int).len() + 1,
            ),
        ),
    decreases values, values.len() - k,
{
    let pieces = member_texts(keys, values);
    let n = values.len() as int;
    let at = piece_start(pieces, k, base);
    lemma_piece_place(pieces, n, k, s, base);
    let label = quoted(keys[k]);
    let colon = seq![':'];
    let text = json_text(values[k]);
    assert(pieces[k] =~= label + (colon + text));
    lemma_occurs_split(s, at, label, colon + text);
    lemma_occurs_split(s, at + label.len(), colon, text);
    assert(s[at + label.len()] == colon[0]);
    lemma_read_quoted(keys[k], s, at);
    let value_at = at + label.len() + 1;
    let end = value_at + text.len();
    lemma_text_start(values[k]);
    assert(values[k].defect(budget) is None);
    lemma_read_value(values[k], budget, s, value_at);
    let next_keys = read_keys.push(keys[k]);
    let next_values = read_values.push(image(values[k]));
    if k + 1 < n {
        assert(end + 1 == piece_start(pieces, k + 1, base));
        lemma_read_members(keys, values, budget, k + 1, s, base, next_keys, next_values);
    } else {
        assert(next_keys =~= keys);
        assert(next_values =~= images(values));
    }
}

/// Reading back what was written gives the image of the tree: every
/// value with its type, arrays and tables with their items in order.
pub proof fn lemma_read_back(t: Tree, budget: nat)
    requires
        t.defect(budget) is None,
    ensures
        read_json(json_text(t)) == Some(image(t)),
{
    let s = json_text(t);
    assert(occurs(s, 0, s));
    lemma_read_value(t, budget, s, 0);
}

} // verus!
