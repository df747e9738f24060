//! Writing a value tree as compact JSON text.

use vstd::prelude::*;
use vstd::string::*;
use crate::number::{digit, float_token, render_float};
use crate::reader::read_json;
use crate::roundtrip::{image, lemma_read_back};
use crate::datetime::{datetime_text, render_datetime};
use crate::value::{Defect, TomlValue, Tree, lemma_no_defects, MAX_DEPTH};

verus! {

/// The character for a digit value from 0 to 15, letters in lower case.
pub open spec fn hex_digit(n: int) -> char {
    seq!['0', '1', '2', '3', '4', '5', '6', '7', '8', '9', 'a', 'b', 'c', 'd', 'e', 'f'][n]
}

/// What stands for one character inside a JSON string: a backslash and a
/// letter for the quote, the backslash and the five control characters that
/// have a short form; `\u00` and two hex digits for every other character
/// below the space; the character itself otherwise.
pub open spec fn escape(c: char) -> Seq<char> {
    if c == '"' {
        seq!['\\', '"']
    } else if c == '\\' {
        seq!['\\', '\\']
    } else if c == '\u{8}' {
        seq!['\\', 'b']
    } else if c == '\u{c}' {
        seq!['\\', 'f']
    } else if c == '\n' {
        seq!['\\', 'n']
    } else if c == '\r' {
        seq!['\\', 'r']
    } else if c == '\t' {
        seq!['\\', 't']
    } else if (c as u32) < 0x20 {
        seq!['\\', 'u', '0', '0', hex_digit((c as u32 / 16) as int), hex_digit((c as u32 % 16) as int)]
    } else {
        seq![c]
    }
}

/// The characters of `s`, each in its escaped form.
pub open spec fn escape_all(s: Seq<char>) -> Seq<char>
    decreases s.len(),
{
    if s.len() == 0 {
        Seq::empty()
    } else {
        escape(s[0]) + escape_all(s.skip(1))
    }
}

/// `s` as a JSON string: escaped and between quotes.
pub open spec fn quoted(s: Seq<char>) -> Seq<char> {
    seq!['"'] + escape_all(s) + seq!['"']
}

/// The decimal digits of `n`, without leading zeros.
pub open spec fn digits(n: nat) -> Seq<char>
    decreases n,
{
    if n < 10 {
        seq![digit(n as int)]
    } else {
        digits(n / 10).push(digit((n % 10) as int))
    }
}

/// `i` in decimal, with a minus sign where it is negative.
pub open spec fn decimal(i: int) -> Seq<char> {
    if i < 0 {
        seq!['-'] + digits((-i) as nat)
    } else {
        digits(i as nat)
    }
}

/// The first `n` of `pieces`, with commas between them.
pub open spec fn joined(pieces: Seq<Seq<char>>, n: int) -> Seq<char>
    decreases n,
{
    if n <= 0 || n > pieces.len() {
        Seq::empty()
    } else if n == 1 {
        pieces[0]
    } else {
        joined(pieces, n - 1) + seq![','] + pieces[n - 1]
    }
}

/// The JSON text of a tree: the type of each value decides its form.
/// Strings become strings, integers become numbers without a fraction,
/// floats become numbers with a fraction or an exponent (or `null`, see
/// [`float_token`]), dates and times become strings in the form of
/// RFC 3339, arrays and tables become arrays and objects that keep the
/// order of their items.
pub open spec fn json_text(t: Tree) -> Seq<char>
    decreases t, 0nat,
{
    match t {
        Tree::String(s) => quoted(s),
        Tree::Integer(i) => decimal(i as int),
        Tree::Float(text) => float_token(text),
        Tree::Boolean(b) => if b {
            seq!['t', 'r', 'u', 'e']
        } else {
            seq!['f', 'a', 'l', 's', 'e']
        },
        Tree::Datetime(d) => quoted(datetime_text(d)),
        Tree::Array(items) => seq!['['] + joined(element_texts(items), items.len() as int)
            + seq![']'],
        Tree::Table(keys, values) => seq!['{'] + joined(
            member_texts(keys, values),
            values.len() as int,
        ) + seq!['}'],
    }
}

/// The JSON text of each of `items`.
pub open spec fn element_texts(items: Seq<Tree>) -> Seq<Seq<char>>
    decreases items, 1nat,
{
    Seq::new(
        items.len(),
        |i: int|
            if 0 <= i < items.len() {
                json_text(items[i])
            } else {
                Seq::empty()
            },
    )
}

/// The JSON text of each member of a table: the key as a string, a colon,
/// the value.
pub open spec fn member_texts(keys: Seq<Seq<char>>, values: Seq<Tree>) -> Seq<Seq<char>>
    decreases values, 1nat,
{
    Seq::new(
        values.len(),
        |i: int|
            if 0 <= i < values.len() {
                quoted(keys[i]) + seq![':'] + json_text(values[i])
            } else {
                Seq::empty()
            },
    )
}

/// `serde_json::to_string` at `str`: the string between quotes, with the
/// quote, the backslash and the characters below the space escaped as
/// [`escape`] says, everything else as it stands. Writing a string into
/// memory cannot fail.
#[verifier::external_body]
fn quote(s: &str) -> (r: String)
    ensures
        r@ == quoted(s@),
{
    serde_json::to_string(s).unwrap_or_default()
}

/// `serde_json::to_string` at `i64`: the integer in decimal, with a minus
/// sign where it is negative and without leading zeros. Writing an integer
/// into memory cannot fail.
#[verifier::external_body]
fn integer_text(i: i64) -> (r: String)
    ensures
        r@ == decimal(i as int),
{
    serde_json::to_string(&i).unwrap_or_default()
}

/// A value that cannot be written as JSON, with the reason.
#[derive(Clone, Copy, Debug, PartialEq, Eq)]
pub struct EncodeError {
    pub defect: Defect,
}

/// Appends the JSON text of `value`, which has no defect within `budget`
/// levels of nesting, to `out`.
fn write(value: &TomlValue, out: &mut String, Ghost(budget): Ghost<nat>)
    requires
        value@.defect(budget) is None,
    ensures
        final(out)@ == old(out)@ + json_text(value@),
    decreases value,
{
    let ghost start = out@;
    match value {
        TomlValue::String(s) => {
            out.append(quote(s.as_str()).as_str());
        },
        TomlValue::Integer(i) => {
            out.append(integer_text(*i).as_str());
        },
        TomlValue::Float(text) => {
            out.append(render_float(text.as_str()).as_str());
        },
        TomlValue::Boolean(b) => {
            proof {
                reveal_strlit("true");
                reveal_strlit("false");
                assert("true"@ =~= seq!['t', 'r', 'u', 'e']);
                assert("false"@ =~= seq!['f', 'a', 'l', 's', 'e']);
            }
            if *b {
                out.append("true");
            } else {
                out.append("false");
            }
        },
        TomlValue::Datetime(d) => {
            let text = render_datetime(d);
            out.append(quote(text.as_str()).as_str());
        },
        TomlValue::Array(items) => {
            let ghost trees = value@->Array_0;
            let ghost inner = (budget - 1) as nat;
            proof {
                assert(trees.len() == items.len());
                assert forall|k: int| 0 <= k < items.len() implies trees[k] == items[k]@ by {}
                lemma_no_defects(trees, inner, 0);
                reveal_strlit("[");
                reveal_strlit("]");
                reveal_strlit(",");
                assert("["@ =~= seq!['[']);
                assert("]"@ =~= seq![']']);
                assert(","@ =~= seq![',']);
            }
            out.append("[");
            let mut i: usize = 0;
            while i < items.len()
                invariant
                    i <= items.len(),
                    *value == TomlValue::Array(*items),
                    value@ == Tree::Array(trees),
                    trees.len() == items.len(),
                    forall|k: int| 0 <= k < items.len() ==> trees[k] == items[k]@,
                    forall|k: int| 0 <= k < trees.len() ==> (#[trigger] trees[k]).defect(inner) is None,
                    out@ == start + seq!['['] + joined(element_texts(trees), i as int),
                    ","@ == seq![','],
                decreases items.len() - i,
            {
                if i > 0 {
                    out.append(",");
                }
                assert(trees[i as int].defect(inner) is None);
                write(&items[i], out, Ghost(inner));
                assert(out@ == start + seq!['['] + joined(element_texts(trees), i + 1)) by {
                    assert(element_texts(trees)[i as int] == json_text(trees[i as int]));
                    assert(out@ =~= start + seq!['['] + joined(element_texts(trees), i + 1));
                }
                i = i + 1;
            }
            out.append("]");
            assert(out@ =~= start + json_text(value@));
        },
        TomlValue::Table(entries) => {
            let ghost keys = value@->Table_0;
            let ghost trees = value@->Table_1;
            let ghost inner = (budget - 1) as nat;
            proof {
                assert(trees.len() == entries.len());
                assert(keys.len() == entries.len());
                assert forall|k: int| 0 <= k < entries.len() implies trees[k] == entries[k].1@ by {}
                assert forall|k: int| 0 <= k < entries.len() implies keys[k] == entries[k].0@ by {}
                lemma_no_defects(trees, inner, 0);
                reveal_strlit("{");
                reveal_strlit("}");
                reveal_strlit(",");
                reveal_strlit(":");
                assert("{"@ =~= seq!['{']);
                assert("}"@ =~= seq!['}']);
                assert(","@ =~= seq![',']);
                assert(":"@ =~= seq![':']);
            }
            out.append("{");
            let mut i: usize = 0;
            while i < entries.len()
                invariant
                    i <= entries.len(),
                    *value == TomlValue::Table(*entries),
                    value@ == Tree::Table(keys, trees),
                    trees.len() == entries.len(),
                    keys.len() == entries.len(),
                    forall|k: int| 0 <= k < entries.len() ==> trees[k] == entries[k].1@,
                    forall|k: int| 0 <= k < entries.len() ==> keys[k] == entries[k].0@,
                    forall|k: int| 0 <= k < trees.len() ==> (#[trigger] trees[k]).defect(inner) is None,
                    out@ == start + seq!['{'] + joined(member_texts(keys, trees), i as int),
                    ","@ == seq![','],
                    ":"@ == seq![':'],
                decreases entries.len() - i,
            {
                let ghost before = out@;
                if i > 0 {
                    out.append(",");
                }
                out.append(quote(entries[i].0.as_str()).as_str());
                out.append(":");
                assert(trees[i as int].defect(inner) is None);
                write(&entries[i].1, out, Ghost(inner));
                assert(out@ == start + seq!['{'] + joined(member_texts(keys, trees), i + 1)) by {
                    let member = member_texts(keys, trees)[i as int];
                    assert(member == quoted(keys[i as int]) + seq![':'] + json_text(trees[i as int]));
                    if i > 0 {
                        assert(out@ =~= before + seq![','] + member);
                    } else {
                        assert(out@ =~= before + member);
                    }
                    assert(out@ =~= start + seq!['{'] + joined(member_texts(keys, trees), i + 1));
                }
                i = i + 1;
            }
            out.append("}");
            assert(out@ =~= start + json_text(value@));
        },
    }
}

/// The JSON text of a document.
pub(crate) fn write_document(value: &TomlValue) -> (text: String)
    requires
        value@.well_formed(),
    ensures
        text@ == json_text(value@),
{
    let mut out = String::new();
    write(value, &mut out, Ghost(MAX_DEPTH as nat));
    assert(out@ =~= json_text(value@));
    out
}

/// Writes `value` as JSON text.
///
/// The result is the text of the tree, [`json_text`], unless the tree has a
/// defect; then it is the first defect, and nothing is written. A reader
/// of JSON takes the text for the [`image`] of the tree: each value with
/// the type it had, and the items of arrays and tables in their order.
///
/// The value is searched for a defect first, see
/// [`TomlValue::find_defect`].
pub fn encode(value: &TomlValue) -> (r: Result<String, EncodeError>)
    ensures
        match value@.defect(MAX_DEPTH as nat) {
            Some(d) => r == Err::<String, EncodeError>(EncodeError { defect: d }),
            None => r matches Ok(text) && text@ == json_text(value@),
        },
        r matches Ok(text) ==> read_json(text@) == Some(image(value@)),
{
    proof {
        if value@.defect(MAX_DEPTH as nat) is None {
            lemma_read_back(value@, MAX_DEPTH as nat);
        }
    }
    match value.find_defect() {
        Some(defect) => Err(EncodeError { defect }),
        None => Ok(write_document(value)),
    }
}

} // verus!
