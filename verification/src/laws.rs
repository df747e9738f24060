//! What holds of reading, writing and converting, whatever the input.

use vstd::prelude::*;
use crate::convert::{conversion, converts, ConversionError};
use crate::datetime::{datetime_text, is_datetime_char, lemma_datetime_chars, Datetime};
use crate::document::toml_document;
use crate::json::{escape, escape_all, json_text};
use crate::reader::read_json;
use crate::roundtrip::{image, lemma_read_back};
use crate::value::{lemma_sound_has_no_defect, lemma_without_defect, Tree, MAX_DEPTH};

verus! {

/// Reading back the JSON text of a document gives its image: strings are
/// strings, integers integers, floats floats (or `null`), booleans
/// booleans, arrays are arrays and tables objects, in the same order.
pub proof fn written_text_reads_back(t: Tree)
    requires
        t.well_formed(),
    ensures
        read_json(json_text(t)) == Some(image(t)),
{
    lemma_read_back(t, MAX_DEPTH as nat);
}

/// The text decides what was written, as far as a reader of JSON can
/// tell: two documents with the same text have the same image.
pub proof fn same_text_same_image(a: Tree, b: Tree)
    requires
        a.well_formed(),
        b.well_formed(),
        json_text(a) == json_text(b),
    ensures
        image(a) == image(b),
{
    lemma_read_back(a, MAX_DEPTH as nat);
    lemma_read_back(b, MAX_DEPTH as nat);
}

/// A float is never written as an integer is: whatever its decimal text,
/// it reads back as a float or as `null`, and no integer has its text.
pub proof fn float_is_no_integer(text: Seq<char>, i: i64)
    ensures
        image(Tree::Float(text)) is Float || image(Tree::Float(text)) is Null,
        json_text(Tree::Float(text)) != json_text(Tree::Integer(i)),
{
    lemma_read_back(Tree::Float(text), MAX_DEPTH as nat);
    lemma_read_back(Tree::Integer(i), MAX_DEPTH as nat);
}

/// A document is a document exactly if it is no deeper than
/// [`MAX_DEPTH`], none of its tables holds a key twice, and its dates and
/// times are valid.
pub proof fn well_formed_means_sound(t: Tree)
    ensures
        t.well_formed() <==> t.depth() <= MAX_DEPTH && t.keys_distinct() && t.datetimes_valid(),
{
    if t.well_formed() {
        lemma_without_defect(t, MAX_DEPTH as nat);
    }
    if t.depth() <= MAX_DEPTH && t.keys_distinct() && t.datetimes_valid() {
        lemma_sound_has_no_defect(t, MAX_DEPTH as nat);
    }
}

/// A text whose document is nested deeper than [`MAX_DEPTH`], or holds a
/// key twice in one table, is not converted.
pub proof fn unsound_document_is_not_converted(text: Seq<char>)
    requires
        toml_document(text) matches Some(doc) && (doc.depth() > MAX_DEPTH || !doc.keys_distinct()),
    ensures
        conversion(text) is None,
        forall|r: Result<String, ConversionError>| #[trigger]
            converts(text, r) ==> r matches Err(ConversionError::Parse(_)),
{
    well_formed_means_sound(toml_document(text).unwrap());
}

/// Two conversions of one text end alike: both fail at reading, or both
/// give the same JSON text.
pub proof fn conversion_is_deterministic(
    text: Seq<char>,
    first: Result<String, ConversionError>,
    second: Result<String, ConversionError>,
)
    requires
        converts(text, first),
        converts(text, second),
    ensures
        first is Ok <==> second is Ok,
        first matches Ok(a) ==> second matches Ok(b) && a@ == b@,
        first matches Err(e) ==> e is Parse && (second matches Err(f) && f is Parse),
{
}

/// A text without quotes, backslashes and characters below the space is
/// its own escaped form.
pub proof fn plain_text_needs_no_escape(x: Seq<char>)
    requires
        forall|i: int|
            0 <= i < x.len() ==> (#[trigger] x[i]) != '"' && x[i] != '\\' && (x[i] as u32) >= 0x20,
    ensures
        escape_all(x) == x,
    decreases x.len(),
{
    if x.len() > 0 {
        let rest = x.skip(1);
        assert forall|i: int| 0 <= i < rest.len() implies (#[trigger] rest[i]) != '"' && rest[i]
            != '\\' && (rest[i] as u32) >= 0x20 by {
            assert(rest[i] == x[i + 1]);
        }
        plain_text_needs_no_escape(rest);
        assert(escape(x[0]) == seq![x[0]]);
        assert(seq![x[0]] + rest =~= x);
    }
}

/// A date and time is written as a string that holds its text as it
/// stands, in the form of RFC 3339, with nothing escaped.
pub proof fn datetime_is_written_as_it_stands(d: Datetime)
    ensures
        json_text(Tree::Datetime(d)) == seq!['"'] + datetime_text(d) + seq!['"'],
{
    let text = datetime_text(d);
    lemma_datetime_chars(d);
    assert forall|i: int| 0 <= i < text.len() implies (#[trigger] text[i]) != '"' && text[i]
        != '\\' && (text[i] as u32) >= 0x20 by {
        assert(is_datetime_char(text[i]));
    }
    plain_text_needs_no_escape(text);
}

} // verus!
