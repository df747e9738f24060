//! From TOML text to JSON text.

use vstd::prelude::*;
use vstd::string::*;
use crate::document::{parse, toml_document, ParseError};
use crate::json::{encode, json_text, write_document, EncodeError};
use crate::reader::read_json;
use crate::roundtrip::{image, lemma_read_back};
use crate::value::{Defect, TomlValue, MAX_DEPTH};

verus! {

/// Why a conversion failed: at reading or at writing.
#[derive(Debug, PartialEq, Eq)]
pub enum ConversionError {
    /// The text is no document.
    Parse(ParseError),
    /// The value cannot be written as JSON.
    Encode(EncodeError),
}

/// The words for a defect.
pub open spec fn defect_text(defect: Defect) -> Seq<char> {
    match defect {
        Defect::TooDeep => "arrays and tables are nested more than 127 levels deep"@,
        Defect::DuplicateKey => "a table holds the same key twice"@,
        Defect::InvalidDatetime => "a date or time is out of range or incomplete"@,
    }
}

impl Defect {
    /// The defect in words.
    pub fn message(&self) -> (r: String)
        ensures
            r@ == defect_text(*self),
    {
        match self {
            Defect::TooDeep => "arrays and tables are nested more than 127 levels deep".to_owned(),
            Defect::DuplicateKey => "a table holds the same key twice".to_owned(),
            Defect::InvalidDatetime => "a date or time is out of range or incomplete".to_owned(),
        }
    }
}

impl ParseError {
    /// The words of the error: the grammar's own message, or the defect.
    pub open spec fn text(self) -> Seq<char> {
        match self {
            ParseError::Syntax { message, .. } => message@,
            ParseError::Malformed(defect) => defect_text(defect),
        }
    }

    /// The error in words.
    pub fn message(&self) -> (r: String)
        ensures
            r@ == self.text(),
    {
        match self {
            ParseError::Syntax { message, .. } => message.clone(),
            ParseError::Malformed(defect) => defect.message(),
        }
    }
}

impl EncodeError {
    /// The error in words.
    pub fn message(&self) -> (r: String)
        ensures
            r@ == defect_text(self.defect),
    {
        self.defect.message()
    }
}

impl ConversionError {
    /// The words of the error.
    pub open spec fn text(self) -> Seq<char> {
        match self {
            ConversionError::Parse(e) => e.text(),
            ConversionError::Encode(e) => defect_text(e.defect),
        }
    }

    /// The error in words.
    pub fn message(&self) -> (r: String)
        ensures
            r@ == self.text(),
    {
        match self {
            ConversionError::Parse(e) => e.message(),
            ConversionError::Encode(e) => e.message(),
        }
    }
}

/// The second half of a conversion: writes what was read, or hands the
/// reader's error on.
pub fn finish(parsed: Result<TomlValue, ParseError>) -> (r: Result<String, ConversionError>)
    ensures
        match parsed {
            Err(e) => r == Err::<String, ConversionError>(ConversionError::Parse(e)),
            Ok(v) => match v@.defect(MAX_DEPTH as nat) {
                Some(d) => r == Err::<String, ConversionError>(
                    ConversionError::Encode(EncodeError { defect: d }),
                ),
                None => r matches Ok(text) && text@ == json_text(v@),
            },
        },
{
    match parsed {
        Err(e) => Err(ConversionError::Parse(e)),
        Ok(v) => match encode(&v) {
            Ok(text) => Ok(text),
            Err(e) => Err(ConversionError::Encode(e)),
        },
    }
}

/// What a text is converted to: the JSON text of its document, where the
/// text is a document without a defect.
pub open spec fn conversion(text: Seq<char>) -> Option<Seq<char>> {
    match toml_document(text) {
        Some(doc) if doc.well_formed() => Some(json_text(doc)),
        _ => None,
    }
}

/// `r` is what the conversion of `text` may hand back: the JSON text that
/// the text is converted to, or an error of reading.
pub open spec fn converts(text: Seq<char>, r: Result<String, ConversionError>) -> bool {
    match conversion(text) {
        Some(json) => r matches Ok(out) && out@ == json,
        None => r matches Err(ConversionError::Parse(_)),
    }
}

/// Converts a TOML document into compact JSON.
///
/// The result depends on the text alone. A text that is a document without
/// a defect gives its JSON text; any other fails at reading, so the error
/// is never one of writing. What was read has no defect, so it is written
/// without a second search for one.
pub fn convert(text: &str) -> (r: Result<String, ConversionError>)
    ensures
        converts(text@, r),
        r matches Ok(out) ==> read_json(out@) == Some(image(toml_document(text@).unwrap())),
        match toml_document(text@) {
            None => r matches Err(ConversionError::Parse(ParseError::Syntax { .. })),
            Some(doc) => doc.defect(MAX_DEPTH as nat) matches Some(d) ==> r == Err::<
                String,
                ConversionError,
            >(ConversionError::Parse(ParseError::Malformed(d))),
        },
{
    proof {
        if let Some(doc) = toml_document(text@) {
            if doc.well_formed() {
                lemma_read_back(doc, MAX_DEPTH as nat);
            }
        }
    }
    match parse(text) {
        Err(e) => Err(ConversionError::Parse(e)),
        Ok(v) => Ok(write_document(&v)),
    }
}

/// The words that stand before the message of a text that is no document.
pub open spec fn parse_failure_prefix() -> Seq<char> {
    "Error parsing TOML: "@
}

/// Converts a TOML document into compact JSON, with the error as a
/// message. The message of a text that is no document begins with
/// `Error parsing TOML: `.
pub fn parse_toml(toml_str: &str) -> (r: Result<String, String>)
    ensures
        match conversion(toml_str@) {
            Some(json) => r matches Ok(out) && out@ == json,
            None => r matches Err(message) && parse_failure_prefix().is_prefix_of(message@),
        },
        toml_document(toml_str@) matches Some(doc) ==> (doc.defect(MAX_DEPTH as nat) matches Some(d)
            ==> r matches Err(message) && message@ == parse_failure_prefix() + defect_text(d)),
{
    match convert(toml_str) {
        Ok(json) => Ok(json),
        Err(ConversionError::Parse(e)) => {
            let mut message = "Error parsing TOML: ".to_owned();
            message.append(e.message().as_str());
            assert(message@ =~= parse_failure_prefix() + e.text());
            Err(message)
        },
        Err(ConversionError::Encode(e)) => Err(e.message()),
    }
}

} // verus!
