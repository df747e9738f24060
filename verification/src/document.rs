//! Reading a TOML document into a [`TomlValue`].
//!
//! The grammar is the `toml` crate's. What it hands back is walked here,
//! node by node, and brought into the library's own tree; on the way the
//! nesting is bounded and every date and time is checked.

use vstd::prelude::*;
use vstd::string::*;
use crate::datetime::{Date, Datetime, Offset, Time};
use crate::value::{Defect, TomlValue, Tree, first_defect, lemma_without_defect, MAX_DEPTH};

verus! {

/// A node of a document as the `toml` crate holds it.
#[verifier::external_type_specification]
#[verifier::external_body]
pub struct ExNode(toml::Value);

/// The error with which the `toml` crate rejects a text.
#[verifier::external_type_specification]
#[verifier::external_body]
pub struct ExRejection(toml::de::Error);

/// What the `toml` crate makes of a text: the tree of the document, or
/// nothing where it rejects the text.
pub uninterp spec fn toml_document(text: Seq<char>) -> Option<Tree>;

/// The tree that a `toml::Value` holds: its variant and what the variant
/// carries, a float as the decimal text that `serde_json` writes for it, a
/// table as its keys and values in the order in which it hands them out.
pub uninterp spec fn toml_tree(node: toml::Value) -> Tree;

/// `toml::from_str` at the type `toml::Table`, the table handed back as a
/// `toml::Value`: accepted or rejected by the text alone, and what is
/// accepted is a table.
#[verifier::external_body]
fn read_document(text: &str) -> (r: Result<toml::Value, toml::de::Error>)
    ensures
        r is Ok <==> toml_document(text@) is Some,
        r matches Ok(node) ==> toml_document(text@) == Some(toml_tree(node)) && toml_tree(
            node,
        ) is Table,
{
    toml::from_str::<toml::Table>(text).map(toml::Value::Table)
}

/// `to_string` of `toml::de::Error`: the message, with line and column.
#[verifier::external_body]
fn rejection_text(rejection: &toml::de::Error) -> String {
    rejection.to_string()
}

/// `span` of `toml::de::Error`: the bytes of the text that the error is
/// about, where the crate knows them.
#[verifier::external_body]
fn rejection_span(rejection: &toml::de::Error) -> Option<(usize, usize)> {
    rejection.span().map(|range| (range.start, range.end))
}

/// `toml::Value::as_str`: the string of a string node, `None` of any other.
pub assume_specification<'a>[ toml::Value::as_str ](node: &'a toml::Value) -> (r: Option<&'a str>)
    ensures
        r is Some <==> toml_tree(*node) is String,
        r matches Some(s) ==> toml_tree(*node) == Tree::String(s@),
;

/// `toml::Value::as_integer`: the integer of an integer node, `None` of any
/// other.
pub assume_specification[ toml::Value::as_integer ](node: &toml::Value) -> (r: Option<i64>)
    ensures
        r is Some <==> toml_tree(*node) is Integer,
        r matches Some(i) ==> toml_tree(*node) == Tree::Integer(i),
;

/// `toml::Value::as_bool`: the truth value of a boolean node, `None` of any
/// other.
pub assume_specification[ toml::Value::as_bool ](node: &toml::Value) -> (r: Option<bool>)
    ensures
        r is Some <==> toml_tree(*node) is Boolean,
        r matches Some(b) ==> toml_tree(*node) == Tree::Boolean(b),
;

/// `toml::Value::as_array`: the items of an array node, `None` of any other.
pub assume_specification<'a>[ toml::Value::as_array ](node: &'a toml::Value) -> (r: Option<
    &'a Vec<toml::Value>,
>)
    ensures
        r is Some <==> toml_tree(*node) is Array,
        r matches Some(items) ==> toml_tree(*node) == Tree::Array(
            Seq::new(items.len() as nat, |i: int| toml_tree(items[i])),
        ),
;

/// `serde_json::to_string` on the number of a float node, `None` of any
/// other node. Writing a float into memory cannot fail.
#[verifier::external_body]
fn float_of(node: &toml::Value) -> (r: Option<String>)
    ensures
        r is Some <==> toml_tree(*node) is Float,
        r matches Some(text) ==> toml_tree(*node) == Tree::Float(text@),
{
    node.as_float().map(|x| serde_json::to_string(&x).unwrap_or_default())
}

/// `toml::Value::as_datetime`, field by field, `None` of a node that is no
/// datetime.
#[verifier::external_body]
fn datetime_of(node: &toml::Value) -> (r: Option<Datetime>)
    ensures
        r is Some <==> toml_tree(*node) is Datetime,
        r matches Some(d) ==> toml_tree(*node) == Tree::Datetime(d),
{
    node.as_datetime().map(|d| Datetime {
        date: d.date.map(|x| Date { year: x.year, month: x.month, day: x.day }),
        time: d.time.map(|x| Time {
            hour: x.hour, minute: x.minute, second: x.second, nanosecond: x.nanosecond,
        }),
        offset: d.offset.map(|x| match x {
            toml::value::Offset::Z => Offset::Z,
            toml::value::Offset::Custom { minutes } => Offset::Custom { minutes },
        }),
    })
}

/// `toml::Value::as_table` and the table's `iter`: the keys, each with its
/// node, in the table's order, `None` of a node that is no table. The
/// crate is built to keep the order of the text. The table is a map, so no
/// key comes twice.
#[verifier::external_body]
fn entries_of<'a>(node: &'a toml::Value) -> (r: Option<Vec<(String, &'a toml::Value)>>)
    ensures
        r is Some <==> toml_tree(*node) is Table,
        r matches Some(entries) ==> toml_tree(*node) == Tree::Table(
            Seq::new(entries.len() as nat, |i: int| entries[i].0@),
            Seq::new(entries.len() as nat, |i: int| toml_tree(*entries[i].1)),
        ) && forall|i: int, j: int|
            0 <= i < j < entries.len() ==> entries[i].0@ != entries[j].0@,
{
    node.as_table().map(|table| table.iter().map(|(key, child)| (key.clone(), child)).collect())
}

/// Why a text is no document.
#[derive(Debug, PartialEq, Eq)]
pub enum ParseError {
    /// The text does not follow the grammar. The message names the place
    /// by line and column; `span` gives the bytes it is about, where they
    /// are known.
    Syntax { message: String, span: Option<(usize, usize)> },
    /// The text follows the grammar, but what it describes has a defect.
    Malformed(Defect),
}

/// Brings the node into the library's tree, unless what it holds has a
/// defect within `budget` levels of nesting.
fn adopt(node: &toml::Value, budget: usize) -> (r: Result<TomlValue, Defect>)
    ensures
        match toml_tree(*node).defect(budget as nat) {
            Some(d) => r == Err::<TomlValue, Defect>(d),
            None => r matches Ok(v) && v@ == toml_tree(*node),
        },
    decreases toml_tree(*node),
{
    let ghost tree = toml_tree(*node);
    if let Some(s) = node.as_str() {
        return Ok(TomlValue::String(s.to_owned()));
    }
    if let Some(i) = node.as_integer() {
        return Ok(TomlValue::Integer(i));
    }
    if let Some(b) = node.as_bool() {
        return Ok(TomlValue::Boolean(b));
    }
    if let Some(text) = float_of(node) {
        return Ok(TomlValue::Float(text));
    }
    if let Some(d) = datetime_of(node) {
        if !d.is_valid() {
            return Err(Defect::InvalidDatetime);
        }
        return Ok(TomlValue::Datetime(d));
    }
    if budget == 0 {
        return Err(Defect::TooDeep);
    }
    if let Some(items) = node.as_array() {
        let ghost trees = tree->Array_0;
        let mut out: Vec<TomlValue> = Vec::new();
        let mut i: usize = 0;
        while i < items.len()
            invariant
                i <= items.len(),
                budget > 0,
                tree == toml_tree(*node),
                tree == Tree::Array(trees),
                trees.len() == items.len(),
                forall|k: int| 0 <= k < items.len() ==> trees[k] == toml_tree(items[k]),
                out.len() == i,
                forall|k: int| 0 <= k < i ==> out[k]@ == trees[k],
                first_defect(trees, (budget - 1) as nat, 0) == first_defect(
                    trees,
                    (budget - 1) as nat,
                    i as int,
                ),
            decreases items.len() - i,
        {
            match adopt(&items[i], budget - 1) {
                Err(d) => {
                    return Err(d);
                },
                Ok(v) => {
                    out.push(v);
                },
            }
            i = i + 1;
        }
        let v = TomlValue::Array(out);
        assert(v@->Array_0 =~= trees);
        return Ok(v);
    }
    match entries_of(node) {
        None => vstd::pervasive::unreached(),
        Some(entries) => {
            let ghost keys = tree->Table_0;
            let ghost trees = tree->Table_1;
            assert(keys.no_duplicates());
            let mut out: Vec<(String, TomlValue)> = Vec::new();
            let mut i: usize = 0;
            while i < entries.len()
                invariant
                    i <= entries.len(),
                    budget > 0,
                    tree == toml_tree(*node),
                    tree == Tree::Table(keys, trees),
                    trees.len() == entries.len(),
                    keys.len() == entries.len(),
                    keys.no_duplicates(),
                    forall|k: int| 0 <= k < entries.len() ==> trees[k] == toml_tree(*entries[k].1),
                    forall|k: int| 0 <= k < entries.len() ==> keys[k] == entries[k].0@,
                    out.len() == i,
                    forall|k: int| 0 <= k < i ==> out[k].1@ == trees[k],
                    forall|k: int| 0 <= k < i ==> out[k].0@ == keys[k],
                    first_defect(trees, (budget - 1) as nat, 0) == first_defect(
                        trees,
                        (budget - 1) as nat,
                        i as int,
                    ),
                decreases entries.len() - i,
            {
                match adopt(entries[i].1, budget - 1) {
                    Err(d) => {
                        return Err(d);
                    },
                    Ok(v) => {
                        out.push((entries[i].0.clone(), v));
                    },
                }
                i = i + 1;
            }
            let v = TomlValue::Table(out);
            assert(v@->Table_0 =~= keys);
            assert(v@->Table_1 =~= trees);
            Ok(v)
        },
    }
}

/// Reads a TOML document.
///
/// A text that the grammar rejects gives [`ParseError::Syntax`]. A text
/// that it accepts gives the tree of the document, unless the tree has a
/// defect (it is nested too deep, in the first place); then the first
/// defect is the error. What is handed back is always a table, no deeper
/// than [`MAX_DEPTH`], and none of its tables holds a key twice.
///
/// The bound on the nesting is applied to what the `toml` crate hands
/// back. The crate itself stops at 80 levels of arrays and inline tables.
pub fn parse(text: &str) -> (r: Result<TomlValue, ParseError>)
    ensures
        match toml_document(text@) {
            None => r matches Err(ParseError::Syntax { .. }),
            Some(doc) => match doc.defect(MAX_DEPTH as nat) {
                Some(d) => r == Err::<TomlValue, ParseError>(ParseError::Malformed(d)),
                None => r matches Ok(v) && v@ == doc,
            },
        },
        r matches Ok(v) ==> {
            &&& v@ is Table
            &&& v@.well_formed()
            &&& v@.depth() <= MAX_DEPTH
            &&& v@.keys_distinct()
            &&& v@.datetimes_valid()
        },
        toml_document(text@) matches Some(doc) ==> (doc.depth() > MAX_DEPTH ==> r is Err),
{
    proof {
        if let Some(doc) = toml_document(text@) {
            if doc.defect(MAX_DEPTH as nat) is None {
                lemma_without_defect(doc, MAX_DEPTH as nat);
            }
        }
    }
    match read_document(text) {
        Err(rejection) => Err(
            ParseError::Syntax {
                message: rejection_text(&rejection),
                span: rejection_span(&rejection),
            },
        ),
        Ok(node) => match adopt(&node, MAX_DEPTH) {
            Ok(v) => Ok(v),
            Err(d) => Err(ParseError::Malformed(d)),
        },
    }
}

} // verus!
