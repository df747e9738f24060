//! Conversion of TOML documents into JSON text.
//!
//! A document is read by the `toml` crate, brought into the library's own
//! [`TomlValue`] tree, and written out as compact JSON: [`parse`], then
//! [`encode`], together [`convert`]. Every function here is verified; what
//! is taken on trust from `toml` and `serde_json` is marked as such where it
//! is declared.
//!
//! - [`value`]: the tree of a document, its model and its defects
//! - [`datetime`]: dates and times, their validity and their text
//! - [`number`]: the number grammar of JSON
//! - [`document`]: reading TOML
//! - [`json`]: writing JSON
//! - [`convert`]: the two together
//! - [`reader`], [`roundtrip`], [`laws`]: what a reader of JSON makes of the
//!   text that is written, and what holds of every conversion

pub mod convert;
pub mod datetime;
pub mod document;
pub mod json;
pub mod laws;
pub mod number;
pub mod reader;
pub mod roundtrip;
pub mod value;

pub use convert::{convert, finish, parse_toml, ConversionError};
pub use datetime::{Date, Datetime, Offset, Time};
pub use document::{parse, ParseError};
pub use json::{encode, EncodeError};
pub use number::render_float;
pub use value::{Defect, TomlValue, Tree, MAX_DEPTH};
