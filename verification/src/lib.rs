//! A small JSON library: a value type, a parser and a serializer.
//!
//! A [`Json`] value is null, a boolean, a number (a binary64 double, kept
//! as its bit pattern), a string (bytes), an array or an object with keys in
//! sorted order. [`Json::parse`] reads JSON text, optionally with C-style
//! comments, and [`Json::dump`] writes it; the text of numbers is converted
//! by functions the caller provides.
use vstd::prelude::*;

pub mod access;
pub mod bytes;
pub mod comments;
pub mod compare;
pub mod depth;
pub mod dump;
pub mod grammar;
pub mod laws;
pub mod multi;
pub mod number;
pub mod number_text;
pub mod parser;
pub mod roundtrip;
pub mod sets;
pub mod shape;
pub mod text;
pub mod trailing;
pub mod value;
pub mod whitespace;

pub use access::ToJson;
pub use parser::JsonParser;
pub use value::{Json, JsonObject, JsonParse, JsonValue, Type};

verus! {

} // verus!
