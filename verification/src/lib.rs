//! A small JSON-like codec: text is parsed into a tree of values and a tree is
//! flattened back into text. Both directions walk the tree with an explicit
//! stack of frames, so nesting depth is limited by the heap and never by the
//! call stack.
//!
//! `grammar` says which texts are accepted and what tree each stands for,
//! `rendering` says what text a tree is written as; `parse` and `generate`
//! are proved to compute exactly these. `roundtrip` shows that a parsed tree,
//! written and parsed again, comes out unchanged.
//!
//! The format is narrower than JSON. Strings and keys are taken and written
//! as they stand, so there are no escape sequences and no text can hold a
//! `"`. A number is a decimal literal without sign or exponent; it is kept
//! as its text. Of all containers only the root may be empty. What follows an
//! empty root must be whitespace; what follows any other root is not read.

pub mod error;
pub mod generator;
pub mod grammar;
pub mod parser;
pub mod rendering;
pub mod roundtrip;
pub mod scanner;
pub mod std_specs;
pub mod text;
pub mod trailing;
pub mod value;

pub use error::ParseError;
pub use generator::generate;
pub use parser::parse;
pub use value::{JsonNumber, JsonObject, JsonValue};
