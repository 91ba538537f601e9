//! A dynamic JSON parser: a text buffer of rows, a lexer that tracks positions,
//! a recursive-descent parser, the value tree with its printers, paths into the
//! tree, and a structural diff of two trees.
//!
//! - `rawjson`, `lexer`: the text as rows and a cursor over it.
//! - `token`, `grammar`: the token classes and the number and string grammar.
//! - `parser`, `error`: the productions and their positioned errors.
//! - `value`, `print`, `access`, `path`: the tree, its texts, and addressing.
//! - `diff`: lock-step comparison of two trees of one shape.
//! - `roundtrip`, `readback`: why printed text parses back to the same tree.

pub mod rawjson;
pub mod text;
pub mod token;
pub mod error;
pub mod lexer;
pub mod value;
pub mod grammar;
pub mod parser;
pub mod readback;
pub mod print;
pub mod path;
pub mod roundtrip;
pub mod access;
pub mod diff;

pub use access::Ranger;
pub use diff::{diff_value, diff_value_detail};
pub use error::{Expected, ParseError};
pub use parser::parse;
pub use path::{JsonIndexer, JsonPath};
pub use print::Indent;
pub use value::Value;
