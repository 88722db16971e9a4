//! A small JSON text parser with a path-based query navigator and two
//! serializers (compact and pretty-printed).
//!
//! Text is parsed by recursive descent into a [`JsonValue`] tree; the tree is
//! read back either through the query methods (`get`, `index`, `query`) or
//! through the renderers (`to_text`, `pretty_print_json`). Every function is
//! specified against a mathematical model of the grammar and proved to meet
//! that specification.

pub mod grammar;
pub mod matrix;
pub mod parser;
pub mod query;
pub mod render;
pub mod text;
pub mod value;

pub use matrix::transpose;
pub use parser::parse_json;
pub use parser::parse_string;
pub use render::pretty_print_json;
pub use value::ErrorKind;
pub use value::JsonValue;
