//! A small JSON library: a value tree with in-place editing, a compact
//! serializer and a lenient recursive-descent parser, all stated over a
//! mathematical model of the tree and proved against it.

pub mod grammar;
pub mod json;
pub mod laws;
pub mod model;
pub mod numeral;
pub mod parser;
pub mod render;
pub mod scan;

pub use json::Json;
pub use model::Value;
