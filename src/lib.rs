//! A small JSON reader: bytes are decoded to characters, characters are
//! split into tokens, and tokens are assembled into a tree of values.
pub mod error;
pub mod value;
pub mod reader;
pub mod token;
pub mod parser;
pub mod render;
