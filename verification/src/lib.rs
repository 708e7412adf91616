//! A verified parser for JECS, an indentation-structured text format: two
//! spaces per level, `key:` mappings, `-` list entries, inline values,
//! `#` comments and triple-quote multi-line string blocks. The parser turns
//! a byte buffer or text into a typed tree and offers typed coercions on it;
//! every function's behaviour is stated in its contract and proved.

pub mod errors;
pub mod text;
pub mod types;
pub mod scanner;
pub mod builder;
pub mod parser;
pub mod laws;
