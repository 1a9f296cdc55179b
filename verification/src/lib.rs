//! A verified parsing pipeline for a sysctl-style configuration language.
//!
//! Raw bytes are decoded into Unicode scalar values with source positions
//! (`char_reader`), grouped into tokens (`lexer`), parsed into `(Path, value)`
//! statements (`parser`), and finally folded into a nested key/value tree with
//! optional schema enforcement (`node`).

pub mod char_reader;
pub mod lexer;
pub mod node;
pub mod parser;
pub mod path;
pub mod text;
pub mod token;
pub mod value;
