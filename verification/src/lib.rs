//! A JSON document kept as the flat sequence of its tokens.
//!
//! Text is cut into tokens by [`lexer::lex`]. A [`json::Json`] owns the
//! sequence, answers key-path queries on it, splices new entries into it and
//! writes it back as compact or indented text ([`serialize`]). No tree is
//! ever built. A [`builder::JsonBuilder`] makes a document without text.
//!
//! Every function states what it computes over the views of [`token`] and
//! [`value`]. What holds of several functions together stands in
//! [`round_trip`] (text to tokens and back), in [`laws`] (values and
//! insertions) and in [`shape`] (what the tokens of a document look like).

pub mod builder;
pub mod error;
pub mod json;
pub mod laws;
pub mod lexer;
pub mod number;
pub mod round_trip;
pub mod serialize;
pub mod shape;
pub mod text;
pub mod token;
pub mod value;
