//! A lexical scanner for a small language: it turns raw source text into a
//! flat, ordered sequence of classified tokens, each annotated with the
//! row/column position at which it was recorded, or reports a scanning error.

pub mod lexer;
