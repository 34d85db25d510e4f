//! Lexical front end for a small scripting language: a single-pass scanner
//! that turns source text into a sequence of typed tokens, with one-character
//! lookahead, line tracking and keyword resolution.

pub mod token;
