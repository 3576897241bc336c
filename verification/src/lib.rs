//! A compiler for a small language of bounded loops.
//!
//! The source language has six statements: `incr`, `decr`, `clear`,
//! `copy`, `while` and `end`. The library turns a source text into one
//! function in static single assignment form:
//!
//! - `lexer` reads tokens from the text, with `chars` and `pattern` for the
//!   classes of characters and words;
//! - `token` holds the tokens and the statements;
//! - `convert` is the code generator, which takes the statements in source
//!   order and threads a value for every variable through blocks, branches
//!   and merge points; `order` proves that it stays in order;
//! - `ir` is the program that it builds, and what it means to run it;
//! - `driver` goes from a text to a program;
//! - `meaning` says what a source program means, `refine` proves that the
//!   generated program does just that, and `laws` states what follows for
//!   statement streams.

pub mod chars;
pub mod convert;
pub mod driver;
pub mod ir;
pub mod laws;
pub mod lexer;
pub mod meaning;
pub mod order;
pub mod pattern;
pub mod refine;
pub mod token;
