//! A small interpreted language: source text is scanned into tokens, tokens
//! are parsed into a sequence of commands, and the commands are evaluated
//! against a mutable variable store, producing a sequence of output lines.

pub mod tokens;
pub mod commands;
pub mod errors;
pub mod interpreter;
pub mod laws;
pub mod lexer;
pub mod parser;
pub mod render;
pub mod state;
