//! An interpreter for an eight-instruction tape language.
//!
//! A program is text made of the characters `> < + - . , [ ]` and whitespace.
//! [`lexer`] turns the text into tokens, [`brackets`] pairs every loop opening
//! with its closing, and [`interpreter`] executes the tokens on a tape of byte
//! cells, one instruction at a time.

pub mod brackets;
pub mod interpreter;
pub mod lexer;
pub mod token;
