//! A small concatenative language.
//!
//! Source text is compiled to a compact bytecode, which a stack machine runs
//! against a byte memory and a dictionary of user-defined words.
//!
//! - [`bytecode`]: the three instructions and their layout in bytes, the
//!   builder that writes them, the parser that reads them, the printer.
//! - [`compiler`]: the scanner that cuts source text into tokens, and the
//!   compiler that writes the tokens out as bytecode.
//! - [`memory`]: the machine's bytes and its dictionary.
//! - [`machine`]: the values on the stack, the primitives, the evaluator.
//! - [`roundtrip`]: the proof that the printer's text compiles back to the
//!   program it was printed from.
//! - [`decimal`] and [`text`]: numerals and strings.
//!
//! Every function states what it computes over sequences, maps and integers,
//! and is proved to compute that. One function is taken on trust: the one in
//! [`text`] that appends a character to a string.
//!
//! Nothing here reads or writes files or the terminal. What a program prints
//! is collected by the machine and handed out by [`machine::Vm::take_output`].

pub mod text;
pub mod decimal;
pub mod bytecode;
pub mod compiler;
pub mod memory;
pub mod machine;
pub mod roundtrip;
