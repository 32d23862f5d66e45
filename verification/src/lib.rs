//! A tree-walking interpreter for a small, dynamically typed scripting
//! language with variables, control flow, functions that close over their
//! scope, and classes.
//!
//! A program passes through four stages: the [`lexer`] makes tokens of the
//! source text, the [`parser`] makes statements of the tokens, the
//! [`resolver`] finds for each reference to a variable the scope that declares
//! it, and the [`interpreter`] runs the statements. Each stage reports all the
//! errors that it finds; a program with an error in one stage is not handed to
//! the next.
//!
//! The interpreter is a machine that takes one step at a time. Numbers are
//! 32-bit floats, which it holds as bit patterns and never computes on: each
//! step returns an [`interpreter::Action`] that says what the host is to do
//! (print a line, add two numbers, read a number from a text), and the host
//! answers with the [`interpreter::Event`] of the next step.

pub mod ast_printer;
pub mod common;
pub mod environment;
pub mod expr;
pub mod grammar;
pub mod interpreter;
pub mod lexer;
pub mod names;
pub mod native_functions;
pub mod number;
pub mod parser;
pub mod resolver;
pub mod semantics;
pub mod stmt;
pub mod text;
