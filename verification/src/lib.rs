//! A tree-walking interpreter for the Lox language: a scanner, a parser by
//! recursive descent, an environment of nested scopes, and an interpreter
//! that runs a program step by step.
//!
//! The library computes on no floating-point number. It holds a number as a
//! bit pattern and asks the host that runs a program for every operation on
//! numbers; the host also writes out what the program prints.

pub mod environment;
pub mod expr;
pub mod foo;
pub mod grammar;
pub mod interpreter;
pub mod lexemes;
pub mod linked_list;
pub mod machine;
pub mod parser;
pub mod precedence;
pub mod printer;
pub mod progress;
pub mod scanner;
pub mod semantics;
pub mod text;
pub mod token;
pub mod value;
