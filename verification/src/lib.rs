//! A tree-walk interpreter for a small dynamically-typed scripting
//! language: a lexer, a recursive-descent parser, and an evaluator over a
//! unified array/map value model, each verified against a mathematical
//! specification of its behaviour. Native functions — I/O, math, strings,
//! JSON — live outside the core, behind the `NativeHost` interface.

pub mod ast;
pub mod interp;
pub mod lexer;
pub mod num;
pub mod parser;
pub mod value;
