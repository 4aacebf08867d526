//! The reading and evaluation core of a small Lisp-family interpreter: a
//! tokenizer and recursive-descent reader from source text to symbolic
//! expressions, an evaluator over a symbol environment with builtin
//! arithmetic, and a canonical printer.

pub mod atom;
pub mod env;
pub mod eval;
pub mod reader;
