//! A small Lisp-syntaxed scripting language: a lexer that turns source text
//! into tokens, a recursive-descent parser that builds expression trees, a
//! tree-walking evaluator over an append-only variable environment, and a
//! canonical source formatter.

pub mod ast;
pub mod fmt;
pub mod interpreter;
pub mod num;
pub mod tokenizer;
pub mod util;

use vstd::prelude::*;

verus! {

} // verus!
