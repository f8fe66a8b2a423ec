//! Front end for an interface-definition language: a parser from source text
//! to a syntax tree, and the decisions of a resolver that gathers the modules
//! that a set of files imports.
use vstd::prelude::*;

pub mod ast;
pub mod compiler;
pub mod lexer;
pub mod parser;
pub mod util;

pub use ast::{Import, Interface, Module, TypeCollection};
pub use parser::parse_module;

verus! {

} // verus!
