//! A parser from regular-expression patterns to syntax trees, with a
//! machine-checked model of the scan that produces them.
use vstd::prelude::*;

pub mod ast;
pub mod laws;
pub mod messages;
pub mod parser;
pub mod semantics;

pub use ast::{ParserError, Tree, AST};
pub use parser::parse;

verus! {

/// Returns a fixed sample value.
pub fn my_func() -> (r: Option<i32>)
    ensures
        r == Some(42i32),
{
    Some(42)
}

} // verus!
