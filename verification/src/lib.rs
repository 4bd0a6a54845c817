//! A minimal logic-programming interpreter: Horn clauses, Robinson-style
//! unification, clause instantiation with fresh variables, and SLD resolution
//! over a breadth-first frontier.

pub mod app;
pub mod expr;
pub mod parser;
pub mod unifier;
pub mod util;

use vstd::prelude::*;

verus! {

} // verus!
