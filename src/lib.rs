//! A recursive-descent JSON parser whose results are proved to follow a
//! declarative description of the grammar.
use vstd::prelude::*;

pub mod value;
pub mod grammar;
pub mod parser;
pub mod laws;

verus! {

} // verus!
