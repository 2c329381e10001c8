//! Lookup tables with verified multilinear extensions and prefix-suffix decompositions.
use vstd::prelude::*;

pub mod field;
pub mod hypercube;
pub mod lookup_tables;
pub mod utils;

verus! {
} // verus!
