use vstd::prelude::*;

pub mod depth;
pub mod estimator;
pub mod aggregate;
pub mod contig;
pub mod genome;
pub mod coverage_printer;

verus! {

} // verus!
