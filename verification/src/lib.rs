use vstd::prelude::*;

pub mod coords;
pub mod decimal;
pub mod ir;
pub mod executor;
pub mod parser;
pub mod recorder;
pub mod rng;
pub mod sim;

verus! {

/// The crate's version string, as recorded in its package manifest.
pub fn version() -> (r: &'static str)
    ensures
        r@ == "0.1.0"@,
{
    "0.1.0"
}

} // verus!
