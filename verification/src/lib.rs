pub mod bytes;
pub mod codec;
pub mod derive;
pub mod grouping;
pub mod mf4;
pub mod optimal_window;
pub mod parse;
pub mod regress;
pub mod segment;
pub mod spline;
pub mod types;

use vstd::prelude::*;

verus! {

/// The library's version string, as its package declares it.
pub fn placeholder_version() -> (v: &'static str)
    ensures
        v@ == "0.1.0"@,
        v@.len() > 0,
{
    let v = "0.1.0";
    proof {
        reveal_strlit("0.1.0");
    }
    v
}

} // verus!
