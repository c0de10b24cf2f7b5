//! Settings and the report of deriving resistances `R` and `k` from the
//! interruption summary and the rest fits. The derivation itself is
//! floating point and stands outside this library.

use vstd::prelude::*;
use std::collections::HashMap;

verus! {

/// Whether non-finite or negative `R`/`k` (resistances, always physically
/// positive) are replaced by NA along with their errors.
#[derive(Debug, Clone, Copy)]
pub struct DeriveConfig {
    pub nonphysical_to_na: bool,
}

impl Default for DeriveConfig {
    /// Non-physical values are replaced by NA.
    fn default() -> (c: DeriveConfig)
        ensures
            c.nonphysical_to_na,
    {
        DeriveConfig { nonphysical_to_na: true }
    }
}

/// How many non-physical `R` and `k` values were met, by state label.
#[derive(Debug, Clone)]
pub struct NonphysicalReport {
    pub r_by_state: HashMap<&'static str, usize>,
    pub k_by_state: HashMap<&'static str, usize>,
}

impl Default for NonphysicalReport {
    /// No non-physical value met yet.
    fn default() -> (r: NonphysicalReport)
        ensures
            r.r_by_state@ == Map::<&'static str, usize>::empty(),
            r.k_by_state@ == Map::<&'static str, usize>::empty(),
    {
        NonphysicalReport { r_by_state: HashMap::new(), k_by_state: HashMap::new() }
    }
}

} // verus!
