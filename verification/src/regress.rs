//! The integer decisions of the per-rest regression `E ~ sqrt(step_t)`:
//! when a rest has too few usable points to fit, and how many points at
//! each end its edge diagnostics look at. The fit itself is floating point
//! and stands outside this library.

use vstd::prelude::*;

verus! {

/// The fewest usable points a rest is fitted with.
pub const MIN_FIT_POINTS: usize = 3;

/// Every rest that could not be fitted: its group, its rest id and why.
#[derive(Debug, Clone)]
pub struct RegressionLog {
    pub failed_rests: Vec<(u32, u32, String)>,
}

impl Default for RegressionLog {
    /// No failed rest.
    fn default() -> (l: RegressionLog)
        ensures
            l.failed_rests@.len() == 0,
    {
        RegressionLog { failed_rests: Vec::new() }
    }
}

/// Why a rest window could not be fitted.
#[derive(Debug, Clone, Copy, PartialEq, Eq, Structural)]
pub enum RestFitError {
    /// Fewer than three usable points; holds their number.
    TooFewPoints { n: usize },
    /// The window's abscissae do not vary.
    Degenerate,
}

/// A rest window with `n` usable points can be fitted when there are at
/// least three; otherwise the error names how many there were.
pub fn check_fit_points(n: usize) -> (r: Result<(), RestFitError>)
    ensures
        n >= MIN_FIT_POINTS ==> r is Ok,
        n < MIN_FIT_POINTS ==> r == Err::<(), RestFitError>(RestFitError::TooFewPoints { n }),
{
    if n < MIN_FIT_POINTS {
        Err(RestFitError::TooFewPoints { n })
    } else {
        Ok(())
    }
}

/// How many residuals at each end of a fit of `n` points the edge
/// diagnostics look at: `edge_points`, at most half the points.
pub fn edge_count(edge_points: usize, n: usize) -> (c: usize)
    ensures
        c == (if edge_points <= n / 2 {
            edge_points
        } else {
            n / 2
        }),
        2 * c <= n,
{
    if edge_points <= n / 2 {
        edge_points
    } else {
        n / 2
    }
}

} // verus!
