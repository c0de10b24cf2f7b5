//! The integer decisions of the penalized B-spline smoother: how many basis
//! functions a fit uses and which monotone direction it is constrained to.
//! The fit itself is floating point and stands outside this library.

use vstd::prelude::*;

verus! {

/// The fewest distinct abscissae a smoother fits; with fewer it reports nothing.
pub const MIN_DISTINCT_X: usize = 8;

/// The direction a monotone fit is asked for.
#[derive(Debug, Clone, Copy, PartialEq, Eq, Structural)]
pub enum Direction {
    /// Decided from the data (the median pairwise slope).
    Automatic,
    Increasing,
    Decreasing,
}

/// Smoother settings: a monotone constraint and its direction, the number
/// of basis functions `k` and the penalty's difference order `m`.
#[derive(Debug, Clone, Copy)]
pub struct SplineConfig {
    pub monotonic: bool,
    pub direction: Direction,
    pub k: usize,
    pub m: usize,
}

/// The direction a fit was actually constrained to.
#[derive(Debug, Clone, Copy, PartialEq, Eq, Structural)]
pub enum DirectionUsed {
    Increasing,
    Decreasing,
    NotApplicable,
}

/// The basis size a fit over `n_distinct` distinct abscissae uses: the
/// configured `k`, at most `n_distinct - 2` (0 below that), and at least `m + 2`.
pub open spec fn spec_effective_k(config: SplineConfig, n_distinct: usize) -> int {
    let cap: int = if n_distinct >= 2 {
        n_distinct - 2
    } else {
        0
    };
    let k: int = if config.k <= cap {
        config.k as int
    } else {
        cap
    };
    if k >= config.m + 2 {
        k
    } else {
        config.m + 2
    }
}

/// The direction a fit is constrained to, given whether the data slope
/// upwards (consulted only for a monotone fit with automatic direction).
pub open spec fn spec_direction_used(config: SplineConfig, data_increasing: bool) -> DirectionUsed {
    if !config.monotonic {
        DirectionUsed::NotApplicable
    } else {
        match config.direction {
            Direction::Increasing => DirectionUsed::Increasing,
            Direction::Decreasing => DirectionUsed::Decreasing,
            Direction::Automatic => if data_increasing {
                DirectionUsed::Increasing
            } else {
                DirectionUsed::Decreasing
            },
        }
    }
}

/// The direction a fit is constrained to: none without a monotone
/// constraint; a forced direction whatever the data do; otherwise the
/// data's own direction. Two fits with one configuration differ in
/// direction only where the direction is decided from the data.
pub proof fn lemma_direction_used(config: SplineConfig, a: bool, b: bool)
    ensures
        !config.monotonic ==> spec_direction_used(config, a) == DirectionUsed::NotApplicable,
        config.monotonic && config.direction == Direction::Increasing ==> spec_direction_used(config, a) == DirectionUsed::Increasing,
        config.monotonic && config.direction == Direction::Decreasing ==> spec_direction_used(config, a) == DirectionUsed::Decreasing,
        config.monotonic && config.direction == Direction::Automatic ==> spec_direction_used(config, a) == (if a {
            DirectionUsed::Increasing
        } else {
            DirectionUsed::Decreasing
        }),
        config.direction != Direction::Automatic ==> spec_direction_used(config, a) == spec_direction_used(config, b),
{
}

impl SplineConfig {
    /// The basis size a fit over `n_distinct` distinct abscissae uses.
    pub fn effective_k(&self, n_distinct: usize) -> (k: usize)
        requires
            self.m + 2 <= usize::MAX,
        ensures
            k == spec_effective_k(*self, n_distinct),
    {
        let cap = n_distinct.saturating_sub(2);
        let k = if self.k <= cap {
            self.k
        } else {
            cap
        };
        if k >= self.m + 2 {
            k
        } else {
            self.m + 2
        }
    }

    /// Whether the direction must be decided from the data: a monotone fit
    /// with automatic direction.
    pub fn needs_data_direction(&self) -> (b: bool)
        ensures
            b == (self.monotonic && self.direction == Direction::Automatic),
    {
        self.monotonic && match self.direction {
            Direction::Automatic => true,
            _ => false,
        }
    }

    /// The direction a fit is constrained to, given whether the data slope
    /// upwards (ignored unless the direction is automatic).
    pub fn direction_used(&self, data_increasing: bool) -> (d: DirectionUsed)
        ensures
            d == spec_direction_used(*self, data_increasing),
    {
        if !self.monotonic {
            DirectionUsed::NotApplicable
        } else {
            match self.direction {
                Direction::Increasing => DirectionUsed::Increasing,
                Direction::Decreasing => DirectionUsed::Decreasing,
                Direction::Automatic => if data_increasing {
                    DirectionUsed::Increasing
                } else {
                    DirectionUsed::Decreasing
                },
            }
        }
    }
}

} // verus!
