//! The candidate windows of the window search: every whole-second window
//! `[t_min, t_max]` at least `l_min` long, starting no earlier than a lower
//! bound and ending no later than the observed rest length. Scoring the
//! windows is floating point and stands outside this library.

use vstd::prelude::*;

verus! {

/// `(t_min, t_max)` is a candidate: `lb <= t_min` and `t_min + l <= t_max <= ft`.
pub open spec fn in_grid(p: (i64, i64), lb: i64, l: i64, ft: i64) -> bool {
    lb <= p.0 && p.0 + l <= p.1 <= ft
}

/// `p` comes before `q`: by start, then by end.
pub open spec fn window_before(p: (i64, i64), q: (i64, i64)) -> bool {
    p.0 < q.0 || (p.0 == q.0 && p.1 < q.1)
}

/// Every candidate window `(t_min, t_max)` with `t_min >= t_min_lb` and
/// `t_min + l_min <= t_max <= floor_t_max`, ordered by start then end; none
/// where `l_min` is not positive.
pub fn integer_grid(t_min_lb: i64, l_min: i64, floor_t_max: i64) -> (grid: Vec<(i64, i64)>)
    requires
        l_min > 0 ==> floor_t_max - l_min >= i64::MIN,
        l_min > 0 && t_min_lb <= floor_t_max - l_min ==> floor_t_max < i64::MAX,
    ensures
        l_min <= 0 ==> grid@.len() == 0,
        l_min > 0 ==> {
            &&& forall|i: int| 0 <= i < grid@.len() ==> in_grid(#[trigger] grid@[i], t_min_lb, l_min, floor_t_max)
            &&& forall|i: int, j: int| 0 <= i < j < grid@.len() ==> window_before(#[trigger] grid@[i], #[trigger] grid@[j])
            &&& forall|a: i64, b: i64| #[trigger] in_grid((a, b), t_min_lb, l_min, floor_t_max) ==> grid@.contains((a, b))
        },
{
    let mut grid: Vec<(i64, i64)> = Vec::new();
    if l_min <= 0 {
        return grid;
    }
    let lb = t_min_lb;
    let l = l_min;
    let ft = floor_t_max;
    let max_t_min = ft - l;
    let mut t_min = lb;
    while t_min <= max_t_min
        invariant
            lb <= max_t_min ==> ft < i64::MAX,
            l > 0,
            max_t_min == ft - l,
            lb <= t_min,
            t_min <= max_t_min + 1 || t_min == lb,
            forall|i: int| 0 <= i < grid@.len() ==> in_grid(#[trigger] grid@[i], lb, l, ft) && grid@[i].0 < t_min,
            forall|i: int, j: int| 0 <= i < j < grid@.len() ==> window_before(#[trigger] grid@[i], #[trigger] grid@[j]),
            forall|a: i64, b: i64| #[trigger] in_grid((a, b), lb, l, ft) && a < t_min ==> grid@.contains((a, b)),
        decreases max_t_min + 1 - t_min,
    {
        let mut t_max = t_min + l;
        while t_max <= ft
            invariant
                ft < i64::MAX,
                l > 0,
                max_t_min == ft - l,
                lb <= t_min <= max_t_min,
                t_min + l <= t_max <= ft + 1,
                forall|i: int| 0 <= i < grid@.len() ==> in_grid(#[trigger] grid@[i], lb, l, ft)
                    && (grid@[i].0 < t_min || (grid@[i].0 == t_min && grid@[i].1 < t_max)),
                forall|i: int, j: int| 0 <= i < j < grid@.len() ==> window_before(#[trigger] grid@[i], #[trigger] grid@[j]),
                forall|a: i64, b: i64| #[trigger] in_grid((a, b), lb, l, ft) && (a < t_min || (a == t_min && b < t_max))
                    ==> grid@.contains((a, b)),
            decreases ft + 1 - t_max,
        {
            let ghost before = grid@;
            grid.push((t_min, t_max));
            proof {
                assert(grid@[before.len() as int] == (t_min, t_max));
                assert forall|a: i64, b: i64| #[trigger] in_grid((a, b), lb, l, ft) && (a < t_min || (a == t_min && b < t_max + 1))
                    implies grid@.contains((a, b)) by {
                    if a == t_min && b == t_max {
                        assert(grid@[before.len() as int] == (a, b));
                    } else {
                        assert(before.contains((a, b)));
                        let k = choose|k: int| 0 <= k < before.len() && before[k] == (a, b);
                        assert(grid@[k] == (a, b));
                    }
                }
            }
            t_max += 1;
        }
        t_min += 1;
    }
    grid
}

} // verus!
