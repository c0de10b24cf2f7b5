use ici_core::optimal_window::integer_grid;
use ici_core::derive::{DeriveConfig, NonphysicalReport};
use ici_core::regress::{check_fit_points, edge_count, RegressionLog, RestFitError};
use ici_core::spline::{Direction, DirectionUsed, SplineConfig};

#[test]
fn effective_k_is_clamped_between_m_plus_two_and_n_minus_two() {
    let cfg = SplineConfig { monotonic: false, direction: Direction::Automatic, k: 20, m: 2 };
    assert_eq!(cfg.effective_k(10), 8);
    assert_eq!(cfg.effective_k(100), 20);
    assert_eq!(cfg.effective_k(3), 4);
    assert_eq!(cfg.effective_k(0), 4);
}

#[test]
fn direction_used_follows_the_configuration() {
    let auto = SplineConfig { monotonic: true, direction: Direction::Automatic, k: 10, m: 2 };
    assert!(auto.needs_data_direction());
    assert_eq!(auto.direction_used(true), DirectionUsed::Increasing);
    assert_eq!(auto.direction_used(false), DirectionUsed::Decreasing);
    let forced = SplineConfig { direction: Direction::Decreasing, ..auto };
    assert!(!forced.needs_data_direction());
    assert_eq!(forced.direction_used(true), DirectionUsed::Decreasing);
    let free = SplineConfig { monotonic: false, ..auto };
    assert!(!free.needs_data_direction());
    assert_eq!(free.direction_used(true), DirectionUsed::NotApplicable);
}

#[test]
fn fit_needs_three_points() {
    assert_eq!(check_fit_points(2), Err(RestFitError::TooFewPoints { n: 2 }));
    assert_eq!(check_fit_points(0), Err(RestFitError::TooFewPoints { n: 0 }));
    assert_eq!(check_fit_points(3), Ok(()));
}

#[test]
fn edge_count_is_at_most_half_the_points() {
    assert_eq!(edge_count(3, 10), 3);
    assert_eq!(edge_count(8, 10), 5);
    assert_eq!(edge_count(4, 7), 3);
}

#[test]
fn defaults() {
    assert!(DeriveConfig::default().nonphysical_to_na);
    let report = NonphysicalReport::default();
    assert!(report.r_by_state.is_empty() && report.k_by_state.is_empty());
    assert!(RegressionLog::default().failed_rests.is_empty());
}

#[test]
fn integer_grid_lists_windows_by_start_then_end() {
    assert_eq!(integer_grid(1, 2, 4), vec![(1, 3), (1, 4), (2, 4)]);
    assert!(integer_grid(1, 0, 10).is_empty());
    assert!(integer_grid(5, 3, 6).is_empty());
    assert_eq!(integer_grid(0, 1, 1), vec![(0, 1)]);
}

#[test]
fn candidate_grid_matches_worked_example() {
    let grid = integer_grid(1, 5, 9);
    assert_eq!(grid.len(), 10);
    assert_eq!(grid[0], (1, 6));
    assert_eq!(grid[grid.len() - 1], (4, 9));
    for &(t_min, t_max) in &grid {
        assert!(t_max - t_min >= 5);
        assert!(t_min >= 1);
        assert!(t_max <= 9);
    }
}

#[test]
fn candidate_grid_empty_when_range_too_narrow() {
    assert!(integer_grid(1, 5, 3).is_empty());
}
