use swarm_economy::report::{sample_series, ReportConfig};
use swarm_economy::tracker::MetricsTracker;

// Road entropy of raw cell values: the Shannon entropy of the traffic shares,
// zero when there is no traffic at all.

fn compute_road_entropy_from_cells(cells: &[f32]) -> f32 {
    let total: f64 = cells.iter().map(|&v| v as f64).sum();
    if total <= 0.0 {
        return 0.0;
    }
    let mut entropy = 0.0_f64;
    for &val in cells {
        if val > 0.0 {
            let p = val as f64 / total;
            entropy -= p * p.ln();
        }
    }
    entropy as f32
}

#[test]
fn road_entropy_uniform_is_high() {
    // Uniform distribution should have high entropy.
    let cells = vec![1.0; 100];
    let total: f64 = cells.iter().map(|&v| v as f64).sum();
    let mut entropy = 0.0_f64;
    for &val in &cells {
        if val > 0.0 {
            let p = val as f64 / total;
            entropy -= p * p.ln();
        }
    }
    assert!(entropy > 4.0, "uniform entropy should be high, got {entropy}");
}

#[test]
fn road_entropy_concentrated_is_low() {
    // All traffic in one cell.
    let mut cells = vec![0.0; 100];
    cells[0] = 1.0;
    let total: f64 = cells.iter().map(|&v| v as f64).sum();
    let mut entropy = 0.0_f64;
    for &val in &cells {
        if val > 0.0 {
            let p = val as f64 / total;
            entropy -= p * p.ln();
        }
    }
    assert!(
        entropy.abs() < 0.01,
        "concentrated entropy should be ~0, got {entropy}"
    );
}

#[test]
fn road_entropy_empty_is_zero() {
    assert_eq!(compute_road_entropy_from_cells(&[0.0; 50]), 0.0);
}

#[test]
fn tracker_keeps_newest_snapshots() {
    let mut tracker: MetricsTracker<u32> = MetricsTracker::new(3);
    assert!(tracker.latest().is_none());
    for tick in 0..5u32 {
        tracker.record(tick, 2, 1, 0, 1);
    }
    assert_eq!(tracker.snapshots(), &vec![2, 3, 4]);
    assert_eq!(tracker.latest(), Some(&4));
    assert_eq!(tracker.cumulative_trades(), 10);
    assert_eq!(tracker.cumulative_robberies(), 5);
    assert_eq!(tracker.cumulative_bankruptcies(), 0);
    assert_eq!(tracker.cumulative_caravans_formed(), 5);
}

#[test]
fn tracker_with_empty_window_keeps_nothing() {
    let mut tracker: MetricsTracker<u32> = MetricsTracker::new(0);
    tracker.record(7, 1, 0, 0, 0);
    assert!(tracker.snapshots().is_empty());
    assert_eq!(tracker.cumulative_trades(), 1);
}

#[test]
fn report_samples_three_points() {
    let series: Vec<f32> = (0..10).map(|i| i as f32 * 0.5).collect();
    // step = 3: indices 2, 5 and 9.
    assert_eq!(sample_series(&series), vec![1.0, 2.5, 4.5]);
    assert_eq!(sample_series(&[0.1_f32, 0.2]), vec![0.1, 0.2]);
    assert_eq!(sample_series(&[1u32, 2, 3]), vec![1, 2, 3]);
    let config = ReportConfig { ticks: 100, merchants: 20, seed: 42 };
    assert_eq!(config.seed, 42);
}
