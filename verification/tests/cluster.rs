use swarm_economy::cluster::dbscan_count;

/// Neighbourhoods of a range query: every point within `eps` (itself included).
fn range_queries(points: &[(f32, f32)], eps: f32) -> Vec<Vec<usize>> {
    let eps_sq = eps * eps;
    points
        .iter()
        .map(|p| {
            (0..points.len())
                .filter(|&i| {
                    let (dx, dy) = (points[i].0 - p.0, points[i].1 - p.1);
                    dx * dx + dy * dy <= eps_sq
                })
                .collect()
        })
        .collect()
}

#[test]
fn dbscan_finds_clusters() {
    let mut points = Vec::new();
    for i in 0..10 {
        points.push((i as f32, 0.0));
    }
    for i in 0..10 {
        points.push((200.0 + i as f32, 200.0));
    }
    assert_eq!(dbscan_count(&range_queries(&points, 50.0), 3), 2);
}

#[test]
fn dbscan_all_noise() {
    let points = vec![(0.0, 0.0), (1000.0, 1000.0)];
    assert_eq!(dbscan_count(&range_queries(&points, 10.0), 3), 0);
}

#[test]
fn dbscan_empty() {
    assert_eq!(dbscan_count(&[], 3), 0);
}

#[test]
fn dbscan_chain_is_one_cluster() {
    // A line of points 8 apart: every point reaches its neighbours within 10.
    let points: Vec<(f32, f32)> = (0..12).map(|i| (i as f32 * 8.0, 0.0)).collect();
    assert_eq!(dbscan_count(&range_queries(&points, 10.0), 3), 1);
    // With a stricter density nothing is a core point.
    assert_eq!(dbscan_count(&range_queries(&points, 10.0), 4), 0);
}

#[test]
fn dbscan_sparse_bridge_keeps_clusters_apart() {
    // Two dense groups touched by a single sparse point: the bridge is a
    // border point, not a core point, so the groups stay separate.
    let mut points = vec![(0.0, 0.0), (1.0, 0.0), (0.0, 1.0), (1.0, 1.0)];
    points.push((6.0, 0.0));
    points.extend([(11.0, 0.0), (12.0, 0.0), (11.0, 1.0), (12.0, 1.0)]);
    let neighbors = range_queries(&points, 5.0);
    assert_eq!(neighbors[4], vec![1, 4, 5]);
    assert_eq!(dbscan_count(&neighbors, 4), 2);
    // A looser density makes the bridge a core point and joins the groups.
    assert_eq!(dbscan_count(&neighbors, 3), 1);
}
