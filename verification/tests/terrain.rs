use swarm_economy::terrain::TerrainGrid;
use swarm_economy::types::TerrainType;

use TerrainType::{Coast, Forest, Hills, Mountains, Plains, Water};

#[test]
fn coast_adjacent_to_land() {
    // 4 × 3 map: land on the left column, water elsewhere.
    let classes = vec![
        Plains, Water, Water, Water,
        Forest, Water, Water, Water,
        Hills, Water, Water, Mountains,
    ];
    let g = TerrainGrid::from_classes(4, 3, classes);
    assert_eq!(g.terrain_at(1, 0), Coast);
    assert_eq!(g.terrain_at(1, 1), Coast);
    assert_eq!(g.terrain_at(1, 2), Coast);
    assert_eq!(g.terrain_at(2, 0), Water);
    assert_eq!(g.terrain_at(2, 1), Water);
    // Next to the mountain at (3, 2).
    assert_eq!(g.terrain_at(2, 2), Coast);
    assert_eq!(g.terrain_at(3, 1), Coast);
    assert_eq!(g.terrain_at(3, 0), Water);
    assert_eq!(g.terrain_at(0, 0), Plains);
    assert!(g.is_coastal(1, 1));
    assert!(g.is_passable(1, 1));
    assert!(!g.is_passable(3, 0));
    assert!(!g.is_passable(3, 2));
}

#[test]
fn coast_never_chains_from_coast() {
    let classes = vec![Plains, Water, Water];
    let g = TerrainGrid::from_classes(3, 1, classes);
    assert_eq!(g.terrain_at(1, 0), Coast);
    assert_eq!(g.terrain_at(2, 0), Water);
}

#[test]
fn painting_changes_one_cell() {
    let mut g = TerrainGrid::from_classes(2, 2, vec![Plains, Plains, Plains, Plains]);
    g.set_terrain_at(1, 0, Mountains);
    assert_eq!(g.terrain_at(1, 0), Mountains);
    assert_eq!(g.terrain_at(0, 1), Plains);
    assert_eq!((g.width(), g.height()), (2, 2));
}
