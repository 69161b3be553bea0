use game_engine::resources::SpatialGrid;
use game_engine::systems::rebuild_spatial_grid_system;

fn cell(grid: &SpatialGrid, c: (i32, i32, i32)) -> Option<Vec<u64>> {
    grid.cell_entities(c).cloned()
}

#[test]
fn new_grid_is_empty() {
    let g = SpatialGrid::new();
    assert_eq!(cell(&g, (0, 0, 0)), None);
}

#[test]
fn insert_covers_whole_box() {
    let mut g = SpatialGrid::new();
    g.insert_entity(5, (0, 0, 0), (1, 1, 2));
    for x in 0..=1 {
        for y in 0..=1 {
            for z in 0..=2 {
                assert_eq!(cell(&g, (x, y, z)), Some(vec![5]));
            }
        }
    }
    assert_eq!(cell(&g, (2, 0, 0)), None);
    assert_eq!(cell(&g, (0, 2, 0)), None);
    assert_eq!(cell(&g, (0, 0, 3)), None);
    assert_eq!(cell(&g, (-1, 0, 0)), None);
}

#[test]
fn insert_appends_in_order() {
    let mut g = SpatialGrid::new();
    g.insert_entity(1, (0, 0, 0), (1, 0, 0));
    g.insert_entity(2, (1, 0, 0), (2, 0, 0));
    assert_eq!(cell(&g, (0, 0, 0)), Some(vec![1]));
    assert_eq!(cell(&g, (1, 0, 0)), Some(vec![1, 2]));
    assert_eq!(cell(&g, (2, 0, 0)), Some(vec![2]));
}

#[test]
fn insert_empty_box_changes_nothing() {
    let mut g = SpatialGrid::new();
    g.insert_entity(1, (3, 0, 0), (2, 5, 5));
    g.insert_entity(1, (0, 3, 0), (5, 2, 5));
    g.insert_entity(1, (0, 0, 3), (5, 5, 2));
    for x in -1..=6 {
        for y in -1..=6 {
            for z in -1..=6 {
                assert_eq!(cell(&g, (x, y, z)), None);
            }
        }
    }
}

#[test]
fn insert_negative_and_extreme_coordinates() {
    let mut g = SpatialGrid::new();
    g.insert_entity(1, (-2, -1, -3), (-2, -1, -3));
    g.insert_entity(2, (i32::MAX, i32::MIN, i32::MAX), (i32::MAX, i32::MIN, i32::MAX));
    g.insert_entity(3, (i32::MIN, i32::MAX, i32::MIN), (i32::MIN, i32::MAX, i32::MIN));
    assert_eq!(cell(&g, (-2, -1, -3)), Some(vec![1]));
    assert_eq!(cell(&g, (i32::MAX, i32::MIN, i32::MAX)), Some(vec![2]));
    assert_eq!(cell(&g, (i32::MIN, i32::MAX, i32::MIN)), Some(vec![3]));
    assert_eq!(cell(&g, (2, 1, 3)), None);
    assert_eq!(cell(&g, (i32::MIN, i32::MIN, i32::MIN)), None);
}

#[test]
fn insert_box_at_the_edge_of_the_range() {
    let mut g = SpatialGrid::new();
    g.insert_entity(4, (i32::MAX - 1, 0, 0), (i32::MAX, 0, 0));
    assert_eq!(cell(&g, (i32::MAX - 1, 0, 0)), Some(vec![4]));
    assert_eq!(cell(&g, (i32::MAX, 0, 0)), Some(vec![4]));
}

#[test]
fn clear_empties_grid() {
    let mut g = SpatialGrid::new();
    g.insert_entity(1, (0, 0, 0), (2, 2, 2));
    g.clear();
    assert_eq!(cell(&g, (1, 1, 1)), None);
}

#[test]
fn rebuild_drops_stale_cells() {
    let mut g = SpatialGrid::new();
    g.insert_entity(99, (10, 10, 10), (10, 10, 10));
    let entries = vec![(1u64, (0, 0, 0), (0, 0, 1)), (2u64, (0, 0, 1), (1, 0, 1))];
    rebuild_spatial_grid_system(&mut g, &entries);
    assert_eq!(cell(&g, (10, 10, 10)), None);
    assert_eq!(cell(&g, (0, 0, 0)), Some(vec![1]));
    assert_eq!(cell(&g, (0, 0, 1)), Some(vec![1, 2]));
    assert_eq!(cell(&g, (1, 0, 1)), Some(vec![2]));
    assert_eq!(cell(&g, (1, 0, 0)), None);
}

#[test]
fn rebuild_cell_lists_covering_entities_in_order() {
    let mut g = SpatialGrid::new();
    let entries = vec![
        (3u64, (0, 0, 0), (4, 4, 4)),
        (1u64, (2, 2, 2), (2, 2, 2)),
        (2u64, (5, 5, 5), (6, 6, 6)),
        (4u64, (-1, -1, -1), (2, 2, 2)),
    ];
    rebuild_spatial_grid_system(&mut g, &entries);
    assert_eq!(cell(&g, (2, 2, 2)), Some(vec![3, 1, 4]));
    assert_eq!(cell(&g, (4, 4, 4)), Some(vec![3]));
    assert_eq!(cell(&g, (5, 5, 5)), Some(vec![2]));
    assert_eq!(cell(&g, (-1, 0, 0)), Some(vec![4]));
    assert_eq!(cell(&g, (7, 7, 7)), None);
}

#[test]
fn rebuild_with_no_entries_is_empty() {
    let mut g = SpatialGrid::new();
    g.insert_entity(1, (0, 0, 0), (0, 0, 0));
    rebuild_spatial_grid_system(&mut g, &vec![]);
    assert_eq!(cell(&g, (0, 0, 0)), None);
}

fn sorted(mut v: Vec<u64>) -> Vec<u64> {
    v.sort();
    v
}

#[test]
fn nearby_collects_neighbourhood_once() {
    let mut g = SpatialGrid::new();
    g.insert_entity(1, (0, 0, 0), (0, 0, 0));
    g.insert_entity(2, (1, 1, 1), (1, 1, 1));
    g.insert_entity(3, (2, 0, 0), (2, 0, 0));
    g.insert_entity(4, (-1, 0, 1), (0, 0, 1));
    let near = g.get_nearby((0, 0, 0));
    assert_eq!(sorted(near), vec![1, 2, 4]);
}

#[test]
fn nearby_of_empty_region_is_empty() {
    let mut g = SpatialGrid::new();
    g.insert_entity(1, (10, 10, 10), (10, 10, 10));
    assert!(g.get_nearby((0, 0, 0)).is_empty());
    assert_eq!(g.get_nearby((11, 9, 10)), vec![1]);
}

#[test]
fn nearby_at_the_edge_of_the_range() {
    let mut g = SpatialGrid::new();
    g.insert_entity(1, (i32::MIN, i32::MAX, i32::MIN), (i32::MIN, i32::MAX, i32::MIN));
    g.insert_entity(2, (i32::MAX, i32::MIN, i32::MAX), (i32::MAX, i32::MIN, i32::MAX));
    assert_eq!(g.get_nearby((i32::MIN, i32::MAX, i32::MIN)), vec![1]);
    assert_eq!(g.get_nearby((i32::MIN + 1, i32::MAX - 1, i32::MIN + 1)), vec![1]);
    assert_eq!(g.get_nearby((i32::MAX, i32::MIN, i32::MAX)), vec![2]);
}

#[test]
fn nearby_after_rebuild_finds_covering_entities() {
    let mut g = SpatialGrid::new();
    let entries = vec![(7u64, (0, 0, 0), (3, 0, 0)), (8u64, (5, 0, 0), (5, 0, 0)), (9u64, (0, 3, 0), (0, 3, 0))];
    rebuild_spatial_grid_system(&mut g, &entries);
    assert_eq!(sorted(g.get_nearby((4, 0, 0))), vec![7, 8]);
    assert_eq!(sorted(g.get_nearby((0, 2, 0))), vec![9]);
    assert_eq!(sorted(g.get_nearby((1, 1, 1))), vec![7]);
}
