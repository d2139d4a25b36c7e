use protect_it::road::RoadTiles;
use protect_it::tilemap::{grid_positions, GRASS_HEIGHT, GRASS_WIDTH};

fn level_01_expected_tiles() -> Vec<(i32, i32)> {
    let mut v = vec![(0, 8), (1, 8), (2, 8), (3, 8), (4, 8)];
    v.extend([(5, 8), (5, 7), (5, 6)]);
    v.extend([(5, 5), (6, 5), (7, 5), (8, 5), (9, 5)]);
    v.extend([(10, 5), (10, 4)]);
    v.extend([(10, 3), (11, 3), (12, 3), (13, 3), (14, 3)]);
    v.extend([(15, 3)]);
    for k in 0..25 {
        v.push((15 - k, 4));
    }
    v
}

#[test]
fn level_01_offsets() {
    let road = RoadTiles::level_01();
    assert_eq!(road.0, vec![0, 8, 5, -5, 10, -3, 15, 2, -10]);
}

#[test]
fn level_01_road_tiles() {
    let tiles = RoadTiles::level_01().road_tile_positions();
    assert_eq!(tiles.len(), 46);
    assert_eq!(tiles, level_01_expected_tiles());
}

#[test]
fn level_01_road_is_connected() {
    let tiles = RoadTiles::level_01().road_tile_positions();
    assert_eq!(tiles[0], (0, 8));
    for w in tiles.windows(2) {
        let d = (w[0].0 - w[1].0).abs() + (w[0].1 - w[1].1).abs();
        assert_eq!(d, 1);
    }
}

#[test]
fn road_with_one_x_segment() {
    let tiles = RoadTiles(vec![0, 0, 3]).road_tile_positions();
    assert_eq!(tiles, vec![(0, 0), (1, 0), (2, 0)]);
}

#[test]
fn road_y_segment_counts_absolute_values() {
    let tiles = RoadTiles(vec![0, 0, 2, -3]).road_tile_positions();
    assert_eq!(tiles, vec![(0, 0), (1, 0), (2, 0), (2, -1), (2, -2)]);
}

#[test]
fn road_backwards_x_segment() {
    // the closing entry is not positive: the segment runs towards smaller x
    let tiles = RoadTiles(vec![4, 1, 0]).road_tile_positions();
    assert_eq!(tiles, vec![(4, 1), (3, 1), (2, 1), (1, 1)]);
}

#[test]
fn road_empty_segment_lays_nothing() {
    assert!(RoadTiles(vec![1, 1, 1]).road_tile_positions().is_empty());
    assert!(RoadTiles(vec![5, 5]).road_tile_positions().is_empty());
    let tiles = RoadTiles(vec![1, 1, 1, 3]).road_tile_positions();
    assert_eq!(tiles, vec![(1, 1), (1, 2)]);
}

#[test]
fn grid_small() {
    let cells = grid_positions(2, 3);
    assert_eq!(cells, vec![(0, 0), (0, 1), (0, 2), (1, 0), (1, 1), (1, 2)]);
    assert!(grid_positions(0, 5).is_empty());
}

#[test]
fn grass_grid() {
    let cells = grid_positions(GRASS_WIDTH, GRASS_HEIGHT);
    assert_eq!(cells.len(), 64 * 36);
    assert_eq!(cells[0], (0, 0));
    assert_eq!(cells[35], (0, 35));
    assert_eq!(cells[36], (1, 0));
    assert_eq!(cells[64 * 36 - 1], (63, 35));
}

#[test]
fn walkable_roads() {
    assert!(RoadTiles::level_01().is_walkable());
    assert!(RoadTiles(vec![0, 0]).is_walkable());
    assert!(RoadTiles(vec![2147483646, 0, 2147483647]).is_walkable());
    assert_eq!(
        RoadTiles(vec![2147483646, 0, 2147483647]).road_tile_positions(),
        vec![(2147483646, 0)]
    );
}

#[test]
fn unwalkable_roads() {
    assert!(!RoadTiles(vec![]).is_walkable());
    assert!(!RoadTiles(vec![3]).is_walkable());
    // the x step does not fit in i32
    assert!(!RoadTiles(vec![0, 0, i32::MIN]).is_walkable());
    assert!(!RoadTiles(vec![2147483646, 0, i32::MIN]).is_walkable());
    // the y step needs the magnitude of i32::MIN
    assert!(!RoadTiles(vec![0, 0, 1, i32::MIN]).is_walkable());
    // the walk leaves the i32 range
    assert!(!RoadTiles(vec![2147483647, 5, 5]).is_walkable());
}
