use protect_it::enemy::{
    enemy_spawn_positions, Axis, CurrentCheckpoint, MovementPlan, LEVEL_01_ENEMIES_ORDER, START_X,
};
use protect_it::enemy::{START_Y, TILE_SIZE};
use protect_it::road::RoadTiles;

#[test]
fn spawn_one_wave() {
    assert_eq!(enemy_spawn_positions("111"), vec![-992, -1067, -1142]);
}

#[test]
fn spawn_with_pause() {
    assert_eq!(enemy_spawn_positions("1x1"), vec![-992, -1567]);
    assert_eq!(enemy_spawn_positions("x1"), vec![-1492]);
    assert!(enemy_spawn_positions("").is_empty());
    assert!(enemy_spawn_positions("ab").is_empty());
}

#[test]
fn spawn_level_01() {
    let xs = enemy_spawn_positions(LEVEL_01_ENEMIES_ORDER);
    assert_eq!(xs.len(), 15);
    assert_eq!(xs[0], START_X as i128);
    for (i, x) in xs.iter().enumerate() {
        assert_eq!(*x, -992 - 75 * i as i128);
    }
}

fn walk(plan: MovementPlan) -> (bool, bool, i64) {
    match plan {
        MovementPlan::Walk { axis, forward, target } => (matches!(axis, Axis::X), forward, target),
        MovementPlan::Despawn => panic!("expected a walk"),
    }
}

#[test]
fn level_01_checkpoints() {
    let road = RoadTiles::level_01();
    let mut cp = CurrentCheckpoint::start();
    let expected = [
        (true, true, 5),
        (false, false, -5),
        (true, true, 15),
        (false, false, -8),
        (true, true, 30),
        (false, true, -6),
        (true, false, 20),
    ];
    for (i, e) in expected.iter().enumerate() {
        assert_eq!(cp.checkpoint_id(), i as u32);
        assert_eq!(walk(cp.plan(&road)), *e);
        cp.arrive(&road);
    }
    assert_eq!(cp.checkpoint_id(), 7);
    assert_eq!((cp.x_tiles(), cp.y_tiles()), (20, -6));
    assert!(matches!(cp.plan(&road), MovementPlan::Despawn));
}

#[test]
fn short_road_despawns_at_once() {
    let road = RoadTiles(vec![0, 0]);
    assert!(matches!(CurrentCheckpoint::start().plan(&road), MovementPlan::Despawn));
}

#[test]
fn zero_offset_walks_backwards() {
    let road = RoadTiles(vec![0, 0, 0]);
    assert_eq!(walk(CurrentCheckpoint::start().plan(&road)), (true, false, 0));
}

#[test]
fn checkpoint_start() {
    let cp = CurrentCheckpoint::start();
    assert_eq!((cp.checkpoint_id(), cp.x_tiles(), cp.y_tiles()), (0, 0, 0));
}

#[test]
fn spawn_counts_characters_not_bytes() {
    assert_eq!(enemy_spawn_positions("é1"), vec![-1492]);
}

#[test]
fn level_01_checkpoint_pixels_do_not_drift() {
    let road = RoadTiles::level_01();
    let expected = [
        (-992, -32),
        (-672, -32),
        (-672, -352),
        (-32, -352),
        (-32, -544),
        (928, -544),
        (928, -416),
        (288, -416),
    ];
    let mut cp = CurrentCheckpoint::start();
    for (j, e) in expected.iter().enumerate() {
        assert_eq!(cp.checkpoint_id(), j as u32);
        let px = (START_X + TILE_SIZE * cp.x_tiles(), START_Y + TILE_SIZE * cp.y_tiles());
        assert_eq!(px, *e);
        if j + 1 < expected.len() {
            cp.arrive(&road);
        }
    }
}
