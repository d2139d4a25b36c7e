use protect_it::defence::{
    defence_shoot_frame, defence_shoot_step, frame_is_admissible, DefenceConfig, DefenceTarget,
    ReloadTimer, NANOS_PER_SEC, NO_TARGET,
};

const SEC: u64 = NANOS_PER_SEC;

#[test]
fn cannon_config() {
    let c = DefenceConfig::cannon();
    assert_eq!(c.damage, 3);
    assert_eq!(c.reload_time.duration_ns, 2 * SEC);
    assert_eq!(c.reload_time.elapsed_ns, 0);
    assert!(!c.reload_time.finished);
}

#[test]
fn timer_wraps_repeating() {
    let mut t = ReloadTimer::new(10);
    t.tick(4);
    assert_eq!((t.elapsed_ns, t.finished), (4, false));
    t.tick(6);
    assert_eq!((t.elapsed_ns, t.finished), (0, true));
    t.tick(25);
    assert_eq!((t.elapsed_ns, t.finished), (5, true));
    t.tick(1);
    assert_eq!((t.elapsed_ns, t.finished), (6, false));
    t.reset();
    assert_eq!((t.elapsed_ns, t.finished), (0, false));
}

#[test]
fn track_acquires_enemy_in_range() {
    let mut t = DefenceTarget::new();
    assert_eq!(t.target_id, NO_TARGET);
    assert!(!t.track(7, false));
    assert_eq!(t.target_id, NO_TARGET);
    assert!(t.track(7, true));
    assert_eq!(t.target_id, 7);
}

#[test]
fn track_keeps_target() {
    let mut t = DefenceTarget { target_id: 7 };
    assert!(!t.track(8, true));
    assert_eq!(t.target_id, 7);
    assert!(!t.track(8, false));
    assert_eq!(t.target_id, 7);
}

#[test]
fn track_drops_target_out_of_range() {
    let mut t = DefenceTarget { target_id: 7 };
    assert!(!t.track(7, false));
    assert_eq!(t.target_id, NO_TARGET);
}

#[test]
fn release_on_despawn() {
    let mut t = DefenceTarget { target_id: 7 };
    t.release(8);
    assert_eq!(t.target_id, 7);
    t.release(7);
    assert_eq!(t.target_id, NO_TARGET);
    let mut t = DefenceTarget { target_id: 9 };
    t.release_despawned(&vec![1, 2, 3]);
    assert_eq!(t.target_id, 9);
    t.release_despawned(&vec![1, 9, 3]);
    assert_eq!(t.target_id, NO_TARGET);
}

#[test]
fn cannon_fires_every_two_seconds() {
    let mut t = DefenceTarget::new();
    let mut c = DefenceConfig::cannon();
    assert!(!defence_shoot_step(&mut t, &mut c, 5, true, SEC));
    assert_eq!(c.reload_time.elapsed_ns, SEC);
    assert!(defence_shoot_step(&mut t, &mut c, 5, true, SEC));
    assert_eq!(c.reload_time.elapsed_ns, 0);
    assert!(!defence_shoot_step(&mut t, &mut c, 5, true, SEC / 2));
    // another enemy does not reload this cannon
    assert!(!defence_shoot_step(&mut t, &mut c, 6, true, 10 * SEC));
    assert_eq!(c.reload_time.elapsed_ns, SEC / 2);
    assert!(defence_shoot_step(&mut t, &mut c, 5, true, 3 * SEC / 2));
}

#[test]
fn cannon_loses_target_out_of_range() {
    let mut t = DefenceTarget::new();
    let mut c = DefenceConfig::cannon();
    assert!(!defence_shoot_step(&mut t, &mut c, 5, true, SEC));
    assert!(!defence_shoot_step(&mut t, &mut c, 5, false, 5 * SEC));
    assert_eq!(t.target_id, NO_TARGET);
    assert_eq!(c.reload_time.elapsed_ns, SEC);
}

#[test]
fn would_engage_matches_track() {
    let free = DefenceTarget::new();
    assert!(free.would_engage(3, true));
    assert!(!free.would_engage(3, false));
    let busy = DefenceTarget { target_id: 4 };
    assert!(busy.would_engage(4, true));
    assert!(!busy.would_engage(3, true));
    assert!(!busy.would_engage(4, false));
}

#[test]
fn frame_takes_first_enemy_in_range_and_fires_once() {
    let mut t = DefenceTarget::new();
    let mut c = DefenceConfig::cannon();
    c.reload_time.elapsed_ns = SEC;
    let enemies = vec![(3, false), (4, true), (5, true)];
    assert!(frame_is_admissible(&t, &c, &enemies, SEC));
    let fired = defence_shoot_frame(&mut t, &mut c, &enemies, SEC);
    assert_eq!(fired, vec![4]);
    assert_eq!(t.target_id, 4);
    assert_eq!(c.reload_time.elapsed_ns, 0);
}

#[test]
fn frame_reloads_over_frames() {
    let mut t = DefenceTarget::new();
    let mut c = DefenceConfig::cannon();
    let enemies = vec![(7, true)];
    assert!(defence_shoot_frame(&mut t, &mut c, &enemies, 3 * SEC / 4).is_empty());
    assert!(defence_shoot_frame(&mut t, &mut c, &enemies, 3 * SEC / 4).is_empty());
    assert_eq!(c.reload_time.elapsed_ns, 3 * SEC / 2);
    // out of range: no reload, target dropped
    assert!(defence_shoot_frame(&mut t, &mut c, &vec![(7, false)], 10 * SEC).is_empty());
    assert_eq!(t.target_id, NO_TARGET);
    assert_eq!(c.reload_time.elapsed_ns, 3 * SEC / 2);
    assert_eq!(defence_shoot_frame(&mut t, &mut c, &enemies, SEC / 2), vec![7]);
}

#[test]
fn frame_with_enemy_zero_can_fire_twice() {
    // entity 0 stands for "no target": a cannon aiming at it takes the next enemy too
    let mut t = DefenceTarget::new();
    let mut c = DefenceConfig::cannon();
    let fired = defence_shoot_frame(&mut t, &mut c, &vec![(0, true), (2, true)], 2 * SEC);
    assert_eq!(fired, vec![0, 2]);
}

#[test]
fn frame_admissibility() {
    let t = DefenceTarget::new();
    let mut c = DefenceConfig::cannon();
    c.reload_time.elapsed_ns = u64::MAX - 5;
    assert!(!frame_is_admissible(&t, &c, &vec![(1, true)], 10));
    assert!(frame_is_admissible(&t, &c, &vec![(1, false)], 10));
    c.reload_time.duration_ns = 0;
    assert!(!frame_is_admissible(&t, &c, &vec![(1, true)], 0));
}

#[test]
fn reload_carries_across_frames_and_despawns() {
    let mut t = DefenceTarget::new();
    let mut c = DefenceConfig::cannon();
    // one second on enemy 3, which then despawns
    assert!(defence_shoot_frame(&mut t, &mut c, &vec![(3, true)], SEC).is_empty());
    t.release_despawned(&vec![3]);
    assert_eq!(t.target_id, NO_TARGET);
    assert_eq!(c.reload_time.elapsed_ns, SEC);
    // a frame with nothing in range does not reload
    assert!(defence_shoot_frame(&mut t, &mut c, &vec![(4, false)], SEC).is_empty());
    assert_eq!(c.reload_time.elapsed_ns, SEC);
    // the next second in range completes the reload on a new enemy
    assert_eq!(defence_shoot_frame(&mut t, &mut c, &vec![(4, true)], SEC), vec![4]);
    assert_eq!(c.reload_time.elapsed_ns, 0);
}
