use protect_it::health::{
    apply_health_events, ChangeHealthEvent, EnemyHealth, ENEMY_1_HEALTH, PROJECTILE_DAMAGE,
};

#[test]
fn projectile_hit_event() {
    let ev = ChangeHealthEvent::projectile_hit(12);
    assert_eq!(ev.amount, PROJECTILE_DAMAGE);
    assert_eq!(ev.amount, -2);
    assert_eq!(ev.enemy_id, 12);
}

#[test]
fn two_projectiles_kill_enemy_1() {
    let mut enemies = vec![EnemyHealth { id: 4, health: ENEMY_1_HEALTH }];
    let out = apply_health_events(&mut enemies, &vec![ChangeHealthEvent::projectile_hit(4)]);
    assert_eq!(enemies[0].health, 1);
    assert!(out.despawned.is_empty());
    assert_eq!(out.hit, vec![true]);
    let out = apply_health_events(&mut enemies, &vec![ChangeHealthEvent::projectile_hit(4)]);
    assert_eq!(enemies[0].health, -1);
    assert_eq!(out.despawned, vec![4]);
}

#[test]
fn events_reach_only_their_enemy() {
    let mut enemies = vec![EnemyHealth { id: 1, health: 3 }, EnemyHealth { id: 2, health: 3 }];
    let events = vec![
        ChangeHealthEvent { amount: -1, enemy_id: 2 },
        ChangeHealthEvent { amount: -5, enemy_id: 9 },
    ];
    let out = apply_health_events(&mut enemies, &events);
    assert_eq!(enemies[0].health, 3);
    assert_eq!(enemies[1].health, 2);
    assert_eq!(out.hit, vec![false, true]);
    assert!(out.despawned.is_empty());
}

#[test]
fn dead_enemy_reported_per_event() {
    let mut enemies = vec![EnemyHealth { id: 1, health: 1 }, EnemyHealth { id: 2, health: 2 }];
    let events = vec![
        ChangeHealthEvent { amount: -2, enemy_id: 1 },
        ChangeHealthEvent { amount: -2, enemy_id: 2 },
        ChangeHealthEvent { amount: -2, enemy_id: 1 },
    ];
    let out = apply_health_events(&mut enemies, &events);
    assert_eq!(out.despawned, vec![1, 2, 1]);
    assert_eq!(enemies[0].health, -3);
    assert_eq!(enemies[1].health, 0);
}
