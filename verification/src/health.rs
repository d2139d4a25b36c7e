//! Hit points: damage events and the enemies they remove.

use vstd::prelude::*;
use crate::road::fits_i32;

verus! {

/// Hit points of an enemy of the first kind.
pub const ENEMY_1_HEALTH: i32 = 3;

/// Change of hit points a projectile causes when it reaches its target.
pub const PROJECTILE_DAMAGE: i32 = -2;

/// A change of the hit points of one enemy, by entity id.
#[derive(Clone, Copy, Debug)]
pub struct ChangeHealthEvent {
    pub amount: i32,
    pub enemy_id: u32,
}

impl ChangeHealthEvent {
    /// The event a projectile sends when it reaches the enemy it was fired at.
    pub fn projectile_hit(target_id: u32) -> (ev: Self)
        ensures
            ev.amount == PROJECTILE_DAMAGE,
            ev.enemy_id == target_id,
    {
        ChangeHealthEvent { amount: PROJECTILE_DAMAGE, enemy_id: target_id }
    }
}

/// An enemy's entity id and hit points.
#[derive(Clone, Copy, Debug)]
pub struct EnemyHealth {
    pub id: u32,
    pub health: i32,
}

/// Sum of the amounts of the first `k` events that concern enemy `id`.
pub open spec fn damage_sum(events: Seq<ChangeHealthEvent>, id: u32, k: nat) -> int
    decreases k,
{
    if k == 0 {
        0
    } else {
        damage_sum(events, id, (k - 1) as nat) + if events[k - 1].enemy_id == id {
            events[k - 1].amount as int
        } else {
            0
        }
    }
}

/// Hit points of `e` once the first `k` events are applied.
pub open spec fn health_after(e: EnemyHealth, events: Seq<ChangeHealthEvent>, k: nat) -> int {
    e.health + damage_sum(events, e.id, k)
}

/// Some of the first `k` events concern enemy `id`.
pub open spec fn targeted(events: Seq<ChangeHealthEvent>, id: u32, k: nat) -> bool
    decreases k,
{
    if k == 0 {
        false
    } else {
        targeted(events, id, (k - 1) as nat) || events[k - 1].enemy_id == id
    }
}

/// Ids reported as despawned by event `k`, looking at the first `m` enemies:
/// each enemy the event concerns whose hit points it leaves at zero or below.
pub open spec fn deaths_at(
    enemies: Seq<EnemyHealth>,
    events: Seq<ChangeHealthEvent>,
    k: nat,
    m: nat,
) -> Seq<u32>
    decreases m,
{
    if m == 0 {
        Seq::empty()
    } else {
        let e = enemies[m - 1];
        deaths_at(enemies, events, k, (m - 1) as nat) + if e.id == events[k as int].enemy_id
            && health_after(e, events, k + 1) <= 0 {
            seq![e.id]
        } else {
            Seq::empty()
        }
    }
}

/// Ids reported as despawned by the first `k` events, in order.
pub open spec fn despawn_log(
    enemies: Seq<EnemyHealth>,
    events: Seq<ChangeHealthEvent>,
    k: nat,
) -> Seq<u32>
    decreases k,
{
    if k == 0 {
        Seq::empty()
    } else {
        despawn_log(enemies, events, (k - 1) as nat) + deaths_at(
            enemies,
            events,
            (k - 1) as nat,
            enemies.len(),
        )
    }
}

/// Hit points stay within `i32` all along.
pub open spec fn health_fits(enemies: Seq<EnemyHealth>, events: Seq<ChangeHealthEvent>) -> bool {
    forall|j: int, k: nat|
        0 <= j < enemies.len() && k <= events.len() ==> fits_i32(
            #[trigger] health_after(enemies[j], events, k),
        )
}

/// What applying damage events did.
pub struct HealthOutcome {
    /// Ids of the enemies to despawn, in the order they died, once per
    /// event that left them without hit points.
    pub despawned: Vec<u32>,
    /// For each enemy, whether some event concerned it.
    pub hit: Vec<bool>,
}

/// Applies `events` in order to `enemies`: each event adds its amount to
/// every enemy with its id, and every enemy it leaves at zero hit points or
/// below is reported for despawning.
pub fn apply_health_events(enemies: &mut Vec<EnemyHealth>, events: &Vec<ChangeHealthEvent>) -> (out:
    HealthOutcome)
    requires
        health_fits(old(enemies)@, events@),
    ensures
        final(enemies)@.len() == old(enemies)@.len(),
        forall|j: int|
            0 <= j < final(enemies)@.len() ==> (#[trigger] final(enemies)@[j]).id == old(
                enemies,
            )@[j].id && final(enemies)@[j].health == health_after(
                old(enemies)@[j],
                events@,
                events@.len(),
            ),
        out.despawned@ == despawn_log(old(enemies)@, events@, events@.len()),
        out.hit@.len() == old(enemies)@.len(),
        forall|j: int|
            0 <= j < out.hit@.len() ==> #[trigger] out.hit@[j] == targeted(
                events@,
                old(enemies)@[j].id,
                events@.len(),
            ),
{
    let ghost e0 = enemies@;
    let n = enemies.len();
    let mut despawned: Vec<u32> = Vec::new();
    let mut hit: Vec<bool> = Vec::new();
    let mut j: usize = 0;
    while j < n
        invariant
            n == enemies@.len(),
            j <= n,
            hit@.len() == j,
            forall|j2: int| 0 <= j2 < j ==> !#[trigger] hit@[j2],
        decreases n - j,
    {
        hit.push(false);
        j = j + 1;
    }
    let mut i: usize = 0;
    while i < events.len()
        invariant
            health_fits(e0, events@),
            n == e0.len(),
            enemies@.len() == n,
            hit@.len() == n,
            i <= events@.len(),
            forall|j2: int|
                0 <= j2 < n ==> (#[trigger] enemies@[j2]).id == e0[j2].id && enemies@[j2].health
                    == health_after(e0[j2], events@, i as nat),
            forall|j2: int|
                0 <= j2 < n ==> #[trigger] hit@[j2] == targeted(events@, e0[j2].id, i as nat),
            despawned@ == despawn_log(e0, events@, i as nat),
        decreases events@.len() - i,
    {
        let ev = events[i];
        let mut j: usize = 0;
        while j < n
            invariant
                health_fits(e0, events@),
                n == e0.len(),
                enemies@.len() == n,
                hit@.len() == n,
                i < events@.len(),
                j <= n,
                ev == events@[i as int],
                forall|j2: int|
                    0 <= j2 < n ==> (#[trigger] enemies@[j2]).id == e0[j2].id,
                forall|j2: int|
                    0 <= j2 < j ==> (#[trigger] enemies@[j2]).health == health_after(
                        e0[j2],
                        events@,
                        (i + 1) as nat,
                    ),
                forall|j2: int|
                    j <= j2 < n ==> (#[trigger] enemies@[j2]).health == health_after(
                        e0[j2],
                        events@,
                        i as nat,
                    ),
                forall|j2: int|
                    0 <= j2 < j ==> #[trigger] hit@[j2] == targeted(
                        events@,
                        e0[j2].id,
                        (i + 1) as nat,
                    ),
                forall|j2: int|
                    j <= j2 < n ==> #[trigger] hit@[j2] == targeted(events@, e0[j2].id, i as nat),
                despawned@ == despawn_log(e0, events@, i as nat) + deaths_at(
                    e0,
                    events@,
                    i as nat,
                    j as nat,
                ),
            decreases n - j,
        {
            let e = enemies[j];
            assert(fits_i32(health_after(e0[j as int], events@, (i + 1) as nat)));
            let ghost before = despawned@;
            if e.id == ev.enemy_id {
                let health = e.health + ev.amount;
                enemies.set(j, EnemyHealth { id: e.id, health });
                hit.set(j, true);
                if health <= 0 {
                    despawned.push(e.id);
                }
            }
            assert(despawned@ =~= despawn_log(e0, events@, i as nat) + deaths_at(
                e0,
                events@,
                i as nat,
                (j + 1) as nat,
            ));
            j = j + 1;
        }
        i = i + 1;
    }
    HealthOutcome { despawned, hit }
}

/// A projectile reaching its target takes 2 hit points from it, and the
/// target is reported for despawning exactly when that leaves it with no
/// hit points.
pub proof fn lemma_projectile_hit(e: EnemyHealth, hit: ChangeHealthEvent)
    requires
        hit.amount == PROJECTILE_DAMAGE,
        hit.enemy_id == e.id,
    ensures
        health_after(e, seq![hit], 1) == e.health - 2,
        despawn_log(seq![e], seq![hit], 1) == (if e.health <= 2 {
            seq![e.id]
        } else {
            Seq::<u32>::empty()
        }),
{
    let evs = seq![hit];
    let es = seq![e];
    assert(evs[0] == hit);
    assert(es[0] == e);
    assert(damage_sum(evs, e.id, 0) == 0);
    assert(damage_sum(evs, e.id, 1) == -2);
    assert(despawn_log(es, evs, 0) =~= Seq::<u32>::empty());
    assert(despawn_log(es, evs, 1) =~= deaths_at(es, evs, 0, 1));
    assert(deaths_at(es, evs, 0, 0) =~= Seq::<u32>::empty());
}

proof fn lemma_damage_sum_prefix(
    events: Seq<ChangeHealthEvent>,
    ev: ChangeHealthEvent,
    id: u32,
    k: nat,
)
    requires
        k <= events.len(),
    ensures
        damage_sum(events.push(ev), id, k) == damage_sum(events, id, k),
    decreases k,
{
    if k > 0 {
        lemma_damage_sum_prefix(events, ev, id, (k - 1) as nat);
        assert(events.push(ev)[k - 1] == events[k - 1]);
    }
}

/// Hit points add up the amounts of the events, whatever their sign: an
/// enemy with no events keeps its hit points, and one more event changes
/// them by exactly its amount when it concerns that enemy, and not at all
/// otherwise.
pub proof fn lemma_health_adds_amounts(
    e: EnemyHealth,
    events: Seq<ChangeHealthEvent>,
    ev: ChangeHealthEvent,
)
    ensures
        health_after(e, Seq::<ChangeHealthEvent>::empty(), 0) == e.health,
        health_after(e, events.push(ev), events.len() + 1) == health_after(
            e,
            events,
            events.len(),
        ) + if ev.enemy_id == e.id {
            ev.amount as int
        } else {
            0
        },
{
    lemma_damage_sum_prefix(events, ev, e.id, events.len());
    assert(events.push(ev)[events.len() as int] == ev);
}

/// The enemies a new event reports, among `enemies`: those it concerns
/// whose hit points, `before` the event plus its amount, are zero or below.
pub open spec fn new_reports(
    enemies: Seq<EnemyHealth>,
    events: Seq<ChangeHealthEvent>,
    ev: ChangeHealthEvent,
) -> Seq<u32> {
    enemies.filter_map(
        |e: EnemyHealth|
            if e.id == ev.enemy_id && health_after(e, events, events.len()) + ev.amount <= 0 {
                Some(e.id)
            } else {
                None
            },
    )
}

proof fn lemma_deaths_at_prefix(
    enemies: Seq<EnemyHealth>,
    events: Seq<ChangeHealthEvent>,
    ev: ChangeHealthEvent,
    k: nat,
    m: nat,
)
    requires
        k < events.len(),
        m <= enemies.len(),
    ensures
        deaths_at(enemies, events.push(ev), k, m) == deaths_at(enemies, events, k, m),
    decreases m,
{
    if m > 0 {
        lemma_deaths_at_prefix(enemies, events, ev, k, (m - 1) as nat);
        lemma_damage_sum_prefix(events, ev, enemies[m - 1].id, k + 1);
        assert(events.push(ev)[k as int] == events[k as int]);
    }
}

proof fn lemma_despawn_log_prefix(
    enemies: Seq<EnemyHealth>,
    events: Seq<ChangeHealthEvent>,
    ev: ChangeHealthEvent,
    k: nat,
)
    requires
        k <= events.len(),
    ensures
        despawn_log(enemies, events.push(ev), k) == despawn_log(enemies, events, k),
    decreases k,
{
    if k > 0 {
        lemma_despawn_log_prefix(enemies, events, ev, (k - 1) as nat);
        lemma_deaths_at_prefix(enemies, events, ev, (k - 1) as nat, enemies.len());
    }
}

proof fn lemma_deaths_at_last(
    enemies: Seq<EnemyHealth>,
    events: Seq<ChangeHealthEvent>,
    ev: ChangeHealthEvent,
    m: nat,
)
    requires
        m <= enemies.len(),
    ensures
        deaths_at(enemies, events.push(ev), events.len(), m) == new_reports(
            enemies.take(m as int),
            events,
            ev,
        ),
    decreases m,
{
    let evs = events.push(ev);
    assert(evs[events.len() as int] == ev);
    if m == 0 {
        assert(enemies.take(0) =~= Seq::<EnemyHealth>::empty());
    } else {
        lemma_deaths_at_last(enemies, events, ev, (m - 1) as nat);
        let e = enemies[m - 1];
        lemma_health_adds_amounts(e, events, ev);
        let t = enemies.take(m as int);
        assert(t.drop_last() =~= enemies.take(m - 1));
        assert(t.last() == e);
    }
}

/// Adding an event never changes what the earlier events reported: it only
/// adds its own reports, one per enemy it concerns (in the order of
/// `enemies`) whose hit points right after it, the hit points before it
/// plus its amount, are zero or below.
pub proof fn lemma_reports_of_new_event(
    enemies: Seq<EnemyHealth>,
    events: Seq<ChangeHealthEvent>,
    ev: ChangeHealthEvent,
)
    ensures
        despawn_log(enemies, events.push(ev), events.len() + 1) == despawn_log(
            enemies,
            events,
            events.len(),
        ) + new_reports(enemies, events, ev),
{
    lemma_despawn_log_prefix(enemies, events, ev, events.len());
    lemma_deaths_at_last(enemies, events, ev, enemies.len());
    assert(enemies.take(enemies.len() as int) =~= enemies);
}

} // verus!
