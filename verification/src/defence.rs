//! Cannons: how a cannon picks an enemy, keeps it, reloads and fires.

use vstd::prelude::*;

verus! {

/// Reload time of a cannon, in seconds.
pub const RELOAD_TIME: u64 = 2;

/// Nanoseconds in one second.
pub const NANOS_PER_SEC: u64 = 1_000_000_000;

/// Entity id that stands for "no target".
pub const NO_TARGET: u32 = 0;

/// One tick of a repeating timer of `duration` nanoseconds that stood at
/// `elapsed`, advanced by `delta`: the time on it afterwards, and whether
/// it reached its duration during this tick. A repeating timer takes off
/// as many whole durations as it completed, counted in a `u32`.
pub open spec fn repeating_tick(duration: int, elapsed: int, delta: int) -> (int, bool) {
    let total = elapsed + delta;
    if total >= duration {
        let times = (total / duration) % 0x1_0000_0000;
        (total - duration * times, true)
    } else {
        (total, false)
    }
}

/// Ticks a repeating `bevy::time::Timer` of `duration_ns` nanoseconds set to
/// `elapsed_ns`, by `delta_ns`, and reads back `Timer::elapsed` and
/// `Timer::finished`. Trusted, per `Timer::tick` in bevy_time 0.8.1: an
/// unpaused repeating timer adds the delta; it is finished when the time
/// reaches the duration, and then loses `duration * n`, where `n` is the
/// number of whole durations in the time, cast to `u32`.
#[verifier::external_body]
fn bevy_repeating_tick(duration_ns: u64, elapsed_ns: u64, delta_ns: u64) -> (r: (u64, bool))
    requires
        duration_ns > 0,
        elapsed_ns + delta_ns <= u64::MAX,
    ensures
        (r.0 as int, r.1) == repeating_tick(duration_ns as int, elapsed_ns as int, delta_ns as int),
{
    let mut timer = bevy::time::Timer::new(std::time::Duration::from_nanos(duration_ns), true);
    timer.set_elapsed(std::time::Duration::from_nanos(elapsed_ns));
    timer.tick(std::time::Duration::from_nanos(delta_ns));
    (timer.elapsed().as_nanos() as u64, timer.finished())
}

/// A repeating reload timer, in nanoseconds.
pub struct ReloadTimer {
    pub duration_ns: u64,
    pub elapsed_ns: u64,
    pub finished: bool,
}

impl ReloadTimer {
    /// A repeating timer of `duration_ns` nanoseconds, at zero.
    pub fn new(duration_ns: u64) -> (t: Self)
        ensures
            t.duration_ns == duration_ns,
            t.elapsed_ns == 0,
            !t.finished,
    {
        ReloadTimer { duration_ns, elapsed_ns: 0, finished: false }
    }

    /// Advances the timer by `delta_ns` nanoseconds.
    pub fn tick(&mut self, delta_ns: u64)
        requires
            old(self).duration_ns > 0,
            old(self).elapsed_ns + delta_ns <= u64::MAX,
        ensures
            final(self).duration_ns == old(self).duration_ns,
            (final(self).elapsed_ns as int, final(self).finished) == repeating_tick(
                old(self).duration_ns as int,
                old(self).elapsed_ns as int,
                delta_ns as int,
            ),
    {
        let (elapsed, finished) = bevy_repeating_tick(self.duration_ns, self.elapsed_ns, delta_ns);
        self.elapsed_ns = elapsed;
        self.finished = finished;
    }

    /// Puts the timer back to zero.
    pub fn reset(&mut self)
        ensures
            final(self).duration_ns == old(self).duration_ns,
            final(self).elapsed_ns == 0,
            !final(self).finished,
    {
        self.elapsed_ns = 0;
        self.finished = false;
    }
}

/// A repeating timer keeps the time it has run modulo its duration, and
/// finishes exactly in the ticks that carry it to or past its duration
/// (as long as a tick spans fewer than 2^32 durations).
pub proof fn lemma_tick_wraps(duration: int, elapsed: int, delta: int)
    requires
        duration > 0,
        elapsed >= 0,
        delta >= 0,
        (elapsed + delta) / duration < 0x1_0000_0000,
    ensures
        repeating_tick(duration, elapsed, delta).0 == (elapsed + delta) % duration,
        repeating_tick(duration, elapsed, delta).1 == (elapsed + delta >= duration),
        repeating_tick(duration, elapsed, delta).1 ==> repeating_tick(duration, elapsed, delta).0
            < duration,
{
    let total = elapsed + delta;
    if total >= duration {
        let q = total / duration;
        assert(q % 0x1_0000_0000 == q) by {
            vstd::arithmetic::div_mod::lemma_small_mod(q as nat, 0x1_0000_0000nat);
        }
        vstd::arithmetic::div_mod::lemma_fundamental_div_mod(total, duration);
    } else {
        vstd::arithmetic::div_mod::lemma_small_mod(total as nat, duration as nat);
    }
}

/// What a cannon is: its damage and its reload timer.
pub struct DefenceConfig {
    pub damage: i32,
    pub reload_time: ReloadTimer,
}

impl DefenceConfig {
    /// A cannon: 3 damage, reloading every `RELOAD_TIME` seconds.
    pub fn cannon() -> (c: Self)
        ensures
            c.damage == 3,
            c.reload_time.duration_ns == RELOAD_TIME * NANOS_PER_SEC,
            c.reload_time.elapsed_ns == 0,
            !c.reload_time.finished,
    {
        DefenceConfig { damage: 3, reload_time: ReloadTimer::new(RELOAD_TIME * NANOS_PER_SEC) }
    }
}

/// The enemy a cannon aims at, by entity id; `NO_TARGET` when none.
pub struct DefenceTarget {
    pub target_id: u32,
}

/// The target after a cannon has looked at `enemy_id`: a cannon without a
/// target takes any enemy in range.
pub open spec fn acquired(target_id: u32, enemy_id: u32, in_range: bool) -> u32 {
    if target_id == NO_TARGET && in_range {
        enemy_id
    } else {
        target_id
    }
}

/// The cannon aims at `enemy_id` and it is in range: it reloads and may fire.
pub open spec fn engages(target_id: u32, enemy_id: u32, in_range: bool) -> bool {
    acquired(target_id, enemy_id, in_range) == enemy_id && in_range
}

/// The target after the cannon has looked at `enemy_id`: it lets go of its
/// target when that target has left the range.
pub open spec fn target_after(target_id: u32, enemy_id: u32, in_range: bool) -> u32 {
    let t = acquired(target_id, enemy_id, in_range);
    if t == enemy_id && !in_range {
        NO_TARGET
    } else {
        t
    }
}

impl DefenceTarget {
    /// A cannon that aims at nothing.
    pub fn new() -> (t: Self)
        ensures
            t.target_id == NO_TARGET,
    {
        DefenceTarget { target_id: NO_TARGET }
    }

    /// Looks at enemy `enemy_id`, which is within shooting range or not;
    /// returns whether the cannon is now aiming at it within range.
    pub fn track(&mut self, enemy_id: u32, in_range: bool) -> (engaged: bool)
        ensures
            engaged == engages(old(self).target_id, enemy_id, in_range),
            final(self).target_id == target_after(old(self).target_id, enemy_id, in_range),
            engaged ==> in_range && final(self).target_id == enemy_id,
            old(self).target_id != NO_TARGET && old(self).target_id != enemy_id ==> !engaged
                && final(self).target_id == old(self).target_id,
    {
        if self.target_id == NO_TARGET && in_range {
            self.target_id = enemy_id;
        }
        if self.target_id == enemy_id {
            if in_range {
                return true;
            } else {
                self.target_id = NO_TARGET;
            }
        }
        false
    }

    /// Whether looking at enemy `enemy_id` would make the cannon aim at it
    /// within range (and so reload).
    pub fn would_engage(&self, enemy_id: u32, in_range: bool) -> (b: bool)
        ensures
            b == engages(self.target_id, enemy_id, in_range),
    {
        in_range && (self.target_id == enemy_id || self.target_id == NO_TARGET)
    }

    /// An enemy has been despawned: a cannon aiming at it aims at nothing.
    pub fn release(&mut self, despawned_id: u32)
        ensures
            final(self).target_id == (if old(self).target_id == despawned_id {
                NO_TARGET
            } else {
                old(self).target_id
            }),
    {
        if self.target_id == despawned_id {
            self.target_id = NO_TARGET;
        }
    }
}

/// The target left after the despawn events `ids`, handled in order.
pub open spec fn release_all(target_id: u32, ids: Seq<u32>) -> u32
    decreases ids.len(),
{
    if ids.len() == 0 {
        target_id
    } else {
        let t = release_all(target_id, ids.drop_last());
        if t == ids.last() {
            NO_TARGET
        } else {
            t
        }
    }
}

/// After a list of despawn events, a cannon aims at nothing if its target
/// is among the despawned enemies, and keeps its target otherwise.
pub proof fn lemma_release_all(target_id: u32, ids: Seq<u32>)
    ensures
        release_all(target_id, ids) == (if ids.contains(target_id) {
            NO_TARGET
        } else {
            target_id
        }),
    decreases ids.len(),
{
    if ids.len() > 0 {
        lemma_release_all(target_id, ids.drop_last());
        if ids.drop_last().contains(target_id) {
            let k = choose|k: int| 0 <= k < ids.drop_last().len() && ids.drop_last()[k] == target_id;
            assert(ids[k] == target_id);
        } else if ids.contains(target_id) {
            let k = choose|k: int| 0 <= k < ids.len() && ids[k] == target_id;
            if k < ids.len() - 1 {
                assert(ids.drop_last()[k] == target_id);
            }
        }
        if ids.last() == target_id {
            assert(ids[ids.len() - 1] == target_id);
        }
    }
}

impl DefenceTarget {
    /// Handles the despawn events `ids` in order.
    pub fn release_despawned(&mut self, ids: &Vec<u32>)
        ensures
            final(self).target_id == release_all(old(self).target_id, ids@),
            final(self).target_id == (if ids@.contains(old(self).target_id) {
                NO_TARGET
            } else {
                old(self).target_id
            }),
    {
        let ghost t0 = self.target_id;
        let mut i: usize = 0;
        while i < ids.len()
            invariant
                i <= ids@.len(),
                self.target_id == release_all(t0, ids@.take(i as int)),
            decreases ids@.len() - i,
        {
            assert(ids@.take(i + 1).drop_last() =~= ids@.take(i as int));
            self.release(ids[i]);
            i = i + 1;
        }
        assert(ids@.take(ids@.len() as int) =~= ids@);
        proof {
            lemma_release_all(t0, ids@);
        }
    }
}

/// What a cannon carries from one call to the next: its target, the time
/// on its reload timer, and whether that timer stands finished.
pub open spec fn cannon_state(t: DefenceTarget, c: DefenceConfig) -> (u32, int, bool) {
    (t.target_id, c.reload_time.elapsed_ns as int, c.reload_time.finished)
}

/// One look of a cannon in state `s` (reload duration `duration`) at enemy
/// `enemy_id` during a frame of `delta` nanoseconds: the state afterwards
/// and whether it fires.
pub open spec fn shot_state(
    duration: int,
    s: (u32, int, bool),
    enemy_id: u32,
    in_range: bool,
    delta: int,
) -> ((u32, int, bool), bool) {
    let t = target_after(s.0, enemy_id, in_range);
    if engages(s.0, enemy_id, in_range) {
        let (elapsed, finished) = repeating_tick(duration, s.1, delta);
        if finished {
            ((t, 0, false), true)
        } else {
            ((t, elapsed, false), false)
        }
    } else {
        ((t, s.1, s.2), false)
    }
}

/// The state of a cannon that starts in `s0` after the first `k` looks of
/// `calls`, each an enemy id, whether it is in range, and the frame time.
pub open spec fn run_state(
    duration: int,
    s0: (u32, int, bool),
    calls: Seq<(u32, bool, int)>,
    k: nat,
) -> (u32, int, bool)
    decreases k,
{
    if k == 0 {
        s0
    } else {
        let c = calls[k - 1];
        shot_state(duration, run_state(duration, s0, calls, (k - 1) as nat), c.0, c.1, c.2).0
    }
}

/// In look `i` of `calls` the cannon aims at that enemy within range, and so reloads.
pub open spec fn engaged_at(
    duration: int,
    s0: (u32, int, bool),
    calls: Seq<(u32, bool, int)>,
    i: int,
) -> bool {
    engages(run_state(duration, s0, calls, i as nat).0, calls[i].0, calls[i].1)
}

/// In look `i` of `calls` the cannon fires.
pub open spec fn fires_at(
    duration: int,
    s0: (u32, int, bool),
    calls: Seq<(u32, bool, int)>,
    i: int,
) -> bool {
    shot_state(
        duration,
        run_state(duration, s0, calls, i as nat),
        calls[i].0,
        calls[i].1,
        calls[i].2,
    ).1
}

/// Ids of the enemies fired at during the first `k` looks, in order.
pub open spec fn run_fired(
    duration: int,
    s0: (u32, int, bool),
    calls: Seq<(u32, bool, int)>,
    k: nat,
) -> Seq<u32>
    decreases k,
{
    if k == 0 {
        Seq::empty()
    } else {
        run_fired(duration, s0, calls, (k - 1) as nat) + if fires_at(
            duration,
            s0,
            calls,
            k - 1,
        ) {
            seq![calls[k - 1].0]
        } else {
            Seq::empty()
        }
    }
}

/// Every reload of the run has a timer that can tick: a positive duration,
/// and a time that stays within `u64` nanoseconds.
pub open spec fn run_admissible(
    duration: int,
    s0: (u32, int, bool),
    calls: Seq<(u32, bool, int)>,
) -> bool {
    forall|i: int|
        0 <= i < calls.len() ==> #[trigger] engaged_at(duration, s0, calls, i) ==> duration > 0
            && run_state(duration, s0, calls, i as nat).1 + calls[i].2 <= u64::MAX
}

/// The looks of one frame: every enemy in order, all with the frame time `delta`.
pub open spec fn frame_calls(enemies: Seq<(u32, bool)>, delta: int) -> Seq<(u32, bool, int)> {
    Seq::new(enemies.len(), |i: int| (enemies[i].0, enemies[i].1, delta))
}

/// The time a cannon has reloaded between looks `from` and `k`: the frame
/// times of the looks in which it aimed at an enemy within range.
pub open spec fn ticked_time(
    duration: int,
    s0: (u32, int, bool),
    calls: Seq<(u32, bool, int)>,
    from: nat,
    k: nat,
) -> int
    decreases k,
{
    if k <= from {
        0
    } else {
        ticked_time(duration, s0, calls, from, (k - 1) as nat) + if engaged_at(
            duration,
            s0,
            calls,
            k - 1,
        ) {
            calls[k - 1].2
        } else {
            0
        }
    }
}

/// The number of looks up to and including the last shot among the first
/// `k` (0 when the cannon has not fired).
pub open spec fn last_shot(
    duration: int,
    s0: (u32, int, bool),
    calls: Seq<(u32, bool, int)>,
    k: nat,
) -> nat
    decreases k,
{
    if k == 0 {
        0
    } else if fires_at(duration, s0, calls, k - 1) {
        k
    } else {
        last_shot(duration, s0, calls, (k - 1) as nat)
    }
}

proof fn lemma_reload_step(
    duration: int,
    s0: (u32, int, bool),
    calls: Seq<(u32, bool, int)>,
    k: nat,
)
    requires
        k <= calls.len(),
    ensures
        last_shot(duration, s0, calls, k) <= k,
        run_state(duration, s0, calls, k).1 == (if last_shot(duration, s0, calls, k) == 0 {
            s0.1
        } else {
            0
        }) + ticked_time(duration, s0, calls, last_shot(duration, s0, calls, k), k),
    decreases k,
{
    if k > 0 {
        lemma_reload_step(duration, s0, calls, (k - 1) as nat);
    }
}

/// A cannon reloads by the frame times of the looks in which it aims at an
/// enemy within range: after any run of looks, the time on its reload timer
/// is the time reloaded since it last fired (or, if it has not fired, since
/// the start, on top of the time it started with), and it fires in exactly
/// those looks that bring that time to the reload duration.
pub proof fn lemma_reload_counts_ticked_time(
    duration: int,
    s0: (u32, int, bool),
    calls: Seq<(u32, bool, int)>,
)
    ensures
        forall|k: nat|
            k <= calls.len() ==> #[trigger] run_state(duration, s0, calls, k).1 == (if last_shot(
                duration,
                s0,
                calls,
                k,
            ) == 0 {
                s0.1
            } else {
                0
            }) + ticked_time(duration, s0, calls, last_shot(duration, s0, calls, k), k),
        forall|i: int|
            0 <= i < calls.len() ==> (#[trigger] fires_at(duration, s0, calls, i) <==> engaged_at(
                duration,
                s0,
                calls,
                i,
            ) && run_state(duration, s0, calls, i as nat).1 + calls[i].2 >= duration),
{
    assert forall|k: nat| k <= calls.len() implies #[trigger] run_state(duration, s0, calls, k).1
        == (if last_shot(duration, s0, calls, k) == 0 {
        s0.1
    } else {
        0
    }) + ticked_time(duration, s0, calls, last_shot(duration, s0, calls, k), k) by {
        lemma_reload_step(duration, s0, calls, k);
    }
}

proof fn lemma_target_kept(
    duration: int,
    s0: (u32, int, bool),
    calls: Seq<(u32, bool, int)>,
    i: int,
    k: nat,
)
    requires
        0 <= i < k <= calls.len(),
        engaged_at(duration, s0, calls, i),
        forall|j: int| 0 <= j < calls.len() ==> (#[trigger] calls[j]).0 != NO_TARGET,
        forall|j1: int, j2: int|
            0 <= j1 < j2 < calls.len() ==> (#[trigger] calls[j1]).0 != (#[trigger] calls[j2]).0,
    ensures
        run_state(duration, s0, calls, k).0 == calls[i].0,
    decreases k,
{
    if k > i + 1 {
        lemma_target_kept(duration, s0, calls, i, (k - 1) as nat);
        assert(calls[i].0 != calls[k - 1].0);
    }
}

/// Within one look at distinct enemies, none of them `NO_TARGET`, a cannon
/// reloads in at most one look (so fires at most once): once it aims at an
/// enemy within range it keeps that enemy for the rest of the frame.
pub proof fn lemma_frame_single_shot(
    duration: int,
    s0: (u32, int, bool),
    calls: Seq<(u32, bool, int)>,
)
    requires
        forall|j: int| 0 <= j < calls.len() ==> (#[trigger] calls[j]).0 != NO_TARGET,
        forall|j1: int, j2: int|
            0 <= j1 < j2 < calls.len() ==> (#[trigger] calls[j1]).0 != (#[trigger] calls[j2]).0,
    ensures
        forall|i: int, j: int|
            0 <= i < j < calls.len() && #[trigger] engaged_at(duration, s0, calls, i)
                ==> !#[trigger] engaged_at(duration, s0, calls, j),
        run_fired(duration, s0, calls, calls.len()).len() <= 1,
{
    assert forall|i: int, j: int|
        0 <= i < j < calls.len() && #[trigger] engaged_at(duration, s0, calls, i) implies !#[trigger] engaged_at(
        duration,
        s0,
        calls,
        j,
    ) by {
        lemma_target_kept(duration, s0, calls, i, j as nat);
        assert(calls[i].0 != calls[j].0);
    }
    lemma_fired_at_most_once(duration, s0, calls, calls.len());
}

proof fn lemma_fired_at_most_once(
    duration: int,
    s0: (u32, int, bool),
    calls: Seq<(u32, bool, int)>,
    k: nat,
)
    requires
        k <= calls.len(),
        forall|i: int, j: int|
            0 <= i < j < calls.len() && #[trigger] engaged_at(duration, s0, calls, i)
                ==> !#[trigger] engaged_at(duration, s0, calls, j),
    ensures
        run_fired(duration, s0, calls, k).len() <= 1,
        run_fired(duration, s0, calls, k).len() == 1 ==> exists|i: int|
            0 <= i < k && #[trigger] engaged_at(duration, s0, calls, i),
    decreases k,
{
    if k > 0 {
        lemma_fired_at_most_once(duration, s0, calls, (k - 1) as nat);
        let prev = run_fired(duration, s0, calls, (k - 1) as nat);
        if fires_at(duration, s0, calls, k - 1) {
            assert(engaged_at(duration, s0, calls, k - 1));
            if prev.len() == 1 {
                let i = choose|i: int| 0 <= i < k - 1 && #[trigger] engaged_at(duration, s0, calls, i);
                assert(!engaged_at(duration, s0, calls, k - 1));
            }
        } else if prev.len() == 1 {
            let i = choose|i: int| 0 <= i < k - 1 && #[trigger] engaged_at(duration, s0, calls, i);
            assert(engaged_at(duration, s0, calls, i));
        }
    }
}

proof fn lemma_no_target_until_in_range(
    duration: int,
    s0: (u32, int, bool),
    calls: Seq<(u32, bool, int)>,
    k: nat,
)
    requires
        k <= calls.len(),
        s0.0 == NO_TARGET,
        forall|j: int| 0 <= j < calls.len() ==> (#[trigger] calls[j]).0 != NO_TARGET,
        forall|j: int| 0 <= j < k ==> !(#[trigger] calls[j]).1,
    ensures
        run_state(duration, s0, calls, k).0 == NO_TARGET,
    decreases k,
{
    if k > 0 {
        lemma_no_target_until_in_range(duration, s0, calls, (k - 1) as nat);
        assert(!calls[k - 1].1);
    }
}

/// A cannon without a target takes the first enemy that comes within range,
/// and reloads on it (ids other than `NO_TARGET`).
pub proof fn lemma_first_in_range_taken(
    duration: int,
    s0: (u32, int, bool),
    calls: Seq<(u32, bool, int)>,
)
    requires
        s0.0 == NO_TARGET,
        forall|j: int| 0 <= j < calls.len() ==> (#[trigger] calls[j]).0 != NO_TARGET,
    ensures
        forall|k: int|
            0 <= k < calls.len() && calls[k].1 && (forall|j: int| 0 <= j < k ==> !(#[trigger] calls[j]).1)
                ==> #[trigger] engaged_at(duration, s0, calls, k)
                && run_state(duration, s0, calls, (k + 1) as nat).0 == calls[k].0,
{
    assert forall|k: int|
        0 <= k < calls.len() && calls[k].1 && (forall|j: int| 0 <= j < k ==> !(#[trigger] calls[j]).1)
        implies #[trigger] engaged_at(duration, s0, calls, k)
        && run_state(duration, s0, calls, (k + 1) as nat).0 == calls[k].0 by {
        lemma_no_target_until_in_range(duration, s0, calls, k as nat);
    }
}

/// Among the first `n` looks, the cannon fired at enemy `id` in a look
/// where that enemy was within range.
pub open spec fn shot_in_range(
    duration: int,
    s0: (u32, int, bool),
    calls: Seq<(u32, bool, int)>,
    n: nat,
    id: u32,
) -> bool {
    exists|j: int|
        0 <= j < n && #[trigger] fires_at(duration, s0, calls, j) && calls[j].1 && calls[j].0 == id
}

proof fn lemma_fired_in_range_upto(
    duration: int,
    s0: (u32, int, bool),
    calls: Seq<(u32, bool, int)>,
    k: nat,
)
    requires
        k <= calls.len(),
    ensures
        forall|f: int|
            0 <= f < run_fired(duration, s0, calls, k).len() ==> #[trigger] shot_in_range(
                duration,
                s0,
                calls,
                k,
                run_fired(duration, s0, calls, k)[f],
            ),
    decreases k,
{
    if k > 0 {
        lemma_fired_in_range_upto(duration, s0, calls, (k - 1) as nat);
        let prev = run_fired(duration, s0, calls, (k - 1) as nat);
        let cur = run_fired(duration, s0, calls, k);
        assert forall|f: int| 0 <= f < cur.len() implies #[trigger] shot_in_range(
            duration,
            s0,
            calls,
            k,
            cur[f],
        ) by {
            if f < prev.len() {
                assert(cur[f] == prev[f]);
                assert(shot_in_range(duration, s0, calls, (k - 1) as nat, prev[f]));
                let j = choose|j: int|
                    0 <= j < k - 1 && #[trigger] fires_at(duration, s0, calls, j) && calls[j].1
                        && calls[j].0 == prev[f];
                assert(fires_at(duration, s0, calls, j));
            } else {
                assert(fires_at(duration, s0, calls, k - 1));
                assert(cur[f] == calls[k - 1].0);
            }
        }
    }
}

/// A cannon fires only at enemies that are within range when it fires.
pub proof fn lemma_fired_in_range(
    duration: int,
    s0: (u32, int, bool),
    calls: Seq<(u32, bool, int)>,
)
    ensures
        forall|f: int|
            0 <= f < run_fired(duration, s0, calls, calls.len()).len() ==> #[trigger] shot_in_range(
                duration,
                s0,
                calls,
                calls.len(),
                run_fired(duration, s0, calls, calls.len())[f],
            ),
{
    lemma_fired_in_range_upto(duration, s0, calls, calls.len());
}

proof fn lemma_run_prefix(
    duration: int,
    s0: (u32, int, bool),
    a: Seq<(u32, bool, int)>,
    b: Seq<(u32, bool, int)>,
    j: nat,
)
    requires
        j <= a.len(),
    ensures
        run_state(duration, s0, a + b, j) == run_state(duration, s0, a, j),
        run_fired(duration, s0, a + b, j) == run_fired(duration, s0, a, j),
    decreases j,
{
    if j > 0 {
        lemma_run_prefix(duration, s0, a, b, (j - 1) as nat);
        assert((a + b)[j - 1] == a[j - 1]);
    }
}

proof fn lemma_run_concat(
    duration: int,
    s0: (u32, int, bool),
    a: Seq<(u32, bool, int)>,
    b: Seq<(u32, bool, int)>,
    k: nat,
)
    requires
        k <= b.len(),
    ensures
        run_state(duration, s0, a + b, a.len() + k) == run_state(
            duration,
            run_state(duration, s0, a, a.len()),
            b,
            k,
        ),
        run_fired(duration, s0, a + b, a.len() + k) == run_fired(duration, s0, a, a.len())
            + run_fired(duration, run_state(duration, s0, a, a.len()), b, k),
    decreases k,
{
    if k == 0 {
        lemma_run_prefix(duration, s0, a, b, a.len());
        assert(run_fired(duration, s0, a, a.len()) + Seq::<u32>::empty() =~= run_fired(
            duration,
            s0,
            a,
            a.len(),
        ));
    } else {
        lemma_run_concat(duration, s0, a, b, (k - 1) as nat);
        assert((a + b)[a.len() + k - 1] == b[k - 1]);
        let sa = run_state(duration, s0, a, a.len());
        let pre = run_fired(duration, s0, a, a.len());
        let mid = run_fired(duration, sa, b, (k - 1) as nat);
        if fires_at(duration, sa, b, k - 1) {
            assert(pre + mid + seq![b[k - 1].0] =~= pre + (mid + seq![b[k - 1].0]));
        } else {
            assert(pre + mid + Seq::<u32>::empty() =~= pre + (mid + Seq::<u32>::empty()));
        }
    }
}

/// The looks that stand for despawn events: a look at a despawned enemy as
/// out of range, in no time, does to a cannon exactly what the despawn
/// event does.
pub open spec fn despawn_calls(ids: Seq<u32>) -> Seq<(u32, bool, int)> {
    Seq::new(ids.len(), |i: int| (ids[i], false, 0int))
}

proof fn lemma_despawn_calls_upto(
    duration: int,
    s0: (u32, int, bool),
    ids: Seq<u32>,
    k: nat,
)
    requires
        k <= ids.len(),
    ensures
        run_state(duration, s0, despawn_calls(ids), k) == (
            release_all(s0.0, ids.take(k as int)),
            s0.1,
            s0.2,
        ),
        run_fired(duration, s0, despawn_calls(ids), k) == Seq::<u32>::empty(),
    decreases k,
{
    if k > 0 {
        lemma_despawn_calls_upto(duration, s0, ids, (k - 1) as nat);
        assert(ids.take(k as int).drop_last() =~= ids.take(k - 1));
        assert(despawn_calls(ids)[k - 1] == (ids[k - 1], false, 0int));
        assert(run_fired(duration, s0, despawn_calls(ids), k) =~= Seq::<u32>::empty());
    }
}

/// Handling despawn events moves a cannon's target as `release_all` says,
/// leaves its reload timer alone, and fires nothing.
pub proof fn lemma_despawn_calls(duration: int, s0: (u32, int, bool), ids: Seq<u32>)
    ensures
        run_state(duration, s0, despawn_calls(ids), ids.len()) == (
            release_all(s0.0, ids),
            s0.1,
            s0.2,
        ),
        run_fired(duration, s0, despawn_calls(ids), ids.len()) == Seq::<u32>::empty(),
{
    lemma_despawn_calls_upto(duration, s0, ids, ids.len());
    assert(ids.take(ids.len() as int) =~= ids);
}

/// The looks of the first `n` frames of `frames`, each frame an enemy list
/// (ids and whether in range), its frame time, and the ids despawned after
/// it, one after the other.
pub open spec fn history(frames: Seq<(Seq<(u32, bool)>, int, Seq<u32>)>, n: nat) -> Seq<
    (u32, bool, int),
>
    decreases n,
{
    if n == 0 {
        Seq::empty()
    } else {
        let f = frames[n - 1];
        history(frames, (n - 1) as nat) + frame_calls(f.0, f.1) + despawn_calls(f.2)
    }
}

/// A cannon's state after the first `n` frames: in each frame it runs
/// `defence_shoot_frame` over the enemies, then `release_despawned` over
/// the despawned ids.
pub open spec fn frames_state(
    duration: int,
    s0: (u32, int, bool),
    frames: Seq<(Seq<(u32, bool)>, int, Seq<u32>)>,
    n: nat,
) -> (u32, int, bool)
    decreases n,
{
    if n == 0 {
        s0
    } else {
        let f = frames[n - 1];
        let t = run_state(
            duration,
            frames_state(duration, s0, frames, (n - 1) as nat),
            frame_calls(f.0, f.1),
            f.0.len(),
        );
        (release_all(t.0, f.2), t.1, t.2)
    }
}

/// The enemies a cannon fires at during the first `n` frames, in order.
pub open spec fn frames_fired(
    duration: int,
    s0: (u32, int, bool),
    frames: Seq<(Seq<(u32, bool)>, int, Seq<u32>)>,
    n: nat,
) -> Seq<u32>
    decreases n,
{
    if n == 0 {
        Seq::empty()
    } else {
        let f = frames[n - 1];
        frames_fired(duration, s0, frames, (n - 1) as nat) + run_fired(
            duration,
            frames_state(duration, s0, frames, (n - 1) as nat),
            frame_calls(f.0, f.1),
            f.0.len(),
        )
    }
}

/// Frames with despawn events between them make one run of looks: the state
/// after `n` frames, and the shots fired in them, are those of the run over
/// `history(frames, n)`.
pub proof fn lemma_frames_follow_history(
    duration: int,
    s0: (u32, int, bool),
    frames: Seq<(Seq<(u32, bool)>, int, Seq<u32>)>,
    n: nat,
)
    requires
        n <= frames.len(),
    ensures
        frames_state(duration, s0, frames, n) == run_state(
            duration,
            s0,
            history(frames, n),
            history(frames, n).len(),
        ),
        frames_fired(duration, s0, frames, n) == run_fired(
            duration,
            s0,
            history(frames, n),
            history(frames, n).len(),
        ),
    decreases n,
{
    if n > 0 {
        lemma_frames_follow_history(duration, s0, frames, (n - 1) as nat);
        let f = frames[n - 1];
        let h0 = history(frames, (n - 1) as nat);
        let fc = frame_calls(f.0, f.1);
        let dc = despawn_calls(f.2);
        let sp = frames_state(duration, s0, frames, (n - 1) as nat);
        assert(fc.len() == f.0.len());
        lemma_run_concat(duration, s0, h0, fc, fc.len());
        let h1 = h0 + fc;
        let t = run_state(duration, s0, h1, h1.len());
        assert(t == run_state(duration, sp, fc, f.0.len()));
        lemma_run_concat(duration, s0, h1, dc, dc.len());
        lemma_despawn_calls(duration, t, f.2);
        assert(history(frames, n) == h1 + dc);
        assert(run_fired(duration, s0, h1, h1.len()) + Seq::<u32>::empty() =~= run_fired(
            duration,
            s0,
            h1,
            h1.len(),
        ));
    }
}

/// Reload timing holds across frames and despawn events: after `n` frames
/// the time on a cannon's reload timer is the time it reloaded (the frame
/// times of the looks in which it aimed at an enemy within range) since it
/// last fired, or since the start on top of its starting time; and it fires
/// in exactly those looks that bring that time to the reload duration.
pub proof fn lemma_reload_across_frames(
    duration: int,
    s0: (u32, int, bool),
    frames: Seq<(Seq<(u32, bool)>, int, Seq<u32>)>,
    n: nat,
)
    requires
        n <= frames.len(),
    ensures
        ({
            let h = history(frames, n);
            let last = last_shot(duration, s0, h, h.len());
            frames_state(duration, s0, frames, n).1 == (if last == 0 {
                s0.1
            } else {
                0
            }) + ticked_time(duration, s0, h, last, h.len())
        }),
        forall|i: int|
            0 <= i < history(frames, n).len() ==> (#[trigger] fires_at(
                duration,
                s0,
                history(frames, n),
                i,
            ) <==> engaged_at(duration, s0, history(frames, n), i) && run_state(
                duration,
                s0,
                history(frames, n),
                i as nat,
            ).1 + history(frames, n)[i].2 >= duration),
        forall|f: int|
            0 <= f < frames_fired(duration, s0, frames, n).len() ==> #[trigger] shot_in_range(
                duration,
                s0,
                history(frames, n),
                history(frames, n).len(),
                frames_fired(duration, s0, frames, n)[f],
            ),
{
    lemma_frames_follow_history(duration, s0, frames, n);
    let h = history(frames, n);
    lemma_reload_counts_ticked_time(duration, s0, h);
    assert(run_state(duration, s0, h, h.len()).1 == (if last_shot(duration, s0, h, h.len()) == 0 {
        s0.1
    } else {
        0
    }) + ticked_time(duration, s0, h, last_shot(duration, s0, h, h.len()), h.len()));
    lemma_fired_in_range(duration, s0, h);
}

/// One cannon looking at one enemy during a frame of `delta_ns` nanoseconds:
/// the cannon updates its target; if it aims at that enemy within range,
/// it reloads, and fires when the reload timer finishes (the timer then
/// starts over). Returns whether a projectile is fired at `enemy_id`.
pub fn defence_shoot_step(
    target: &mut DefenceTarget,
    config: &mut DefenceConfig,
    enemy_id: u32,
    in_range: bool,
    delta_ns: u64,
) -> (fire: bool)
    requires
        engages(old(target).target_id, enemy_id, in_range) ==> old(config).reload_time.duration_ns
            > 0 && old(config).reload_time.elapsed_ns + delta_ns <= u64::MAX,
    ensures
        final(target).target_id == target_after(old(target).target_id, enemy_id, in_range),
        final(config).damage == old(config).damage,
        final(config).reload_time.duration_ns == old(config).reload_time.duration_ns,
        !engages(old(target).target_id, enemy_id, in_range) ==> !fire && *final(config)
            == *old(config),
        engages(old(target).target_id, enemy_id, in_range) ==> ({
            let (elapsed, finished) = repeating_tick(
                old(config).reload_time.duration_ns as int,
                old(config).reload_time.elapsed_ns as int,
                delta_ns as int,
            );
            &&& fire == finished
            &&& fire ==> final(config).reload_time.elapsed_ns == 0
                && !final(config).reload_time.finished
            &&& !fire ==> final(config).reload_time.elapsed_ns == elapsed
                && !final(config).reload_time.finished
        }),
        fire ==> in_range && final(target).target_id == enemy_id,
        (cannon_state(*final(target), *final(config)), fire) == shot_state(
            old(config).reload_time.duration_ns as int,
            cannon_state(*old(target), *old(config)),
            enemy_id,
            in_range,
            delta_ns as int,
        ),
{
    if target.track(enemy_id, in_range) {
        config.reload_time.tick(delta_ns);
        if config.reload_time.finished {
            config.reload_time.reset();
            return true;
        }
    }
    false
}

/// One cannon during one frame of `delta_ns` nanoseconds: it looks at
/// every enemy in order (each an entity id and whether it is within
/// shooting range), as `defence_shoot_step` does. Returns the ids of the
/// enemies it fires at, in order.
pub fn defence_shoot_frame(
    target: &mut DefenceTarget,
    config: &mut DefenceConfig,
    enemies: &Vec<(u32, bool)>,
    delta_ns: u64,
) -> (fired: Vec<u32>)
    requires
        run_admissible(
            old(config).reload_time.duration_ns as int,
            cannon_state(*old(target), *old(config)),
            frame_calls(enemies@, delta_ns as int),
        ),
    ensures
        final(config).damage == old(config).damage,
        final(config).reload_time.duration_ns == old(config).reload_time.duration_ns,
        cannon_state(*final(target), *final(config)) == run_state(
            old(config).reload_time.duration_ns as int,
            cannon_state(*old(target), *old(config)),
            frame_calls(enemies@, delta_ns as int),
            enemies@.len(),
        ),
        fired@ == run_fired(
            old(config).reload_time.duration_ns as int,
            cannon_state(*old(target), *old(config)),
            frame_calls(enemies@, delta_ns as int),
            enemies@.len(),
        ),
        forall|f: int|
            0 <= f < fired@.len() ==> #[trigger] shot_in_range(
                old(config).reload_time.duration_ns as int,
                cannon_state(*old(target), *old(config)),
                frame_calls(enemies@, delta_ns as int),
                enemies@.len(),
                fired@[f],
            ),
        (forall|j: int| 0 <= j < enemies@.len() ==> (#[trigger] enemies@[j]).0 != NO_TARGET) && (
        forall|j1: int, j2: int|
            0 <= j1 < j2 < enemies@.len() ==> (#[trigger] enemies@[j1]).0 != (#[trigger] enemies@[
                j2
            ]).0) ==> fired@.len() <= 1,
{
    let ghost d = config.reload_time.duration_ns as int;
    let ghost s0 = cannon_state(*target, *config);
    let ghost calls = frame_calls(enemies@, delta_ns as int);
    let ghost damage = config.damage;
    let mut fired: Vec<u32> = Vec::new();
    let mut i: usize = 0;
    while i < enemies.len()
        invariant
            i <= enemies@.len(),
            calls == frame_calls(enemies@, delta_ns as int),
            run_admissible(d, s0, calls),
            config.reload_time.duration_ns == d,
            config.damage == damage,
            cannon_state(*target, *config) == run_state(d, s0, calls, i as nat),
            fired@ == run_fired(d, s0, calls, i as nat),
        decreases enemies@.len() - i,
    {
        let (enemy_id, in_range) = enemies[i];
        assert(calls[i as int] == (enemy_id, in_range, delta_ns as int));
        assert(engaged_at(d, s0, calls, i as int) ==> d > 0 && run_state(d, s0, calls, i as nat).1
            + calls[i as int].2 <= u64::MAX);
        let fire = defence_shoot_step(target, config, enemy_id, in_range, delta_ns);
        let ghost before = fired@;
        if fire {
            fired.push(enemy_id);
        }
        assert(fired@ =~= run_fired(d, s0, calls, (i + 1) as nat));
        i = i + 1;
    }
    proof {
        lemma_fired_in_range(d, s0, calls);
        if (forall|j: int| 0 <= j < enemies@.len() ==> (#[trigger] enemies@[j]).0 != NO_TARGET) && (
        forall|j1: int, j2: int|
            0 <= j1 < j2 < enemies@.len() ==> (#[trigger] enemies@[j1]).0 != (#[trigger] enemies@[
                j2
            ]).0) {
            assert forall|j: int| 0 <= j < calls.len() implies (#[trigger] calls[j]).0 != NO_TARGET by {
                assert(calls[j].0 == enemies@[j].0);
            }
            assert forall|j1: int, j2: int|
                0 <= j1 < j2 < calls.len() implies (#[trigger] calls[j1]).0 != (#[trigger] calls[j2]).0 by {
                assert(calls[j1].0 == enemies@[j1].0);
                assert(calls[j2].0 == enemies@[j2].0);
            }
            lemma_frame_single_shot(d, s0, calls);
        }
    }
    fired
}

/// Whether `defence_shoot_frame` can run on these values: every reload in
/// the frame has a positive duration and stays within `u64` nanoseconds.
pub fn frame_is_admissible(
    target: &DefenceTarget,
    config: &DefenceConfig,
    enemies: &Vec<(u32, bool)>,
    delta_ns: u64,
) -> (ok: bool)
    ensures
        ok == run_admissible(
            config.reload_time.duration_ns as int,
            cannon_state(*target, *config),
            frame_calls(enemies@, delta_ns as int),
        ),
{
    let ghost d = config.reload_time.duration_ns as int;
    let ghost s0 = cannon_state(*target, *config);
    let ghost calls = frame_calls(enemies@, delta_ns as int);
    let mut t = DefenceTarget { target_id: target.target_id };
    let mut c = DefenceConfig {
        damage: config.damage,
        reload_time: ReloadTimer {
            duration_ns: config.reload_time.duration_ns,
            elapsed_ns: config.reload_time.elapsed_ns,
            finished: config.reload_time.finished,
        },
    };
    let mut i: usize = 0;
    while i < enemies.len()
        invariant
            i <= enemies@.len(),
            calls == frame_calls(enemies@, delta_ns as int),
            c.reload_time.duration_ns == d,
            d == config.reload_time.duration_ns as int,
            s0 == cannon_state(*target, *config),
            cannon_state(t, c) == run_state(d, s0, calls, i as nat),
            forall|j: int|
                0 <= j < i ==> #[trigger] engaged_at(d, s0, calls, j) ==> d > 0 && run_state(
                    d,
                    s0,
                    calls,
                    j as nat,
                ).1 + calls[j].2 <= u64::MAX,
        decreases enemies@.len() - i,
    {
        let (enemy_id, in_range) = enemies[i];
        assert(calls[i as int] == (enemy_id, in_range, delta_ns as int));
        if t.would_engage(enemy_id, in_range) && (c.reload_time.duration_ns == 0
            || c.reload_time.elapsed_ns > u64::MAX - delta_ns) {
            assert(engaged_at(d, s0, calls, i as int));
            assert(run_state(d, s0, calls, i as nat).1 == c.reload_time.elapsed_ns);
            assert(!(d > 0 && run_state(d, s0, calls, i as nat).1 + calls[i as int].2 <= u64::MAX));
            assert(!run_admissible(d, s0, calls));
            return false;
        }
        defence_shoot_step(&mut t, &mut c, enemy_id, in_range, delta_ns);
        i = i + 1;
    }
    true
}

} // verus!
