//! Enemies: where the waves start, and how an enemy walks the road from
//! checkpoint to checkpoint.

use vstd::prelude::*;
use vstd::string::StrSliceExecFns;
use crate::road::{abs, RoadTiles};

verus! {

/// Side of a map tile, in pixels.
pub const TILE_SIZE: i64 = 64;

/// Width of the map, in tiles.
pub const TILEMAP_WIDTH: i64 = 32;

/// Height of the map, in tiles.
pub const TILEMAP_HEIGHT: i64 = 18;

/// Pixel x where the first enemy starts: the middle of the leftmost column,
/// `-TILEMAP_WIDTH * TILE_SIZE / 2 + TILE_SIZE / 2`.
pub const START_X: i64 = -992;

/// Pixel y where enemies start, `-TILE_SIZE / 2`.
pub const START_Y: i64 = -32;

/// Gap between two enemies of one wave, in pixels.
pub const ENEMY_GAP: i64 = 75;

/// Gap between two waves, in pixels.
pub const WAVE_GAP: i64 = 500;

/// The order in which the enemies of the first level come: `'1'` is an
/// enemy of the first kind, any other character a pause between waves.
pub const LEVEL_01_ENEMIES_ORDER: &'static str = "111111111111111";

/// After reading the first `n` characters of `order`: the x of every enemy
/// spawned so far, in order, and the x where the next one would stand.
pub open spec fn spawn_plan(order: Seq<char>, n: nat) -> (Seq<int>, int)
    decreases n,
{
    if n == 0 {
        (Seq::empty(), START_X as int)
    } else {
        let (xs, next) = spawn_plan(order, (n - 1) as nat);
        if order[n - 1] == '1' {
            (xs.push(next), next - ENEMY_GAP)
        } else {
            (xs, next - WAVE_GAP)
        }
    }
}

/// The x of every enemy spawned from `order`, in order.
pub open spec fn spawn_xs(order: Seq<char>) -> Seq<int> {
    spawn_plan(order, order.len()).0
}

/// Pixel x of each enemy of a level, in spawn order: enemies queue to the
/// left of the start, 75 pixels apart inside a wave, and each character
/// other than `'1'` leaves a further 500 pixels.
pub fn enemy_spawn_positions(order: &str) -> (xs: Vec<i128>)
    ensures
        xs@.map_values(|v: i128| v as int) == spawn_xs(order@),
        xs@.len() == ones_before(order@, order@.len() as int),
        forall|i: int|
            #![trigger order@[i]]
            0 <= i < order@.len() && order@[i] == '1' ==> xs@[ones_before(order@, i)] == START_X
                - 75 * ones_before(order@, i) - 500 * (i - ones_before(order@, i)),
{
    let len = order.unicode_len();
    let mut xs: Vec<i128> = Vec::new();
    let mut next_enemy_position: i128 = START_X as i128;
    let mut i: usize = 0;
    assert(xs@.map_values(|v: i128| v as int) =~= Seq::<int>::empty());
    while i < len
        invariant
            len == order@.len(),
            i <= len,
            len <= usize::MAX,
            next_enemy_position == spawn_plan(order@, i as nat).1,
            xs@.map_values(|v: i128| v as int) == spawn_plan(order@, i as nat).0,
            START_X - WAVE_GAP * i <= next_enemy_position <= START_X,
        decreases len - i,
    {
        let c = order.get_char(i);
        if c == '1' {
            let ghost before = xs@;
            xs.push(next_enemy_position);
            assert(xs@.map_values(|v: i128| v as int) =~= before.map_values(|v: i128| v as int).push(
                next_enemy_position as int,
            ));
            next_enemy_position = next_enemy_position - ENEMY_GAP as i128;
        } else {
            next_enemy_position = next_enemy_position - WAVE_GAP as i128;
        }
        i = i + 1;
    }
    proof {
        lemma_spawn_closed_form(order@);
        assert forall|i: int|
            #![trigger order@[i]]
            0 <= i < order@.len() && order@[i] == '1' implies xs@[ones_before(order@, i)]
            == START_X - 75 * ones_before(order@, i) - 500 * (i - ones_before(order@, i)) by {
            lemma_ones_before_nonneg(order@, i);
            lemma_ones_before_le(order@, i, order@.len() as int);
            assert(xs@.map_values(|v: i128| v as int)[ones_before(order@, i)] == xs@[ones_before(
                order@,
                i,
            )] as int);
        }
    }
    xs
}

proof fn lemma_spawn_plan(order: Seq<char>, n: nat)
    requires
        n <= order.len(),
    ensures
        forall|i: int|
            0 <= i < spawn_plan(order, n).0.len() - 1 ==> #[trigger] spawn_plan(order, n).0[i]
                - spawn_plan(order, n).0[i + 1] >= ENEMY_GAP,
        spawn_plan(order, n).0.len() > 0 ==> spawn_plan(order, n).0.last() - spawn_plan(
            order,
            n,
        ).1 >= ENEMY_GAP,
        forall|i: int|
            0 <= i < spawn_plan(order, n).0.len() ==> #[trigger] spawn_plan(order, n).0[i]
                <= START_X,
        spawn_plan(order, n).1 <= START_X,
    decreases n,
{
    if n > 0 {
        lemma_spawn_plan(order, (n - 1) as nat);
    }
}

/// Enemies queue up without overlapping: each spawned enemy stands at
/// least 75 pixels behind (to the left of) the one spawned before it, and
/// none stands ahead of the start.
pub proof fn lemma_spawn_queue(order: Seq<char>)
    ensures
        forall|i: int|
            0 <= i < spawn_xs(order).len() - 1 ==> #[trigger] spawn_xs(order)[i] - spawn_xs(
                order,
            )[i + 1] >= ENEMY_GAP,
        forall|i: int| 0 <= i < spawn_xs(order).len() ==> #[trigger] spawn_xs(order)[i] <= START_X,
{
    lemma_spawn_plan(order, order.len());
}

/// Number of `'1'` characters among the first `n` characters of `order`.
pub open spec fn ones_before(order: Seq<char>, n: int) -> int
    decreases n,
{
    if n <= 0 {
        0
    } else {
        ones_before(order, n - 1) + if order[n - 1] == '1' {
            1int
        } else {
            0int
        }
    }
}

proof fn lemma_spawn_counts(order: Seq<char>, n: nat)
    requires
        n <= order.len(),
    ensures
        spawn_plan(order, n).0.len() == ones_before(order, n as int),
        spawn_plan(order, n).1 == START_X - ENEMY_GAP * ones_before(order, n as int) - WAVE_GAP * (
        n - ones_before(order, n as int)),
        forall|i: int|
            #![trigger order[i]]
            0 <= i < n && order[i] == '1' ==> spawn_plan(order, n).0[ones_before(order, i)]
                == START_X - ENEMY_GAP * ones_before(order, i) - WAVE_GAP * (i - ones_before(
                order,
                i,
            )),
        0 <= ones_before(order, n as int) <= n,
    decreases n,
{
    if n > 0 {
        lemma_spawn_counts(order, (n - 1) as nat);
        let prev = spawn_plan(order, (n - 1) as nat).0;
        let next = spawn_plan(order, (n - 1) as nat).1;
        let cur = spawn_plan(order, n).0;
        if order[n - 1] == '1' {
            assert(cur == prev.push(next));
        } else {
            assert(cur == prev);
        }
        assert forall|i: int|
            #![trigger order[i]]
            0 <= i < n && order[i] == '1' implies cur[ones_before(order, i)] == START_X - ENEMY_GAP
            * ones_before(order, i) - WAVE_GAP * (i - ones_before(order, i)) by {
            lemma_ones_before_nonneg(order, i);
            if i < n - 1 {
                lemma_ones_before_le(order, i, n - 1);
                assert(prev.len() == ones_before(order, n - 1));
                assert(cur[ones_before(order, i)] == prev[ones_before(order, i)]);
            }
        }
    }
}

proof fn lemma_ones_before_nonneg(order: Seq<char>, i: int)
    ensures
        0 <= ones_before(order, i),
    decreases i,
{
    if i > 0 {
        lemma_ones_before_nonneg(order, i - 1);
    }
}

proof fn lemma_ones_before_le(order: Seq<char>, i: int, n: int)
    requires
        0 <= i < n <= order.len(),
        order[i] == '1',
    ensures
        ones_before(order, i) < ones_before(order, n),
    decreases n - i,
{
    if n > i + 1 {
        lemma_ones_before_le(order, i, n - 1);
    }
}

/// Where every enemy of a level spawns, in closed form: the `'1'` at
/// position `i` of the order is enemy number `m`, where `m` is the number of
/// `'1'`s before it, and it stands 75 pixels further left for each `'1'`
/// before it and 500 pixels further left for each other character before it
/// (every pause character counts, whatever it is and whatever precedes it).
/// There is one enemy per `'1'`.
pub proof fn lemma_spawn_closed_form(order: Seq<char>)
    ensures
        spawn_xs(order).len() == ones_before(order, order.len() as int),
        forall|i: int|
            #![trigger order[i]]
            0 <= i < order.len() && order[i] == '1' ==> spawn_xs(order)[ones_before(order, i)]
                == START_X - 75 * ones_before(order, i) - 500 * (i - ones_before(order, i)),
{
    lemma_spawn_counts(order, order.len());
}

/// The axis an enemy walks along.
#[derive(Clone, Copy, Debug)]
pub enum Axis {
    X,
    Y,
}

/// What an enemy does this frame.
#[derive(Clone, Copy, Debug)]
pub enum MovementPlan {
    /// It has passed the last checkpoint and leaves the game.
    Despawn,
    /// It walks along `axis`, towards growing coordinates when `forward`,
    /// until it reaches the tile coordinate `target` on that axis.
    Walk { axis: Axis, forward: bool, target: i64 },
}

/// The checkpoint an enemy walks from: its number, and its tile
/// coordinates relative to the start.
pub struct CurrentCheckpoint {
    checkpoint_id: u32,
    x_tiles: i64,
    y_tiles: i64,
}

/// Largest distance, in tiles, one road entry can move an enemy.
pub open spec fn max_step() -> int {
    0x8000_0000
}

/// Number of checkpoints an enemy passes before it leaves, as the game
/// computes it (the count of road entries after the first two, cut to `u32`).
pub open spec fn checkpoint_limit(road: Seq<i32>) -> u32 {
    ((road.len() - 2) as int) as u32
}

impl View for CurrentCheckpoint {
    type V = (int, int, int);

    closed spec fn view(&self) -> (int, int, int) {
        (self.checkpoint_id as int, self.x_tiles as int, self.y_tiles as int)
    }
}

/// The plan of an enemy at checkpoint `cp` on `road`.
pub open spec fn plan_spec(cp: (int, int, int), road: Seq<i32>) -> MovementPlan {
    let id = cp.0;
    if id < checkpoint_limit(road) {
        let off = road[id + 2] as int;
        if id % 2 == 0 {
            MovementPlan::Walk { axis: Axis::X, forward: off > 0, target: (cp.1 + off) as i64 }
        } else {
            MovementPlan::Walk { axis: Axis::Y, forward: off > 0, target: (cp.2 + off) as i64 }
        }
    } else {
        MovementPlan::Despawn
    }
}

/// The checkpoint reached when an enemy at `cp` arrives where its plan leads.
pub open spec fn arrived_spec(cp: (int, int, int), road: Seq<i32>) -> (int, int, int) {
    let off = road[cp.0 + 2] as int;
    if cp.0 % 2 == 0 {
        (cp.0 + 1, cp.1 + off, cp.2)
    } else {
        (cp.0 + 1, cp.1, cp.2 + off)
    }
}

/// Where an enemy stands after arriving at `k` checkpoints from the start.
pub open spec fn walk_state(road: Seq<i32>, k: nat) -> (int, int, int)
    decreases k,
{
    if k == 0 {
        (0, 0, 0)
    } else {
        arrived_spec(walk_state(road, (k - 1) as nat), road)
    }
}

proof fn lemma_walk_state_id(road: Seq<i32>, k: nat)
    ensures
        walk_state(road, k).0 == k,
    decreases k,
{
    if k > 0 {
        lemma_walk_state_id(road, (k - 1) as nat);
    }
}

/// An enemy that starts at the start and arrives wherever its plan leads
/// walks exactly `checkpoint_limit` stretches: after `k` arrivals it is at
/// checkpoint `k`, it still walks while `k` is below the limit, and it
/// leaves once it reaches it.
pub proof fn lemma_enemy_walks_then_leaves(road: Seq<i32>, k: nat)
    requires
        road.len() >= 2,
        k <= checkpoint_limit(road),
    ensures
        walk_state(road, k).0 == k,
        plan_spec(walk_state(road, k), road) is Walk <==> k < checkpoint_limit(road),
{
    lemma_walk_state_id(road, k);
}

/// Sum of the road entries an enemy has walked along one axis in its first
/// `k` stretches: entries `2, 4, 6, ...` for x (`odd == false`), entries
/// `3, 5, 7, ...` for y (`odd == true`).
pub open spec fn axis_sum(road: Seq<i32>, k: nat, odd: bool) -> int
    decreases k,
{
    if k == 0 {
        0
    } else {
        axis_sum(road, (k - 1) as nat, odd) + if ((k - 1) % 2 == 1) == odd {
            road[k + 1int] as int
        } else {
            0
        }
    }
}

/// Checkpoints do not drift: after `k` arrivals an enemy's checkpoint lies
/// at the partial sums of the road entries it walked, x along even
/// stretches and y along odd ones, whatever its speed or overshoot.
pub proof fn lemma_no_drift(road: Seq<i32>, k: nat)
    ensures
        walk_state(road, k) == (k as int, axis_sum(road, k, false), axis_sum(road, k, true)),
    decreases k,
{
    if k > 0 {
        lemma_no_drift(road, (k - 1) as nat);
    }
}

/// Any enemy that starts where `CurrentCheckpoint::start` puts it and then
/// only arrives where its plan leads (as `CurrentCheckpoint::arrive` does)
/// passes through `walk_state`: its `j`-th checkpoint is checkpoint `j` at
/// the partial sums of the road.
pub proof fn lemma_arrivals_follow_walk(road: Seq<i32>, cps: Seq<(int, int, int)>)
    requires
        cps.len() > 0,
        cps[0] == (0int, 0int, 0int),
        forall|j: int|
            0 <= j < cps.len() - 1 ==> plan_spec(#[trigger] cps[j], road) is Walk && cps[j + 1]
                == arrived_spec(cps[j], road),
    ensures
        forall|j: int|
            0 <= j < cps.len() ==> #[trigger] cps[j] == walk_state(road, j as nat) && cps[j] == (
                j,
                axis_sum(road, j as nat, false),
                axis_sum(road, j as nat, true),
            ),
{
    assert forall|j: int| 0 <= j < cps.len() implies #[trigger] cps[j] == walk_state(
        road,
        j as nat,
    ) && cps[j] == (j, axis_sum(road, j as nat, false), axis_sum(road, j as nat, true)) by {
        lemma_prefix_follows_walk(road, cps, j as nat);
        lemma_no_drift(road, j as nat);
    }
}

proof fn lemma_prefix_follows_walk(road: Seq<i32>, cps: Seq<(int, int, int)>, j: nat)
    requires
        j < cps.len(),
        cps[0] == (0int, 0int, 0int),
        forall|i: int|
            0 <= i < cps.len() - 1 ==> plan_spec(#[trigger] cps[i], road) is Walk && cps[i + 1]
                == arrived_spec(cps[i], road),
    ensures
        cps[j as int] == walk_state(road, j),
    decreases j,
{
    if j > 0 {
        lemma_prefix_follows_walk(road, cps, (j - 1) as nat);
        assert(plan_spec(cps[j - 1], road) is Walk);
    }
}

proof fn lemma_cut_to_u32(v: usize)
    by (bit_vector)
    ensures
        v as u32 <= v,
{
}

impl CurrentCheckpoint {
    #[verifier::type_invariant]
    spec fn within_reach(self) -> bool {
        &&& abs(self.x_tiles as int) <= self.checkpoint_id * max_step()
        &&& abs(self.y_tiles as int) <= self.checkpoint_id * max_step()
    }

    /// A freshly spawned enemy: at checkpoint 0, on the start tile.
    pub fn start() -> (cp: Self)
        ensures
            cp@ == (0int, 0int, 0int),
    {
        CurrentCheckpoint { checkpoint_id: 0, x_tiles: 0, y_tiles: 0 }
    }

    /// The number of the checkpoint the enemy walks from.
    pub fn checkpoint_id(&self) -> (id: u32)
        ensures
            id == self@.0,
    {
        self.checkpoint_id
    }

    /// Tile x of the last checkpoint, relative to the start.
    pub fn x_tiles(&self) -> (x: i64)
        ensures
            x == self@.1,
    {
        self.x_tiles
    }

    /// Tile y of the last checkpoint, relative to the start.
    pub fn y_tiles(&self) -> (y: i64)
        ensures
            y == self@.2,
    {
        self.y_tiles
    }

    /// What the enemy does this frame: past the last checkpoint it leaves;
    /// otherwise it walks along x from even checkpoints and along y from odd
    /// ones, by the road entry two places after its checkpoint number.
    pub fn plan(&self, road: &RoadTiles) -> (plan: MovementPlan)
        requires
            road.0@.len() >= 2,
        ensures
            plan == plan_spec(self@, road.0@),
    {
        proof {
            use_type_invariant(self);
        }
        let limit = (road.0.len() - 2) as u32;
        proof {
            lemma_cut_to_u32((road.0.len() - 2) as usize);
        }
        if self.checkpoint_id < limit {
            let off = road.0[self.checkpoint_id as usize + 2];
            let forward = off > 0;
            assert(self.checkpoint_id * 0x8000_0000 + 0x8000_0000 <= i64::MAX) by (nonlinear_arith)
                requires self.checkpoint_id < 0xFFFF_FFFFu32;
            if self.checkpoint_id % 2 == 0 {
                MovementPlan::Walk { axis: Axis::X, forward, target: self.x_tiles + off as i64 }
            } else {
                MovementPlan::Walk { axis: Axis::Y, forward, target: self.y_tiles + off as i64 }
            }
        } else {
            MovementPlan::Despawn
        }
    }

    /// The enemy has reached the end of its walk: that point becomes its
    /// checkpoint, and it heads for the next one.
    pub fn arrive(&mut self, road: &RoadTiles)
        requires
            road.0@.len() >= 2,
            plan_spec(old(self)@, road.0@) is Walk,
        ensures
            final(self)@ == arrived_spec(old(self)@, road.0@),
    {
        proof {
            use_type_invariant(&*self);
        }
        let id = self.checkpoint_id;
        proof {
            lemma_cut_to_u32((road.0.len() - 2) as usize);
        }
        let off = road.0[id as usize + 2] as i64;
        assert(id * 0x8000_0000 + 0x8000_0000 <= i64::MAX) by (nonlinear_arith)
            requires id < 0xFFFF_FFFFu32;
        assert((id + 1) * 0x8000_0000 == id * 0x8000_0000 + 0x8000_0000) by (nonlinear_arith);
        if id % 2 == 0 {
            *self = CurrentCheckpoint { checkpoint_id: id + 1, x_tiles: self.x_tiles + off, y_tiles: self.y_tiles };
        } else {
            *self = CurrentCheckpoint { checkpoint_id: id + 1, x_tiles: self.x_tiles, y_tiles: self.y_tiles + off };
        }
    }
}

} // verus!
