//! The road of a level and the tiles that pave it.

use vstd::prelude::*;

verus! {

/// A level's road: the first two entries are the start tile `(x, y)`;
/// every further entry closes one segment, segments alternating between
/// the x axis (even segments) and the y axis (odd segments).
pub struct RoadTiles(pub Vec<i32>);

pub open spec fn abs(v: int) -> int {
    if v < 0 { -v } else { v }
}

pub open spec fn fits_i32(v: int) -> bool {
    i32::MIN <= v <= i32::MAX
}

/// Number of segments of a road: one per entry after the first two.
pub open spec fn segment_count(road: Seq<i32>) -> nat {
    if road.len() >= 2 { (road.len() - 2) as nat } else { 0 }
}

/// Segment `p` runs along the x axis when `p` is even, along y otherwise.
pub open spec fn along_x(p: int) -> bool {
    p % 2 == 0
}

/// Segment `p` runs towards growing coordinates when its closing entry is positive.
pub open spec fn forward(road: Seq<i32>, p: int) -> bool {
    road[p + 2] > 0
}

/// Number of tiles laid by segment `p`.
pub open spec fn segment_len(road: Seq<i32>, p: int) -> int {
    if along_x(p) {
        abs(road[p + 2] - road[p])
    } else {
        abs(abs(road[p + 2] as int) - abs(road[p] as int))
    }
}

/// `c` moved by `k` tiles along the axis and direction of segment `p`.
pub open spec fn moved(road: Seq<i32>, p: int, c: (int, int), k: int) -> (int, int) {
    let d = if forward(road, p) { k } else { -k };
    if along_x(p) { (c.0 + d, c.1) } else { (c.0, c.1 + d) }
}

/// The tile where segment `n` starts (and where segment `n - 1` ended).
pub open spec fn cursor(road: Seq<i32>, n: nat) -> (int, int)
    decreases n,
{
    if n == 0 {
        (road[0] as int, road[1] as int)
    } else {
        let p = n - 1;
        moved(road, p, cursor(road, p as nat), segment_len(road, p))
    }
}

/// The `k`-th tile of segment `p`.
pub open spec fn segment_tile(road: Seq<i32>, p: int, k: int) -> (int, int) {
    moved(road, p, cursor(road, p as nat), k)
}

/// The tiles of segment `p`, in the order they are laid.
pub open spec fn segment_tiles(road: Seq<i32>, p: int) -> Seq<(int, int)> {
    Seq::new(segment_len(road, p) as nat, |k: int| segment_tile(road, p, k))
}

/// The tiles laid by the first `n` segments.
pub open spec fn tiles_upto(road: Seq<i32>, n: nat) -> Seq<(int, int)>
    decreases n,
{
    if n == 0 {
        Seq::empty()
    } else {
        tiles_upto(road, (n - 1) as nat) + segment_tiles(road, n - 1)
    }
}

/// All tiles of the road, in the order they are laid.
pub open spec fn road_tiles(road: Seq<i32>) -> Seq<(int, int)> {
    tiles_upto(road, segment_count(road))
}

/// The arithmetic of segment `p` stays within `i32`.
pub open spec fn segment_computable(road: Seq<i32>, p: int) -> bool {
    if along_x(p) {
        i32::MIN < road[p + 2] - road[p] <= i32::MAX
    } else {
        road[p + 2] != i32::MIN && road[p] != i32::MIN
    }
}

/// A road that can be walked with `i32` tile coordinates.
pub open spec fn road_fits(road: Seq<i32>) -> bool {
    &&& road.len() >= 2
    &&& forall|p: int| 0 <= p < segment_count(road) ==> #[trigger] segment_computable(road, p)
    &&& forall|n: nat|
        n <= segment_count(road) ==> fits_i32(#[trigger] cursor(road, n).0) && fits_i32(
            cursor(road, n).1,
        )
}

/// Widens a list of tile coordinates.
pub open spec fn points(s: Seq<(i32, i32)>) -> Seq<(int, int)> {
    s.map_values(|t: (i32, i32)| (t.0 as int, t.1 as int))
}

impl RoadTiles {
    /// The road of the first level.
    pub fn level_01() -> (r: Self)
        ensures
            r.0@ == seq![0i32, 8i32, 5i32, -5i32, 10i32, -3i32, 15i32, 2i32, -10i32],
    {
        let r = RoadTiles(vec![0, 8, 5, -5, 10, -3, 15, 2, -10]);
        assert(r.0@ == seq![0i32, 8i32, 5i32, -5i32, 10i32, -3i32, 15i32, 2i32, -10i32]);
        r
    }

    /// Whether the road can be walked with `i32` tile coordinates (the game
    /// cannot lay the tiles of any other road).
    pub fn is_walkable(&self) -> (b: bool)
        ensures
            b == road_fits(self.0@),
    {
        let road = &self.0;
        let ghost r = road@;
        if road.len() < 2 {
            return false;
        }
        let n: usize = road.len() - 2;
        let mut x: i64 = road[0] as i64;
        let mut y: i64 = road[1] as i64;
        let mut pos: usize = 0;
        assert(fits_i32(cursor(r, 0).0) && fits_i32(cursor(r, 0).1));
        while pos < n
            invariant
                r == road@,
                r == self.0@,
                r.len() >= 2,
                n == segment_count(r),
                n + 2 == road.len(),
                pos <= n,
                (x as int, y as int) == cursor(r, pos as nat),
                forall|p: int| 0 <= p < pos ==> #[trigger] segment_computable(r, p),
                forall|m: nat|
                    m <= pos ==> fits_i32(#[trigger] cursor(r, m).0) && fits_i32(cursor(r, m).1),
            decreases n - pos,
        {
            assert(fits_i32(cursor(r, pos as nat).0) && fits_i32(cursor(r, pos as nat).1));
            let a: i64 = road[pos + 2] as i64;
            let b: i64 = road[pos] as i64;
            let len: i64;
            if pos % 2 == 0 {
                let d = a - b;
                if d <= i32::MIN as i64 || d > i32::MAX as i64 {
                    assert(!segment_computable(r, pos as int));
                    return false;
                }
                len = if d < 0 { -d } else { d };
            } else {
                if a == i32::MIN as i64 || b == i32::MIN as i64 {
                    assert(!segment_computable(r, pos as int));
                    return false;
                }
                let aa = if a < 0 { -a } else { a };
                let bb = if b < 0 { -b } else { b };
                len = if aa < bb { bb - aa } else { aa - bb };
            }
            assert(len == segment_len(r, pos as int));
            let step = if a > 0 { len } else { -len };
            if pos % 2 == 0 {
                x = x + step;
            } else {
                y = y + step;
            }
            assert((x as int, y as int) == cursor(r, (pos + 1) as nat));
            if x < i32::MIN as i64 || x > i32::MAX as i64 || y < i32::MIN as i64 || y > i32::MAX as i64 {
                let ghost next = cursor(r, (pos + 1) as nat);
                assert(!(fits_i32(next.0) && fits_i32(next.1)));
                proof {
                    if road_fits(r) {
                        assert((pos + 1) as nat <= segment_count(r));
                        assert(fits_i32(cursor(r, (pos + 1) as nat).0));
                        assert(fits_i32(cursor(r, (pos + 1) as nat).1));
                    }
                }
                return false;
            }
            assert forall|m: nat| m <= pos + 1 implies fits_i32(#[trigger] cursor(r, m).0) && fits_i32(
                cursor(r, m).1,
            ) by {
                if m == pos + 1 {
                    assert(cursor(r, m) == cursor(r, (pos + 1) as nat));
                } else {
                    assert(m <= pos);
                    assert(fits_i32(cursor(r, m).0));
                    assert(fits_i32(cursor(r, m).1));
                }
            }
            pos = pos + 1;
        }
        assert(road_fits(r));
        true
    }

    /// The tiles that pave the road, in the order they are laid: segment by
    /// segment, each segment stepping one tile at a time from where the
    /// previous one ended.
    pub fn road_tile_positions(&self) -> (tiles: Vec<(i32, i32)>)
        requires
            road_fits(self.0@),
        ensures
            points(tiles@) == road_tiles(self.0@),
    {
        let road = &self.0;
        let ghost r = road@;
        let mut x_pos_tile: i32 = road[0];
        let mut y_pos_tile: i32 = road[1];
        let mut current_dir_is_x = true;
        let mut tiles: Vec<(i32, i32)> = Vec::new();
        let n: usize = road.len() - 2;
        let mut pos: usize = 0;
        assert(points(tiles@) =~= tiles_upto(r, 0));
        while pos < n
            invariant
                r == road@,
                road_fits(r),
                n == segment_count(r),
                n + 2 == road.len(),
                pos <= n,
                current_dir_is_x == along_x(pos as int),
                (x_pos_tile as int, y_pos_tile as int) == cursor(r, pos as nat),
                points(tiles@) == tiles_upto(r, pos as nat),
            decreases n - pos,
        {
            assert(segment_computable(r, pos as int));
            assert(fits_i32(cursor(r, (pos + 1) as nat).0) && fits_i32(cursor(r, (pos + 1) as nat).1));
            let dir: i32 = if road[pos + 2] > 0 { 1 } else { -1 };
            let count: i32 = if current_dir_is_x {
                let d: i32 = road[pos + 2] - road[pos];
                if d < 0 { -d } else { d }
            } else {
                let a: i32 = if road[pos + 2] < 0 { -road[pos + 2] } else { road[pos + 2] };
                let b: i32 = if road[pos] < 0 { -road[pos] } else { road[pos] };
                if a < b { b - a } else { a - b }
            };
            assert(count == segment_len(r, pos as int));
            let ghost start = cursor(r, pos as nat);
            let ghost before = tiles_upto(r, pos as nat);
            let mut k: i32 = 0;
            while k < count
                invariant
                    r == road@,
                    0 <= k <= count,
                    count == segment_len(r, pos as int),
                    pos < n,
                    n + 2 == road.len(),
                    n == segment_count(r),
                    current_dir_is_x == along_x(pos as int),
                    dir == (if forward(r, pos as int) { 1i32 } else { -1i32 }),
                    start == cursor(r, pos as nat),
                    fits_i32(cursor(r, (pos + 1) as nat).0),
                    fits_i32(cursor(r, (pos + 1) as nat).1),
                    fits_i32(start.0) && fits_i32(start.1),
                    (x_pos_tile as int, y_pos_tile as int) == moved(r, pos as int, start, k as int),
                    points(tiles@) == before + segment_tiles(r, pos as int).take(k as int),
                decreases count - k,
            {
                let ghost old_tiles = tiles@;
                tiles.push((x_pos_tile, y_pos_tile));
                assert(points(tiles@) =~= points(old_tiles).push((x_pos_tile as int, y_pos_tile as int)));
                assert(segment_tiles(r, pos as int).take(k + 1) =~= segment_tiles(r, pos as int).take(k as int).push(segment_tile(r, pos as int, k as int)));
                if current_dir_is_x {
                    x_pos_tile = x_pos_tile + dir;
                } else {
                    y_pos_tile = y_pos_tile + dir;
                }
                k = k + 1;
            }
            assert(segment_tiles(r, pos as int).take(k as int) =~= segment_tiles(r, pos as int));
            current_dir_is_x = !current_dir_is_x;
            pos = pos + 1;
        }
        tiles
    }
}

} // verus!

verus! {

/// Two tiles share a side.
pub open spec fn adjacent(a: (int, int), b: (int, int)) -> bool {
    abs(a.0 - b.0) + abs(a.1 - b.1) == 1
}

proof fn lemma_tiles_upto(road: Seq<i32>, n: nat)
    requires
        road.len() >= 2,
        n <= segment_count(road),
    ensures
        forall|i: int|
            0 <= i < tiles_upto(road, n).len() - 1 ==> adjacent(
                #[trigger] tiles_upto(road, n)[i],
                tiles_upto(road, n)[i + 1],
            ),
        tiles_upto(road, n).len() > 0 ==> adjacent(tiles_upto(road, n).last(), cursor(road, n)),
        tiles_upto(road, n).len() > 0 ==> tiles_upto(road, n)[0] == cursor(road, 0),
        tiles_upto(road, n).len() == 0 ==> cursor(road, n) == cursor(road, 0),
    decreases n,
{
    if n > 0 {
        let p = (n - 1) as nat;
        lemma_tiles_upto(road, p);
        let prev = tiles_upto(road, p);
        let seg = segment_tiles(road, p as int);
        let all = tiles_upto(road, n);
        assert(all == prev + seg);
        let c = cursor(road, p);
        assert forall|i: int| 0 <= i < all.len() - 1 implies adjacent(
            #[trigger] all[i],
            all[i + 1],
        ) by {
            if i + 1 < prev.len() {
                assert(all[i] == prev[i] && all[i + 1] == prev[i + 1]);
            } else if i + 1 == prev.len() {
                assert(all[i] == prev.last());
                assert(all[i + 1] == seg[0]);
                assert(seg[0] == moved(road, p as int, c, 0));
            } else {
                let k = i - prev.len();
                assert(all[i] == seg[k] && all[i + 1] == seg[k + 1]);
            }
        }
        if seg.len() > 0 {
            assert(all.last() == seg[seg.len() - 1]);
        } else {
            assert(all =~= prev);
        }
        if prev.len() > 0 {
            assert(all[0] == prev[0]);
        } else if seg.len() > 0 {
            assert(all[0] == seg[0]);
        }
    }
}

/// The road is one connected path: every tile shares a side with the tile
/// laid just before it.
pub proof fn lemma_road_is_connected(road: Seq<i32>)
    requires
        road.len() >= 2,
    ensures
        forall|i: int|
            0 <= i < road_tiles(road).len() - 1 ==> adjacent(
                #[trigger] road_tiles(road)[i],
                road_tiles(road)[i + 1],
            ),
{
    lemma_tiles_upto(road, segment_count(road));
}

/// The first tile of the road is its start tile, the first two entries.
pub proof fn lemma_road_starts_at_start_tile(road: Seq<i32>)
    requires
        road.len() >= 2,
    ensures
        road_tiles(road).len() > 0 ==> road_tiles(road)[0] == (road[0] as int, road[1] as int),
{
    lemma_tiles_upto(road, segment_count(road));
}

proof fn lemma_tiles_upto_prefix(road: Seq<i32>, m: nat, n: nat)
    requires
        m <= n,
    ensures
        tiles_upto(road, m).len() <= tiles_upto(road, n).len(),
        forall|i: int|
            0 <= i < tiles_upto(road, m).len() ==> #[trigger] tiles_upto(road, n)[i] == tiles_upto(
                road,
                m,
            )[i],
    decreases n,
{
    if n > m {
        lemma_tiles_upto_prefix(road, m, (n - 1) as nat);
        assert(segment_len(road, n - 1) >= 0);
    }
}

/// Inside a segment the tiles step one by one from its first tile along the
/// segment's axis (x for even segments, y for odd ones): towards growing
/// coordinates when the segment's closing entry is positive, towards
/// smaller ones otherwise, on either axis. `tiles_upto(road, p).len()` is
/// the index of the first tile of segment `p`.
pub proof fn lemma_segment_steps(road: Seq<i32>, p: nat, k: int)
    requires
        road.len() >= 2,
        p < segment_count(road),
        0 <= k < segment_len(road, p as int),
    ensures
        ({
            let tiles = road_tiles(road);
            let first = tiles_upto(road, p).len();
            let step = if road[p + 2int] > 0 {
                k
            } else {
                -k
            };
            &&& first + k < tiles.len()
            &&& tiles[first + k] == (if p % 2 == 0 {
                (tiles[first as int].0 + step, tiles[first as int].1)
            } else {
                (tiles[first as int].0, tiles[first as int].1 + step)
            })
        }),
{
    let n = segment_count(road);
    lemma_tiles_upto_prefix(road, p + 1, n);
    let first = tiles_upto(road, p).len();
    let upto = tiles_upto(road, (p + 1) as nat);
    assert(upto == tiles_upto(road, p) + segment_tiles(road, p as int));
    assert(upto[first + k] == segment_tile(road, p as int, k));
    assert(upto[first as int] == segment_tile(road, p as int, 0));
}

} // verus!
