//! The grass layer of the map: one tile per grid cell.

use vstd::prelude::*;

verus! {

/// Width of the grass layer, in tiles.
pub const GRASS_WIDTH: u32 = 64;

/// Height of the grass layer, in tiles.
pub const GRASS_HEIGHT: u32 = 36;

/// Every cell of a `width` by `height` grid, column by column: all cells
/// with `x == 0` first (by growing `y`), then those with `x == 1`, and so on.
pub fn grid_positions(width: u32, height: u32) -> (cells: Vec<(u32, u32)>)
    requires
        width * height <= usize::MAX,
    ensures
        cells@.len() == width * height,
        forall|x: int, y: int|
            0 <= x < width && 0 <= y < height ==> #[trigger] cells@[x * height + y] == (
                x as u32,
                y as u32,
            ),
{
    let mut cells: Vec<(u32, u32)> = Vec::new();
    let mut x: u32 = 0;
    while x < width
        invariant
            0 <= x <= width,
            width * height <= usize::MAX,
            cells@.len() == x * height,
            forall|x2: int, y2: int|
                0 <= x2 < x && 0 <= y2 < height ==> #[trigger] cells@[x2 * height + y2] == (
                    x2 as u32,
                    y2 as u32,
                ),
        decreases width - x,
    {
        let mut y: u32 = 0;
        while y < height
            invariant
                0 <= x < width,
                0 <= y <= height,
                width * height <= usize::MAX,
                cells@.len() == x * height + y,
                forall|x2: int, y2: int|
                    0 <= x2 < x && 0 <= y2 < height ==> #[trigger] cells@[x2 * height + y2] == (
                        x2 as u32,
                        y2 as u32,
                    ),
                forall|y2: int| 0 <= y2 < y ==> #[trigger] cells@[x * height + y2] == (x, y2 as u32),
            decreases height - y,
        {
            assert(x * height + y < width * height) by (nonlinear_arith)
                requires x < width, y < height;
            let ghost before = cells@;
            cells.push((x, y));
            assert forall|x2: int, y2: int|
                0 <= x2 < x && 0 <= y2 < height implies #[trigger] cells@[x2 * height + y2] == (
                    x2 as u32,
                    y2 as u32,
                ) by {
                assert(x2 * height + y2 < x * height) by (nonlinear_arith)
                    requires x2 < x, y2 < height, 0 <= y2;
                assert(cells@[x2 * height + y2] == before[x2 * height + y2]);
            }
            y = y + 1;
        }
        assert forall|x2: int, y2: int|
            0 <= x2 < x + 1 && 0 <= y2 < height implies #[trigger] cells@[x2 * height + y2] == (
                x2 as u32,
                y2 as u32,
            ) by {
            if x2 == x {
                assert(cells@[x * height + y2] == (x, y2 as u32));
            }
        }
        assert(cells@.len() == (x + 1) * height) by (nonlinear_arith)
            requires cells@.len() == x * height + height;
        x = x + 1;
    }
    cells
}

} // verus!
