//! Tiles and the row-major addressing of a grid.

use vstd::prelude::*;

verus! {

/// Width of the generated dungeon, in tiles.
pub const SCREEN_WIDTH: i32 = 80;

/// Height of the generated dungeon, in tiles.
pub const SCREEN_HEIGHT: i32 = 50;

/// One cell of the grid: a wall blocks movement and sight, a floor does neither.
#[derive(PartialEq, Eq, Structural, Copy, Clone, Debug)]
pub enum TileType {
    Wall,
    Floor,
}

/// `(x, y)` is a cell of a grid that is `w` wide and `h` high.
pub open spec fn in_bounds(x: int, y: int, w: int, h: int) -> bool {
    0 <= x < w && 0 <= y < h
}

/// The row-major index of the cell `(x, y)` in a grid that is `w` wide.
pub open spec fn index_of(x: int, y: int, w: int) -> int {
    y * w + x
}

/// The column of the cell with index `i` in a grid that is `w` wide.
pub open spec fn column_of(i: int, w: int) -> int {
    i % w
}

/// The row of the cell with index `i` in a grid that is `w` wide.
pub open spec fn row_of(i: int, w: int) -> int {
    i / w
}

/// Every cell of a grid has an index below the number of cells.
pub proof fn lemma_index_in_range(x: int, y: int, w: int, h: int)
    requires
        in_bounds(x, y, w, h),
    ensures
        0 <= index_of(x, y, w) < w * h,
{
    assert(0 <= y * w && y * w + w <= h * w && h * w == w * h) by (nonlinear_arith)
        requires
            0 <= y < h,
            0 < w,
    ;
}

/// Two cells of a grid with the same index are the same cell.
pub proof fn lemma_index_unique(x1: int, y1: int, x2: int, y2: int, w: int, h: int)
    requires
        in_bounds(x1, y1, w, h),
        in_bounds(x2, y2, w, h),
        index_of(x1, y1, w) == index_of(x2, y2, w),
    ensures
        x1 == x2,
        y1 == y2,
{
    assert(y1 == y2) by (nonlinear_arith)
        requires
            0 <= x1 < w,
            0 <= x2 < w,
            y1 * w + x1 == y2 * w + x2,
    ;
}

/// The cell `(x, y)` is found again from its index.
pub proof fn lemma_index_round_trip(x: int, y: int, w: int, h: int)
    requires
        in_bounds(x, y, w, h),
    ensures
        column_of(index_of(x, y, w), w) == x,
        row_of(index_of(x, y, w), w) == y,
{
    vstd::arithmetic::div_mod::lemma_fundamental_div_mod_converse(y * w + x, w, y, x);
}

/// Every index below the number of cells belongs to exactly one cell of the
/// grid: the one in column `i % w` of row `i / w`.
pub proof fn lemma_cell_of_index(i: int, w: int, h: int)
    requires
        0 < w,
        0 <= i < w * h,
    ensures
        in_bounds(column_of(i, w), row_of(i, w), w, h),
        index_of(column_of(i, w), row_of(i, w), w) == i,
        forall|x: int, y: int|
            in_bounds(x, y, w, h) && #[trigger] index_of(x, y, w) == i ==> x == column_of(i, w)
                && y == row_of(i, w),
{
    vstd::arithmetic::div_mod::lemma_fundamental_div_mod(i, w);
    vstd::arithmetic::div_mod::lemma_mod_bound(i, w);
    assert(0 <= i / w < h) by (nonlinear_arith)
        requires
            0 < w,
            0 <= i < w * h,
            i == w * (i / w) + i % w,
            0 <= i % w < w,
    ;
    assert(w * (i / w) == (i / w) * w) by (nonlinear_arith);
    assert forall|x: int, y: int|
        in_bounds(x, y, w, h) && #[trigger] index_of(x, y, w) == i implies x == column_of(i, w)
        && y == row_of(i, w) by {
        lemma_index_round_trip(x, y, w, h);
    }
}

/// The index of the cell `(x, y)` of the dungeon-sized grid.
pub fn xy_idx(x: i32, y: i32) -> (idx: usize)
    requires
        in_bounds(x as int, y as int, SCREEN_WIDTH as int, SCREEN_HEIGHT as int),
    ensures
        idx == index_of(x as int, y as int, SCREEN_WIDTH as int),
        idx < SCREEN_WIDTH * SCREEN_HEIGHT,
{
    let row: usize = y as usize;
    let column: usize = x as usize;
    let width: usize = SCREEN_WIDTH as usize;
    assert(row * width + column < SCREEN_WIDTH * SCREEN_HEIGHT) by (nonlinear_arith)
        requires
            row <= 49,
            column <= 79,
            width == 80,
            SCREEN_WIDTH == 80,
            SCREEN_HEIGHT == 50,
    ;
    row * width + column
}

} // verus!
