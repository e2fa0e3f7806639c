//! The dungeon map: a grid of tiles and the rooms carved into it.

use vstd::prelude::*;
use crate::grid::{
    in_bounds, index_of, lemma_index_in_range, lemma_index_unique, TileType, SCREEN_HEIGHT,
    SCREEN_WIDTH,
};
use crate::random::roll_dice;
use crate::rect::Rect;
use rltk::RandomNumberGenerator;

verus! {

/// How many rooms map generation offers to the grid.
pub const MAX_ROOMS: usize = 30;

/// The least extent of a generated room along either axis.
pub const MIN_SIZE: i32 = 6;

/// The greatest extent of a generated room along either axis.
pub const MAX_SIZE: i32 = 10;

/// A grid of tiles, stored row by row, and the rooms placed on it in the
/// order in which they were accepted.
pub struct DungeonMap {
    pub tiles: Vec<TileType>,
    pub rooms: Vec<Rect>,
    pub width: i32,
    pub height: i32,
}

/// `room` can be placed on a grid that is `w` wide and `h` high: it lies on
/// the grid and has at least one cell inside its own border.
pub open spec fn placeable(room: Rect, w: int, h: int) -> bool {
    &&& 0 <= room.x1
    &&& room.x1 + 2 <= room.x2
    &&& room.x2 <= w - 1
    &&& 0 <= room.y1
    &&& room.y1 + 2 <= room.y2
    &&& room.y2 <= h - 1
}

/// `v` lies between `a` and `b`, in whichever order they come.
pub open spec fn between(a: int, v: int, b: int) -> bool {
    (a <= v <= b) || (b <= v <= a)
}

/// `(x, y)` lies on the corridor from `a` to `b`: along the row of `a` to the
/// column of `b`, then along that column to `b`.
pub open spec fn on_corridor(a: (int, int), b: (int, int), x: int, y: int) -> bool {
    (y == a.1 && between(a.0, x, b.0)) || (x == b.0 && between(a.1, y, b.1))
}

/// `room` may join the rooms `placed` on a grid that is `w` wide and `h`
/// high: it can be placed there and shares no cell with any of them.
pub open spec fn fits(placed: Seq<Rect>, room: Rect, w: int, h: int) -> bool {
    placeable(room, w, h) && forall|i: int|
        0 <= i < placed.len() ==> !(#[trigger] placed[i]).intersects(room)
}

/// The rooms that are accepted when `candidates` are offered one after the
/// other to a grid that is `w` wide and `h` high: each one that fits with
/// those accepted before it, in the order of the offers.
pub open spec fn accept_all(candidates: Seq<Rect>, w: int, h: int) -> Seq<Rect>
    decreases candidates.len(),
{
    if candidates.len() == 0 {
        Seq::empty()
    } else {
        let earlier = accept_all(candidates.drop_last(), w, h);
        if fits(earlier, candidates.last(), w, h) {
            earlier.push(candidates.last())
        } else {
            earlier
        }
    }
}

/// The centre of `room` as a cell.
pub open spec fn center_of(room: Rect) -> (int, int) {
    (room.center_x(), room.center_y())
}

impl DungeonMap {
    /// The grid has a cell, its cells can be counted in an `i32`, and there
    /// is one tile for each; every room can be placed on it.
    pub open spec fn wf(self) -> bool {
        &&& 0 < self.width
        &&& 0 < self.height
        &&& self.width * self.height <= i32::MAX
        &&& self.tiles@.len() == self.width * self.height
        &&& forall|i: int|
            0 <= i < self.rooms@.len() ==> placeable(
                #[trigger] self.rooms@[i],
                self.width as int,
                self.height as int,
            )
    }

    /// `(x, y)` is a cell of this grid.
    pub open spec fn has_cell(self, x: int, y: int) -> bool {
        in_bounds(x, y, self.width as int, self.height as int)
    }

    /// `(x, y)` is a cell of the outermost ring of the grid.
    pub open spec fn on_border(self, x: int, y: int) -> bool {
        self.has_cell(x, y) && (x == 0 || x == self.width - 1 || y == 0 || y == self.height - 1)
    }

    /// `(x, y)` is a cell of the grid that is not on its outermost ring.
    pub open spec fn inside_border(self, x: int, y: int) -> bool {
        0 < x < self.width - 1 && 0 < y < self.height - 1
    }

    /// The tile at `(x, y)`.
    pub open spec fn tile(self, x: int, y: int) -> TileType
        recommends
            self.has_cell(x, y),
    {
        self.tiles@[index_of(x, y, self.width as int)]
    }

    /// The centre of the room with index `i`.
    pub open spec fn room_center(self, i: int) -> (int, int)
        recommends
            0 <= i < self.rooms@.len(),
    {
        center_of(self.rooms@[i])
    }

    /// Every cell of the outermost ring is a wall.
    pub open spec fn border_walled(self) -> bool {
        forall|x: int, y: int| self.on_border(x, y) ==> #[trigger] self.tile(x, y) == TileType::Wall
    }

    /// No two rooms share a cell, borders included.
    pub open spec fn rooms_disjoint(self) -> bool {
        forall|i: int, j: int|
            0 <= i < j < self.rooms@.len() ==> !(#[trigger] self.rooms@[i]).intersects(
                #[trigger] self.rooms@[j],
            )
    }

    /// Every cell of the corridor from `a` to `b` is a floor of this grid.
    pub open spec fn corridor_open(self, a: (int, int), b: (int, int)) -> bool {
        forall|x: int, y: int| #[trigger]
            on_corridor(a, b, x, y) ==> self.has_cell(x, y) && self.tile(x, y) == TileType::Floor
    }

    /// The corridor from each room's centre to that of the room accepted after
    /// it is open.
    pub open spec fn rooms_connected(self) -> bool {
        forall|i: int|
            0 < i < self.rooms@.len() ==> self.corridor_open(
                #[trigger] self.room_center(i - 1),
                self.room_center(i),
            )
    }

    /// Whether the map is well formed.
    pub fn is_well_formed(&self) -> (ok: bool)
        ensures
            ok == self.wf(),
    {
        if self.width <= 0 || self.height <= 0 || self.width > i32::MAX / self.height {
            proof {
                if 0 < self.width && 0 < self.height {
                    assert(self.width * self.height > i32::MAX) by (nonlinear_arith)
                        requires
                            0 < self.height,
                            self.width > i32::MAX / self.height,
                    ;
                }
            }
            return false;
        }
        assert(self.width * self.height <= i32::MAX) by (nonlinear_arith)
            requires
                0 < self.width,
                0 < self.height,
                self.width <= i32::MAX / self.height,
        ;
        if self.tiles.len() != (self.width * self.height) as usize {
            return false;
        }
        let mut i: usize = 0;
        while i < self.rooms.len()
            invariant
                i <= self.rooms@.len(),
                0 < self.width,
                0 < self.height,
                self.width * self.height <= i32::MAX,
                self.tiles@.len() == self.width * self.height,
                forall|k: int|
                    0 <= k < i ==> placeable(
                        #[trigger] self.rooms@[k],
                        self.width as int,
                        self.height as int,
                    ),
            decreases self.rooms@.len() - i,
        {
            let room = self.rooms[i];
            if room.x1 < 0 || room.x2 < 2 || room.x1 > room.x2 - 2 || room.x2 > self.width - 1
                || room.y1 < 0 || room.y2 < 2 || room.y1 > room.y2 - 2 || room.y2 > self.height
                - 1 {
                return false;
            }
            i += 1;
        }
        true
    }

    /// A grid of `width` by `height` tiles, each of them `fill`, without rooms;
    /// `None` where a dimension is not positive or the number of cells does
    /// not fit in an `i32`.
    pub fn new(width: i32, height: i32, fill: TileType) -> (made: Option<DungeonMap>)
        ensures
            made.is_some() <==> 0 < width && 0 < height && width * height <= i32::MAX,
            made.is_some() ==> {
                let map = made.unwrap();
                &&& map.wf()
                &&& map.width == width
                &&& map.height == height
                &&& map.rooms@.len() == 0
                &&& forall|x: int, y: int| map.has_cell(x, y) ==> #[trigger] map.tile(x, y) == fill
            },
    {
        if width <= 0 || height <= 0 || width > i32::MAX / height {
            proof {
                if 0 < width && 0 < height {
                    assert(width * height > i32::MAX) by (nonlinear_arith)
                        requires
                            0 < height,
                            width > i32::MAX / height,
                    ;
                }
            }
            return None;
        }
        assert(width * height <= i32::MAX) by (nonlinear_arith)
            requires
                0 < width,
                0 < height,
                width <= i32::MAX / height,
        ;
        let count: usize = (width * height) as usize;
        let mut tiles: Vec<TileType> = Vec::new();
        let mut i: usize = 0;
        while i < count
            invariant
                i <= count,
                tiles@.len() == i,
                forall|k: int| 0 <= k < i ==> tiles@[k] == fill,
            decreases count - i,
        {
            tiles.push(fill);
            i += 1;
        }
        let map = DungeonMap { tiles, rooms: Vec::new(), width, height };
        proof {
            assert forall|x: int, y: int| map.has_cell(x, y) implies #[trigger] map.tile(x, y)
                == fill by {
                lemma_index_in_range(x, y, width as int, height as int);
            }
        }
        Some(map)
    }

    /// Whether `(x, y)` is a cell of this grid.
    pub fn in_bounds(&self, x: i32, y: i32) -> (inside: bool)
        ensures
            inside == self.has_cell(x as int, y as int),
    {
        0 <= x && x < self.width && 0 <= y && y < self.height
    }

    /// The index of the cell `(x, y)` among the tiles.
    pub fn xy_idx(&self, x: i32, y: i32) -> (idx: usize)
        requires
            self.wf(),
            self.has_cell(x as int, y as int),
        ensures
            idx == index_of(x as int, y as int, self.width as int),
            idx < self.tiles@.len(),
    {
        proof {
            lemma_index_in_range(x as int, y as int, self.width as int, self.height as int);
            assert(0 <= y * self.width <= y * self.width + x) by (nonlinear_arith)
                requires
                    0 <= y,
                    0 <= x,
                    0 < self.width,
            ;
        }
        (y as usize * self.width as usize) + x as usize
    }

    /// The tile at `(x, y)`, or `None` where the grid has no such cell.
    pub fn get_tile(&self, x: i32, y: i32) -> (found: Option<TileType>)
        requires
            self.wf(),
        ensures
            found.is_some() <==> self.has_cell(x as int, y as int),
            found.is_some() ==> found.unwrap() == self.tile(x as int, y as int),
    {
        if self.in_bounds(x, y) {
            let idx = self.xy_idx(x, y);
            Some(self.tiles[idx])
        } else {
            None
        }
    }

    /// Puts `tile` at `(x, y)` and says whether the grid has such a cell;
    /// where it has none, nothing changes.
    pub fn set_tile(&mut self, x: i32, y: i32, tile: TileType) -> (done: bool)
        requires
            old(self).wf(),
        ensures
            final(self).wf(),
            final(self).width == old(self).width,
            final(self).height == old(self).height,
            final(self).rooms == old(self).rooms,
            done == old(self).has_cell(x as int, y as int),
            forall|a: int, b: int|
                old(self).has_cell(a, b) ==> #[trigger] final(self).tile(a, b) == (if done && a == x
                    && b == y {
                    tile
                } else {
                    old(self).tile(a, b)
                }),
    {
        if !self.in_bounds(x, y) {
            return false;
        }
        let idx = self.xy_idx(x, y);
        self.tiles.set(idx, tile);
        proof {
            let w = self.width as int;
            let h = self.height as int;
            assert forall|a: int, b: int| old(self).has_cell(a, b) implies #[trigger] self.tile(
                a,
                b,
            ) == (if a == x && b == y {
                tile
            } else {
                old(self).tile(a, b)
            }) by {
                lemma_index_in_range(a, b, w, h);
                if index_of(a, b, w) == index_of(x as int, y as int, w) {
                    lemma_index_unique(a, b, x as int, y as int, w, h);
                }
            }
        }
        true
    }

    /// Puts `tile` on every cell `(x, y)` of the grid with `x_lo <= x <= x_hi`
    /// and `y_lo <= y <= y_hi`, and leaves the other cells as they are.
    pub fn fill_box(&mut self, x_lo: i32, x_hi: i32, y_lo: i32, y_hi: i32, tile: TileType)
        requires
            old(self).wf(),
        ensures
            final(self).wf(),
            final(self).width == old(self).width,
            final(self).height == old(self).height,
            final(self).rooms == old(self).rooms,
            forall|a: int, b: int|
                old(self).has_cell(a, b) ==> #[trigger] final(self).tile(a, b) == (if x_lo <= a
                    <= x_hi && y_lo <= b <= y_hi {
                    tile
                } else {
                    old(self).tile(a, b)
                }),
    {
        let left: i32 = if x_lo < 0 { 0 } else { x_lo };
        let right: i32 = if x_hi > self.width - 1 { self.width - 1 } else { x_hi };
        let top: i32 = if y_lo < 0 { 0 } else { y_lo };
        let bottom: i32 = if y_hi > self.height - 1 { self.height - 1 } else { y_hi };
        self.fill_cells(left, right, top, bottom, tile);
    }

    /// Puts `tile` on every cell of a box that lies on the grid.
    fn fill_cells(&mut self, x_lo: i32, x_hi: i32, y_lo: i32, y_hi: i32, tile: TileType)
        requires
            old(self).wf(),
            0 <= x_lo,
            x_hi < old(self).width,
            0 <= y_lo,
            y_hi < old(self).height,
        ensures
            final(self).wf(),
            final(self).width == old(self).width,
            final(self).height == old(self).height,
            final(self).rooms == old(self).rooms,
            forall|a: int, b: int|
                old(self).has_cell(a, b) ==> #[trigger] final(self).tile(a, b) == (if x_lo <= a
                    <= x_hi && y_lo <= b <= y_hi {
                    tile
                } else {
                    old(self).tile(a, b)
                }),
    {
        if x_lo > x_hi || y_lo > y_hi {
            return ;
        }
        let mut y: i32 = y_lo;
        while y <= y_hi
            invariant
                self.wf(),
                self.width == old(self).width,
                self.height == old(self).height,
                self.rooms == old(self).rooms,
                0 <= x_lo <= x_hi < self.width,
                0 <= y_lo <= y <= y_hi + 1 <= self.height,
                forall|a: int, b: int|
                    old(self).has_cell(a, b) ==> #[trigger] self.tile(a, b) == (if x_lo <= a
                        <= x_hi && y_lo <= b < y {
                        tile
                    } else {
                        old(self).tile(a, b)
                    }),
            decreases y_hi + 1 - y,
        {
            let mut x: i32 = x_lo;
            while x <= x_hi
                invariant
                    self.wf(),
                    self.width == old(self).width,
                    self.height == old(self).height,
                    self.rooms == old(self).rooms,
                    0 <= x_lo <= x <= x_hi + 1 <= self.width,
                    0 <= y_lo <= y <= y_hi < self.height,
                    forall|a: int, b: int|
                        old(self).has_cell(a, b) ==> #[trigger] self.tile(a, b) == (if x_lo <= a
                            <= x_hi && (y_lo <= b < y || (b == y && a < x)) {
                            tile
                        } else {
                            old(self).tile(a, b)
                        }),
                decreases x_hi + 1 - x,
            {
                self.set_tile(x, y, tile);
                x += 1;
            }
            y += 1;
        }
    }

    /// Walls the outermost ring of the grid and leaves the other cells as
    /// they are.
    pub fn stamp_border(&mut self)
        requires
            old(self).wf(),
        ensures
            final(self).wf(),
            final(self).width == old(self).width,
            final(self).height == old(self).height,
            final(self).rooms == old(self).rooms,
            final(self).border_walled(),
            forall|a: int, b: int|
                old(self).has_cell(a, b) && !old(self).on_border(a, b) ==> #[trigger] final(self)
                    .tile(a, b) == old(self).tile(a, b),
    {
        let right: i32 = self.width - 1;
        let bottom: i32 = self.height - 1;
        self.fill_box(0, right, 0, 0, TileType::Wall);
        self.fill_box(0, right, bottom, bottom, TileType::Wall);
        self.fill_box(0, 0, 0, bottom, TileType::Wall);
        self.fill_box(right, right, 0, bottom, TileType::Wall);
    }

    /// Opens the cells inside the border of `room` as floor, as far as they lie
    /// inside the outermost ring of the grid, and leaves the others as they are.
    pub fn apply_room_to_map(&mut self, room: &Rect)
        requires
            old(self).wf(),
        ensures
            final(self).wf(),
            final(self).width == old(self).width,
            final(self).height == old(self).height,
            final(self).rooms == old(self).rooms,
            forall|a: int, b: int|
                old(self).has_cell(a, b) ==> #[trigger] final(self).tile(a, b) == (if room.interior(
                    a,
                    b,
                ) && old(self).inside_border(a, b) {
                    TileType::Floor
                } else {
                    old(self).tile(a, b)
                }),
    {
        let right: i32 = self.width - 1;
        let bottom: i32 = self.height - 1;
        if room.x1 >= right || room.x2 <= 1 || room.y1 >= bottom || room.y2 <= 1 {
            return ;
        }
        let x_lo: i32 = if room.x1 < 0 { 1 } else { room.x1 + 1 };
        let x_hi: i32 = if room.x2 > right { right - 1 } else { room.x2 - 1 };
        let y_lo: i32 = if room.y1 < 0 { 1 } else { room.y1 + 1 };
        let y_hi: i32 = if room.y2 > bottom { bottom - 1 } else { room.y2 - 1 };
        self.fill_box(x_lo, x_hi, y_lo, y_hi, TileType::Floor);
    }

    /// Opens as floor the cells of row `y` from column `x1` to column `x2`, in
    /// whichever order they come, as far as they lie inside the outermost ring
    /// of the grid, and leaves the others as they are.
    pub fn apply_horizontal_tunnel(&mut self, x1: i32, x2: i32, y: i32)
        requires
            old(self).wf(),
        ensures
            final(self).wf(),
            final(self).width == old(self).width,
            final(self).height == old(self).height,
            final(self).rooms == old(self).rooms,
            forall|a: int, b: int|
                old(self).has_cell(a, b) ==> #[trigger] final(self).tile(a, b) == (if b == y
                    && between(x1 as int, a, x2 as int) && old(self).inside_border(a, b) {
                    TileType::Floor
                } else {
                    old(self).tile(a, b)
                }),
    {
        let right: i32 = self.width - 1;
        let first: i32 = if x1 <= x2 { x1 } else { x2 };
        let last: i32 = if x1 <= x2 { x2 } else { x1 };
        if y <= 0 || y >= self.height - 1 || first >= right || last <= 0 {
            return ;
        }
        let x_lo: i32 = if first < 1 { 1 } else { first };
        let x_hi: i32 = if last > right - 1 { right - 1 } else { last };
        self.fill_box(x_lo, x_hi, y, y, TileType::Floor);
    }

    /// Opens as floor the cells of column `x` from row `y1` to row `y2`, in
    /// whichever order they come, as far as they lie inside the outermost ring
    /// of the grid, and leaves the others as they are.
    pub fn apply_vertical_tunnel(&mut self, y1: i32, y2: i32, x: i32)
        requires
            old(self).wf(),
        ensures
            final(self).wf(),
            final(self).width == old(self).width,
            final(self).height == old(self).height,
            final(self).rooms == old(self).rooms,
            forall|a: int, b: int|
                old(self).has_cell(a, b) ==> #[trigger] final(self).tile(a, b) == (if a == x
                    && between(y1 as int, b, y2 as int) && old(self).inside_border(a, b) {
                    TileType::Floor
                } else {
                    old(self).tile(a, b)
                }),
    {
        let bottom: i32 = self.height - 1;
        let first: i32 = if y1 <= y2 { y1 } else { y2 };
        let last: i32 = if y1 <= y2 { y2 } else { y1 };
        if x <= 0 || x >= self.width - 1 || first >= bottom || last <= 0 {
            return ;
        }
        let y_lo: i32 = if first < 1 { 1 } else { first };
        let y_hi: i32 = if last > bottom - 1 { bottom - 1 } else { last };
        self.fill_box(x, x, y_lo, y_hi, TileType::Floor);
    }

    /// Offers `room` to the map. It is accepted where it fits with the rooms
    /// already there. An accepted room is opened as floor inside its border,
    /// joined to the room accepted before it by a corridor from centre to
    /// centre, and appended to the rooms. A rejected room changes nothing.
    pub fn try_add_room(&mut self, room: Rect) -> (accepted: bool)
        requires
            old(self).wf(),
        ensures
            final(self).wf(),
            final(self).width == old(self).width,
            final(self).height == old(self).height,
            accepted == fits(old(self).rooms@, room, old(self).width as int, old(self).height as int),
            final(self).rooms@ == (if accepted {
                old(self).rooms@.push(room)
            } else {
                old(self).rooms@
            }),
            forall|a: int, b: int|
                old(self).has_cell(a, b) ==> #[trigger] final(self).tile(a, b) == (if accepted
                    && old(self).inside_border(a, b) && (room.interior(a, b) || (old(self).rooms@.len()
                    > 0 && on_corridor(center_of(old(self).rooms@.last()), center_of(room), a, b))) {
                    TileType::Floor
                } else {
                    old(self).tile(a, b)
                }),
            old(self).border_walled() ==> final(self).border_walled(),
            old(self).rooms_disjoint() ==> final(self).rooms_disjoint(),
            old(self).rooms_connected() ==> final(self).rooms_connected(),
    {
        if room.x1 < 0 || room.x2 < 2 || room.x1 > room.x2 - 2 || room.x2 > self.width - 1 {
            return false;
        }
        if room.y1 < 0 || room.y2 < 2 || room.y1 > room.y2 - 2 || room.y2 > self.height - 1 {
            return false;
        }
        let count: usize = self.rooms.len();
        let mut i: usize = 0;
        while i < count
            invariant
                i <= count,
                count == self.rooms@.len(),
                *self == *old(self),
                self.wf(),
                forall|k: int| 0 <= k < i ==> !(#[trigger] self.rooms@[k]).intersects(room),
            decreases count - i,
        {
            if room.intersect(&self.rooms[i]) {
                return false;
            }
            i += 1;
        }
        self.apply_room_to_map(&room);
        let ghost opened = *self;
        let ghost mut along = *self;
        if count > 0 {
            let (prev_x, prev_y) = self.rooms[count - 1].center();
            let (new_x, new_y) = room.center();
            self.apply_horizontal_tunnel(prev_x, new_x, prev_y);
            proof {
                along = *self;
            }
            self.apply_vertical_tunnel(prev_y, new_y, new_x);
        }
        let ghost carved = *self;
        self.rooms.push(room);
        proof {
            let before = *old(self);
            let after = *self;
            assert(after.rooms@ == before.rooms@.push(room));
            assert forall|a: int, b: int| before.has_cell(a, b) implies #[trigger] after.tile(a, b)
                == (if before.inside_border(a, b) && (room.interior(a, b) || (before.rooms@.len() > 0
                && on_corridor(center_of(before.rooms@.last()), center_of(room), a, b))) {
                TileType::Floor
            } else {
                before.tile(a, b)
            }) by {
                assert(along.tile(a, b) == opened.tile(a, b) || along.tile(a, b) == TileType::Floor);
                assert(after.tile(a, b) == carved.tile(a, b));
            }
            assert forall|k: int| 0 <= k < after.rooms@.len() implies placeable(
                #[trigger] after.rooms@[k],
                after.width as int,
                after.height as int,
            ) by {
                if k < before.rooms@.len() {
                    assert(after.rooms@[k] == before.rooms@[k]);
                }
            }
            if before.rooms_disjoint() {
                assert forall|k: int, j: int| 0 <= k < j < after.rooms@.len() implies !(
                #[trigger] after.rooms@[k]).intersects(#[trigger] after.rooms@[j]) by {
                    assert(after.rooms@[k] == before.rooms@[k]);
                    if j < before.rooms@.len() {
                        assert(after.rooms@[j] == before.rooms@[j]);
                    }
                }
            }
            if before.rooms_connected() {
                assert forall|k: int| 0 < k < after.rooms@.len() implies after.corridor_open(
                    #[trigger] after.room_center(k - 1),
                    after.room_center(k),
                ) by {
                    assert(after.rooms@[k - 1] == before.rooms@[k - 1]);
                    if k < before.rooms@.len() {
                        assert(after.rooms@[k] == before.rooms@[k]);
                        assert(before.corridor_open(
                            before.room_center(k - 1),
                            before.room_center(k),
                        ));
                        assert forall|x: int, y: int| #[trigger]
                            on_corridor(after.room_center(k - 1), after.room_center(k), x, y)
                            implies after.has_cell(x, y) && after.tile(x, y) == TileType::Floor by {
                            assert(on_corridor(
                                before.room_center(k - 1),
                                before.room_center(k),
                                x,
                                y,
                            ));
                            assert(before.tile(x, y) == TileType::Floor);
                        }
                    } else {
                        let last = before.rooms@.last();
                        assert(placeable(last, before.width as int, before.height as int));
                    }
                }
            }
        }
        true
    }

    /// The map that comes of offering `candidates`, one after the other, to a
    /// grid of `width` by `height` floor tiles whose outermost ring has been
    /// walled; `None` where a dimension is not positive or the number of cells
    /// does not fit in an `i32`.
    pub fn place_rooms(width: i32, height: i32, candidates: &Vec<Rect>) -> (made: Option<DungeonMap>)
        ensures
            made.is_some() <==> 0 < width && 0 < height && width * height <= i32::MAX,
            made.is_some() ==> {
                let map = made.unwrap();
                &&& map.wf()
                &&& map.width == width
                &&& map.height == height
                &&& map.rooms@ == accept_all(candidates@, width as int, height as int)
                &&& forall|x: int, y: int|
                    map.has_cell(x, y) ==> #[trigger] map.tile(x, y) == (if map.on_border(x, y) {
                        TileType::Wall
                    } else {
                        TileType::Floor
                    })
                &&& map.border_walled()
                &&& map.rooms_disjoint()
                &&& map.rooms_connected()
            },
    {
        let mut map = match DungeonMap::new(width, height, TileType::Floor) {
            Some(map) => map,
            None => {
                return None;
            },
        };
        map.stamp_border();
        let mut i: usize = 0;
        while i < candidates.len()
            invariant
                i <= candidates@.len(),
                map.wf(),
                map.width == width,
                map.height == height,
                map.rooms@ == accept_all(candidates@.take(i as int), width as int, height as int),
                forall|x: int, y: int|
                    map.has_cell(x, y) ==> #[trigger] map.tile(x, y) == (if map.on_border(x, y) {
                        TileType::Wall
                    } else {
                        TileType::Floor
                    }),
                map.border_walled(),
                map.rooms_disjoint(),
                map.rooms_connected(),
            decreases candidates@.len() - i,
        {
            proof {
                let next = candidates@.take(i + 1);
                assert(next.drop_last() =~= candidates@.take(i as int));
                assert(next.last() == candidates@[i as int]);
            }
            map.try_add_room(candidates[i]);
            i += 1;
        }
        assert(candidates@.take(i as int) =~= candidates@);
        Some(map)
    }
}

/// `room` is one that map generation may draw: its extent along either axis
/// lies between `MIN_SIZE` and `MAX_SIZE`, and it lies on the dungeon-sized
/// grid without touching the last column or the last row.
pub open spec fn drawable(room: Rect) -> bool {
    &&& 0 <= room.x1
    &&& MIN_SIZE <= room.x2 - room.x1 <= MAX_SIZE
    &&& room.x2 <= SCREEN_WIDTH - 2
    &&& 0 <= room.y1
    &&& MIN_SIZE <= room.y2 - room.y1 <= MAX_SIZE
    &&& room.y2 <= SCREEN_HEIGHT - 2
}

/// The sides of the die that is rolled for a room's width and for its height.
pub open spec fn extent_die() -> int {
    MAX_SIZE - MIN_SIZE + 1
}

/// The extent that a roll of the extent die stands for.
pub open spec fn rolled_extent(roll: int) -> int {
    MIN_SIZE + roll - 1
}

/// The sides of the die that is rolled for the left column of a room, once
/// `width_roll` was rolled for its width.
pub open spec fn column_die(width_roll: int) -> int {
    SCREEN_WIDTH - rolled_extent(width_roll) - 1
}

/// The sides of the die that is rolled for the top row of a room, once
/// `height_roll` was rolled for its height.
pub open spec fn row_die(height_roll: int) -> int {
    SCREEN_HEIGHT - rolled_extent(height_roll) - 1
}

/// Each roll is one that its die can give.
pub open spec fn rolls_in_range(width_roll: int, height_roll: int, column_roll: int, row_roll: int) -> bool {
    &&& 1 <= width_roll <= extent_die()
    &&& 1 <= height_roll <= extent_die()
    &&& 1 <= column_roll <= column_die(width_roll)
    &&& 1 <= row_roll <= row_die(height_roll)
}

/// The room that four rolls stand for: its left column and its top row are
/// one less than their rolls, and it reaches as far as the rolled extents.
pub open spec fn rolled_room(width_roll: int, height_roll: int, column_roll: int, row_roll: int) -> Rect {
    Rect {
        x1: (column_roll - 1) as i32,
        y1: (row_roll - 1) as i32,
        x2: (column_roll - 1 + rolled_extent(width_roll)) as i32,
        y2: (row_roll - 1 + rolled_extent(height_roll)) as i32,
    }
}

/// The room that four rolls stand for, or `None` where one of them is a
/// roll that its die cannot give. Every room made is drawable.
pub fn room_from_rolls(width_roll: i32, height_roll: i32, column_roll: i32, row_roll: i32) -> (made:
    Option<Rect>)
    ensures
        made.is_some() == rolls_in_range(
            width_roll as int,
            height_roll as int,
            column_roll as int,
            row_roll as int,
        ),
        made.is_some() ==> made.unwrap() == rolled_room(
            width_roll as int,
            height_roll as int,
            column_roll as int,
            row_roll as int,
        ),
        made.is_some() ==> drawable(made.unwrap()) && placeable(
            made.unwrap(),
            SCREEN_WIDTH as int,
            SCREEN_HEIGHT as int,
        ),
{
    let sides: i32 = MAX_SIZE - MIN_SIZE + 1;
    if width_roll < 1 || width_roll > sides || height_roll < 1 || height_roll > sides {
        return None;
    }
    let w: i32 = MIN_SIZE + width_roll - 1;
    let h: i32 = MIN_SIZE + height_roll - 1;
    if column_roll < 1 || column_roll > SCREEN_WIDTH - w - 1 || row_roll < 1 || row_roll
        > SCREEN_HEIGHT - h - 1 {
        return None;
    }
    let x: i32 = column_roll - 1;
    let y: i32 = row_roll - 1;
    Some(Rect { x1: x, y1: y, x2: x + w, y2: y + h })
}

/// Draws a room for the dungeon-sized grid from `rng`: rolls for its width
/// and its height, then for its left column and its top row. Which room
/// comes depends on the state of `rng`; it is always a drawable one.
pub fn random_room(rng: &mut RandomNumberGenerator) -> (room: Rect)
    ensures
        drawable(room),
        placeable(room, SCREEN_WIDTH as int, SCREEN_HEIGHT as int),
{
    let width_roll: i32 = roll_dice(rng, 1, MAX_SIZE - MIN_SIZE + 1);
    let height_roll: i32 = roll_dice(rng, 1, MAX_SIZE - MIN_SIZE + 1);
    let column_roll: i32 = roll_dice(rng, 1, SCREEN_WIDTH - (MIN_SIZE + width_roll - 1) - 1);
    let row_roll: i32 = roll_dice(rng, 1, SCREEN_HEIGHT - (MIN_SIZE + height_roll - 1) - 1);
    room_from_rolls(width_roll, height_roll, column_roll, row_roll).unwrap()
}

/// Generates a dungeon: draws `MAX_ROOMS` rooms from `rng` and offers them, in
/// the order drawn, to a dungeon-sized grid of floor tiles whose outermost ring
/// has been walled. Which rooms are drawn depends on the state of `rng`;
/// whatever they are, the ring stays walled, no two accepted rooms share a
/// cell, and each accepted room is joined to the one before it.
pub fn new_map(rng: &mut RandomNumberGenerator) -> (map: DungeonMap)
    ensures
        map.wf(),
        map.width == SCREEN_WIDTH,
        map.height == SCREEN_HEIGHT,
        1 <= map.rooms@.len() <= MAX_ROOMS,
        forall|i: int| 0 <= i < map.rooms@.len() ==> drawable(#[trigger] map.rooms@[i]),
        forall|x: int, y: int|
            map.has_cell(x, y) ==> #[trigger] map.tile(x, y) == (if map.on_border(x, y) {
                TileType::Wall
            } else {
                TileType::Floor
            }),
        map.border_walled(),
        map.rooms_disjoint(),
        map.rooms_connected(),
{
    let mut candidates: Vec<Rect> = Vec::new();
    let mut i: usize = 0;
    while i < MAX_ROOMS
        invariant
            i <= MAX_ROOMS,
            candidates@.len() == i,
            forall|k: int| 0 <= k < candidates@.len() ==> drawable(#[trigger] candidates@[k]),
        decreases MAX_ROOMS - i,
    {
        let room = random_room(rng);
        candidates.push(room);
        i += 1;
    }
    let made = DungeonMap::place_rooms(SCREEN_WIDTH, SCREEN_HEIGHT, &candidates);
    proof {
        lemma_accepted_were_offered(candidates@, SCREEN_WIDTH as int, SCREEN_HEIGHT as int);
        lemma_first_is_accepted(candidates@, SCREEN_WIDTH as int, SCREEN_HEIGHT as int);
    }
    made.unwrap()
}

/// Every accepted room was offered and can be placed, and no more rooms are
/// accepted than were offered.
pub proof fn lemma_accepted_were_offered(candidates: Seq<Rect>, w: int, h: int)
    ensures
        accept_all(candidates, w, h).len() <= candidates.len(),
        forall|i: int|
            0 <= i < accept_all(candidates, w, h).len() ==> candidates.contains(
                #[trigger] accept_all(candidates, w, h)[i],
            ) && placeable(accept_all(candidates, w, h)[i], w, h),
    decreases candidates.len(),
{
    if candidates.len() > 0 {
        let earlier = accept_all(candidates.drop_last(), w, h);
        lemma_accepted_were_offered(candidates.drop_last(), w, h);
        assert forall|i: int| 0 <= i < accept_all(candidates, w, h).len() implies candidates.contains(
            #[trigger] accept_all(candidates, w, h)[i],
        ) && placeable(accept_all(candidates, w, h)[i], w, h) by {
            if i < earlier.len() {
                let j = choose|j: int|
                    0 <= j < candidates.drop_last().len() && candidates.drop_last()[j] == earlier[i];
                assert(candidates[j] == earlier[i]);
            } else {
                assert(candidates[candidates.len() - 1] == candidates.last());
            }
        }
    }
}

/// The first room offered is accepted where it can be placed, and is then
/// the first of the rooms.
pub proof fn lemma_first_is_accepted(candidates: Seq<Rect>, w: int, h: int)
    requires
        candidates.len() > 0,
        placeable(candidates[0], w, h),
    ensures
        accept_all(candidates, w, h).len() >= 1,
        accept_all(candidates, w, h)[0] == candidates[0],
    decreases candidates.len(),
{
    if candidates.len() == 1 {
        assert(accept_all(candidates.drop_last(), w, h).len() == 0);
        assert(candidates.last() == candidates[0]);
    } else {
        assert(candidates.drop_last()[0] == candidates[0]);
        lemma_first_is_accepted(candidates.drop_last(), w, h);
    }
}

/// No two accepted rooms share a cell, whatever rooms were offered.
pub proof fn lemma_accepted_are_disjoint(candidates: Seq<Rect>, w: int, h: int)
    ensures
        forall|i: int, j: int|
            0 <= i < j < accept_all(candidates, w, h).len() ==> !(#[trigger] accept_all(
                candidates,
                w,
                h,
            )[i]).intersects(#[trigger] accept_all(candidates, w, h)[j]),
    decreases candidates.len(),
{
    if candidates.len() > 0 {
        let all = accept_all(candidates, w, h);
        let earlier = accept_all(candidates.drop_last(), w, h);
        lemma_accepted_are_disjoint(candidates.drop_last(), w, h);
        assert forall|i: int, j: int| 0 <= i < j < all.len() implies !(#[trigger] all[i]).intersects(
            #[trigger] all[j],
        ) by {
            assert(all[i] == earlier[i]);
            if j < earlier.len() {
                assert(all[j] == earlier[j]);
            } else {
                assert(fits(earlier, candidates.last(), w, h));
            }
        }
    }
}

/// A room that was offered and not accepted either cannot be placed or shares
/// a cell with a room accepted before it.
pub proof fn lemma_rejected_for_a_reason(candidates: Seq<Rect>, w: int, h: int, k: int)
    requires
        0 <= k < candidates.len(),
        !accept_all(candidates, w, h).contains(candidates[k]),
    ensures
        !placeable(candidates[k], w, h) || exists|i: int|
            0 <= i < accept_all(candidates, w, h).len() && (#[trigger] accept_all(
                candidates,
                w,
                h,
            )[i]).intersects(candidates[k]),
    decreases candidates.len(),
{
    let all = accept_all(candidates, w, h);
    let earlier = accept_all(candidates.drop_last(), w, h);
    if k == candidates.len() - 1 {
        if fits(earlier, candidates.last(), w, h) {
            assert(all[all.len() - 1] == candidates[k]);
        } else if placeable(candidates[k], w, h) {
            let i = choose|i: int| 0 <= i < earlier.len() && (#[trigger] earlier[i]).intersects(candidates[k]);
            assert(all[i].intersects(candidates[k]));
        }
    } else {
        assert(candidates.drop_last()[k] == candidates[k]);
        if earlier.contains(candidates[k]) {
            let i = choose|i: int| 0 <= i < earlier.len() && earlier[i] == candidates[k];
            assert(all[i] == candidates[k]);
        }
        lemma_rejected_for_a_reason(candidates.drop_last(), w, h, k);
        if placeable(candidates[k], w, h) {
            let i = choose|i: int| 0 <= i < earlier.len() && (#[trigger] earlier[i]).intersects(candidates[k]);
            assert(all[i].intersects(candidates[k]));
        }
    }
}

/// The cells `p` and `q` share a side.
pub open spec fn adjacent(p: (int, int), q: (int, int)) -> bool {
    (p.0 == q.0 && (p.1 == q.1 + 1 || q.1 == p.1 + 1)) || (p.1 == q.1 && (p.0 == q.0 + 1 || q.0
        == p.0 + 1))
}

/// `path` leads from `a` to `b`, each of its cells sharing a side with the next.
pub open spec fn is_walk(path: Seq<(int, int)>, a: (int, int), b: (int, int)) -> bool {
    &&& path.len() > 0
    &&& path[0] == a
    &&& path.last() == b
    &&& forall|i: int| 0 <= i < path.len() - 1 ==> adjacent(#[trigger] path[i], path[i + 1])
}

/// The distance between `a` and `b` on a line.
pub open spec fn span(a: int, b: int) -> int {
    if a <= b {
        b - a
    } else {
        a - b
    }
}

/// The value `i` steps from `a` towards `b`.
pub open spec fn toward(a: int, b: int, i: int) -> int {
    if a <= b {
        a + i
    } else {
        a - i
    }
}

/// The cells of the corridor from `a` to `b`, in the order in which one walks
/// them: along the row of `a`, then along the column of `b`.
pub open spec fn corridor_walk(a: (int, int), b: (int, int)) -> Seq<(int, int)> {
    Seq::new(
        (span(a.0, b.0) + span(a.1, b.1) + 1) as nat,
        |i: int|
            if i <= span(a.0, b.0) {
                (toward(a.0, b.0, i), a.1)
            } else {
                (b.0, toward(a.1, b.1, i - span(a.0, b.0)))
            },
    )
}

/// The corridor from `a` to `b` has no gap: its cells, taken in order, lead
/// from `a` to `b`, each sharing a side with the next.
pub proof fn lemma_corridor_has_no_gap(a: (int, int), b: (int, int))
    ensures
        is_walk(corridor_walk(a, b), a, b),
        forall|i: int|
            0 <= i < corridor_walk(a, b).len() ==> on_corridor(
                a,
                b,
                (#[trigger] corridor_walk(a, b)[i]).0,
                corridor_walk(a, b)[i].1,
            ),
{
    let path = corridor_walk(a, b);
    assert(path[0] == a);
    assert(path.last() == b);
    assert forall|i: int| 0 <= i < path.len() - 1 implies adjacent(#[trigger] path[i], path[i + 1]) by {
        assert(path[i + 1] == if i + 1 <= span(a.0, b.0) {
            (toward(a.0, b.0, i + 1), a.1)
        } else {
            (b.0, toward(a.1, b.1, i + 1 - span(a.0, b.0)))
        });
    }
}

/// On a map whose rooms are connected, a walk over floor tiles leads from the
/// centre of each room to the centre of the room accepted after it.
pub proof fn lemma_rooms_joined_by_floor(map: DungeonMap, i: int)
    requires
        map.wf(),
        map.rooms_connected(),
        0 < i < map.rooms@.len(),
    ensures
        exists|path: Seq<(int, int)>|
            #![trigger is_walk(path, map.room_center(i - 1), map.room_center(i))]
            is_walk(path, map.room_center(i - 1), map.room_center(i)) && forall|k: int|
                0 <= k < path.len() ==> map.has_cell((#[trigger] path[k]).0, path[k].1) && map.tile(
                    path[k].0,
                    path[k].1,
                ) == TileType::Floor,
{
    let a = map.room_center(i - 1);
    let b = map.room_center(i);
    let path = corridor_walk(a, b);
    lemma_corridor_has_no_gap(a, b);
    assert(map.corridor_open(a, b));
    assert forall|k: int| 0 <= k < path.len() implies map.has_cell((#[trigger] path[k]).0, path[k].1)
        && map.tile(path[k].0, path[k].1) == TileType::Floor by {
        assert(on_corridor(a, b, path[k].0, path[k].1));
    }
    assert(is_walk(path, a, b));
}

} // verus!
