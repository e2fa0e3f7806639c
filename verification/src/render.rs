//! What is to be drawn of a map: one glyph for each tile.

use vstd::prelude::*;
use crate::grid::{column_of, row_of, TileType};
use crate::map::DungeonMap;

verus! {

/// The code that `rltk::to_cp437` gives for the character `c`.
pub uninterp spec fn cp437_code(c: char) -> u16;

/// Calls `rltk::to_cp437`, which looks a character up in a fixed table of
/// code page 437 and gives 0 for one that the table lacks. The contract
/// names the result and claims three entries of the table: `#` has code 35,
/// `.` has code 46 and `@` has code 64.
#[verifier::external_body]
pub(crate) fn to_cp437(c: char) -> (code: u16)
    ensures
        code == cp437_code(c),
        c == '#' ==> code == 35,
        c == '.' ==> code == 46,
        c == '@' ==> code == 64,
{
    rltk::to_cp437(c)
}

/// A tile as it is to be drawn: where, which kind, and with which glyph of
/// code page 437.
#[derive(PartialEq, Eq, Structural, Copy, Clone, Debug)]
pub struct MapGlyph {
    pub x: i32,
    pub y: i32,
    pub tile: TileType,
    pub glyph: u16,
}

/// The glyph that stands for a tile: `.` for a floor, `#` for a wall.
pub open spec fn tile_glyph(tile: TileType) -> u16 {
    match tile {
        TileType::Floor => 46,
        TileType::Wall => 35,
    }
}

/// The glyph with which the tile of index `i` of `map` is drawn.
pub open spec fn glyph_at(map: DungeonMap, i: int) -> MapGlyph {
    MapGlyph {
        x: column_of(i, map.width as int) as i32,
        y: row_of(i, map.width as int) as i32,
        tile: map.tiles@[i],
        glyph: tile_glyph(map.tiles@[i]),
    }
}

/// What is to be drawn of `map`: for each tile, in the order in which the
/// tiles are stored, its cell and its glyph.
pub fn draw_map(map: &DungeonMap) -> (cells: Vec<MapGlyph>)
    requires
        map.wf(),
    ensures
        cells@.len() == map.tiles@.len(),
        forall|i: int| 0 <= i < cells@.len() ==> #[trigger] cells@[i] == glyph_at(*map, i),
{
    let floor: u16 = to_cp437('.');
    let wall: u16 = to_cp437('#');
    let mut cells: Vec<MapGlyph> = Vec::new();
    let mut x: i32 = 0;
    let mut y: i32 = 0;
    let mut i: usize = 0;
    while i < map.tiles.len()
        invariant
            map.wf(),
            floor == 46,
            wall == 35,
            i <= map.tiles@.len(),
            cells@.len() == i,
            0 <= x < map.width,
            0 <= y <= map.height,
            i == y * map.width + x,
            forall|k: int| 0 <= k < i ==> #[trigger] cells@[k] == glyph_at(*map, k),
        decreases map.tiles@.len() - i,
    {
        let tile = map.tiles[i];
        let glyph: u16 = match tile {
            TileType::Floor => floor,
            TileType::Wall => wall,
        };
        proof {
            vstd::arithmetic::div_mod::lemma_fundamental_div_mod_converse(
                i as int,
                map.width as int,
                y as int,
                x as int,
            );
        }
        cells.push(MapGlyph { x, y, tile, glyph });
        proof {
            assert(y < map.height) by (nonlinear_arith)
                requires
                    i < map.width * map.height,
                    i == y * map.width + x,
                    0 <= x,
                    0 < map.width,
            ;
            assert((y + 1) * map.width == y * map.width + map.width) by (nonlinear_arith);
        }
        x += 1;
        if x > map.width - 1 {
            x = 0;
            y += 1;
        }
        i += 1;
    }
    cells
}

} // verus!
