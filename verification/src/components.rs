//! The kinds of component that an entity can carry.

use vstd::prelude::*;
use crate::render::{cp437_code, to_cp437};

verus! {

/// Where an entity stands on the grid.
#[derive(PartialEq, Eq, Structural, Copy, Clone, Debug)]
pub struct Position {
    pub x: i32,
    pub y: i32,
}

impl Position {
    /// The position as a cell: its column and its row.
    pub open spec fn cell(self) -> (int, int) {
        (self.x as int, self.y as int)
    }
}

/// The cells of `tiles` as a set.
pub open spec fn cells_of(tiles: Seq<(i32, i32)>) -> Set<(int, int)> {
    Set::new(
        |cell: (int, int)|
            exists|i: int|
                0 <= i < tiles.len() && (#[trigger] tiles[i]).0 == cell.0 && tiles[i].1 == cell.1,
    )
}

/// The cells of `tiles` come row by row, and from left to right within a
/// row, none of them twice.
pub open spec fn row_by_row(tiles: Seq<(i32, i32)>) -> bool {
    forall|i: int, j: int|
        0 <= i < j < tiles.len() ==> (#[trigger] tiles[i]).1 < (#[trigger] tiles[j]).1 || (tiles[i].1
            == tiles[j].1 && tiles[i].0 < tiles[j].0)
}

/// Two lists that hold the same cells row by row are the same list.
pub proof fn lemma_row_by_row_is_unique(a: Seq<(i32, i32)>, b: Seq<(i32, i32)>)
    requires
        row_by_row(a),
        row_by_row(b),
        cells_of(a) == cells_of(b),
    ensures
        a == b,
    decreases a.len(),
{
    if a.len() == 0 {
        if b.len() > 0 {
            assert(cells_of(b).contains((b[0].0 as int, b[0].1 as int)));
            let i = choose|i: int|
                0 <= i < a.len() && (#[trigger] a[i]).0 == b[0].0 as int && a[i].1 == b[0].1 as int;
        }
        assert(a =~= b);
    } else {
        let last = a.last();
        assert(cells_of(a).contains((last.0 as int, last.1 as int)));
        let j = choose|j: int|
            0 <= j < b.len() && (#[trigger] b[j]).0 == last.0 as int && b[j].1 == last.1 as int;
        assert(b[j] == last);
        if j < b.len() - 1 {
            let beyond = b.last();
            assert(cells_of(b).contains((beyond.0 as int, beyond.1 as int)));
            let i = choose|i: int|
                0 <= i < a.len() && (#[trigger] a[i]).0 == beyond.0 as int && a[i].1
                    == beyond.1 as int;
            assert(a[i] == beyond);
            assert(b[j] != b[b.len() - 1]);
            if i < a.len() - 1 {
                assert(a[i].1 < last.1 || (a[i].1 == last.1 && a[i].0 < last.0));
            }
            assert(false);
        }
        let a0 = a.drop_last();
        let b0 = b.drop_last();
        assert forall|c: (int, int)| cells_of(a0).contains(c) == cells_of(b0).contains(c) by {
            if cells_of(a0).contains(c) {
                let i = choose|i: int|
                    0 <= i < a0.len() && (#[trigger] a0[i]).0 == c.0 && a0[i].1 == c.1;
                assert(a[i] == a0[i]);
                assert(cells_of(a).contains(c));
                let k = choose|k: int| 0 <= k < b.len() && (#[trigger] b[k]).0 == c.0 && b[k].1 == c.1;
                assert(b[k] == a[i]);
                assert(a[i] != a[a.len() - 1]);
                assert(b0[k] == b[k]);
            }
            if cells_of(b0).contains(c) {
                let k = choose|k: int|
                    0 <= k < b0.len() && (#[trigger] b0[k]).0 == c.0 && b0[k].1 == c.1;
                assert(b[k] == b0[k]);
                assert(cells_of(b).contains(c));
                let i = choose|i: int| 0 <= i < a.len() && (#[trigger] a[i]).0 == c.0 && a[i].1 == c.1;
                assert(a[i] == b[k]);
                assert(b[k] != b[b.len() - 1]);
                assert(a0[i] == a[i]);
            }
        }
        assert(cells_of(a0) =~= cells_of(b0));
        lemma_row_by_row_is_unique(a0, b0);
        assert(a =~= a0.push(last));
        assert(b =~= b0.push(last));
    }
}

/// Appending a cell to a list adds it to the set of the list's cells.
pub proof fn lemma_cells_of_push(tiles: Seq<(i32, i32)>, cell: (i32, i32))
    ensures
        cells_of(tiles.push(cell)) == cells_of(tiles).insert((cell.0 as int, cell.1 as int)),
{
    let grown = tiles.push(cell);
    assert forall|c: (int, int)| cells_of(grown).contains(c) == cells_of(tiles).insert(
        (cell.0 as int, cell.1 as int),
    ).contains(c) by {
        if cells_of(grown).contains(c) {
            let i = choose|i: int|
                0 <= i < grown.len() && (#[trigger] grown[i]).0 == c.0 && grown[i].1 == c.1;
            if i < tiles.len() {
                assert(tiles[i] == grown[i]);
            }
        }
        if cells_of(tiles).contains(c) {
            let i = choose|i: int|
                0 <= i < tiles.len() && (#[trigger] tiles[i]).0 == c.0 && tiles[i].1 == c.1;
            assert(grown[i] == tiles[i]);
        }
        if c == (cell.0 as int, cell.1 as int) {
            assert(grown[tiles.len() as int] == cell);
        }
    }
    assert(cells_of(grown) =~= cells_of(tiles).insert((cell.0 as int, cell.1 as int)));
}

/// A colour by its red, green and blue parts.
#[derive(PartialEq, Eq, Structural, Copy, Clone, Debug)]
pub struct Color {
    pub r: u8,
    pub g: u8,
    pub b: u8,
}

/// How an entity is drawn: a glyph of code page 437 and two colours.
#[derive(PartialEq, Eq, Structural, Copy, Clone, Debug)]
pub struct Renderable {
    pub glyph: u16,
    pub fg: Color,
    pub bg: Color,
}

impl Renderable {
    /// The appearance with the glyph that code page 437 has for `symbol`, in
    /// the colours `fg` on `bg`.
    pub fn new(symbol: char, fg: Color, bg: Color) -> (look: Renderable)
        ensures
            look == (Renderable { glyph: cp437_code(symbol), fg, bg }),
            symbol == '#' ==> look.glyph == 35,
            symbol == '.' ==> look.glyph == 46,
            symbol == '@' ==> look.glyph == 64,
    {
        Renderable { glyph: to_cp437(symbol), fg, bg }
    }
}

/// Marks an entity as moved by the player's input.
#[derive(PartialEq, Eq, Structural, Copy, Clone, Debug)]
pub struct Player {}

/// What an entity perceives: the cells it sees, how far it sees, and
/// whether the cells are stale and have to be computed anew.
#[derive(Clone, Debug)]
pub struct Viewshed {
    pub visible_tiles: Vec<(i32, i32)>,
    pub range: i32,
    pub dirty: bool,
}

impl Viewshed {
    /// The cells of `visible_tiles` as a set.
    pub open spec fn visible_set(self) -> Set<(int, int)> {
        cells_of(self.visible_tiles@)
    }

    /// A viewshed that sees nothing yet, reaches `range` cells and is dirty.
    pub fn new(range: i32) -> (viewshed: Viewshed)
        ensures
            viewshed.visible_tiles@.len() == 0,
            viewshed.range == range,
            viewshed.dirty,
    {
        Viewshed { visible_tiles: Vec::new(), range, dirty: true }
    }

    /// Whether `(x, y)` is among the cells seen.
    pub fn sees(&self, x: i32, y: i32) -> (seen: bool)
        ensures
            seen == self.visible_set().contains((x as int, y as int)),
    {
        let mut i: usize = 0;
        while i < self.visible_tiles.len()
            invariant
                i <= self.visible_tiles@.len(),
                forall|k: int|
                    0 <= k < i ==> !((#[trigger] self.visible_tiles@[k]).0 == x
                        && self.visible_tiles@[k].1 == y),
            decreases self.visible_tiles@.len() - i,
        {
            let cell = self.visible_tiles[i];
            if cell.0 == x && cell.1 == y {
                return true;
            }
            i += 1;
        }
        false
    }
}

} // verus!
