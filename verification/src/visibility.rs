//! Field of view. A cell is seen from another when it lies within range,
//! measured as the greater of the distances along the two axes, and no wall
//! stands on the straight line strictly between the two. Each cell is judged
//! by its own line, so a wall hides what lies behind it and is itself seen.

use vstd::prelude::*;
use crate::components::{cells_of, lemma_cells_of_push, row_by_row, Position, Viewshed};
use crate::grid::TileType;
use crate::map::{span, toward, DungeonMap};
use crate::store::{join2, lemma_has_is_in_view, lists_exactly, Entity, EntityStore};

verus! {

/// The distance from `a` to `b`: the greater of the distances along the two
/// axes.
pub open spec fn reach(a: (int, int), b: (int, int)) -> int {
    if span(a.0, b.0) >= span(a.1, b.1) {
        span(a.0, b.0)
    } else {
        span(a.1, b.1)
    }
}

/// The share `i / n` of the distance `d`, rounded to the nearest whole
/// number, halves upwards.
pub open spec fn share(i: int, d: int, n: int) -> int {
    (2 * i * d + n) / (2 * n)
}

/// The cell `i` steps along the straight line from `from` to `to`, which
/// takes `reach(from, to)` steps in all.
pub open spec fn sight_cell(from: (int, int), to: (int, int), i: int) -> (int, int) {
    (
        toward(from.0, to.0, share(i, span(from.0, to.0), reach(from, to))),
        toward(from.1, to.1, share(i, span(from.1, to.1), reach(from, to))),
    )
}

/// No wall stands strictly between `from` and `to` on the line between them.
pub open spec fn sight_clear(map: DungeonMap, from: (int, int), to: (int, int)) -> bool {
    forall|i: int|
        0 < i < reach(from, to) ==> map.tile(
            (#[trigger] sight_cell(from, to, i)).0,
            sight_cell(from, to, i).1,
        ) != TileType::Wall
}

/// `to` is seen from `from` by a viewer that sees `range` cells far: both
/// are cells of the grid, `to` lies within range, and the sight is clear.
pub open spec fn visible(map: DungeonMap, from: (int, int), range: int, to: (int, int)) -> bool {
    &&& map.has_cell(from.0, from.1)
    &&& map.has_cell(to.0, to.1)
    &&& reach(from, to) <= range
    &&& sight_clear(map, from, to)
}

/// The cells seen from `from` by a viewer that sees `range` cells far.
pub open spec fn visible_from(map: DungeonMap, from: (int, int), range: int) -> Set<(int, int)> {
    Set::new(|to: (int, int)| visible(map, from, range, to))
}

/// A share of a distance lies between nothing and the whole of it.
pub proof fn lemma_share_bounds(i: int, d: int, n: int)
    requires
        0 <= i <= n,
        0 <= d,
        0 < n,
    ensures
        0 <= share(i, d, n) <= d,
        share(0, d, n) == 0,
        share(n, d, n) == d,
{
    let q = share(i, d, n);
    vstd::arithmetic::div_mod::lemma_fundamental_div_mod(2 * i * d + n, 2 * n);
    vstd::arithmetic::div_mod::lemma_mod_bound(2 * i * d + n, 2 * n);
    assert(0 <= q <= d) by (nonlinear_arith)
        requires
            0 <= i <= n,
            0 <= d,
            0 < n,
            2 * i * d + n == (2 * n) * q + (2 * i * d + n) % (2 * n),
            0 <= (2 * i * d + n) % (2 * n) < 2 * n,
    ;
    assert(2 * 0 * d + n == 0 * (2 * n) + n) by (nonlinear_arith);
    vstd::arithmetic::div_mod::lemma_fundamental_div_mod_converse(2 * 0 * d + n, 2 * n, 0, n);
    assert(2 * n * d + n == d * (2 * n) + n) by (nonlinear_arith);
    vstd::arithmetic::div_mod::lemma_fundamental_div_mod_converse(2 * n * d + n, 2 * n, d, n);
}

/// From one step of the line to the next, a share of a distance that is no
/// longer than the line grows by one at most, and never shrinks.
pub proof fn lemma_share_steps(i: int, d: int, n: int)
    requires
        0 <= i < n,
        0 <= d <= n,
    ensures
        share(i, d, n) <= share(i + 1, d, n) <= share(i, d, n) + 1,
{
    let a = 2 * i * d + n;
    let b = 2 * (i + 1) * d + n;
    let m = 2 * n;
    assert(b == a + 2 * d) by (nonlinear_arith)
        requires
            a == 2 * i * d + n,
            b == 2 * (i + 1) * d + n,
    ;
    vstd::arithmetic::div_mod::lemma_fundamental_div_mod(a, m);
    vstd::arithmetic::div_mod::lemma_mod_bound(a, m);
    vstd::arithmetic::div_mod::lemma_fundamental_div_mod(b, m);
    vstd::arithmetic::div_mod::lemma_mod_bound(b, m);
    assert(a / m <= b / m <= a / m + 1) by (nonlinear_arith)
        requires
            0 < m,
            a <= b <= a + m,
            a == m * (a / m) + a % m,
            b == m * (b / m) + b % m,
            0 <= a % m < m,
            0 <= b % m < m,
    ;
}

/// The line from `from` to `to` starts at `from`, ends at `to`, and stays
/// between them along both axes.
pub proof fn lemma_sight_line_ends(from: (int, int), to: (int, int), i: int)
    requires
        0 <= i <= reach(from, to),
        from != to,
    ensures
        sight_cell(from, to, 0) == from,
        sight_cell(from, to, reach(from, to)) == to,
        crate::map::between(from.0, sight_cell(from, to, i).0, to.0),
        crate::map::between(from.1, sight_cell(from, to, i).1, to.1),
{
    let n = reach(from, to);
    lemma_share_bounds(i, span(from.0, to.0), n);
    lemma_share_bounds(i, span(from.1, to.1), n);
}

/// The line has no gap: from one of its cells to the next, the column and
/// the row each change by one at most.
pub proof fn lemma_sight_line_steps(from: (int, int), to: (int, int), i: int)
    requires
        0 <= i < reach(from, to),
    ensures
        span(sight_cell(from, to, i).0, sight_cell(from, to, i + 1).0) <= 1,
        span(sight_cell(from, to, i).1, sight_cell(from, to, i + 1).1) <= 1,
{
    let n = reach(from, to);
    lemma_share_steps(i, span(from.0, to.0), n);
    lemma_share_steps(i, span(from.1, to.1), n);
}

/// What is seen lies on the grid and within range.
pub proof fn lemma_visible_within_range(map: DungeonMap, from: (int, int), range: int, to: (int, int))
    requires
        visible(map, from, range, to),
    ensures
        map.has_cell(to.0, to.1),
        span(from.0, to.0) <= range,
        span(from.1, to.1) <= range,
{
}

/// A wall strictly between the viewer and a cell, on the line between them,
/// hides the cell.
pub proof fn lemma_wall_hides(map: DungeonMap, from: (int, int), range: int, to: (int, int), i: int)
    requires
        0 < i < reach(from, to),
        map.tile(sight_cell(from, to, i).0, sight_cell(from, to, i).1) == TileType::Wall,
    ensures
        !visible(map, from, range, to),
{
}

/// A viewer on the grid sees its own cell and the cells next to it, walls
/// among them, whenever its range reaches that far.
pub proof fn lemma_sees_nearby(map: DungeonMap, from: (int, int), range: int, to: (int, int))
    requires
        map.has_cell(from.0, from.1),
        map.has_cell(to.0, to.1),
        reach(from, to) <= 1,
        reach(from, to) <= range,
    ensures
        visible(map, from, range, to),
{
}

/// Who sees farther sees no less.
pub proof fn lemma_visible_grows_with_range(
    map: DungeonMap,
    from: (int, int),
    near: int,
    far: int,
    to: (int, int),
)
    requires
        near <= far,
        visible(map, from, near, to),
    ensures
        visible(map, from, far, to),
{
}

/// The distance between `a` and `b` on a line.
fn span_of(a: i32, b: i32) -> (d: i32)
    requires
        0 <= a,
        0 <= b,
    ensures
        d == span(a as int, b as int),
{
    if a <= b {
        b - a
    } else {
        a - b
    }
}

/// The share `i / n` of the distance `d`, rounded to the nearest whole number.
fn share_of(i: i32, d: i32, n: i32) -> (s: i32)
    requires
        0 <= i <= n,
        0 <= d <= n,
        0 < n,
    ensures
        s == share(i as int, d as int, n as int),
        0 <= s <= d,
{
    let twice: u64 = 2 * (i as u64);
    let wide_d: u64 = d as u64;
    let wide_n: u64 = n as u64;
    proof {
        lemma_share_bounds(i as int, d as int, n as int);
        assert(twice * wide_d == 2 * i * d && 0 <= 2 * i * d <= 0x7fff_ffff_0000_0000) by (nonlinear_arith)
            requires
                twice == 2 * i,
                wide_d == d,
                0 <= i <= 0x7fff_ffff,
                0 <= d <= 0x7fff_ffff,
        ;
    }
    let numerator: u64 = twice * wide_d + wide_n;
    let quotient: u64 = numerator / (2 * wide_n);
    quotient as i32
}

/// Whether no wall stands strictly between `from` and `to` on the line
/// between them.
pub fn line_of_sight(map: &DungeonMap, from: Position, to: Position) -> (clear: bool)
    requires
        map.wf(),
        map.has_cell(from.x as int, from.y as int),
        map.has_cell(to.x as int, to.y as int),
    ensures
        clear == sight_clear(*map, from.cell(), to.cell()),
{
    let dx: i32 = span_of(from.x, to.x);
    let dy: i32 = span_of(from.y, to.y);
    let n: i32 = if dx >= dy { dx } else { dy };
    let mut i: i32 = 1;
    while i < n
        invariant
            1 <= i,
            map.wf(),
            map.has_cell(from.x as int, from.y as int),
            map.has_cell(to.x as int, to.y as int),
            dx == span(from.x as int, to.x as int),
            dy == span(from.y as int, to.y as int),
            n == reach(from.cell(), to.cell()),
            forall|k: int|
                0 < k < i ==> map.tile(
                    (#[trigger] sight_cell(from.cell(), to.cell(), k)).0,
                    sight_cell(from.cell(), to.cell(), k).1,
                ) != TileType::Wall,
        decreases n - i,
    {
        let across: i32 = share_of(i, dx, n);
        let down: i32 = share_of(i, dy, n);
        let x: i32 = if from.x <= to.x { from.x + across } else { from.x - across };
        let y: i32 = if from.y <= to.y { from.y + down } else { from.y - down };
        assert(sight_cell(from.cell(), to.cell(), i as int) == (x as int, y as int));
        let idx = map.xy_idx(x, y);
        match map.tiles[idx] {
            TileType::Wall => {
                return false;
            },
            TileType::Floor => {},
        }
        i += 1;
    }
    true
}

/// Whether `to` is seen from `from` by a viewer that sees `range` cells far.
pub fn can_see(map: &DungeonMap, from: Position, range: i32, to: Position) -> (seen: bool)
    requires
        map.wf(),
    ensures
        seen == visible(*map, from.cell(), range as int, to.cell()),
{
    if !map.in_bounds(from.x, from.y) || !map.in_bounds(to.x, to.y) {
        return false;
    }
    let dx: i32 = span_of(from.x, to.x);
    let dy: i32 = span_of(from.y, to.y);
    if dx > range || dy > range {
        return false;
    }
    line_of_sight(map, from, to)
}

/// The cells seen from `from` by a viewer that sees `range` cells far, row
/// by row. A viewer that stands off the grid sees nothing.
pub fn compute_viewshed(map: &DungeonMap, from: Position, range: i32) -> (seen: Vec<(i32, i32)>)
    requires
        map.wf(),
    ensures
        cells_of(seen@) == visible_from(*map, from.cell(), range as int),
        row_by_row(seen@),
{
    let mut seen: Vec<(i32, i32)> = Vec::new();
    if !map.in_bounds(from.x, from.y) || range < 0 {
        assert(cells_of(seen@) =~= visible_from(*map, from.cell(), range as int));
        return seen;
    }
    let x_lo: i32 = if from.x < range { 0 } else { from.x - range };
    let y_lo: i32 = if from.y < range { 0 } else { from.y - range };
    let x_hi: i32 = if map.width - 1 - from.x < range { map.width - 1 } else { from.x + range };
    let y_hi: i32 = if map.height - 1 - from.y < range { map.height - 1 } else { from.y + range };
    let ghost origin = from.cell();
    let ghost far = range as int;
    let mut y: i32 = y_lo;
    while y <= y_hi
        invariant
            map.wf(),
            map.has_cell(from.x as int, from.y as int),
            origin == from.cell(),
            far == range,
            0 <= range,
            0 <= x_lo <= from.x <= x_hi < map.width,
            0 <= y_lo <= y <= y_hi + 1 <= map.height,
            x_lo == (if from.x < range { 0 } else { from.x - range }),
            y_lo == (if from.y < range { 0 } else { from.y - range }),
            x_hi == (if map.width - 1 - from.x < range { map.width - 1 } else { from.x + range }),
            y_hi == (if map.height - 1 - from.y < range { map.height - 1 } else { from.y + range }),
            forall|a: int, b: int|
                cells_of(seen@).contains((a, b)) <==> b < y && visible(*map, origin, far, (a, b)),
            forall|k: int| 0 <= k < seen@.len() ==> (#[trigger] seen@[k]).1 < y,
            row_by_row(seen@),
        decreases y_hi + 1 - y,
    {
        let mut x: i32 = x_lo;
        while x <= x_hi
            invariant
                map.wf(),
                map.has_cell(from.x as int, from.y as int),
                origin == from.cell(),
                far == range,
                0 <= range,
                0 <= x_lo <= x <= x_hi + 1 <= map.width,
                x_lo <= from.x <= x_hi,
                0 <= y_lo <= y <= y_hi < map.height,
                x_lo == (if from.x < range { 0 } else { from.x - range }),
                y_lo == (if from.y < range { 0 } else { from.y - range }),
                x_hi == (if map.width - 1 - from.x < range { map.width - 1 } else { from.x + range }),
                y_hi == (if map.height - 1 - from.y < range { map.height - 1 } else { from.y + range }),
                forall|a: int, b: int|
                    cells_of(seen@).contains((a, b)) <==> (b < y || (b == y && a < x)) && visible(
                        *map,
                        origin,
                        far,
                        (a, b),
                    ),
                forall|k: int|
                    0 <= k < seen@.len() ==> (#[trigger] seen@[k]).1 < y || (seen@[k].1 == y
                        && seen@[k].0 < x),
                row_by_row(seen@),
            decreases x_hi + 1 - x,
        {
            let to = Position { x, y };
            let ghost before = seen@;
            if line_of_sight(map, from, to) {
                seen.push((x, y));
                proof {
                    lemma_cells_of_push(before, (x, y));
                    assert(visible(*map, origin, far, (x as int, y as int)));
                }
            }
            proof {
                assert forall|a: int, b: int|
                    cells_of(seen@).contains((a, b)) <==> (b < y || (b == y && a < x + 1)) && visible(
                        *map,
                        origin,
                        far,
                        (a, b),
                    ) by {
                    assert(cells_of(before).contains((a, b)) <==> (b < y || (b == y && a < x))
                        && visible(*map, origin, far, (a, b)));
                }
            }
            x += 1;
        }
        proof {
            assert forall|a: int, b: int|
                cells_of(seen@).contains((a, b)) <==> b < y + 1 && visible(*map, origin, far, (a, b)) by {
                assert(cells_of(seen@).contains((a, b)) <==> (b < y || (b == y && a < x)) && visible(
                    *map,
                    origin,
                    far,
                    (a, b),
                ));
            }
        }
        y += 1;
    }
    assert(cells_of(seen@) =~= visible_from(*map, from.cell(), range as int)) by {
        assert forall|c: (int, int)| cells_of(seen@).contains(c) == visible_from(
            *map,
            origin,
            far,
        ).contains(c) by {
            assert(cells_of(seen@).contains((c.0, c.1)) <==> c.1 < y && visible(
                *map,
                origin,
                far,
                (c.0, c.1),
            ));
        }
    }
    seen
}

/// `after` is `before` computed anew for a viewer at `at`: it holds exactly
/// the cells seen from there, row by row, keeps its range and is clean.
pub open spec fn refreshed(map: DungeonMap, at: Position, before: Viewshed, after: Viewshed) -> bool {
    &&& after.range == before.range
    &&& !after.dirty
    &&& after.visible_set() == visible_from(map, at.cell(), before.range as int)
    &&& row_by_row(after.visible_tiles@)
}

/// The entity with identifier `id` has a position and a dirty viewshed.
pub open spec fn needs_refresh(store: EntityStore, id: int) -> bool {
    &&& store.positions@.dom().contains(id)
    &&& store.viewsheds@.dom().contains(id)
    &&& store.viewsheds@[id].dirty
}

/// Computes a dirty viewshed anew for a viewer at `at`, and leaves a clean
/// one as it is.
pub fn refresh(map: &DungeonMap, at: Position, viewshed: &mut Viewshed)
    requires
        map.wf(),
    ensures
        old(viewshed).dirty ==> refreshed(*map, at, *old(viewshed), *final(viewshed)),
        !old(viewshed).dirty ==> *final(viewshed) == *old(viewshed),
{
    if viewshed.dirty {
        let seen = compute_viewshed(map, at, viewshed.range);
        viewshed.visible_tiles = seen;
        viewshed.dirty = false;
    }
}

/// Computes the viewshed of `entity` anew where the entity has a position
/// and its viewshed is dirty, and says whether it did. Nothing else changes.
pub fn update_viewshed(entity: Entity, map: &DungeonMap, store: &mut EntityStore) -> (updated: bool)
    requires
        map.wf(),
        old(store).wf(),
    ensures
        final(store).wf(),
        final(store).alive == old(store).alive,
        final(store).positions == old(store).positions,
        final(store).renderables == old(store).renderables,
        final(store).players == old(store).players,
        updated == needs_refresh(*old(store), entity.id as int),
        final(store).viewsheds@.dom() == old(store).viewsheds@.dom(),
        forall|id: int|
            id != entity.id && old(store).viewsheds@.dom().contains(id) ==> #[trigger] final(store)
                .viewsheds@[id] == old(store).viewsheds@[id],
        updated ==> refreshed(
            *map,
            old(store).positions@[entity.id as int],
            old(store).viewsheds@[entity.id as int],
            final(store).viewsheds@[entity.id as int],
        ),
        !updated ==> final(store).viewsheds@ == old(store).viewsheds@,
{
    let at: Position = match store.positions.get(entity) {
        Some(position) => *position,
        None => {
            return false;
        },
    };
    let mut updated = false;
    match store.viewsheds.get_mut(entity) {
        Some(viewshed) => {
            if viewshed.dirty {
                refresh(map, at, viewshed);
                updated = true;
            }
        },
        None => {},
    }
    proof {
        assert(store.viewsheds@.dom() =~= old(store).viewsheds@.dom());
        if !updated {
            assert(store.viewsheds@ =~= old(store).viewsheds@);
        }
        assert forall|k: int|
            (store.positions.has(k) || store.renderables.has(k) || store.players.has(k)
                || store.viewsheds.has(k)) implies #[trigger] store.is_live(k) by {
            lemma_has_is_in_view(store.viewsheds, k);
            lemma_has_is_in_view(old(store).viewsheds, k);
            assert(old(store).is_live(k));
        }
    }
    updated
}

/// The pass that brings every dirty viewshed up to date.
pub struct VisibilitySystem {}

impl VisibilitySystem {
    /// Computes anew the viewshed of every entity that has a position and a
    /// dirty viewshed, and leaves every other viewshed as it is. Afterwards
    /// no entity with a position has a dirty viewshed.
    pub fn run(&self, map: &DungeonMap, store: &mut EntityStore)
        requires
            map.wf(),
            old(store).wf(),
        ensures
            final(store).wf(),
            final(store).alive == old(store).alive,
            final(store).positions == old(store).positions,
            final(store).renderables == old(store).renderables,
            final(store).players == old(store).players,
            final(store).viewsheds@.dom() == old(store).viewsheds@.dom(),
            forall|id: int| #[trigger]
                final(store).viewsheds@.dom().contains(id) ==> (if needs_refresh(*old(store), id) {
                    refreshed(
                        *map,
                        old(store).positions@[id],
                        old(store).viewsheds@[id],
                        final(store).viewsheds@[id],
                    )
                } else {
                    final(store).viewsheds@[id] == old(store).viewsheds@[id]
                }),
            forall|id: int| !needs_refresh(*final(store), id),
    {
        let viewers = join2(&store.positions, &store.viewsheds);
        let ghost member = |id: int| old(store).positions.has(id) && old(store).viewsheds.has(id);
        let mut i: usize = 0;
        while i < viewers.len()
            invariant
                i <= viewers@.len(),
                map.wf(),
                store.wf(),
                store.alive == old(store).alive,
                store.positions == old(store).positions,
                store.renderables == old(store).renderables,
                store.players == old(store).players,
                store.viewsheds@.dom() == old(store).viewsheds@.dom(),
                forall|j: int, k: int|
                    0 <= j < k < viewers@.len() ==> (#[trigger] viewers@[j]).id < (
                    #[trigger] viewers@[k]).id,
                forall|id: int| #[trigger]
                    store.viewsheds@.dom().contains(id) ==> (if needs_refresh(*old(store), id)
                        && exists|k: int| 0 <= k < i && (#[trigger] viewers@[k]).id == id {
                        refreshed(
                            *map,
                            old(store).positions@[id],
                            old(store).viewsheds@[id],
                            store.viewsheds@[id],
                        )
                    } else {
                        store.viewsheds@[id] == old(store).viewsheds@[id]
                    }),
            decreases viewers@.len() - i,
        {
            let entity = viewers[i];
            let ghost me = entity.id as int;
            let ghost before = *store;
            proof {
                if exists|k: int| 0 <= k < i && (#[trigger] viewers@[k]).id == me {
                    let k = choose|k: int| 0 <= k < i && (#[trigger] viewers@[k]).id == me;
                    assert(viewers@[k].id < viewers@[i as int].id);
                }
                if before.viewsheds@.dom().contains(me) {
                    assert(before.viewsheds@[me] == old(store).viewsheds@[me]);
                }
            }
            update_viewshed(entity, map, store);
            proof {
                assert forall|id: int| #[trigger]
                    store.viewsheds@.dom().contains(id) implies (if needs_refresh(*old(store), id)
                    && exists|k: int| 0 <= k < i + 1 && (#[trigger] viewers@[k]).id == id {
                    refreshed(
                        *map,
                        old(store).positions@[id],
                        old(store).viewsheds@[id],
                        store.viewsheds@[id],
                    )
                } else {
                    store.viewsheds@[id] == old(store).viewsheds@[id]
                }) by {
                    assert(before.viewsheds@.dom().contains(id));
                    if id == me {
                        assert(viewers@[i as int].id == id);
                    } else {
                        assert(store.viewsheds@[id] == before.viewsheds@[id]);
                        if exists|k: int| 0 <= k < i + 1 && (#[trigger] viewers@[k]).id == id {
                            let k = choose|k: int| 0 <= k < i + 1 && (#[trigger] viewers@[k]).id == id;
                            assert(k < i);
                        }
                    }
                }
            }
            i += 1;
        }
        proof {
            assert(lists_exactly(viewers@, member));
            assert forall|id: int| #[trigger]
                store.viewsheds@.dom().contains(id) implies (if needs_refresh(*old(store), id) {
                refreshed(
                    *map,
                    old(store).positions@[id],
                    old(store).viewsheds@[id],
                    store.viewsheds@[id],
                )
            } else {
                store.viewsheds@[id] == old(store).viewsheds@[id]
            }) by {
                lemma_has_is_in_view(old(store).positions, id);
                lemma_has_is_in_view(old(store).viewsheds, id);
                if needs_refresh(*old(store), id) {
                    assert(member(id));
                }
            }
            assert forall|id: int| !needs_refresh(*store, id) by {
                if store.viewsheds@.dom().contains(id) && store.positions@.dom().contains(id) {
                    assert(old(store).viewsheds@.dom().contains(id));
                }
            }
        }
    }
}

} // verus!
