//! The movement rule: one step of one entity, refused by walls.

use vstd::prelude::*;
use crate::components::{Position, Viewshed};
use crate::grid::TileType;
use crate::map::DungeonMap;
use crate::state::State;
use crate::store::{join3, lemma_has_is_in_view, lists_exactly, Entity, EntityStore};

verus! {

/// A direction in which the player can ask to step.
#[derive(PartialEq, Eq, Structural, Copy, Clone, Debug)]
pub enum Direction {
    Up,
    Down,
    Left,
    Right,
}

impl Direction {
    /// The step in this direction: rows grow downwards.
    pub open spec fn delta_spec(self) -> (int, int) {
        match self {
            Direction::Up => (0, -1),
            Direction::Down => (0, 1),
            Direction::Left => (-1, 0),
            Direction::Right => (1, 0),
        }
    }

    /// The step in this direction as a change of column and of row.
    pub fn delta(&self) -> (d: (i32, i32))
        ensures
            d.0 == self.delta_spec().0,
            d.1 == self.delta_spec().1,
    {
        match self {
            Direction::Up => (0, -1),
            Direction::Down => (0, 1),
            Direction::Left => (-1, 0),
            Direction::Right => (1, 0),
        }
    }
}

/// `v`, or the nearer end of `lo..=hi` where `v` lies outside it.
pub open spec fn clamp(v: int, lo: int, hi: int) -> int {
    if v < lo {
        lo
    } else if v > hi {
        hi
    } else {
        v
    }
}

/// The cell that a step by `(dx, dy)` from `from` leads to: the sum, held to
/// the grid of `map`.
pub open spec fn destination(map: DungeonMap, from: Position, dx: int, dy: int) -> Position {
    Position {
        x: clamp(from.x + dx, 0, map.width - 1) as i32,
        y: clamp(from.y + dy, 0, map.height - 1) as i32,
    }
}

/// A step by `(dx, dy)` from `from` does not lead into a wall.
pub open spec fn step_allowed(map: DungeonMap, from: Position, dx: int, dy: int) -> bool {
    map.tile(destination(map, from, dx, dy).x as int, destination(map, from, dx, dy).y as int)
        != TileType::Wall
}

/// Wherever a step starts and however far it reaches, it ends on the grid.
pub proof fn lemma_destination_on_grid(map: DungeonMap, from: Position, dx: int, dy: int)
    requires
        map.wf(),
    ensures
        map.has_cell(destination(map, from, dx, dy).x as int, destination(map, from, dx, dy).y as int),
        destination(map, from, dx, dy).x == clamp(from.x + dx, 0, map.width - 1),
        destination(map, from, dx, dy).y == clamp(from.y + dy, 0, map.height - 1),
{
}

/// The entity with identifier `id` is one that movement applies to, and a
/// step by `(dx, dy)` from where it stands does not lead into a wall.
pub open spec fn moves(map: DungeonMap, store: EntityStore, id: int, dx: int, dy: int) -> bool {
    &&& store.positions@.dom().contains(id)
    &&& store.viewsheds@.dom().contains(id)
    &&& step_allowed(map, store.positions@[id], dx, dy)
}

/// The viewshed `v` after its owner has moved: dirty, and otherwise as it was.
pub open spec fn dirtied(v: Viewshed) -> Viewshed {
    Viewshed { visible_tiles: v.visible_tiles, range: v.range, dirty: true }
}

/// `v` held to `0..=last`.
fn clamp_to_grid(v: i64, last: i32) -> (held: i32)
    requires
        0 <= last,
    ensures
        held == clamp(v as int, 0, last as int),
{
    if v < 0 {
        0
    } else if v > last as i64 {
        last
    } else {
        v as i32
    }
}

/// Moves `entity` by `(delta_x, delta_y)`, held to the grid, unless the cell
/// it would reach is a wall. An entity that moves gets its new position and a
/// dirty viewshed. An entity without a position or without a viewshed, and one
/// that would step into a wall, stays as it is. Says whether the entity moved.
pub fn try_move(
    entity: Entity,
    delta_x: i32,
    delta_y: i32,
    map: &DungeonMap,
    store: &mut EntityStore,
) -> (moved: bool)
    requires
        map.wf(),
        old(store).wf(),
    ensures
        final(store).wf(),
        final(store).alive == old(store).alive,
        final(store).renderables == old(store).renderables,
        final(store).players == old(store).players,
        moved == moves(*map, *old(store), entity.id as int, delta_x as int, delta_y as int),
        moved ==> final(store).positions@ == old(store).positions@.insert(
            entity.id as int,
            destination(*map, old(store).positions@[entity.id as int], delta_x as int, delta_y as int),
        ),
        moved ==> final(store).viewsheds@ == old(store).viewsheds@.insert(
            entity.id as int,
            dirtied(old(store).viewsheds@[entity.id as int]),
        ),
        !moved ==> final(store).positions@ == old(store).positions@,
        !moved ==> final(store).viewsheds@ == old(store).viewsheds@,
{
    let id = entity.id;
    let from: Position = match store.positions.get(entity) {
        Some(position) => *position,
        None => {
            return false;
        },
    };
    if !store.viewsheds.contains(entity) {
        return false;
    }
    let x: i32 = clamp_to_grid(from.x as i64 + delta_x as i64, map.width - 1);
    let y: i32 = clamp_to_grid(from.y as i64 + delta_y as i64, map.height - 1);
    let idx = map.xy_idx(x, y);
    match map.tiles[idx] {
        TileType::Wall => {
            return false;
        },
        TileType::Floor => {},
    }
    store.positions.insert(entity, Position { x, y });
    match store.viewsheds.get_mut(entity) {
        Some(viewshed) => {
            viewshed.dirty = true;
        },
        None => {},
    }
    proof {
        assert forall|k: int|
            (store.positions.has(k) || store.renderables.has(k) || store.players.has(k)
                || store.viewsheds.has(k)) implies #[trigger] store.is_live(k) by {
            lemma_has_is_in_view(store.positions, k);
            lemma_has_is_in_view(old(store).positions, k);
            lemma_has_is_in_view(store.viewsheds, k);
            lemma_has_is_in_view(old(store).viewsheds, k);
            assert(old(store).is_live(k));
        }
    }
    true
}

/// The position that the entity with identifier `id` has after every
/// player's entity was asked to step by `(dx, dy)`.
pub open spec fn position_after_step(map: DungeonMap, store: EntityStore, id: int, dx: int, dy: int) -> Position {
    if store.players@.dom().contains(id) && moves(map, store, id, dx, dy) {
        destination(map, store.positions@[id], dx, dy)
    } else {
        store.positions@[id]
    }
}

/// The viewshed that the entity with identifier `id` has after every
/// player's entity was asked to step by `(dx, dy)`.
pub open spec fn viewshed_after_step(map: DungeonMap, store: EntityStore, id: int, dx: int, dy: int) -> Viewshed {
    if store.players@.dom().contains(id) && moves(map, store, id, dx, dy) {
        dirtied(store.viewsheds@[id])
    } else {
        store.viewsheds@[id]
    }
}

/// `after` is `before` once every player's entity was asked to step by
/// `(dx, dy)` on `map`: each entity has the position and the viewshed that
/// the step leaves it with, and nothing else has changed.
pub open spec fn stepped(map: DungeonMap, before: EntityStore, after: EntityStore, dx: int, dy: int) -> bool {
    &&& after.alive == before.alive
    &&& after.renderables == before.renderables
    &&& after.players == before.players
    &&& after.positions@.dom() == before.positions@.dom()
    &&& after.viewsheds@.dom() == before.viewsheds@.dom()
    &&& forall|id: int| #[trigger]
        after.positions@.dom().contains(id) ==> after.positions@[id] == position_after_step(
            map,
            before,
            id,
            dx,
            dy,
        )
    &&& forall|id: int| #[trigger]
        after.viewsheds@.dom().contains(id) ==> after.viewsheds@[id] == viewshed_after_step(
            map,
            before,
            id,
            dx,
            dy,
        )
}

/// Asks every entity that is marked as the player's, and has a position and
/// a viewshed, to step by `(delta_x, delta_y)`; each of them moves as
/// `try_move` says. The other entities stay as they are.
pub fn try_move_player(delta_x: i32, delta_y: i32, map: &DungeonMap, store: &mut EntityStore)
    requires
        map.wf(),
        old(store).wf(),
    ensures
        final(store).wf(),
        stepped(*map, *old(store), *final(store), delta_x as int, delta_y as int),
{
    let movers = join3(&store.players, &store.positions, &store.viewsheds);
    let ghost dx = delta_x as int;
    let ghost dy = delta_y as int;
    proof {
        assert forall|k: int| 0 <= k < movers@.len() implies old(store).players.has(
            (#[trigger] movers@[k]).id as int,
        ) && old(store).positions.has(movers@[k].id as int) && old(store).viewsheds.has(
            movers@[k].id as int,
        ) by {
            let member = |id: int|
                old(store).players.has(id) && old(store).positions.has(id) && old(store).viewsheds.has(id);
            assert(member(movers@[k].id as int));
        }
    }
    let mut i: usize = 0;
    while i < movers.len()
        invariant
            i <= movers@.len(),
            map.wf(),
            store.wf(),
            dx == delta_x,
            dy == delta_y,
            store.alive == old(store).alive,
            store.renderables == old(store).renderables,
            store.players == old(store).players,
            store.positions@.dom() == old(store).positions@.dom(),
            store.viewsheds@.dom() == old(store).viewsheds@.dom(),
            forall|j: int, k: int|
                0 <= j < k < movers@.len() ==> (#[trigger] movers@[j]).id < (#[trigger] movers@[k]).id,
            forall|k: int|
                0 <= k < movers@.len() ==> old(store).players.has((#[trigger] movers@[k]).id as int),
            forall|id: int| #[trigger]
                store.positions@.dom().contains(id) ==> store.positions@[id] == (if exists|k: int|
                    0 <= k < i && (#[trigger] movers@[k]).id == id {
                    position_after_step(*map, *old(store), id, dx, dy)
                } else {
                    old(store).positions@[id]
                }),
            forall|id: int| #[trigger]
                store.viewsheds@.dom().contains(id) ==> store.viewsheds@[id] == (if exists|k: int|
                    0 <= k < i && (#[trigger] movers@[k]).id == id {
                    viewshed_after_step(*map, *old(store), id, dx, dy)
                } else {
                    old(store).viewsheds@[id]
                }),
        decreases movers@.len() - i,
    {
        let entity = movers[i];
        let ghost before = *store;
        let ghost me = entity.id as int;
        proof {
            lemma_has_is_in_view(old(store).players, me);
            if exists|k: int| 0 <= k < i && (#[trigger] movers@[k]).id == me {
                let k = choose|k: int| 0 <= k < i && (#[trigger] movers@[k]).id == me;
                assert(movers@[k].id < movers@[i as int].id);
            }
        }
        try_move(entity, delta_x, delta_y, map, store);
        proof {
            assert forall|id: int| #[trigger]
                store.positions@.dom().contains(id) implies store.positions@[id] == (if exists|k: int|
                0 <= k < i + 1 && (#[trigger] movers@[k]).id == id {
                position_after_step(*map, *old(store), id, dx, dy)
            } else {
                old(store).positions@[id]
            }) by {
                if id == me {
                    assert(movers@[i as int].id == id);
                } else if exists|k: int| 0 <= k < i + 1 && (#[trigger] movers@[k]).id == id {
                    let k = choose|k: int| 0 <= k < i + 1 && (#[trigger] movers@[k]).id == id;
                    assert(k < i);
                }
            }
            assert forall|id: int| #[trigger]
                store.viewsheds@.dom().contains(id) implies store.viewsheds@[id] == (if exists|k: int|
                0 <= k < i + 1 && (#[trigger] movers@[k]).id == id {
                viewshed_after_step(*map, *old(store), id, dx, dy)
            } else {
                old(store).viewsheds@[id]
            }) by {
                if id == me {
                    assert(movers@[i as int].id == id);
                } else if exists|k: int| 0 <= k < i + 1 && (#[trigger] movers@[k]).id == id {
                    let k = choose|k: int| 0 <= k < i + 1 && (#[trigger] movers@[k]).id == id;
                    assert(k < i);
                }
            }
            assert(store.positions@.dom() =~= old(store).positions@.dom());
            assert(store.viewsheds@.dom() =~= old(store).viewsheds@.dom());
        }
        i += 1;
    }
    proof {
        let member = |id: int|
            old(store).players.has(id) && old(store).positions.has(id) && old(store).viewsheds.has(id);
        assert(lists_exactly(movers@, member));
        assert forall|id: int| #[trigger]
            store.positions@.dom().contains(id) implies store.positions@[id] == position_after_step(
            *map,
            *old(store),
            id,
            dx,
            dy,
        ) by {
            lemma_has_is_in_view(old(store).players, id);
            lemma_has_is_in_view(old(store).positions, id);
            lemma_has_is_in_view(old(store).viewsheds, id);
            if old(store).players@.dom().contains(id) && moves(*map, *old(store), id, dx, dy) {
                assert(member(id));
            }
        }
        assert forall|id: int| #[trigger]
            store.viewsheds@.dom().contains(id) implies store.viewsheds@[id] == viewshed_after_step(
            *map,
            *old(store),
            id,
            dx,
            dy,
        ) by {
            lemma_has_is_in_view(old(store).players, id);
            lemma_has_is_in_view(old(store).positions, id);
            lemma_has_is_in_view(old(store).viewsheds, id);
            if old(store).players@.dom().contains(id) && moves(*map, *old(store), id, dx, dy) {
                assert(member(id));
            }
        }
    }
}

/// Applies the player's input to the game: a direction asks every player's
/// entity to step that way, and no input changes nothing.
pub fn player_input(game_state: &mut State, key: Option<Direction>)
    requires
        old(game_state).wf(),
    ensures
        final(game_state).wf(),
        final(game_state).map == old(game_state).map,
        key.is_none() ==> final(game_state).ecs == old(game_state).ecs,
        key.is_some() ==> stepped(
            old(game_state).map,
            old(game_state).ecs,
            final(game_state).ecs,
            key.unwrap().delta_spec().0,
            key.unwrap().delta_spec().1,
        ),
{
    match key {
        None => {},
        Some(direction) => {
            let (delta_x, delta_y) = direction.delta();
            try_move_player(delta_x, delta_y, &game_state.map, &mut game_state.ecs);
        },
    }
}

} // verus!
