//! The game: a map and the entities on it, advanced one tick at a time.

use vstd::prelude::*;
use crate::components::{Color, Player, Position, Renderable, Viewshed};
use crate::map::DungeonMap;
use crate::player::{
    lemma_destination_on_grid, player_input, position_after_step, viewshed_after_step, Direction,
};
use crate::store::{Entity, EntityStore};
use crate::visibility::{refreshed, visible_from, VisibilitySystem};

verus! {

/// How far the player sees, in cells.
pub const PLAYER_RANGE: i32 = 8;

/// How the player is drawn: a yellow `@` on black.
pub open spec fn player_look() -> Renderable {
    Renderable {
        glyph: 64,
        fg: Color { r: 255, g: 255, b: 0 },
        bg: Color { r: 0, g: 0, b: 0 },
    }
}

/// The map and the entities on it.
pub struct State {
    pub ecs: EntityStore,
    pub map: DungeonMap,
}

impl State {
    /// The map and the store are each well formed.
    pub open spec fn wf(self) -> bool {
        self.map.wf() && self.ecs.wf()
    }

    /// Every entity with a position stands on a cell of the grid.
    pub open spec fn positions_on_grid(self) -> bool {
        forall|id: int| #[trigger]
            self.ecs.positions@.dom().contains(id) ==> self.map.has_cell(
                self.ecs.positions@[id].x as int,
                self.ecs.positions@[id].y as int,
            )
    }

    /// Every clean viewshed of an entity with a position holds exactly the
    /// cells that are seen from where the entity stands.
    pub open spec fn views_current(self) -> bool {
        forall|id: int|
            self.ecs.positions@.dom().contains(id) && #[trigger] self.ecs.viewsheds@.dom().contains(id)
                && !self.ecs.viewsheds@[id].dirty ==> self.ecs.viewsheds@[id].visible_set()
                == visible_from(
                self.map,
                self.ecs.positions@[id].cell(),
                self.ecs.viewsheds@[id].range as int,
            )
    }

    /// The viewshed that the entity with identifier `id` has once the tick
    /// has taken the input `key`, before visibility is brought up to date.
    pub open spec fn viewshed_after_input(self, id: int, key: Option<Direction>) -> Viewshed {
        match key {
            None => self.ecs.viewsheds@[id],
            Some(direction) => viewshed_after_step(
                self.map,
                self.ecs,
                id,
                direction.delta_spec().0,
                direction.delta_spec().1,
            ),
        }
    }

    /// The position that the entity with identifier `id` has once the tick
    /// has taken the input `key`.
    pub open spec fn position_after_input(self, id: int, key: Option<Direction>) -> Position {
        match key {
            None => self.ecs.positions@[id],
            Some(direction) => position_after_step(
                self.map,
                self.ecs,
                id,
                direction.delta_spec().0,
                direction.delta_spec().1,
            ),
        }
    }

    /// Whether the game is well formed.
    pub fn is_well_formed(&self) -> (ok: bool)
        ensures
            ok == self.wf(),
    {
        self.map.is_well_formed() && self.ecs.is_well_formed()
    }

    /// Sets the game up on `map`: one entity, the player, at the centre of
    /// the first room, drawn as a yellow `@` on black, with a dirty viewshed
    /// that reaches `PLAYER_RANGE` cells. A map without rooms has no place
    /// for the player: the result is then `None`.
    pub fn new(map: DungeonMap) -> (made: Option<State>)
        requires
            map.wf(),
        ensures
            made.is_some() == (map.rooms@.len() > 0),
            made.is_some() ==> {
                let state = made.unwrap();
                &&& state.wf()
                &&& state.positions_on_grid()
                &&& state.views_current()
                &&& state.map == map
                &&& state.ecs.issued() == 1
                &&& state.ecs.is_live(0)
                &&& state.ecs.positions@ == Map::<int, Position>::empty().insert(
                    0,
                    Position { x: map.room_center(0).0 as i32, y: map.room_center(0).1 as i32 },
                )
                &&& state.ecs.renderables@ == Map::<int, Renderable>::empty().insert(
                    0,
                    player_look(),
                )
                &&& state.ecs.players@ == Map::<int, Player>::empty().insert(0, Player {  })
                &&& state.ecs.viewsheds@.dom() == Set::<int>::empty().insert(0)
                &&& state.ecs.viewsheds@[0].range == PLAYER_RANGE
                &&& state.ecs.viewsheds@[0].dirty
                &&& state.ecs.viewsheds@[0].visible_tiles@.len() == 0
            },
    {
        if map.rooms.len() == 0 {
            return None;
        }
        let (player_x, player_y) = map.rooms[0].center();
        let mut ecs = EntityStore::new();
        let player: Entity = ecs.create_entity();
        let placed = ecs.attach_position(player, Position { x: player_x, y: player_y });
        let drawn = ecs.attach_renderable(
            player,
            Renderable::new('@', Color { r: 255, g: 255, b: 0 }, Color { r: 0, g: 0, b: 0 }),
        );
        let marked = ecs.attach_player(player, Player {  });
        let sighted = ecs.attach_viewshed(player, Viewshed::new(PLAYER_RANGE));
        proof {
            assert(ecs.viewsheds@.dom() =~= Set::<int>::empty().insert(0));
        }
        Some(State { ecs, map })
    }

    /// Brings every dirty viewshed up to date.
    pub fn run_systems(&mut self)
        requires
            old(self).wf(),
        ensures
            final(self).wf(),
            final(self).map == old(self).map,
            final(self).ecs.alive == old(self).ecs.alive,
            final(self).ecs.positions == old(self).ecs.positions,
            final(self).ecs.renderables == old(self).ecs.renderables,
            final(self).ecs.players == old(self).ecs.players,
            final(self).ecs.viewsheds@.dom() == old(self).ecs.viewsheds@.dom(),
            forall|id: int| #[trigger]
                final(self).ecs.viewsheds@.dom().contains(id) ==> (if crate::visibility::needs_refresh(
                    old(self).ecs,
                    id,
                ) {
                    refreshed(
                        old(self).map,
                        old(self).ecs.positions@[id],
                        old(self).ecs.viewsheds@[id],
                        final(self).ecs.viewsheds@[id],
                    )
                } else {
                    final(self).ecs.viewsheds@[id] == old(self).ecs.viewsheds@[id]
                }),
            forall|id: int| !crate::visibility::needs_refresh(final(self).ecs, id),
            old(self).views_current() ==> final(self).views_current(),
    {
        let vis = VisibilitySystem {  };
        vis.run(&self.map, &mut self.ecs);
        proof {
            if old(self).views_current() {
                assert forall|id: int|
                    self.ecs.positions@.dom().contains(id) && #[trigger] self.ecs.viewsheds@.dom().contains(
                        id,
                    ) && !self.ecs.viewsheds@[id].dirty implies self.ecs.viewsheds@[id].visible_set()
                    == visible_from(
                    self.map,
                    self.ecs.positions@[id].cell(),
                    self.ecs.viewsheds@[id].range as int,
                ) by {
                    assert(old(self).ecs.viewsheds@.dom().contains(id));
                }
            }
        }
    }

    /// One tick of the game: takes the player's input, if any, then brings
    /// every dirty viewshed up to date. Each entity ends where the input
    /// leaves it; a viewshed that the input leaves dirty, on an entity with a
    /// position, is computed anew from there, and every other viewshed stays
    /// as the input leaves it.
    pub fn tick(&mut self, key: Option<Direction>)
        requires
            old(self).wf(),
        ensures
            final(self).wf(),
            final(self).map == old(self).map,
            final(self).ecs.alive == old(self).ecs.alive,
            final(self).ecs.renderables == old(self).ecs.renderables,
            final(self).ecs.players == old(self).ecs.players,
            final(self).ecs.positions@.dom() == old(self).ecs.positions@.dom(),
            final(self).ecs.viewsheds@.dom() == old(self).ecs.viewsheds@.dom(),
            forall|id: int| #[trigger]
                final(self).ecs.positions@.dom().contains(id) ==> final(self).ecs.positions@[id] == old(
                    self,
                ).position_after_input(id, key),
            forall|id: int| #[trigger]
                final(self).ecs.viewsheds@.dom().contains(id) ==> (if old(self).ecs.positions@.dom().contains(
                    id,
                ) && old(self).viewshed_after_input(id, key).dirty {
                    refreshed(
                        old(self).map,
                        old(self).position_after_input(id, key),
                        old(self).viewshed_after_input(id, key),
                        final(self).ecs.viewsheds@[id],
                    )
                } else {
                    final(self).ecs.viewsheds@[id] == old(self).viewshed_after_input(id, key)
                }),
            forall|id: int| !crate::visibility::needs_refresh(final(self).ecs, id),
            old(self).positions_on_grid() ==> final(self).positions_on_grid(),
            old(self).views_current() ==> final(self).views_current(),
    {
        player_input(self, key);
        let ghost taken = *self;
        proof {
            if old(self).positions_on_grid() {
                assert forall|id: int| #[trigger]
                    taken.ecs.positions@.dom().contains(id) implies taken.map.has_cell(
                    taken.ecs.positions@[id].x as int,
                    taken.ecs.positions@[id].y as int,
                ) by {
                    assert(old(self).ecs.positions@.dom().contains(id));
                    if key.is_some() {
                        lemma_destination_on_grid(
                            old(self).map,
                            old(self).ecs.positions@[id],
                            key.unwrap().delta_spec().0,
                            key.unwrap().delta_spec().1,
                        );
                    }
                }
            }
            if old(self).views_current() {
                assert forall|id: int|
                    taken.ecs.positions@.dom().contains(id) && #[trigger] taken.ecs.viewsheds@.dom().contains(
                        id,
                    ) && !taken.ecs.viewsheds@[id].dirty implies taken.ecs.viewsheds@[id].visible_set()
                    == visible_from(
                    taken.map,
                    taken.ecs.positions@[id].cell(),
                    taken.ecs.viewsheds@[id].range as int,
                ) by {
                    assert(old(self).ecs.viewsheds@.dom().contains(id));
                    assert(old(self).ecs.positions@.dom().contains(id));
                }
                assert(taken.views_current());
            }
        }
        self.run_systems();
        proof {
            assert forall|id: int| #[trigger]
                self.ecs.viewsheds@.dom().contains(id) implies (if old(self).ecs.positions@.dom().contains(
                id,
            ) && old(self).viewshed_after_input(id, key).dirty {
                refreshed(
                    old(self).map,
                    old(self).position_after_input(id, key),
                    old(self).viewshed_after_input(id, key),
                    self.ecs.viewsheds@[id],
                )
            } else {
                self.ecs.viewsheds@[id] == old(self).viewshed_after_input(id, key)
            }) by {
                assert(taken.ecs.viewsheds@.dom().contains(id));
                assert(taken.ecs.viewsheds@[id] == old(self).viewshed_after_input(id, key));
                if taken.ecs.positions@.dom().contains(id) {
                    assert(taken.ecs.positions@[id] == old(self).position_after_input(id, key));
                }
            }
        }
    }
}

} // verus!
