//! Entities and their components: one sparse column per kind of component,
//! keyed by the entity's identifier.

use vstd::prelude::*;
use crate::components::{Player, Position, Renderable, Viewshed};

verus! {

/// An entity: an identifier and nothing else.
#[derive(PartialEq, Eq, Structural, Copy, Clone, Debug)]
pub struct Entity {
    pub id: usize,
}

/// Why the store refused an operation.
#[derive(PartialEq, Eq, Structural, Copy, Clone, Debug)]
pub enum StoreError {
    /// The entity was never created or has been deleted.
    InvalidEntity,
}

/// The components of one kind, at most one for each entity.
pub struct Column<C> {
    pub slots: Vec<Option<C>>,
}

impl<C> View for Column<C> {
    type V = Map<int, C>;

    /// The components by the identifier of the entity that carries them.
    open spec fn view(&self) -> Map<int, C> {
        Map::new(|id: int| self.has(id), |id: int| self.value(id))
    }
}

impl<C> Column<C> {
    /// The entity with identifier `id` carries a component of this kind.
    pub open spec fn has(self, id: int) -> bool {
        0 <= id < self.slots@.len() && self.slots@[id].is_some()
    }

    /// The component of the entity with identifier `id`.
    pub open spec fn value(self, id: int) -> C
        recommends
            self.has(id),
    {
        self.slots@[id].unwrap()
    }

    /// A column without components.
    pub fn new() -> (column: Column<C>)
        ensures
            column@ == Map::<int, C>::empty(),
            forall|id: int| !column.has(id),
    {
        let column = Column { slots: Vec::new() };
        assert(column@ =~= Map::<int, C>::empty());
        column
    }

    /// Whether `entity` carries a component of this kind.
    pub fn contains(&self, entity: Entity) -> (found: bool)
        ensures
            found == self.has(entity.id as int),
            found == self@.dom().contains(entity.id as int),
    {
        entity.id < self.slots.len() && self.slots[entity.id].is_some()
    }

    /// The component of `entity`, or `None` where it carries none.
    pub fn get(&self, entity: Entity) -> (found: Option<&C>)
        ensures
            found.is_some() == self.has(entity.id as int),
            found.is_some() ==> *found.unwrap() == self.value(entity.id as int),
    {
        if entity.id < self.slots.len() {
            self.slots[entity.id].as_ref()
        } else {
            None
        }
    }

    /// The component of `entity` for writing, or `None` where it carries
    /// none. What is written becomes the entity's component; the components of
    /// the other entities stay as they are.
    pub fn get_mut(&mut self, entity: Entity) -> (found: Option<&mut C>)
        ensures
            found.is_some() == old(self).has(entity.id as int),
            found.is_some() ==> *found.unwrap() == old(self).value(entity.id as int),
            found.is_some() ==> final(self)@ == old(self)@.insert(
                entity.id as int,
                *final(found.unwrap()),
            ),
            found.is_none() ==> final(self)@ == old(self)@,
    {
        if entity.id < self.slots.len() {
            self.slots[entity.id].as_mut()
        } else {
            None
        }
    }

    /// Gives `entity` the component `value` and returns the one it carried
    /// before, if any.
    pub fn insert(&mut self, entity: Entity, value: C) -> (previous: Option<C>)
        ensures
            final(self)@ == old(self)@.insert(entity.id as int, value),
            previous == (if old(self).has(entity.id as int) {
                Some(old(self).value(entity.id as int))
            } else {
                None
            }),
    {
        while self.slots.len() <= entity.id
            invariant
                self.slots@.len() >= old(self).slots@.len(),
                forall|id: int| 0 <= id < old(self).slots@.len() ==> self.slots@[id] == old(self).slots@[id],
                forall|id: int| old(self).slots@.len() <= id < self.slots@.len() ==> self.slots@[id].is_none(),
            decreases entity.id + 1 - self.slots@.len(),
        {
            self.slots.push(None);
        }
        let mut slot: Option<C> = Some(value);
        self.slots.set_and_swap(entity.id, &mut slot);
        assert(self@ =~= old(self)@.insert(entity.id as int, value));
        slot
    }

    /// Takes the component of `entity` away and returns it, if there was one.
    pub fn remove(&mut self, entity: Entity) -> (previous: Option<C>)
        ensures
            final(self)@ == old(self)@.remove(entity.id as int),
            previous == (if old(self).has(entity.id as int) {
                Some(old(self).value(entity.id as int))
            } else {
                None
            }),
    {
        if entity.id < self.slots.len() {
            let mut slot: Option<C> = None;
            self.slots.set_and_swap(entity.id, &mut slot);
            assert(self@ =~= old(self)@.remove(entity.id as int));
            slot
        } else {
            assert(self@ =~= old(self)@.remove(entity.id as int));
            None
        }
    }
}

/// `found` lists, by rising identifier and each once, exactly the entities
/// whose identifier is a `member`.
pub open spec fn lists_exactly(found: Seq<Entity>, member: spec_fn(int) -> bool) -> bool {
    &&& forall|i: int| 0 <= i < found.len() ==> member((#[trigger] found[i]).id as int)
    &&& forall|i: int, j: int|
        0 <= i < j < found.len() ==> (#[trigger] found[i]).id < (#[trigger] found[j]).id
    &&& forall|id: int| #[trigger]
        member(id) ==> exists|i: int| 0 <= i < found.len() && (#[trigger] found[i]).id == id
}

/// The entities that carry a component in both columns, by rising identifier.
pub fn join2<A, B>(a: &Column<A>, b: &Column<B>) -> (found: Vec<Entity>)
    ensures
        lists_exactly(found@, |id: int| a.has(id) && b.has(id)),
{
    let ghost member = |id: int| a.has(id) && b.has(id);
    let mut found: Vec<Entity> = Vec::new();
    let mut id: usize = 0;
    while id < a.slots.len() && id < b.slots.len()
        invariant
            member == (|id: int| a.has(id) && b.has(id)),
            forall|i: int| 0 <= i < found@.len() ==> member((#[trigger] found@[i]).id as int),
            forall|i: int| 0 <= i < found@.len() ==> (#[trigger] found@[i]).id < id,
            forall|i: int, j: int|
                0 <= i < j < found@.len() ==> (#[trigger] found@[i]).id < (#[trigger] found@[j]).id,
            forall|k: int|
                0 <= k < id && #[trigger] member(k) ==> exists|i: int|
                    0 <= i < found@.len() && (#[trigger] found@[i]).id == k,
        decreases a.slots@.len() - id,
    {
        let entity = Entity { id };
        if a.contains(entity) && b.contains(entity) {
            let ghost before = found@;
            found.push(entity);
            assert(found@[before.len() as int].id == id);
            assert forall|k: int| 0 <= k < id + 1 && #[trigger] member(k) implies exists|i: int|
                0 <= i < found@.len() && (#[trigger] found@[i]).id == k by {
                if k < id {
                    let i = choose|i: int| 0 <= i < before.len() && (#[trigger] before[i]).id == k;
                    assert(found@[i].id == k);
                }
            }
        }
        id += 1;
    }
    found
}

/// The entities that carry a component in all three columns, by rising
/// identifier.
pub fn join3<A, B, C>(a: &Column<A>, b: &Column<B>, c: &Column<C>) -> (found: Vec<Entity>)
    ensures
        lists_exactly(found@, |id: int| a.has(id) && b.has(id) && c.has(id)),
{
    let ghost member = |id: int| a.has(id) && b.has(id) && c.has(id);
    let mut found: Vec<Entity> = Vec::new();
    let mut id: usize = 0;
    while id < a.slots.len() && id < b.slots.len() && id < c.slots.len()
        invariant
            member == (|id: int| a.has(id) && b.has(id) && c.has(id)),
            forall|i: int| 0 <= i < found@.len() ==> member((#[trigger] found@[i]).id as int),
            forall|i: int| 0 <= i < found@.len() ==> (#[trigger] found@[i]).id < id,
            forall|i: int, j: int|
                0 <= i < j < found@.len() ==> (#[trigger] found@[i]).id < (#[trigger] found@[j]).id,
            forall|k: int|
                0 <= k < id && #[trigger] member(k) ==> exists|i: int|
                    0 <= i < found@.len() && (#[trigger] found@[i]).id == k,
        decreases a.slots@.len() - id,
    {
        let entity = Entity { id };
        if a.contains(entity) && b.contains(entity) && c.contains(entity) {
            let ghost before = found@;
            found.push(entity);
            assert(found@[before.len() as int].id == id);
            assert forall|k: int| 0 <= k < id + 1 && #[trigger] member(k) implies exists|i: int|
                0 <= i < found@.len() && (#[trigger] found@[i]).id == k by {
                if k < id {
                    let i = choose|i: int| 0 <= i < before.len() && (#[trigger] before[i]).id == k;
                    assert(found@[i].id == k);
                }
            }
        }
        id += 1;
    }
    found
}

/// The entities that carry a component in both columns, by rising identifier,
/// each with its two components.
pub fn query2<A: Copy, B: Copy>(a: &Column<A>, b: &Column<B>) -> (rows: Vec<(Entity, A, B)>)
    ensures
        lists_exactly(rows@.map_values(|row: (Entity, A, B)| row.0), |id: int| a.has(id) && b.has(id)),
        forall|i: int|
            0 <= i < rows@.len() ==> (#[trigger] rows@[i]).1 == a.value(rows@[i].0.id as int)
                && rows@[i].2 == b.value(rows@[i].0.id as int),
{
    let found = join2(a, b);
    let mut rows: Vec<(Entity, A, B)> = Vec::new();
    let mut i: usize = 0;
    while i < found.len()
        invariant
            i <= found@.len(),
            rows@.len() == i,
            lists_exactly(found@, |id: int| a.has(id) && b.has(id)),
            forall|k: int|
                0 <= k < i ==> (#[trigger] rows@[k]).0 == found@[k] && rows@[k].1 == a.value(
                    found@[k].id as int,
                ) && rows@[k].2 == b.value(found@[k].id as int),
        decreases found@.len() - i,
    {
        let entity = found[i];
        proof {
            let member = |id: int| a.has(id) && b.has(id);
            assert(member(found@[i as int].id as int));
        }
        let first: A = *a.get(entity).unwrap();
        let second: B = *b.get(entity).unwrap();
        rows.push((entity, first, second));
        i += 1;
    }
    assert(rows@.map_values(|row: (Entity, A, B)| row.0) =~= found@);
    rows
}

/// The entities that were created and not deleted, with the components that
/// each of them carries.
pub struct EntityStore {
    pub alive: Vec<bool>,
    pub positions: Column<Position>,
    pub renderables: Column<Renderable>,
    pub players: Column<Player>,
    pub viewsheds: Column<Viewshed>,
}

impl EntityStore {
    /// The entity with identifier `id` was created and has not been deleted.
    pub open spec fn is_live(self, id: int) -> bool {
        0 <= id < self.alive@.len() && self.alive@[id]
    }

    /// How many identifiers have been handed out so far.
    pub open spec fn issued(self) -> int {
        self.alive@.len() as int
    }

    /// Only live entities carry components.
    pub open spec fn wf(self) -> bool {
        forall|id: int|
            (self.positions.has(id) || self.renderables.has(id) || self.players.has(id)
                || self.viewsheds.has(id)) ==> #[trigger] self.is_live(id)
    }

    /// Whether every entity with identifier below `bound` that carries a
    /// component is live.
    fn carriers_live_below(&self, bound: usize) -> (ok: bool)
        ensures
            ok == forall|id: int|
                0 <= id < bound && (self.positions.has(id) || self.renderables.has(id)
                    || self.players.has(id) || self.viewsheds.has(id)) ==> #[trigger] self.is_live(
                    id,
                ),
    {
        let mut id: usize = 0;
        while id < bound
            invariant
                id <= bound,
                forall|k: int|
                    0 <= k < id && (self.positions.has(k) || self.renderables.has(k)
                        || self.players.has(k) || self.viewsheds.has(k)) ==> #[trigger] self.is_live(
                        k,
                    ),
            decreases bound - id,
        {
            let entity = Entity { id };
            let carries = self.positions.contains(entity) || self.renderables.contains(entity)
                || self.players.contains(entity) || self.viewsheds.contains(entity);
            if carries && !self.is_alive(entity) {
                return false;
            }
            id += 1;
        }
        true
    }

    /// Whether the store is well formed.
    pub fn is_well_formed(&self) -> (ok: bool)
        ensures
            ok == self.wf(),
    {
        let mut bound: usize = self.positions.slots.len();
        if self.renderables.slots.len() > bound {
            bound = self.renderables.slots.len();
        }
        if self.players.slots.len() > bound {
            bound = self.players.slots.len();
        }
        if self.viewsheds.slots.len() > bound {
            bound = self.viewsheds.slots.len();
        }
        self.carriers_live_below(bound)
    }

    /// A store without entities.
    pub fn new() -> (store: EntityStore)
        ensures
            store.wf(),
            store.issued() == 0,
            store.positions@ == Map::<int, Position>::empty(),
            store.renderables@ == Map::<int, Renderable>::empty(),
            store.players@ == Map::<int, Player>::empty(),
            store.viewsheds@ == Map::<int, Viewshed>::empty(),
    {
        EntityStore {
            alive: Vec::new(),
            positions: Column::new(),
            renderables: Column::new(),
            players: Column::new(),
            viewsheds: Column::new(),
        }
    }

    /// Creates an entity. Its identifier was never handed out before, and it
    /// carries no component yet; the other entities stay as they are.
    pub fn create_entity(&mut self) -> (entity: Entity)
        requires
            old(self).wf(),
        ensures
            final(self).wf(),
            entity.id == old(self).issued(),
            final(self).issued() == old(self).issued() + 1,
            final(self).is_live(entity.id as int),
            forall|id: int| id != entity.id ==> final(self).is_live(id) == old(self).is_live(id),
            !final(self).positions.has(entity.id as int),
            !final(self).renderables.has(entity.id as int),
            !final(self).players.has(entity.id as int),
            !final(self).viewsheds.has(entity.id as int),
            final(self).positions == old(self).positions,
            final(self).renderables == old(self).renderables,
            final(self).players == old(self).players,
            final(self).viewsheds == old(self).viewsheds,
    {
        let id: usize = self.alive.len();
        proof {
            if self.positions.has(id as int) || self.renderables.has(id as int) || self.players.has(
                id as int,
            ) || self.viewsheds.has(id as int) {
                assert(self.is_live(id as int));
            }
        }
        self.alive.push(true);
        assert forall|k: int|
            (self.positions.has(k) || self.renderables.has(k) || self.players.has(k)
                || self.viewsheds.has(k)) implies #[trigger] self.is_live(k) by {
            assert(old(self).is_live(k));
        }
        Entity { id }
    }

    /// Whether `entity` was created and has not been deleted.
    pub fn is_alive(&self, entity: Entity) -> (live: bool)
        ensures
            live == self.is_live(entity.id as int),
    {
        entity.id < self.alive.len() && self.alive[entity.id]
    }

    /// Deletes `entity` with all its components. Its identifier is not handed
    /// out again. Fails with `InvalidEntity`, and changes nothing, where the
    /// entity is not live.
    pub fn delete_entity(&mut self, entity: Entity) -> (outcome: Result<(), StoreError>)
        requires
            old(self).wf(),
        ensures
            final(self).wf(),
            outcome.is_ok() == old(self).is_live(entity.id as int),
            outcome.is_err() ==> outcome == Err::<(), StoreError>(StoreError::InvalidEntity)
                && final(self).alive@ == old(self).alive@,
            final(self).issued() == old(self).issued(),
            !final(self).is_live(entity.id as int),
            forall|id: int| id != entity.id ==> final(self).is_live(id) == old(self).is_live(id),
            final(self).positions@ == old(self).positions@.remove(entity.id as int),
            final(self).renderables@ == old(self).renderables@.remove(entity.id as int),
            final(self).players@ == old(self).players@.remove(entity.id as int),
            final(self).viewsheds@ == old(self).viewsheds@.remove(entity.id as int),
    {
        if !self.is_alive(entity) {
            proof {
                let id = entity.id as int;
                assert(!self.positions.has(id) && !self.renderables.has(id) && !self.players.has(id)
                    && !self.viewsheds.has(id)) by {
                    if self.positions.has(id) || self.renderables.has(id) || self.players.has(id)
                        || self.viewsheds.has(id) {
                        assert(self.is_live(id));
                    }
                }
                assert(self.positions@ =~= self.positions@.remove(id));
                assert(self.renderables@ =~= self.renderables@.remove(id));
                assert(self.players@ =~= self.players@.remove(id));
                assert(self.viewsheds@ =~= self.viewsheds@.remove(id));
            }
            return Err(StoreError::InvalidEntity);
        }
        self.positions.remove(entity);
        self.renderables.remove(entity);
        self.players.remove(entity);
        self.viewsheds.remove(entity);
        self.alive.set(entity.id, false);
        proof {
            assert forall|k: int|
                (self.positions.has(k) || self.renderables.has(k) || self.players.has(k)
                    || self.viewsheds.has(k)) implies #[trigger] self.is_live(k) by {
                lemma_has_is_in_view(self.positions, k);
                lemma_has_is_in_view(self.renderables, k);
                lemma_has_is_in_view(self.players, k);
                lemma_has_is_in_view(self.viewsheds, k);
                lemma_has_is_in_view(old(self).positions, k);
                lemma_has_is_in_view(old(self).renderables, k);
                lemma_has_is_in_view(old(self).players, k);
                lemma_has_is_in_view(old(self).viewsheds, k);
                assert(old(self).is_live(k));
            }
        }
        Ok(())
    }

    /// Gives `entity` the position `value`, in place of the one it had. Fails
    /// with `InvalidEntity`, and changes nothing, where the entity is not live.
    pub fn attach_position(&mut self, entity: Entity, value: Position) -> (outcome: Result<
        (),
        StoreError,
    >)
        requires
            old(self).wf(),
        ensures
            final(self).wf(),
            outcome.is_ok() == old(self).is_live(entity.id as int),
            outcome.is_err() ==> outcome == Err::<(), StoreError>(StoreError::InvalidEntity)
                && final(self).positions@ == old(self).positions@,
            outcome.is_ok() ==> final(self).positions@ == old(self).positions@.insert(
                entity.id as int,
                value,
            ),
            final(self).alive == old(self).alive,
            final(self).renderables == old(self).renderables,
            final(self).players == old(self).players,
            final(self).viewsheds == old(self).viewsheds,
    {
        if !self.is_alive(entity) {
            return Err(StoreError::InvalidEntity);
        }
        self.positions.insert(entity, value);
        proof {
            assert forall|k: int|
                (self.positions.has(k) || self.renderables.has(k) || self.players.has(k)
                    || self.viewsheds.has(k)) implies #[trigger] self.is_live(k) by {
                lemma_has_is_in_view(self.positions, k);
                lemma_has_is_in_view(old(self).positions, k);
                if k != entity.id {
                    assert(old(self).is_live(k));
                }
            }
        }
        Ok(())
    }

    /// Gives `entity` the appearance `value`, in place of the one it had. Fails
    /// with `InvalidEntity`, and changes nothing, where the entity is not live.
    pub fn attach_renderable(&mut self, entity: Entity, value: Renderable) -> (outcome: Result<
        (),
        StoreError,
    >)
        requires
            old(self).wf(),
        ensures
            final(self).wf(),
            outcome.is_ok() == old(self).is_live(entity.id as int),
            outcome.is_err() ==> outcome == Err::<(), StoreError>(StoreError::InvalidEntity)
                && final(self).renderables@ == old(self).renderables@,
            outcome.is_ok() ==> final(self).renderables@ == old(self).renderables@.insert(
                entity.id as int,
                value,
            ),
            final(self).alive == old(self).alive,
            final(self).positions == old(self).positions,
            final(self).players == old(self).players,
            final(self).viewsheds == old(self).viewsheds,
    {
        if !self.is_alive(entity) {
            return Err(StoreError::InvalidEntity);
        }
        self.renderables.insert(entity, value);
        proof {
            assert forall|k: int|
                (self.positions.has(k) || self.renderables.has(k) || self.players.has(k)
                    || self.viewsheds.has(k)) implies #[trigger] self.is_live(k) by {
                lemma_has_is_in_view(self.renderables, k);
                lemma_has_is_in_view(old(self).renderables, k);
                if k != entity.id {
                    assert(old(self).is_live(k));
                }
            }
        }
        Ok(())
    }

    /// Marks `entity` as the player's. Fails with `InvalidEntity`, and changes
    /// nothing, where the entity is not live.
    pub fn attach_player(&mut self, entity: Entity, value: Player) -> (outcome: Result<
        (),
        StoreError,
    >)
        requires
            old(self).wf(),
        ensures
            final(self).wf(),
            outcome.is_ok() == old(self).is_live(entity.id as int),
            outcome.is_err() ==> outcome == Err::<(), StoreError>(StoreError::InvalidEntity)
                && final(self).players@ == old(self).players@,
            outcome.is_ok() ==> final(self).players@ == old(self).players@.insert(
                entity.id as int,
                value,
            ),
            final(self).alive == old(self).alive,
            final(self).positions == old(self).positions,
            final(self).renderables == old(self).renderables,
            final(self).viewsheds == old(self).viewsheds,
    {
        if !self.is_alive(entity) {
            return Err(StoreError::InvalidEntity);
        }
        self.players.insert(entity, value);
        proof {
            assert forall|k: int|
                (self.positions.has(k) || self.renderables.has(k) || self.players.has(k)
                    || self.viewsheds.has(k)) implies #[trigger] self.is_live(k) by {
                lemma_has_is_in_view(self.players, k);
                lemma_has_is_in_view(old(self).players, k);
                if k != entity.id {
                    assert(old(self).is_live(k));
                }
            }
        }
        Ok(())
    }

    /// Gives `entity` the viewshed `value`, in place of the one it had. Fails
    /// with `InvalidEntity`, and changes nothing, where the entity is not live.
    pub fn attach_viewshed(&mut self, entity: Entity, value: Viewshed) -> (outcome: Result<
        (),
        StoreError,
    >)
        requires
            old(self).wf(),
        ensures
            final(self).wf(),
            outcome.is_ok() == old(self).is_live(entity.id as int),
            outcome.is_err() ==> outcome == Err::<(), StoreError>(StoreError::InvalidEntity)
                && final(self).viewsheds@ == old(self).viewsheds@,
            outcome.is_ok() ==> final(self).viewsheds@ == old(self).viewsheds@.insert(
                entity.id as int,
                value,
            ),
            final(self).alive == old(self).alive,
            final(self).positions == old(self).positions,
            final(self).renderables == old(self).renderables,
            final(self).players == old(self).players,
    {
        if !self.is_alive(entity) {
            return Err(StoreError::InvalidEntity);
        }
        self.viewsheds.insert(entity, value);
        proof {
            assert forall|k: int|
                (self.positions.has(k) || self.renderables.has(k) || self.players.has(k)
                    || self.viewsheds.has(k)) implies #[trigger] self.is_live(k) by {
                lemma_has_is_in_view(self.viewsheds, k);
                lemma_has_is_in_view(old(self).viewsheds, k);
                if k != entity.id {
                    assert(old(self).is_live(k));
                }
            }
        }
        Ok(())
    }
}

/// An entity carries a component of a column exactly when its identifier is
/// a key of the column's view, and the component is the value under that key.
pub proof fn lemma_has_is_in_view<C>(column: Column<C>, id: int)
    ensures
        column.has(id) == column@.dom().contains(id),
        column.has(id) ==> column@[id] == column.value(id),
{
}

} // verus!
