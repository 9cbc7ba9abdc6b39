//! Which cell lies where, and what it costs to cross it.
//!
//! The index keeps its two directions in tables of the engine. The costs
//! stand for what the engine stores with each cell, and are kept in a map of
//! the standard library.

use std::collections::HashMap;
use vstd::prelude::*;
use crate::coord::Coord;
use crate::path_finding::MoveCost;
use crate::tables::{lookup, CoordMap, IdMap};

verus! {

broadcast use vstd::std_specs::hash::group_hash_axioms;

/// The cost of each cell, by the cell's identifier.
pub struct CostField {
    costs: HashMap<u64, MoveCost>,
}

impl View for CostField {
    type V = Map<u64, MoveCost>;

    closed spec fn view(&self) -> Map<u64, MoveCost> {
        self.costs@
    }
}

impl CostField {
    /// A field without cells.
    pub fn new() -> (f: CostField)
        ensures
            f@ == Map::<u64, MoveCost>::empty(),
    {
        CostField { costs: HashMap::new() }
    }

    /// Records that cell `id` costs `cost`; returns the cost that was
    /// recorded for it before, if one was.
    pub fn insert(&mut self, id: u64, cost: MoveCost) -> (prev: Option<MoveCost>)
        ensures
            final(self)@ == old(self)@.insert(id, cost),
            prev == lookup(old(self)@, id),
    {
        self.costs.insert(id, cost)
    }

    /// Forgets the cost of cell `id`; returns it, if one was recorded.
    pub fn remove(&mut self, id: u64) -> (prev: Option<MoveCost>)
        ensures
            final(self)@ == old(self)@.remove(id),
            prev == lookup(old(self)@, id),
    {
        self.costs.remove(&id)
    }

    /// The cost recorded for cell `id`, if one is.
    pub fn get(&self, id: u64) -> (cost: Option<MoveCost>)
        ensures
            cost == lookup(self@, id),
    {
        match self.costs.get(&id) {
            Some(c) => Some(*c),
            None => None,
        }
    }
}

/// The grid index: for each coordinate the identifier of the cell that lies
/// there, and for each identifier the coordinate of its cell. The two
/// directions always agree.
pub struct CellIdToEntity {
    id_to_entity: CoordMap,
    entity_to_id: IdMap,
}

/// The two directions of an index agree: what one maps, the other maps back.
pub open spec fn directions_agree(ids: Map<Coord, u64>, coords: Map<u64, Coord>) -> bool {
    &&& forall|c: Coord| #[trigger]
        ids.contains_key(c) ==> coords.contains_key(ids[c]) && coords[ids[c]] == c
    &&& forall|id: u64| #[trigger]
        coords.contains_key(id) ==> ids.contains_key(coords[id]) && ids[coords[id]] == id
}

impl CellIdToEntity {
    /// The identifier of the cell at each coordinate.
    pub closed spec fn ids(&self) -> Map<Coord, u64> {
        self.id_to_entity@
    }

    /// The coordinate of each cell.
    pub closed spec fn coords(&self) -> Map<u64, Coord> {
        self.entity_to_id@
    }

    /// The two directions agree.
    pub open spec fn consistent(&self) -> bool {
        directions_agree(self.ids(), self.coords())
    }

    #[verifier::type_invariant]
    spec fn agreement(&self) -> bool {
        self.consistent()
    }

    /// An index without cells.
    pub fn new() -> (index: CellIdToEntity)
        ensures
            index.ids() == Map::<Coord, u64>::empty(),
            index.coords() == Map::<u64, Coord>::empty(),
            index.consistent(),
    {
        let id_to_entity = CoordMap::new();
        let entity_to_id = IdMap::new();
        CellIdToEntity { id_to_entity, entity_to_id }
    }

    /// The identifier of the cell at `id`, if the index has one there.
    pub fn get_by_id(&self, id: &Coord) -> (entity: Option<u64>)
        ensures
            self.consistent(),
            entity == lookup(self.ids(), *id),
            entity.is_some() ==> lookup(self.coords(), entity.unwrap()) == Some(*id),
    {
        proof {
            use_type_invariant(self);
        }
        self.id_to_entity.get(*id)
    }

    /// The coordinate of cell `entity`, if the index has that cell.
    pub fn get_by_entity(&self, entity: u64) -> (id: Option<Coord>)
        ensures
            self.consistent(),
            id == lookup(self.coords(), entity),
            id.is_some() ==> lookup(self.ids(), id.unwrap()) == Some(entity),
    {
        proof {
            use_type_invariant(self);
        }
        self.entity_to_id.get(entity)
    }

    /// What the identifiers are after `entity` has been put at `id`: a cell
    /// that `entity` named before has left its old place.
    pub open spec fn ids_after_insert(ids: Map<Coord, u64>, coords: Map<u64, Coord>, id: Coord, entity: u64) -> Map<Coord, u64> {
        if coords.contains_key(entity) {
            ids.remove(coords[entity]).insert(id, entity)
        } else {
            ids.insert(id, entity)
        }
    }

    /// What the coordinates are after `entity` has been put at `id`: the
    /// cell that lay at `id` before is no longer known.
    pub open spec fn coords_after_insert(ids: Map<Coord, u64>, coords: Map<u64, Coord>, id: Coord, entity: u64) -> Map<u64, Coord> {
        if ids.contains_key(id) {
            coords.remove(ids[id]).insert(entity, id)
        } else {
            coords.insert(entity, id)
        }
    }

    /// Puts cell `entity` at coordinate `id`. A cell that lay there before
    /// is returned and leaves the index in both directions, and so does an
    /// earlier place of `entity`.
    pub fn insert(&mut self, id: Coord, entity: u64) -> (evicted: Option<u64>)
        ensures
            evicted == lookup(old(self).ids(), id),
            final(self).ids() == Self::ids_after_insert(old(self).ids(), old(self).coords(), id, entity),
            final(self).coords() == Self::coords_after_insert(old(self).ids(), old(self).coords(), id, entity),
            final(self).consistent(),
    {
        proof {
            use_type_invariant(&*self);
        }
        let mut taken = CellIdToEntity::new();
        std::mem::swap(self, &mut taken);
        let CellIdToEntity { id_to_entity: mut ids, entity_to_id: mut coords } = taken;
        let evicted = ids.get(id);
        let left = coords.get(entity);
        if let Some(old_place) = left {
            ids.remove(old_place);
        }
        if let Some(old_entity) = evicted {
            coords.remove(old_entity);
        }
        ids.insert(id, entity);
        coords.insert(entity, id);
        *self = CellIdToEntity { id_to_entity: ids, entity_to_id: coords };
        evicted
    }

    /// What the identifiers are after `entity` has been taken out.
    pub open spec fn ids_after_remove(ids: Map<Coord, u64>, coords: Map<u64, Coord>, entity: u64) -> Map<Coord, u64> {
        if coords.contains_key(entity) {
            ids.remove(coords[entity])
        } else {
            ids
        }
    }

    /// What the coordinates are after `entity` has been taken out.
    pub open spec fn coords_after_remove(coords: Map<u64, Coord>, entity: u64) -> Map<u64, Coord> {
        coords.remove(entity)
    }

    /// Takes cell `entity` out of the index, in both directions, and returns
    /// where it lay. An identifier that the index does not hold changes
    /// nothing.
    pub fn remove(&mut self, entity: u64) -> (id: Option<Coord>)
        ensures
            id == lookup(old(self).coords(), entity),
            final(self).ids() == Self::ids_after_remove(old(self).ids(), old(self).coords(), entity),
            final(self).coords() == Self::coords_after_remove(old(self).coords(), entity),
            id.is_none() ==> final(self).ids() == old(self).ids() && final(self).coords() == old(self).coords(),
            final(self).consistent(),
    {
        proof {
            use_type_invariant(&*self);
        }
        let mut taken = CellIdToEntity::new();
        std::mem::swap(self, &mut taken);
        let CellIdToEntity { id_to_entity: mut ids, entity_to_id: mut coords } = taken;
        let id = coords.remove(entity);
        if let Some(place) = id {
            ids.remove(place);
        }
        *self = CellIdToEntity { id_to_entity: ids, entity_to_id: coords };
        id
    }
}

/// In an index whose directions agree, looking a cell up by its coordinate
/// and the result up by its identifier leads back to the coordinate, and the
/// other way round.
pub proof fn lemma_lookups_lead_back(index: CellIdToEntity, id: Coord, entity: u64)
    requires
        index.consistent(),
    ensures
        lookup(index.ids(), id) == Some(entity) <==> lookup(index.coords(), entity) == Some(id),
{
}

/// Putting a cell into an index whose directions agree leaves them in
/// agreement, whether or not the place was taken and whether or not the
/// cell lay elsewhere before.
pub proof fn lemma_insert_keeps_agreement(ids: Map<Coord, u64>, coords: Map<u64, Coord>, id: Coord, entity: u64)
    requires
        directions_agree(ids, coords),
    ensures
        directions_agree(
            CellIdToEntity::ids_after_insert(ids, coords, id, entity),
            CellIdToEntity::coords_after_insert(ids, coords, id, entity),
        ),
        lookup(CellIdToEntity::ids_after_insert(ids, coords, id, entity), id) == Some(entity),
        lookup(CellIdToEntity::coords_after_insert(ids, coords, id, entity), entity) == Some(id),
{
}

/// Taking a cell out of an index whose directions agree leaves them in
/// agreement, and neither direction knows the cell any more.
pub proof fn lemma_remove_keeps_agreement(ids: Map<Coord, u64>, coords: Map<u64, Coord>, entity: u64)
    requires
        directions_agree(ids, coords),
    ensures
        directions_agree(
            CellIdToEntity::ids_after_remove(ids, coords, entity),
            CellIdToEntity::coords_after_remove(coords, entity),
        ),
        !CellIdToEntity::coords_after_remove(coords, entity).contains_key(entity),
        forall|c: Coord|
            lookup(#[trigger] CellIdToEntity::ids_after_remove(ids, coords, entity), c) != Some(entity),
{
}

/// Taking out a cell that the index does not hold changes nothing.
pub proof fn lemma_remove_absent_changes_nothing(ids: Map<Coord, u64>, coords: Map<u64, Coord>, entity: u64)
    requires
        !coords.contains_key(entity),
    ensures
        CellIdToEntity::ids_after_remove(ids, coords, entity) == ids,
        CellIdToEntity::coords_after_remove(coords, entity) == coords,
{
}

/// Taking a cell out a second time changes nothing.
pub proof fn lemma_remove_twice_is_remove_once(ids: Map<Coord, u64>, coords: Map<u64, Coord>, entity: u64)
    ensures
        CellIdToEntity::ids_after_remove(
            CellIdToEntity::ids_after_remove(ids, coords, entity),
            CellIdToEntity::coords_after_remove(coords, entity),
            entity,
        ) == CellIdToEntity::ids_after_remove(ids, coords, entity),
        CellIdToEntity::coords_after_remove(CellIdToEntity::coords_after_remove(coords, entity), entity)
            == CellIdToEntity::coords_after_remove(coords, entity),
{
    lemma_remove_absent_changes_nothing(
        CellIdToEntity::ids_after_remove(ids, coords, entity),
        CellIdToEntity::coords_after_remove(coords, entity),
        entity,
    );
}

impl Default for CellIdToEntity {
    fn default() -> (index: CellIdToEntity)
        ensures
            index.ids() == Map::<Coord, u64>::empty(),
            index.coords() == Map::<u64, Coord>::empty(),
            index.consistent(),
    {
        CellIdToEntity::new()
    }
}

} // verus!
