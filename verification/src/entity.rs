//! Entity handles and the simple entity list with an intrusive free list.

use vstd::prelude::*;

use crate::{ChunkId, EntityId, Generation, GroupId, GENERATION_INVALID};

verus! {

/// Handle to one entity: a slot id plus the generation the slot had when the
/// entity was created. Reusing a freed slot bumps its generation, so stale
/// handles fail identity checks.
#[derive(Clone, Copy, PartialEq, Eq, Structural, Debug)]
pub struct Entity {
    pub id: EntityId,
    pub generation: Generation,
}

impl Entity {
    /// The sentinel handle: no live entity ever carries the invalid
    /// generation.
    pub fn invalid() -> (e: Entity)
        ensures
            e.id == 0,
            e.generation == GENERATION_INVALID,
    {
        Entity { id: 0, generation: GENERATION_INVALID }
    }
}

/// Per-slot record of the simple entity list.
#[derive(Clone, Copy, Debug)]
pub struct EntityData {
    pub generation: Generation,
    pub group: GroupId,
    pub chunk_index: u32,
}

/// A flat entity list handing out slot ids one at a time. Freed slots would
/// chain through `chunk_index`; a stored successor at or past the end of the
/// list ends the chain.
pub struct EntityList {
    entities: Vec<EntityData>,
    next_free: Option<u32>,
}

impl EntityList {
    /// The per-slot records.
    pub closed spec fn records(self) -> Seq<EntityData> {
        self.entities@
    }

    /// The head of the intrusive free chain, if any.
    pub closed spec fn spec_next_free(self) -> Option<u32> {
        self.next_free
    }

    /// Any chained free slot lies inside the list.
    pub open spec fn wf(self) -> bool {
        self.spec_next_free() matches Some(id) ==> id < self.records().len()
    }

    /// An empty list with no free slots.
    pub fn new() -> (r: EntityList)
        ensures
            r.wf(),
            r.records().len() == 0,
            r.spec_next_free() is None,
    {
        EntityList { entities: Vec::new(), next_free: None }
    }

    /// Hand out one entity slot, reusing the head of the free chain if there
    /// is one and growing the list otherwise. The handle carries the slot's
    /// stored generation; the record is pointed at `(group, chunk_index)`.
    pub fn create_entity(&mut self, group: GroupId, chunk_index: u32) -> (e: Entity)
        requires
            old(self).wf(),
            old(self).records().len() < EntityId::MAX as int,
        ensures
            final(self).wf(),
            e.id < final(self).records().len(),
            final(self).records()[e.id as int].generation == e.generation,
            final(self).records()[e.id as int].group == group,
            final(self).records()[e.id as int].chunk_index == chunk_index,
            old(self).spec_next_free() is None ==> {
                &&& final(self).spec_next_free() is None
                &&& e.id == old(self).records().len()
                &&& e.generation == 0
                &&& final(self).records() == old(self).records().push(
                    EntityData { generation: 0, group, chunk_index },
                )
            },
            old(self).spec_next_free() matches Some(id) ==> {
                &&& e.id == id
                &&& e.generation == old(self).records()[id as int].generation
                &&& final(self).records().len() == old(self).records().len()
                &&& forall|k: int|
                    0 <= k < old(self).records().len() && k != id ==> final(self).records()[k]
                        == old(self).records()[k]
                &&& final(self).spec_next_free() == (if (
                old(self).records()[id as int].chunk_index as int) < old(self).records().len() {
                    Some(old(self).records()[id as int].chunk_index)
                } else {
                    None::<u32>
                })
            },
    {
        match self.next_free {
            Some(id) => {
                let num_entities = self.entities.len() as u32;
                let rec = self.entities[id as usize];
                let generation = rec.generation;
                let next = rec.chunk_index;
                if next < num_entities {
                    self.next_free = Some(next);
                } else {
                    self.next_free = None;
                }
                self.entities.set(id as usize, EntityData { generation, group, chunk_index });
                Entity { id, generation }
            },
            None => {
                let id = self.entities.len() as u32;
                let generation: Generation = 0;
                self.entities.push(EntityData { generation, group, chunk_index });
                Entity { id, generation }
            },
        }
    }
}

} // verus!
