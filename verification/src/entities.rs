//! The simple entity store: a registry of component types and groups keyed
//! by caller-supplied type keys, plus bump allocation of group slots into one
//! chunked component storage.

use core::ops::Range;
use vstd::pervasive::VecAdditionalExecFns;
use vstd::prelude::*;

use crate::entity::{Entity, EntityList};
use crate::storage::{ChunkPtr, Component, ComponentStorage};
use crate::{ComponentId, EntityId, GroupId, CHUNK_SIZE};

verus! {

/// The chunk handles one group holds for one chunk index, one handle per
/// member component.
pub type GroupComponentChunks = Vec<ChunkPtr>;

/// Bookkeeping of one group: its chunk handles and how many entities it
/// holds.
pub struct ComponentGroupData {
    chunks: Vec<GroupComponentChunks>,
    num_entities: EntityId,
}

impl ComponentGroupData {
    /// How many entities the group holds.
    pub closed spec fn spec_num_entities(self) -> int {
        self.num_entities as int
    }

    /// The recorded chunk handles, per chunk index.
    pub closed spec fn chunk_handles(self) -> Seq<Seq<ChunkPtr>> {
        self.chunks@.map(|_c: int, h: GroupComponentChunks| h@)
    }

    /// Claim `num` consecutive group slots by bumping the entity count.
    pub fn alloc_slots(&mut self, num: usize) -> (r: Range<EntityId>)
        requires
            old(self).spec_num_entities() + num <= EntityId::MAX as int,
        ensures
            r.start == old(self).spec_num_entities(),
            r.end == old(self).spec_num_entities() + num,
            final(self).spec_num_entities() == old(self).spec_num_entities() + num,
            final(self).chunk_handles() == old(self).chunk_handles(),
    {
        let start = self.num_entities;
        self.num_entities = self.num_entities + num as EntityId;
        let end = self.num_entities;
        Range { start, end }
    }

    /// Record one more chunk handle for this group, naming the next chunk.
    fn record_chunk(&mut self)
        requires
            old(self).chunk_handles().len() < usize::MAX as int,
        ensures
            final(self).chunk_handles() == old(self).chunk_handles().push(
                seq![ChunkPtr { index: old(self).chunk_handles().len() as usize }],
            ),
            final(self).spec_num_entities() == old(self).spec_num_entities(),
    {
        let idx = self.chunks.len();
        let mut h: GroupComponentChunks = Vec::new();
        h.push(ChunkPtr { index: idx });
        self.chunks.push(h);
        proof {
            assert(h@ =~= seq![ChunkPtr { index: idx }]);
            assert(self.chunk_handles() =~= old(self).chunk_handles().push(
                seq![ChunkPtr { index: idx }],
            ));
        }
    }

    /// The chunk handles recorded for one chunk.
    pub fn get_chunk(&self, chunk: usize) -> (r: GroupComponentChunks)
        requires
            (chunk as int) < self.chunk_handles().len(),
        ensures
            r@ == self.chunk_handles()[chunk as int],
    {
        let src = &self.chunks[chunk];
        let n = src.len();
        let mut r: GroupComponentChunks = Vec::new();
        let mut i: usize = 0;
        while i < n
            invariant
                i <= n,
                n == src@.len(),
                src@ == self.chunks@[chunk as int]@,
                r@ == src@.subrange(0, i as int),
            decreases n - i,
        {
            r.push(src[i]);
            proof {
                assert(r@ =~= src@.subrange(0, i + 1));
            }
            i += 1;
        }
        proof {
            assert(src@.subrange(0, n as int) =~= src@);
        }
        r
    }
}

/// Registry of component types and component groups, each keyed once by a
/// caller-supplied type key.
pub struct ComponentGroups {
    groups: Vec<ComponentGroupData>,
    group_lut: Vec<(u64, GroupId)>,
    num_components: usize,
    component_lut: Vec<(u64, ComponentId)>,
}

impl ComponentGroups {
    /// The component registry: type key to component id, in registration
    /// order.
    pub closed spec fn comp_lut(self) -> Seq<(u64, ComponentId)> {
        self.component_lut@
    }

    /// The group registry: type key to group id, in registration order.
    pub closed spec fn grp_lut(self) -> Seq<(u64, GroupId)> {
        self.group_lut@
    }

    /// Number of registered component types.
    pub closed spec fn spec_num_components(self) -> int {
        self.num_components as int
    }

    /// Number of registered groups.
    pub closed spec fn spec_num_groups(self) -> int {
        self.groups@.len() as int
    }

    /// The entity count of one group.
    pub closed spec fn group_count(self, g: int) -> int {
        self.groups@[g].spec_num_entities()
    }

    /// The chunk handles of one group.
    pub closed spec fn group_chunks(self, g: int) -> Seq<Seq<ChunkPtr>> {
        self.groups@[g].chunk_handles()
    }

    /// Whether a component type key is registered.
    pub open spec fn comp_registered(self, key: u64) -> bool {
        exists|k: int| 0 <= k < self.comp_lut().len() && (#[trigger] self.comp_lut()[k]).0 == key
    }

    /// The component id a registered key maps to.
    pub open spec fn comp_id_of(self, key: u64) -> ComponentId {
        self.comp_lut()[choose|k: int|
            0 <= k < self.comp_lut().len() && (#[trigger] self.comp_lut()[k]).0 == key].1
    }

    /// Whether a group type key is registered.
    pub open spec fn group_registered(self, key: u64) -> bool {
        exists|k: int| 0 <= k < self.grp_lut().len() && (#[trigger] self.grp_lut()[k]).0 == key
    }

    /// The group id a registered key maps to.
    pub open spec fn group_id_of(self, key: u64) -> GroupId {
        self.grp_lut()[choose|k: int|
            0 <= k < self.grp_lut().len() && (#[trigger] self.grp_lut()[k]).0 == key].1
    }

    /// Each key is registered once and maps to an id in range.
    pub open spec fn wf(self) -> bool {
        &&& forall|k1: int, k2: int|
            0 <= k1 < k2 < self.comp_lut().len() ==> (#[trigger] self.comp_lut()[k1]).0 != (
            #[trigger] self.comp_lut()[k2]).0
        &&& forall|k: int|
            0 <= k < self.comp_lut().len() ==> ((#[trigger] self.comp_lut()[k]).1 as int)
                < self.spec_num_components()
        &&& forall|k1: int, k2: int|
            0 <= k1 < k2 < self.grp_lut().len() ==> (#[trigger] self.grp_lut()[k1]).0 != (
            #[trigger] self.grp_lut()[k2]).0
        &&& forall|k: int|
            0 <= k < self.grp_lut().len() ==> ((#[trigger] self.grp_lut()[k]).1 as int)
                < self.spec_num_groups()
    }

    /// An empty registry.
    pub fn new() -> (r: ComponentGroups)
        ensures
            r.wf(),
            r.spec_num_components() == 0,
            r.spec_num_groups() == 0,
            r.comp_lut() == Seq::<(u64, ComponentId)>::empty(),
            r.grp_lut() == Seq::<(u64, GroupId)>::empty(),
    {
        ComponentGroups {
            groups: Vec::new(),
            group_lut: Vec::new(),
            num_components: 0,
            component_lut: Vec::new(),
        }
    }

    /// Register a component type key, idempotently: a key seen before keeps
    /// its id and changes nothing; a fresh key receives the next id.
    pub fn define_component(&mut self, key: u64) -> (id: ComponentId)
        requires
            old(self).wf(),
            old(self).spec_num_components() < usize::MAX as int,
        ensures
            final(self).wf(),
            final(self).grp_lut() == old(self).grp_lut(),
            final(self).spec_num_groups() == old(self).spec_num_groups(),
            old(self).comp_registered(key) ==> id == old(self).comp_id_of(key) && final(self).comp_lut() == old(self).comp_lut() && final(self).spec_num_components() == old(self).spec_num_components(),
            !old(self).comp_registered(key) ==> id == old(self).spec_num_components() && final(self).comp_lut() == old(self).comp_lut().push((key, id)) && final(self).spec_num_components() == old(self).spec_num_components() + 1,
    {
        let n = self.component_lut.len();
        let mut k: usize = 0;
        while k < n
            invariant
                *self == *old(self),
                old(self).wf(),
                k <= n,
                n == self.comp_lut().len(),
                forall|j: int| 0 <= j < k ==> (#[trigger] self.comp_lut()[j]).0 != key,
            decreases n - k,
        {
            if self.component_lut[k].0 == key {
                proof {
                    let j = choose|j: int|
                        0 <= j < self.comp_lut().len() && (#[trigger] self.comp_lut()[j]).0 == key;
                    if j != k {
                        assert(false);
                    }
                }
                return self.component_lut[k].1;
            }
            k += 1;
        }
        let id = self.num_components;
        self.num_components = self.num_components + 1;
        self.component_lut.push((key, id));
        proof {
            assert forall|k1: int, k2: int|
                0 <= k1 < k2 < self.comp_lut().len() implies (#[trigger] self.comp_lut()[k1]).0
                != (#[trigger] self.comp_lut()[k2]).0 by {
                assert(self.comp_lut()[k1] == old(self).comp_lut()[k1]);
                if k2 < self.comp_lut().len() - 1 {
                    assert(self.comp_lut()[k2] == old(self).comp_lut()[k2]);
                } else {
                    assert(self.comp_lut()[k2] == (key, id));
                }
            }
            assert forall|k: int|
                0 <= k < self.comp_lut().len() implies ((#[trigger] self.comp_lut()[k]).1 as int)
                < self.spec_num_components() by {
                if k < self.comp_lut().len() - 1 {
                    assert(self.comp_lut()[k] == old(self).comp_lut()[k]);
                }
            }
            assert forall|k1: int, k2: int|
                0 <= k1 < k2 < self.grp_lut().len() implies (#[trigger] self.grp_lut()[k1]).0 != (
            #[trigger] self.grp_lut()[k2]).0 by {
                assert(self.grp_lut()[k1] == old(self).grp_lut()[k1]);
                assert(self.grp_lut()[k2] == old(self).grp_lut()[k2]);
            }
            assert forall|k: int|
                0 <= k < self.grp_lut().len() implies ((#[trigger] self.grp_lut()[k]).1 as int)
                < self.spec_num_groups() by {
                assert(self.grp_lut()[k] == old(self).grp_lut()[k]);
            }
        }
        id
    }

    /// Register a group type key, idempotently: a fresh key receives the next
    /// group id and an empty group; a key seen before keeps its id.
    pub fn define_group(&mut self, key: u64) -> (id: GroupId)
        requires
            old(self).wf(),
            old(self).spec_num_groups() < usize::MAX as int,
        ensures
            final(self).wf(),
            final(self).comp_lut() == old(self).comp_lut(),
            final(self).spec_num_components() == old(self).spec_num_components(),
            final(self).group_registered(key),
            forall|g: int|
                0 <= g < old(self).spec_num_groups() ==> #[trigger] final(self).group_count(g)
                    == old(self).group_count(g) && final(self).group_chunks(g) == old(self).group_chunks(g),
            old(self).group_registered(key) ==> id == old(self).group_id_of(key) && final(self).grp_lut() == old(self).grp_lut() && final(self).spec_num_groups() == old(self).spec_num_groups(),
            !old(self).group_registered(key) ==> id == old(self).spec_num_groups() && final(self).grp_lut() == old(self).grp_lut().push((key, id)) && final(self).spec_num_groups()
                == old(self).spec_num_groups() + 1 && final(self).group_count(id as int) == 0
                && final(self).group_chunks(id as int).len() == 0,
            (id as int) < final(self).spec_num_groups(),
            final(self).group_id_of(key) == id,
    {
        let n = self.group_lut.len();
        let mut k: usize = 0;
        while k < n
            invariant
                *self == *old(self),
                old(self).wf(),
                k <= n,
                n == self.grp_lut().len(),
                forall|j: int| 0 <= j < k ==> (#[trigger] self.grp_lut()[j]).0 != key,
            decreases n - k,
        {
            if self.group_lut[k].0 == key {
                proof {
                    let j = choose|j: int|
                        0 <= j < self.grp_lut().len() && (#[trigger] self.grp_lut()[j]).0 == key;
                    if j != k {
                        assert(false);
                    }
                }
                return self.group_lut[k].1;
            }
            k += 1;
        }
        let id = self.groups.len();
        self.groups.push(ComponentGroupData { chunks: Vec::new(), num_entities: 0 });
        self.group_lut.push((key, id));
        proof {
            assert forall|k1: int, k2: int|
                0 <= k1 < k2 < self.grp_lut().len() implies (#[trigger] self.grp_lut()[k1]).0 != (
            #[trigger] self.grp_lut()[k2]).0 by {
                assert(self.grp_lut()[k1] == old(self).grp_lut()[k1]);
                if k2 < self.grp_lut().len() - 1 {
                    assert(self.grp_lut()[k2] == old(self).grp_lut()[k2]);
                } else {
                    assert(self.grp_lut()[k2] == (key, id));
                }
            }
            assert forall|k: int|
                0 <= k < self.grp_lut().len() implies ((#[trigger] self.grp_lut()[k]).1 as int)
                < self.spec_num_groups() by {
                if k < self.grp_lut().len() - 1 {
                    assert(self.grp_lut()[k] == old(self).grp_lut()[k]);
                }
            }
            assert forall|k1: int, k2: int|
                0 <= k1 < k2 < self.comp_lut().len() implies (#[trigger] self.comp_lut()[k1]).0
                != (#[trigger] self.comp_lut()[k2]).0 by {
                assert(self.comp_lut()[k1] == old(self).comp_lut()[k1]);
                assert(self.comp_lut()[k2] == old(self).comp_lut()[k2]);
            }
            assert forall|k: int|
                0 <= k < self.comp_lut().len() implies ((#[trigger] self.comp_lut()[k]).1 as int)
                < self.spec_num_components() by {
                assert(self.comp_lut()[k] == old(self).comp_lut()[k]);
            }
            assert(self.grp_lut()[n as int] == (key, id));
            let j = choose|j: int|
                0 <= j < self.grp_lut().len() && (#[trigger] self.grp_lut()[j]).0 == key;
            if j != n {
                assert(self.grp_lut()[j] == old(self).grp_lut()[j]);
                assert(false);
            }
            assert forall|g: int|
                0 <= g < old(self).spec_num_groups() implies #[trigger] self.group_count(g) == old(self).group_count(g) && self.group_chunks(g) == old(self).group_chunks(g) by {
                assert(self.groups@[g] == old(self).groups@[g]);
            }
            assert(self.group_chunks(id as int).len() == 0);
        }
        id
    }

    /// With unique keys, the id a key maps to is determined by the registry
    /// contents alone.
    proof fn lemma_group_id_stable(a: ComponentGroups, b: ComponentGroups, key: u64)
        requires
            a.wf(),
            a.grp_lut() == b.grp_lut(),
            a.group_registered(key),
        ensures
            b.group_registered(key),
            b.group_id_of(key) == a.group_id_of(key),
    {
        let ka = choose|k: int| 0 <= k < a.grp_lut().len() && (#[trigger] a.grp_lut()[k]).0 == key;
        assert(b.grp_lut()[ka].0 == key);
        assert(b.group_registered(key));
        let kb = choose|k: int| 0 <= k < b.grp_lut().len() && (#[trigger] b.grp_lut()[k]).0 == key;
        if ka != kb {
            assert(a.grp_lut()[ka].0 == a.grp_lut()[kb].0);
            assert(false);
        }
    }

    /// Well-formedness only depends on the registries, so it survives any
    /// change that leaves them as they were.
    proof fn lemma_wf_preserved(pre: ComponentGroups, post: ComponentGroups)
        requires
            pre.wf(),
            post.comp_lut() == pre.comp_lut(),
            post.grp_lut() == pre.grp_lut(),
            post.spec_num_components() == pre.spec_num_components(),
            post.spec_num_groups() == pre.spec_num_groups(),
        ensures
            post.wf(),
    {
        assert forall|k1: int, k2: int|
            0 <= k1 < k2 < post.comp_lut().len() implies (#[trigger] post.comp_lut()[k1]).0 != (
        #[trigger] post.comp_lut()[k2]).0 by {
            assert(post.comp_lut()[k1] == pre.comp_lut()[k1]);
            assert(post.comp_lut()[k2] == pre.comp_lut()[k2]);
        }
        assert forall|k: int|
            0 <= k < post.comp_lut().len() implies ((#[trigger] post.comp_lut()[k]).1 as int)
            < post.spec_num_components() by {
            assert(post.comp_lut()[k] == pre.comp_lut()[k]);
        }
        assert forall|k1: int, k2: int|
            0 <= k1 < k2 < post.grp_lut().len() implies (#[trigger] post.grp_lut()[k1]).0 != (
        #[trigger] post.grp_lut()[k2]).0 by {
            assert(post.grp_lut()[k1] == pre.grp_lut()[k1]);
            assert(post.grp_lut()[k2] == pre.grp_lut()[k2]);
        }
        assert forall|k: int|
            0 <= k < post.grp_lut().len() implies ((#[trigger] post.grp_lut()[k]).1 as int)
            < post.spec_num_groups() by {
            assert(post.grp_lut()[k] == pre.grp_lut()[k]);
        }
    }

    /// How many chunks one group has recorded.
    pub fn group_num_chunks(&self, group: GroupId) -> (r: usize)
        requires
            (group as int) < self.spec_num_groups(),
        ensures
            r == self.group_chunks(group as int).len(),
    {
        self.groups[group].chunks.len()
    }

    /// Record one more chunk handle for a group.
    fn record_chunk(&mut self, group: GroupId)
        requires
            (group as int) < old(self).spec_num_groups(),
            old(self).group_chunks(group as int).len() < usize::MAX as int,
        ensures
            final(self).spec_num_groups() == old(self).spec_num_groups(),
            final(self).comp_lut() == old(self).comp_lut(),
            final(self).grp_lut() == old(self).grp_lut(),
            final(self).spec_num_components() == old(self).spec_num_components(),
            final(self).group_chunks(group as int) == old(self).group_chunks(group as int).push(
                seq![ChunkPtr { index: old(self).group_chunks(group as int).len() as usize }],
            ),
            forall|g: int|
                0 <= g < old(self).spec_num_groups() && g != group ==> #[trigger] final(self).group_chunks(g) == old(self).group_chunks(g),
            forall|g: int|
                0 <= g < old(self).spec_num_groups() ==> #[trigger] final(self).group_count(g)
                    == old(self).group_count(g),
    {
        let data = vstd::std_specs::vec::vec_index_mut(&mut self.groups, group);
        data.record_chunk();
    }

    /// Claim consecutive slots in one group.
    pub fn alloc_slots(&mut self, group: GroupId, num: usize) -> (r: Range<EntityId>)
        requires
            (group as int) < old(self).spec_num_groups(),
            old(self).group_count(group as int) + num <= EntityId::MAX as int,
        ensures
            r.start == old(self).group_count(group as int),
            r.end == old(self).group_count(group as int) + num,
            final(self).group_count(group as int) == old(self).group_count(group as int) + num,
            final(self).spec_num_groups() == old(self).spec_num_groups(),
            final(self).comp_lut() == old(self).comp_lut(),
            final(self).grp_lut() == old(self).grp_lut(),
            final(self).spec_num_components() == old(self).spec_num_components(),
            forall|g: int|
                0 <= g < old(self).spec_num_groups() && g != group ==> #[trigger] final(
                self).group_count(g) == old(self).group_count(g),
            forall|g: int|
                0 <= g < old(self).spec_num_groups() ==> #[trigger] final(self).group_chunks(g)
                    == old(self).group_chunks(g),
    {
        let data = vstd::std_specs::vec::vec_index_mut(&mut self.groups, group);
        data.alloc_slots(num)
    }

    /// The chunk handles one group records for one chunk.
    pub fn get_component_chunks(&self, group: GroupId, chunk: usize) -> (r: GroupComponentChunks)
        requires
            (group as int) < self.spec_num_groups(),
            (chunk as int) < self.group_chunks(group as int).len(),
        ensures
            r@ == self.group_chunks(group as int)[chunk as int],
    {
        self.groups[group].get_chunk(chunk)
    }
}

/// The simple entity store over one component type: group slots are filled
/// in order, chunk by chunk, into one chunked storage.
pub struct Entities<C> {
    entities: EntityList,
    groups: ComponentGroups,
    storage: ComponentStorage<C>,
    count: u32,
}

impl<C: Component> Entities<C> {
    /// Number of entities created so far.
    pub closed spec fn spec_count(self) -> int {
        self.count as int
    }

    /// The component value stored in global slot `i`.
    pub closed spec fn slot_value(self, i: int) -> Option<C> {
        self.storage@[i / (CHUNK_SIZE as int)][i % (CHUNK_SIZE as int)]
    }

    /// The registry of component types and groups.
    pub closed spec fn registry(self) -> ComponentGroups {
        self.groups
    }

    /// The entity list handing out slot ids.
    pub closed spec fn list(self) -> EntityList {
        self.entities
    }

    /// The storage covers every created slot.
    pub closed spec fn storage_wf(self) -> bool {
        &&& self.storage.wf()
        &&& self.spec_count() <= self.storage@.len() * (CHUNK_SIZE as int)
        &&& self.storage@.len() <= usize::MAX
    }

    /// Created slots hold values, ids are handed out in order, every group's
    /// entity count stays within the total, and recorded chunk handles name
    /// their own chunk.
    pub open spec fn wf(self) -> bool {
        &&& self.list().wf()
        &&& self.list().spec_next_free() is None
        &&& self.list().records().len() == self.spec_count()
        &&& self.spec_count() <= EntityId::MAX
        &&& self.registry().wf()
        &&& self.storage_wf()
        &&& forall|i: int| 0 <= i < self.spec_count() ==> (#[trigger] self.slot_value(i)) is Some
        &&& forall|g: int|
            0 <= g < self.registry().spec_num_groups() ==> 0 <= (
            #[trigger] self.registry().group_count(g)) <= self.spec_count()
        &&& forall|g: int, c: int|
            0 <= g < self.registry().spec_num_groups() && 0 <= c < self.registry().group_chunks(
                g,
            ).len() ==> (#[trigger] self.registry().group_chunks(g)[c]) == seq![
                ChunkPtr { index: c as usize },
            ]
    }

    /// An empty store.
    pub fn new() -> (r: Entities<C>)
        ensures
            r.wf(),
            r.spec_count() == 0,
            r.registry().spec_num_groups() == 0,
    {
        Entities {
            entities: EntityList::new(),
            groups: ComponentGroups::new(),
            storage: ComponentStorage::new(),
            count: 0,
        }
    }

    /// Register a group type key, idempotently: a key seen before keeps its
    /// id and the store is observably unchanged; a fresh key receives the
    /// next group id and an empty group.
    pub fn define_group(&mut self, key: u64) -> (id: GroupId)
        requires
            old(self).wf(),
            old(self).registry().spec_num_groups() < usize::MAX as int,
        ensures
            final(self).wf(),
            final(self).spec_count() == old(self).spec_count(),
            final(self).registry().group_registered(key),
            final(self).registry().group_id_of(key) == id,
            (id as int) < final(self).registry().spec_num_groups(),
            final(self).list() == old(self).list(),
            forall|i: int| #[trigger] final(self).slot_value(i) == old(self).slot_value(i),
            final(self).registry().comp_lut() == old(self).registry().comp_lut(),
            final(self).registry().spec_num_components() == old(self).registry().spec_num_components(),
            forall|g: int|
                0 <= g < old(self).registry().spec_num_groups() ==> #[trigger] final(self).registry().group_count(g) == old(self).registry().group_count(g) && final(self).registry().group_chunks(g) == old(self).registry().group_chunks(g),
            old(self).registry().group_registered(key) ==> id == old(self).registry().group_id_of(key) && final(self).registry().grp_lut() == old(self).registry().grp_lut() && final(self).registry().spec_num_groups() == old(self).registry().spec_num_groups(),
            !old(self).registry().group_registered(key) ==> id == old(self).registry().spec_num_groups() && final(self).registry().grp_lut() == old(self).registry().grp_lut().push((key, id)) && final(self).registry().spec_num_groups()
                == old(self).registry().spec_num_groups() + 1 && final(self).registry().group_count(id as int) == 0 && final(self).registry().group_chunks(id as int).len() == 0,
    {
        let id = self.groups.define_group(key);
        proof {
            assert forall|i: int|
                0 <= i < self.spec_count() implies (#[trigger] self.slot_value(i)) is Some by {
                assert(self.slot_value(i) == old(self).slot_value(i));
            }
            assert forall|g: int, c: int|
                0 <= g < self.registry().spec_num_groups() && 0 <= c
                    < self.registry().group_chunks(g).len() implies (
            #[trigger] self.registry().group_chunks(g)[c]) == seq![
                ChunkPtr { index: c as usize },
            ] by {
                if g < old(self).registry().spec_num_groups() {
                    assert(self.registry().group_count(g) == old(self).registry().group_count(g));
                    assert(self.registry().group_chunks(g) == old(self).registry().group_chunks(
                        g,
                    ));
                    assert(old(self).registry().group_chunks(g)[c] == seq![
                        ChunkPtr { index: c as usize },
                    ]);
                } else {
                    assert(self.registry().group_chunks(g).len() == 0);
                }
            }
            assert forall|g: int|
                0 <= g < self.registry().spec_num_groups() implies 0 <= (
            #[trigger] self.registry().group_count(g)) <= self.spec_count() by {
                if g < old(self).registry().spec_num_groups() {
                    assert(self.registry().group_count(g) == old(self).registry().group_count(g));
                } else {
                    assert(self.registry().group_count(g) == 0);
                }
            }
        }
        id
    }

    /// Create one entity per element of `stream` in the group registered
    /// under `key`, writing the fresh handles into `entities`. Handles are
    /// issued in order, and each new slot holds its stream value.
    #[verifier::rlimit(100)]
    #[verifier::spinoff_prover]
    pub fn create_entities(&mut self, key: u64, entities: &mut Vec<Entity>, stream: &Vec<C>) -> (gid: GroupId)
        requires
            old(self).wf(),
            old(entities)@.len() == stream@.len(),
            old(self).spec_count() + old(entities)@.len() < EntityId::MAX as int,
            old(self).registry().spec_num_groups() < usize::MAX as int,
        ensures
            final(self).wf(),
            final(entities)@.len() == old(entities)@.len(),
            final(self).spec_count() == old(self).spec_count() + old(entities)@.len(),
            final(self).registry().group_id_of(key) == gid,
            (gid as int) < final(self).registry().spec_num_groups(),
            final(self).registry().group_count(gid as int) == (if old(self).registry().group_registered(key) {
                old(self).registry().group_count(old(self).registry().group_id_of(key) as int)
            } else {
                0
            }) + old(entities)@.len(),
            forall|j: int|
                0 <= j < final(entities)@.len() ==> (#[trigger] final(entities)@[j]).id == old(self).spec_count() + j && final(entities)@[j].generation == 0,
            forall|j: int|
                0 <= j < final(entities)@.len() ==> #[trigger] final(self).slot_value(
                    old(self).spec_count() + j,
                ) == Some(stream@[j]),
            forall|i: int|
                0 <= i < old(self).spec_count() ==> #[trigger] final(self).slot_value(i) == old(self).slot_value(i),
            final(self).registry().group_registered(key),
    {
        let gid = self.groups.define_group(key);
        let n = entities.len();
        let start = self.count as usize;
        let total = start + n;
        let needed = if total % CHUNK_SIZE == 0 {
            total / CHUNK_SIZE
        } else {
            total / CHUNK_SIZE + 1
        };
        proof {
            vstd::arithmetic::div_mod::lemma_fundamental_div_mod(total as int, CHUNK_SIZE as int);
            vstd::arithmetic::div_mod::lemma_mod_division_less_than_divisor(
                total as int,
                CHUNK_SIZE as int,
            );
            assert(total <= needed * (CHUNK_SIZE as int));
        }
        self.storage.resize(needed);
        let ghost mid = *self;
        proof {
            assert forall|i: int| 0 <= i < mid.spec_count() implies #[trigger] mid.slot_value(i)
                == old(self).slot_value(i) by {
                vstd::arithmetic::div_mod::lemma_fundamental_div_mod(i, CHUNK_SIZE as int);
                vstd::arithmetic::div_mod::lemma_mod_division_less_than_divisor(
                    i,
                    CHUNK_SIZE as int,
                );
                assert(i / (CHUNK_SIZE as int) < old(self).storage@.len());
            }
        }
        let ghost after_define = self.groups;
        let _ = self.groups.alloc_slots(gid, n);
        let ghost after_alloc = self.groups;
        proof {
            ComponentGroups::lemma_wf_preserved(after_define, self.groups);
            assert forall|g: int|
                0 <= g < self.groups.spec_num_groups() implies 0 <= (
            #[trigger] self.groups.group_count(g)) <= mid.spec_count() + n by {
                if g != gid as int {
                    assert(self.groups.group_count(g) == after_define.group_count(g));
                    if g < old(self).registry().spec_num_groups() {
                        assert(old(self).registry().group_count(g) <= old(self).spec_count());
                    }
                }
            }
            assert forall|g: int, c: int|
                0 <= g < self.groups.spec_num_groups() && 0 <= c < self.groups.group_chunks(
                    g,
                ).len() implies (#[trigger] self.groups.group_chunks(g)[c]) == seq![
                ChunkPtr { index: c as usize },
            ] by {
                assert(self.groups.group_chunks(g) == after_define.group_chunks(g));
                if g < old(self).registry().spec_num_groups() {
                    assert(after_define.group_count(g) == old(self).registry().group_count(g));
                    assert(after_define.group_chunks(g) == old(self).registry().group_chunks(g));
                    assert(old(self).registry().group_chunks(g)[c] == seq![
                        ChunkPtr { index: c as usize },
                    ]);
                } else {
                    assert(after_define.group_chunks(g).len() == 0);
                }
            }
        }
        while self.groups.group_num_chunks(gid) < needed
            invariant
                (gid as int) < self.groups.spec_num_groups(),
                needed < usize::MAX,
                self.groups.wf(),
                self.entities == mid.entities,
                self.storage == mid.storage,
                self.count == mid.count,
                forall|g: int|
                    0 <= g < self.groups.spec_num_groups() ==> 0 <= (
                    #[trigger] self.groups.group_count(g)) <= mid.spec_count() + n,
                forall|g: int, c: int|
                    0 <= g < self.groups.spec_num_groups() && 0 <= c < self.groups.group_chunks(
                        g,
                    ).len() ==> (#[trigger] self.groups.group_chunks(g)[c]) == seq![
                        ChunkPtr { index: c as usize },
                    ],
                self.groups.group_registered(key),
                self.groups.grp_lut() == after_alloc.grp_lut(),
                self.groups.spec_num_groups() == after_alloc.spec_num_groups(),
                forall|g: int|
                    0 <= g < self.groups.spec_num_groups() ==> #[trigger] self.groups.group_count(
                        g,
                    ) == after_alloc.group_count(g),
                forall|i: int|
                    0 <= i < start ==> #[trigger] mid.slot_value(i) == old(self).slot_value(i),
                forall|i: int|
                    0 <= i < start ==> (#[trigger] old(self).slot_value(i)) is Some,
            decreases needed - self.groups.group_chunks(gid as int).len(),
        {
            self.groups.record_chunk(gid);
        }
        let ghost after_record = self.groups;
        proof {
            assert forall|i: int|
                0 <= i < start implies (#[trigger] self.slot_value(i)) is Some
                && self.slot_value(i) == mid.slot_value(i) by {
                assert(self.slot_value(i) == mid.slot_value(i));
            }
        }
        let mut j: usize = 0;
        while j < n
            invariant
                n == entities@.len(),
                n == stream@.len(),
                j <= n,
                start == mid.spec_count(),
                start + n < EntityId::MAX as int,
                self.count == mid.count,
                self.entities == mid.entities,
                self.groups == after_record,
                mid.list().wf(),
                mid.list().spec_next_free() is None,
                mid.list().records().len() == start,
                self.storage.wf(),
                self.storage@.len() == mid.storage@.len(),
                start + n <= self.storage@.len() * (CHUNK_SIZE as int),
                self.storage@.len() <= usize::MAX,
                forall|i: int|
                    0 <= i < start + j ==> (#[trigger] self.slot_value(i)) is Some,
                forall|i: int|
                    0 <= i < start ==> #[trigger] self.slot_value(i) == mid.slot_value(i),
                forall|i: int|
                    0 <= i < start ==> #[trigger] mid.slot_value(i) == old(self).slot_value(i),
                forall|i: int|
                    0 <= i < j ==> #[trigger] self.slot_value(start + i) == Some(stream@[i]),
            decreases n - j,
        {
            let idx = start + j;
            let c = idx / CHUNK_SIZE;
            let s = idx % CHUNK_SIZE;
            proof {
                vstd::arithmetic::div_mod::lemma_fundamental_div_mod(idx as int, CHUNK_SIZE as int);
                vstd::arithmetic::div_mod::lemma_mod_division_less_than_divisor(
                    idx as int,
                    CHUNK_SIZE as int,
                );
                assert((c as int) < self.storage@.len());
            }
            let ghost pre = *self;
            self.storage.set_slot(c, s, stream[j]);
            proof {
                assert forall|i: int|
                    0 <= i < start + n && i != idx implies #[trigger] self.slot_value(i)
                    == pre.slot_value(i) by {
                    vstd::arithmetic::div_mod::lemma_fundamental_div_mod(i, CHUNK_SIZE as int);
                    vstd::arithmetic::div_mod::lemma_mod_division_less_than_divisor(
                        i,
                        CHUNK_SIZE as int,
                    );
                    if i / (CHUNK_SIZE as int) == c as int && i % (CHUNK_SIZE as int) == s as int {
                        assert(i == idx);
                    }
                }
                assert(self.slot_value(idx as int) == Some(stream@[j as int]));
            }
            j += 1;
        }
        let ghost before_list = *self;
        let mut k: usize = 0;
        while k < n
            invariant
                n == entities@.len(),
                k <= n,
                start + n < EntityId::MAX as int,
                self.storage == before_list.storage,
                self.groups == before_list.groups,
                self.count == before_list.count,
                forall|i: int|
                    0 <= i < start + n ==> (#[trigger] before_list.slot_value(i)) is Some,
                forall|i: int|
                    0 <= i < start ==> #[trigger] before_list.slot_value(i) == old(self).slot_value(i),
                forall|i: int|
                    0 <= i < n ==> #[trigger] before_list.slot_value(start + i) == Some(
                        stream@[i],
                    ),
                self.entities.wf(),
                self.entities.spec_next_free() is None,
                self.entities.records().len() == start + k,
                forall|i: int|
                    0 <= i < k ==> (#[trigger] entities@[i]).id == start + i && entities@[i].generation == 0,
            decreases n - k,
        {
            let idx = start + k;
            let c = idx / CHUNK_SIZE;
            let e = self.entities.create_entity(gid, c as u32);
            entities.set(k, e);
            k += 1;
        }
        self.count = self.count + n as u32;
        proof {
            assert(self.groups == after_record);
            assert forall|g: int|
                0 <= g < self.registry().spec_num_groups() implies 0 <= (
            #[trigger] self.registry().group_count(g)) <= self.spec_count() by {
                assert(self.registry().group_count(g) == after_record.group_count(g));
            }
            assert forall|g: int, c: int|
                0 <= g < self.registry().spec_num_groups() && 0 <= c
                    < self.registry().group_chunks(g).len() implies (
            #[trigger] self.registry().group_chunks(g)[c]) == seq![
                ChunkPtr { index: c as usize },
            ] by {
                assert(self.registry().group_chunks(g) == after_record.group_chunks(g));
            }
            assert forall|i: int|
                0 <= i < old(self).spec_count() implies #[trigger] self.slot_value(i) == old(self).slot_value(i) by {
                assert(self.slot_value(i) == before_list.slot_value(i));
            }
            assert forall|i: int|
                0 <= i < self.spec_count() implies (#[trigger] self.slot_value(i)) is Some by {
                assert(self.slot_value(i) == before_list.slot_value(i));
            }
            assert forall|j2: int|
                0 <= j2 < n implies #[trigger] self.slot_value(start + j2) == Some(
                    stream@[j2],
                ) by {
                assert(self.slot_value(start + j2) == before_list.slot_value(start + j2));
            }
            // The group registered under `key` accounts for the new entities.
            assert(after_record.grp_lut() == after_alloc.grp_lut());
            assert(after_alloc.grp_lut() == after_define.grp_lut());
            ComponentGroups::lemma_group_id_stable(after_define, self.groups, key);
            assert(self.registry().group_id_of(key) == gid);
            assert(self.registry().group_count(gid as int) == after_record.group_count(gid as int));
            assert(after_record.group_count(gid as int) == after_alloc.group_count(gid as int));
            assert(after_alloc.group_count(gid as int) == after_define.group_count(gid as int) + n);
        }
        gid
    }

    /// The component value of a created slot; `None` past the end.
    pub fn query(&self, index: EntityId) -> (r: Option<C>)
        requires
            self.wf(),
        ensures
            (index as int) < self.spec_count() ==> r == self.slot_value(index as int)
                && r is Some,
            (index as int) >= self.spec_count() ==> r is None,
    {
        if index >= self.count {
            return None;
        }
        let idx = index as usize;
        let c = idx / CHUNK_SIZE;
        let s = idx % CHUNK_SIZE;
        proof {
            vstd::arithmetic::div_mod::lemma_fundamental_div_mod(idx as int, CHUNK_SIZE as int);
            vstd::arithmetic::div_mod::lemma_mod_division_less_than_divisor(
                idx as int,
                CHUNK_SIZE as int,
            );
            assert((c as int) < self.storage@.len());
            assert(self.slot_value(idx as int) is Some);
        }
        self.storage.slot(c, s)
    }
}

} // verus!
