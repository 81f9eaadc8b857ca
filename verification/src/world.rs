//! The chunked entity-component world.
//!
//! A world owns one storage per member component of its group, plus one
//! reserved storage holding the owning entity id of every occupied slot for
//! reverse lookup during compaction. Entity slot ids come from the free-list
//! allocator; every occupied `(chunk, slot)` coordinate and every live entity
//! record point at each other, and chunks are kept dense by swap-removal.

use core::ops::Range;
use vstd::pervasive::unreached;
use vstd::pervasive::VecAdditionalExecFns;
use vstd::prelude::*;

use crate::entity::Entity;
use crate::free_list::Allocator;
use crate::storage::{ChunkPtr, Component, ComponentStorage};
use crate::{ChunkId, EntityId, Generation, GroupId, SlotId, CHUNK_SIZE, GENERATION_INVALID};

verus! {

/// Occupancy count of one chunk of a group.
#[derive(Clone, Copy, Debug)]
pub struct ChunkData {
    pub len: usize,
}

/// Chunk bookkeeping of one group: per-chunk occupancy and the stack of
/// chunks that still have free slots.
pub struct GroupStorage {
    chunk_data: Vec<ChunkData>,
    free_chunks: Vec<ChunkId>,
}

impl GroupStorage {
    /// The occupancy count of each chunk.
    pub closed spec fn chunk_lens(self) -> Seq<int> {
        self.chunk_data@.map(|_c: int, d: ChunkData| d.len as int)
    }

    /// The stack of chunks with free capacity, bottom first.
    pub closed spec fn free_stack(self) -> Seq<int> {
        self.free_chunks@.map(|_k: int, c: ChunkId| c as int)
    }

    /// Number of chunks the group tracks.
    pub open spec fn spec_num_chunks(self) -> int {
        self.chunk_lens().len() as int
    }

    /// Whether chunk `c` is on the free-chunk stack.
    pub open spec fn on_free_stack(self, c: int) -> bool {
        exists|k: int| 0 <= k < self.free_stack().len() && (#[trigger] self.free_stack()[k]) == c
    }

    /// Occupancy counts are within chunk capacity, and the free-chunk stack
    /// holds exactly the chunks with spare capacity, each once.
    pub open spec fn wf(self) -> bool {
        &&& forall|c: int|
            0 <= c < self.spec_num_chunks() ==> 0 <= (#[trigger] self.chunk_lens()[c])
                <= CHUNK_SIZE
        &&& forall|k: int|
            0 <= k < self.free_stack().len() ==> 0 <= (#[trigger] self.free_stack()[k])
                < self.spec_num_chunks() && self.chunk_lens()[self.free_stack()[k]] < CHUNK_SIZE
        &&& forall|k1: int, k2: int|
            0 <= k1 < k2 < self.free_stack().len() ==> (#[trigger] self.free_stack()[k1]) != (
            #[trigger] self.free_stack()[k2])
        &&& forall|c: int|
            0 <= c < self.spec_num_chunks() && (#[trigger] self.chunk_lens()[c]) < CHUNK_SIZE
                ==> self.on_free_stack(c)
    }

    /// How many chunks the group currently tracks.
    pub fn num_chunks(&self) -> (r: usize)
        ensures
            r == self.spec_num_chunks(),
    {
        self.chunk_data.len()
    }

    /// Total slot capacity over all chunks.
    pub fn capacity(&self) -> (r: u32)
        requires
            self.spec_num_chunks() * CHUNK_SIZE <= u32::MAX as int,
        ensures
            r == self.spec_num_chunks() * CHUNK_SIZE,
    {
        (self.chunk_data.len() * CHUNK_SIZE) as u32
    }
}

/// Per-slot record of the world: the slot's current generation and, while the
/// slot is live, the coordinate its entity occupies.
#[derive(Clone, Copy, Debug)]
pub struct EntityData {
    pub generation: Generation,
    pub group: GroupId,
    pub chunk: ChunkId,
    pub slot: SlotId,
}

/// Marker for a combination of component types stored together.
pub trait IComponentGroup: 'static {

}

impl<A: Component, B: Component> IComponentGroup for (A, B) {

}

/// Forward cursor over a group's populated slots, in chunk order then slot
/// order. It holds no reference; each step takes the world it walks.
pub struct GroupIterator2 {
    pub cur_chunk: usize,
    pub cur_slot: usize,
}

/// The generation a freed slot stores, so that every outstanding handle to
/// it goes stale the moment it is freed: the old generation plus one,
/// wrapping just below the invalid sentinel so no slot ever carries it.
pub open spec fn next_generation(g: Generation) -> Generation {
    if g == GENERATION_INVALID - 1 {
        0
    } else {
        ((g + 1) as Generation)
    }
}

/// An entity-component store for one group of two component types.
pub struct World<A, B> {
    entities: Vec<EntityData>,
    entities_free: Allocator,
    group: GroupStorage,
    entity_comp: ComponentStorage<EntityId>,
    comp_a: ComponentStorage<A>,
    comp_b: ComponentStorage<B>,
}

impl<A: Component, B: Component> World<A, B> {
    /// The per-slot records.
    pub closed spec fn records(self) -> Seq<EntityData> {
        self.entities@
    }

    /// The slot ids currently free for reuse.
    pub closed spec fn free_ids(self) -> Set<int> {
        self.entities_free.free_set()
    }

    /// Number of entity slots ever created, live or free.
    pub open spec fn num_slots(self) -> int {
        self.records().len() as int
    }

    /// The occupancy count of each chunk.
    pub closed spec fn chunk_lens(self) -> Seq<int> {
        self.group.chunk_lens()
    }

    /// Number of chunks of the group.
    pub open spec fn spec_num_chunks(self) -> int {
        self.chunk_lens().len() as int
    }

    /// A slot id is live when it has been created and is not on the free
    /// list.
    pub open spec fn live(self, id: int) -> bool {
        0 <= id < self.num_slots() && !self.free_ids().contains(id)
    }

    /// The entity id stored at an occupied coordinate, for reverse lookup.
    pub closed spec fn owner_at(self, c: int, s: int) -> Option<EntityId> {
        self.entity_comp@[c][s]
    }

    /// The component values stored at an occupied coordinate.
    pub closed spec fn value_at(self, c: int, s: int) -> (A, B) {
        (self.comp_a@[c][s].unwrap(), self.comp_b@[c][s].unwrap())
    }

    /// Both component slots at a coordinate hold a value.
    pub closed spec fn values_defined(self, c: int, s: int) -> bool {
        self.comp_a@[c][s] is Some && self.comp_b@[c][s] is Some
    }

    /// A coordinate counts as occupied when it lies below its chunk's
    /// occupancy count.
    pub open spec fn occupied(self, c: int, s: int) -> bool {
        0 <= c < self.spec_num_chunks() && 0 <= s < self.chunk_lens()[c]
    }

    /// A live slot's record points at a valid occupied coordinate that points
    /// back at it.
    pub open spec fn data_ok(self, id: int) -> bool {
        let d = self.records()[id];
        &&& self.occupied(d.chunk as int, d.slot as int)
        &&& self.owner_at(d.chunk as int, d.slot as int) == Some(id as EntityId)
    }

    /// An occupied coordinate is owned by exactly one live slot whose record
    /// points back at it, and holds values for every member component.
    pub open spec fn slot_ok(self, c: int, s: int) -> bool {
        &&& self.owner_at(c, s) is Some
        &&& ({
            let id = self.owner_at(c, s).unwrap() as int;
            &&& self.live(id)
            &&& self.records()[id].chunk == c
            &&& self.records()[id].slot == s
        })
        &&& self.values_defined(c, s)
    }

    /// The free list is well formed and manages exactly the created slots.
    pub closed spec fn free_wf(self) -> bool {
        &&& self.entities_free.wf()
        &&& self.entities_free.spec_size() == self.num_slots()
    }

    /// The group's chunk bookkeeping is well formed.
    pub closed spec fn group_wf(self) -> bool {
        self.group.wf()
    }

    /// The component storages all track exactly the group's chunks.
    pub closed spec fn storages_wf(self) -> bool {
        &&& self.entity_comp.wf()
        &&& self.comp_a.wf()
        &&& self.comp_b.wf()
        &&& self.entity_comp@.len() == self.spec_num_chunks()
        &&& self.comp_a@.len() == self.spec_num_chunks()
        &&& self.comp_b@.len() == self.spec_num_chunks()
    }

    /// Every slot's stored generation stays below the invalid sentinel, so
    /// reusing a slot can always hand out its stored generation.
    pub open spec fn gens_ok(self) -> bool {
        forall|i: int|
            0 <= i < self.num_slots() ==> (#[trigger] self.records()[i]).generation
                < GENERATION_INVALID
    }

    /// The world invariant: the free list manages exactly the created slots,
    /// chunk bookkeeping and storages agree, and live records and occupied
    /// coordinates are in bijection.
    pub open spec fn wf(self) -> bool {
        &&& self.free_wf()
        &&& self.num_slots() <= u32::MAX
        &&& self.gens_ok()
        &&& self.group_wf()
        &&& self.storages_wf()
        &&& forall|id: int| #[trigger] self.live(id) ==> self.data_ok(id)
        &&& forall|c: int, s: int| #[trigger] self.occupied(c, s) ==> self.slot_ok(c, s)
    }

    /// The values of one chunk's occupied slots, in slot order.
    pub closed spec fn chunk_items(self, c: int) -> Seq<(A, B)> {
        Seq::new(
            self.chunk_lens()[c] as nat,
            |s: int| (self.comp_a@[c][s].unwrap(), self.comp_b@[c][s].unwrap()),
        )
    }

    /// The values of all occupied slots in chunks before `c`, chunk-major.
    pub closed spec fn items_prefix(self, c: int) -> Seq<(A, B)>
        decreases c,
    {
        if c <= 0 {
            Seq::empty()
        } else {
            self.items_prefix(c - 1) + self.chunk_items(c - 1)
        }
    }

    /// All stored component pairs in iteration order: chunk index first, slot
    /// index second.
    pub open spec fn items(self) -> Seq<(A, B)> {
        self.items_prefix(self.spec_num_chunks())
    }

    /// Number of live entities.
    pub open spec fn live_count(self) -> int {
        self.items().len() as int
    }

    /// Whether `e` denotes a live entity: its slot is within bounds, carries
    /// the handle's generation, and occupies a coordinate that points back at
    /// it.
    pub open spec fn handle_live(self, e: Entity) -> bool {
        &&& 0 <= (e.id as int) < self.num_slots()
        &&& self.records()[e.id as int].generation == e.generation
        &&& ({
            let d = self.records()[e.id as int];
            &&& self.occupied(d.chunk as int, d.slot as int)
            &&& self.owner_at(d.chunk as int, d.slot as int) == Some(e.id)
        })
    }

    /// The component values a handle resolves to, or `None` for a stale or
    /// unknown handle.
    pub open spec fn spec_get(self, e: Entity) -> Option<(A, B)> {
        if self.handle_live(e) {
            let d = self.records()[e.id as int];
            Some(self.value_at(d.chunk as int, d.slot as int))
        } else {
            None
        }
    }

    /// Like `wf`, except that the slots `[slot_start, slot_end)` of chunk `c`
    /// are already counted as occupied but not yet filled: no live record
    /// points into that window and nothing is required of its contents yet.
    pub open spec fn wf_pending(self, c: int, slot_start: int, slot_end: int) -> bool {
        &&& self.free_wf()
        &&& self.num_slots() <= u32::MAX
        &&& self.gens_ok()
        &&& self.group_wf()
        &&& self.storages_wf()
        &&& forall|id: int| #[trigger] self.live(id) ==> self.data_ok(id) && !(
            self.records()[id].chunk == c && slot_start <= self.records()[id].slot < slot_end)
        &&& forall|cc: int, ss: int|
            #[trigger] self.occupied(cc, ss) && !(cc == c && slot_start <= ss < slot_end)
                ==> self.slot_ok(cc, ss)
    }

    /// Claim up to `num` consecutive slots in one chunk: pop a chunk with
    /// free capacity, or grow every member component's storage by one fresh
    /// chunk, and mark the claimed slots occupied. The chunk goes back on the
    /// free-chunk stack when capacity is left over.
    #[verifier::rlimit(100)]
    #[verifier::spinoff_prover]
    fn alloc_group_slots(&mut self, num: u32) -> (r: (ChunkId, Range<SlotId>))
        requires
            old(self).wf(),
            num >= 1,
            old(self).spec_num_chunks() < usize::MAX as int,
        ensures
            ({
                let (c, slots) = r;
                &&& 0 <= (c as int) < final(self).spec_num_chunks()
                &&& slots.start < slots.end
                &&& slots.end <= CHUNK_SIZE
                &&& final(self).wf_pending(c as int, slots.start as int, slots.end as int)
                &&& final(self).records() == old(self).records()
                &&& final(self).free_ids() == old(self).free_ids()
                &&& (c as int) < old(self).spec_num_chunks() ==> {
                    &&& slots.start == old(self).chunk_lens()[c as int]
                    &&& final(self).chunk_lens() == old(self).chunk_lens().update(
                        c as int,
                        slots.end as int,
                    )
                }
                &&& (c as int) >= old(self).spec_num_chunks() ==> {
                    &&& c as int == old(self).spec_num_chunks()
                    &&& slots.start == 0
                    &&& final(self).chunk_lens() == old(self).chunk_lens().push(slots.end as int)
                }
                &&& slots.end - slots.start == if num as int <= CHUNK_SIZE - slots.start {
                    num as int
                } else {
                    CHUNK_SIZE - slots.start
                }
                &&& forall|cc: int, ss: int|
                    0 <= cc < old(self).spec_num_chunks() && 0 <= ss < CHUNK_SIZE ==> (
                    #[trigger] final(self).owner_at(cc, ss)) == old(self).owner_at(cc, ss)
                &&& forall|cc: int, ss: int|
                    0 <= cc < old(self).spec_num_chunks() && 0 <= ss < CHUNK_SIZE ==> (
                    #[trigger] final(self).value_at(cc, ss)) == old(self).value_at(cc, ss)
                &&& forall|cc: int, ss: int|
                    0 <= cc < old(self).spec_num_chunks() && 0 <= ss < CHUNK_SIZE ==> (
                    #[trigger] final(self).values_defined(cc, ss)) == old(self).values_defined(
                        cc,
                        ss,
                    )
            }),
    {
        let num_free = self.group.free_chunks.len();
        if num_free > 0 {
            proof {
                assert(self.group.free_stack()[num_free - 1] == (
                self.group.free_chunks@[num_free - 1] as int));
            }
            let c = self.group.free_chunks[num_free - 1];
            self.group.free_chunks.truncate(num_free - 1);
            proof {
                assert(self.group.free_stack() =~= old(self).group.free_stack().subrange(
                    0,
                    num_free - 1,
                ));
                assert(old(self).group.chunk_lens()[c as int] < CHUNK_SIZE);
                assert(self.group.chunk_lens()[c as int] == (
                self.group.chunk_data@[c as int].len as int));
            }
            let start = self.group.chunk_data[c].len;
            let free_space = CHUNK_SIZE - start;
            let k = if (num as usize) <= free_space {
                num as usize
            } else {
                free_space
            };
            self.group.chunk_data.set(c, ChunkData { len: start + k });
            proof {
                assert(self.group.chunk_lens() =~= old(self).chunk_lens().update(
                    c as int,
                    (start + k) as int,
                ));
            }
            if start + k < CHUNK_SIZE {
                self.group.free_chunks.push(c);
                proof {
                    assert(self.group.free_stack() =~= old(self).group.free_stack().subrange(
                        0,
                        num_free - 1,
                    ).push(c as int));
                }
            }
            proof {
                self.lemma_alloc_slots_stack(*old(self), c as int, start as int, (start + k) as int);
            }
            (c, Range { start, end: start + k })
        } else {
            let c = self.group.chunk_data.len();
            self.entity_comp.resize(c + 1);
            self.comp_a.resize(c + 1);
            self.comp_b.resize(c + 1);
            let k = if (num as usize) <= CHUNK_SIZE {
                num as usize
            } else {
                CHUNK_SIZE
            };
            self.group.chunk_data.push(ChunkData { len: k });
            proof {
                assert(self.group.chunk_lens() =~= old(self).chunk_lens().push(k as int));
            }
            if k < CHUNK_SIZE {
                self.group.free_chunks.push(c);
                proof {
                    assert(self.group.free_stack() =~= old(self).group.free_stack().push(c as int));
                    assert(old(self).group.free_stack() =~= Seq::<int>::empty());
                }
            } else {
                proof {
                    assert(self.group.free_stack() =~= Seq::<int>::empty());
                }
            }
            proof {
                self.lemma_alloc_slots_grow(*old(self), c as int, k as int);
            }
            (c, Range { start: 0, end: k })
        }
    }

    /// After claiming slots `[start, end)` of existing chunk `c` and fixing
    /// the free-chunk stack, the pending-window invariant holds.
    proof fn lemma_alloc_slots_stack(self, prev: World<A, B>, c: int, start: int, end: int)
        requires
            prev.wf(),
            0 <= c < prev.spec_num_chunks(),
            prev.group.free_stack().len() > 0,
            prev.group.free_stack().last() == c,
            start == prev.chunk_lens()[c],
            start < end <= CHUNK_SIZE,
            self.records() == prev.records(),
            self.free_ids() == prev.free_ids(),
            self.entities_free == prev.entities_free,
            self.entity_comp == prev.entity_comp,
            self.comp_a == prev.comp_a,
            self.comp_b == prev.comp_b,
            self.chunk_lens() == prev.chunk_lens().update(c, end),
            end < CHUNK_SIZE ==> self.group.free_stack() == prev.group.free_stack().subrange(
                0,
                prev.group.free_stack().len() - 1,
            ).push(c),
            end == CHUNK_SIZE ==> self.group.free_stack() == prev.group.free_stack().subrange(
                0,
                prev.group.free_stack().len() - 1,
            ),
        ensures
            self.wf_pending(c, start, end),
    {
        let pfs = prev.group.free_stack();
        let head = pfs.subrange(0, pfs.len() - 1);
        assert forall|cc: int|
            0 <= cc < self.spec_num_chunks() && (#[trigger] self.group.chunk_lens()[cc])
                < CHUNK_SIZE implies self.group.on_free_stack(cc) by {
            if cc == c {
                if end < CHUNK_SIZE {
                    assert(self.group.free_stack()[self.group.free_stack().len() - 1] == c);
                }
            } else {
                assert(prev.group.chunk_lens()[cc] < CHUNK_SIZE);
                let k = choose|k: int| 0 <= k < pfs.len() && (#[trigger] pfs[k]) == cc;
                assert(k < pfs.len() - 1);
                assert(self.group.free_stack()[k] == cc);
            }
        }
        assert forall|id: int| #[trigger] self.live(id) implies self.data_ok(id) && !(
            self.records()[id].chunk == c && start <= self.records()[id].slot < end) by {
            assert(prev.live(id));
            assert(prev.data_ok(id));
        }
        assert forall|cc: int, ss: int|
            #[trigger] self.occupied(cc, ss) && !(cc == c && start <= ss < end) implies self.slot_ok(
            cc,
            ss,
        ) by {
            assert(prev.occupied(cc, ss));
            assert(prev.slot_ok(cc, ss));
        }
    }

    /// After growing the group by one fresh chunk `c` filled with a pending
    /// window `[0, end)`, the pending-window invariant holds.
    proof fn lemma_alloc_slots_grow(self, prev: World<A, B>, c: int, end: int)
        requires
            prev.wf(),
            c == prev.spec_num_chunks(),
            prev.group.free_stack().len() == 0,
            0 < end <= CHUNK_SIZE,
            self.records() == prev.records(),
            self.free_ids() == prev.free_ids(),
            self.entities_free == prev.entities_free,
            self.chunk_lens() == prev.chunk_lens().push(end),
            self.entity_comp.wf() && self.comp_a.wf() && self.comp_b.wf(),
            self.entity_comp@.len() == c + 1 && self.comp_a@.len() == c + 1 && self.comp_b@.len()
                == c + 1,
            forall|cc: int| 0 <= cc < c ==> (#[trigger] self.entity_comp@[cc]) == prev.entity_comp@[cc],
            forall|cc: int| 0 <= cc < c ==> (#[trigger] self.comp_a@[cc]) == prev.comp_a@[cc],
            forall|cc: int| 0 <= cc < c ==> (#[trigger] self.comp_b@[cc]) == prev.comp_b@[cc],
            end < CHUNK_SIZE ==> self.group.free_stack() == Seq::<int>::empty().push(c),
            end == CHUNK_SIZE ==> self.group.free_stack() == Seq::<int>::empty(),
        ensures
            self.wf_pending(c, 0, end),
    {
        assert forall|cc: int|
            0 <= cc < self.spec_num_chunks() && (#[trigger] self.group.chunk_lens()[cc])
                < CHUNK_SIZE implies self.group.on_free_stack(cc) by {
            if cc == c {
                assert(end < CHUNK_SIZE);
                assert(self.group.free_stack()[0] == c);
            } else {
                assert(prev.group.chunk_lens()[cc] < CHUNK_SIZE);
                assert(prev.group.on_free_stack(cc));
                assert(false);
            }
        }
        assert forall|id: int| #[trigger] self.live(id) implies self.data_ok(id) && !(
            self.records()[id].chunk == c && 0 <= self.records()[id].slot < end) by {
            assert(prev.live(id));
            assert(prev.data_ok(id));
        }
        assert forall|cc: int, ss: int|
            #[trigger] self.occupied(cc, ss) && !(cc == c && 0 <= ss < end) implies self.slot_ok(
            cc,
            ss,
        ) by {
            assert(prev.occupied(cc, ss));
            assert(prev.slot_ok(cc, ss));
        }
    }

    /// The number of occupied slots in chunks before `c`.
    pub open spec fn lens_sum(lens: Seq<int>, c: int) -> int
        decreases c,
    {
        if c <= 0 {
            0
        } else {
            Self::lens_sum(lens, c - 1) + lens[c - 1]
        }
    }

    /// The flattened item sequence over the first `c` chunks has exactly as
    /// many entries as those chunks have occupied slots.
    proof fn lemma_items_prefix_len(self, c: int)
        requires
            self.group_wf(),
            0 <= c <= self.spec_num_chunks(),
        ensures
            self.items_prefix(c).len() == Self::lens_sum(self.chunk_lens(), c),
        decreases c,
    {
        if c > 0 {
            self.lemma_items_prefix_len(c - 1);
        }
    }

    /// Summing chunk occupancies is unaffected by entries at or past `c`.
    proof fn lemma_lens_sum_update(lens: Seq<int>, i: int, v: int, c: int)
        requires
            0 <= i < lens.len(),
            0 <= c <= lens.len(),
        ensures
            Self::lens_sum(lens.update(i, v), c) == if i < c {
                Self::lens_sum(lens, c) + v - lens[i]
            } else {
                Self::lens_sum(lens, c)
            },
        decreases c,
    {
        if c > 0 {
            Self::lemma_lens_sum_update(lens, i, v, c - 1);
        }
    }

    /// Appending a chunk does not change the sum over the existing prefix.
    proof fn lemma_lens_sum_push(lens: Seq<int>, v: int, c: int)
        requires
            0 <= c <= lens.len(),
        ensures
            Self::lens_sum(lens.push(v), c) == Self::lens_sum(lens, c),
        decreases c,
    {
        if c > 0 {
            Self::lemma_lens_sum_push(lens, v, c - 1);
        }
    }

    /// Take one slot id out of the free list, growing the slot table by one
    /// fresh record when no freed id is available.
    fn take_free_id(&mut self) -> (id: EntityId)
        requires
            old(self).free_wf(),
            old(self).gens_ok(),
            old(self).num_slots() < u32::MAX as int,
        ensures
            final(self).free_wf(),
            final(self).gens_ok(),
            0 <= (id as int) < final(self).num_slots(),
            !old(self).live(id as int),
            final(self).live(id as int),
            final(self).free_ids() == old(self).free_ids().remove(id as int),
            old(self).num_slots() <= final(self).num_slots() <= old(self).num_slots() + 1,
            (id as int) >= old(self).num_slots() ==> final(self).num_slots() == old(self).num_slots() + 1 && id as int == old(self).num_slots(),
            final(self).num_slots() > old(self).num_slots() ==> id as int == old(self).num_slots(),
            forall|x: int| x != id as int ==> final(self).live(x) == old(self).live(x),
            forall|i: int|
                0 <= i < old(self).num_slots() ==> final(self).records()[i] == old(self).records()[i],
            (id as int) >= old(self).num_slots() ==> final(self).records()[id as int].generation
                == 0,
            final(self).group == old(self).group,
            final(self).entity_comp == old(self).entity_comp,
            final(self).comp_a == old(self).comp_a,
            final(self).comp_b == old(self).comp_b,
    {
        let r = self.entities_free.allocate(1);
        match r {
            Some(ids) => {
                let id = ids.start;
                proof {
                    old(self).entities_free.lemma_free_in_bounds();
                    assert(crate::free_list::range_set(id as int, id as int + 1).contains(
                        id as int,
                    ));
                    assert(old(self).free_ids().contains(id as int));
                    assert(self.free_ids() =~= old(self).free_ids().remove(id as int));
                }
                id
            },
            None => {
                proof {
                    if old(self).entities_free.free_ranges().len() > 0 {
                        assert(false);
                    }
                    assert forall|x: int| !old(self).free_ids().contains(x) by {
                        if old(self).free_ids().contains(x) {
                            let k = choose|k: int|
                                0 <= k < old(self).entities_free.free_ranges().len() && (
                                #[trigger] old(self).entities_free.free_ranges()[k]).0 <= x < old(self).entities_free.free_ranges()[k].1;
                        }
                    }
                }
                let id = self.entities.len() as u32;
                self.entities_free.append(1);
                self.entities.push(
                    EntityData { generation: 0, group: 0, chunk: 0, slot: 0 },
                );
                let ghost mid = *self;
                let r2 = self.entities_free.allocate(1);
                match r2 {
                    Some(ids) => {
                        proof {
                            // The only free id after growing is the fresh one.
                            if mid.entities_free.free_ranges().len() == 0 {
                                assert(!mid.free_ids().contains(id as int));
                                assert(false);
                            }
                            let s = mid.entities_free.free_ranges()[0].0;
                            assert(crate::free_list::range_set(s, s + 1).contains(s));
                            assert(mid.free_ids().contains(s));
                            assert(s == id as int);
                            assert(ids.start == id);
                            assert(self.free_ids() =~= old(self).free_ids().remove(id as int));
                        }
                        ids.start
                    },
                    None => {
                        proof {
                            assert(mid.free_ids().contains(id as int));
                            assert(false);
                        }
                        unreached()
                    },
                }
            },
        }
    }

    /// Create one entity holding the given component values. A freed slot id
    /// is reused when one exists, keeping that slot's bumped generation;
    /// otherwise the slot table grows by one. The payload goes into the first
    /// chunk with free capacity.
    #[verifier::rlimit(100)]
    #[verifier::spinoff_prover]
    pub fn create_entity(&mut self, value_a: A, value_b: B) -> (e: Entity)
        requires
            old(self).wf(),
            old(self).num_slots() < u32::MAX as int,
            old(self).spec_num_chunks() < usize::MAX as int,
        ensures
            final(self).wf(),
            final(self).spec_get(e) == Some((value_a, value_b)),
            !old(self).live(e.id as int),
            final(self).live(e.id as int),
            e.generation < GENERATION_INVALID,
            forall|ee: Entity|
                old(self).spec_get(ee) is Some ==> final(self).spec_get(ee) == old(self).spec_get(
                    ee,
                ),
            forall|ee: Entity|
                old(self).spec_get(ee) is None && ee.id != e.id ==> final(self).spec_get(
                    ee,
                ) is None,
            forall|ee: Entity|
                ee.id == e.id && ee.generation != e.generation ==> final(self).spec_get(
                    ee,
                ) is None,
            forall|x: int| x != e.id as int ==> final(self).live(x) == old(self).live(x),
            final(self).live_count() == old(self).live_count() + 1,
            old(self).num_slots() <= final(self).num_slots() <= old(self).num_slots() + 1,
            old(self).spec_num_chunks() <= final(self).spec_num_chunks() <= old(self).spec_num_chunks() + 1,
    {
        let ghost w0 = *old(self);
        let (chunk, slots) = self.alloc_group_slots(1);
        let slot = slots.start;
        let ghost w1 = *self;
        self.comp_a.set_slot(chunk, slot, value_a);
        self.comp_b.set_slot(chunk, slot, value_b);
        let id = self.take_free_id();
        let ghost w3 = *self;
        proof {
            assert(w3.records()[id as int].generation < GENERATION_INVALID);
        }
        self.entity_comp.set_slot(chunk, slot, id);
        let generation = self.entities[id as usize].generation;
        self.entities.set(
            id as usize,
            EntityData { generation, group: 0, chunk, slot },
        );
        let e = Entity { id, generation };
        proof {
            let f = *self;
            let n0 = w0.spec_num_chunks();
            let nf = f.spec_num_chunks();
            let ci = chunk as int;
            let si = slot as int;
            // The claimed window is exactly one slot past what chunk `chunk`
            // held before, or slot 0 of a brand-new chunk.
            assert(slots.end == slot + 1);
            assert(f.chunk_lens() == w1.chunk_lens());
            assert(f.free_ids() =~= w0.free_ids().remove(id as int));
            assert(f.chunk_lens()[ci] == si + 1);

            // Outside the claimed window the storages read as before.
            assert forall|cc: int, ss: int|
                0 <= cc < n0 && 0 <= ss < CHUNK_SIZE && !(cc == ci && ss == si) implies {
                &&& (#[trigger] f.owner_at(cc, ss)) == w0.owner_at(cc, ss)
                &&& f.value_at(cc, ss) == w0.value_at(cc, ss)
                &&& f.values_defined(cc, ss) == w0.values_defined(cc, ss)
            } by {
                assert(w1.owner_at(cc, ss) == w0.owner_at(cc, ss));
                assert(w1.value_at(cc, ss) == w0.value_at(cc, ss));
                assert(w1.values_defined(cc, ss) == w0.values_defined(cc, ss));
                assert(f.comp_a@[cc] == if cc == ci {
                    w1.comp_a@[ci].update(si, Some(value_a))
                } else {
                    w1.comp_a@[cc]
                });
                assert(f.comp_b@[cc] == if cc == ci {
                    w1.comp_b@[ci].update(si, Some(value_b))
                } else {
                    w1.comp_b@[cc]
                });
                assert(f.entity_comp@[cc] == if cc == ci {
                    w1.entity_comp@[ci].update(si, Some(id))
                } else {
                    w1.entity_comp@[cc]
                });
            }
            // Occupancy grows by the window alone.
            assert forall|cc: int, ss: int|
                #[trigger] f.occupied(cc, ss) && !(cc == ci && ss == si) implies w0.occupied(
                cc,
                ss,
            ) by {
                if cc == ci {
                    if ci < n0 {
                        assert(w0.chunk_lens()[ci] == si);
                    } else {
                        assert(f.chunk_lens()[ci] == 1);
                        assert(false);
                    }
                } else {
                    assert(w0.chunk_lens()[cc] == f.chunk_lens()[cc]);
                }
            }

            // Live records still point at coordinates that point back.
            assert forall|x: int| #[trigger] f.live(x) implies f.data_ok(x) by {
                if x == id as int {
                    assert(f.occupied(ci, si));
                } else {
                    assert(w0.live(x));
                    assert(w0.data_ok(x));
                    assert(f.records()[x] == w0.records()[x]);
                    let d = w0.records()[x];
                    assert(w0.occupied(d.chunk as int, d.slot as int));
                    if d.chunk as int == ci {
                        assert(w0.chunk_lens()[ci] == si);
                    }
                    assert(f.occupied(d.chunk as int, d.slot as int));
                    assert(f.owner_at(d.chunk as int, d.slot as int) == w0.owner_at(
                        d.chunk as int,
                        d.slot as int,
                    ));
                }
            }

            // Occupied coordinates are still owned by live, matching records.
            assert forall|cc: int, ss: int| #[trigger] f.occupied(cc, ss) implies f.slot_ok(
                cc,
                ss,
            ) by {
                if cc == ci && ss == si {
                    assert(f.owner_at(cc, ss) == Some(id));
                    assert(f.live(id as int));
                    assert(f.values_defined(cc, ss));
                } else {
                    assert(w0.occupied(cc, ss));
                    assert(w0.slot_ok(cc, ss));
                    let x = w0.owner_at(cc, ss).unwrap() as int;
                    assert(w0.live(x));
                    assert(x != id as int);
                    assert(f.owner_at(cc, ss) == w0.owner_at(cc, ss));
                    assert(f.records()[x] == w0.records()[x]);
                    assert(f.live(x));
                    assert(f.values_defined(cc, ss));
                }
            }
            assert(f.wf());

            // The new handle resolves to the values just stored.
            assert(f.handle_live(e));
            assert(f.value_at(ci, si) == (value_a, value_b));
            assert(f.spec_get(e) == Some((value_a, value_b)));

            // Live handles other than the new one keep their values.
            assert forall|ee: Entity| w0.spec_get(ee) is Some implies f.spec_get(ee) == w0.spec_get(
                ee,
            ) by {
                assert(w0.handle_live(ee));
                let d = w0.records()[ee.id as int];
                assert(w0.occupied(d.chunk as int, d.slot as int));
                assert(w0.slot_ok(d.chunk as int, d.slot as int));
                assert(ee.id != id);
                assert(f.records()[ee.id as int] == d);
                if d.chunk as int == ci {
                    assert(w0.chunk_lens()[ci] == si);
                }
                assert(f.occupied(d.chunk as int, d.slot as int));
                assert(f.owner_at(d.chunk as int, d.slot as int) == w0.owner_at(
                    d.chunk as int,
                    d.slot as int,
                ));
                assert(f.value_at(d.chunk as int, d.slot as int) == w0.value_at(
                    d.chunk as int,
                    d.slot as int,
                ));
            }

            // Stale handles stay stale.
            assert forall|ee: Entity|
                w0.spec_get(ee) is None && ee.id != e.id implies f.spec_get(ee) is None by {
                if f.handle_live(ee) {
                    assert((ee.id as int) < f.num_slots());
                    assert(ee.id as int != id as int);
                    if (ee.id as int) < w0.num_slots() {
                        let d = w0.records()[ee.id as int];
                        assert(f.records()[ee.id as int] == d);
                        assert(f.occupied(d.chunk as int, d.slot as int));
                        if d.chunk as int == ci && d.slot as int == si {
                            assert(f.owner_at(d.chunk as int, d.slot as int) == Some(id));
                            assert(false);
                        } else {
                            assert(w0.occupied(d.chunk as int, d.slot as int));
                            assert(f.owner_at(d.chunk as int, d.slot as int) == w0.owner_at(
                                d.chunk as int,
                                d.slot as int,
                            ));
                            assert(w0.handle_live(ee));
                            assert(false);
                        }
                    } else {
                        assert(false);
                    }
                }
            }

            // A reused slot's earlier handles carry another generation.
            assert forall|ee: Entity|
                ee.id == e.id && ee.generation != e.generation implies f.spec_get(ee) is None by {
                if f.handle_live(ee) {
                    assert(f.records()[ee.id as int].generation == generation);
                    assert(false);
                }
            }

            // One more live entity.
            w0.lemma_items_prefix_len(n0);
            f.lemma_items_prefix_len(nf);
            if ci < n0 {
                Self::lemma_lens_sum_update(
                    w0.chunk_lens(),
                    ci,
                    slots.end as int,
                    n0,
                );
            } else {
                Self::lemma_lens_sum_push(w0.chunk_lens(), slots.end as int, n0);
            }
        }
        e
    }

    /// Remove one live entity. Its chunk stays dense: the chunk's occupancy
    /// count drops by one, and when the freed slot is not the chunk's last
    /// occupied slot, the last occupied entity's component values move into
    /// the freed slot and that entity's record is updated to the freed
    /// coordinate. The freed slot's generation is bumped at once, so
    /// outstanding handles to it go stale immediately, and its id returns to
    /// the free list.
    #[verifier::rlimit(100)]
    #[verifier::spinoff_prover]
    pub fn free_entity(&mut self, e: Entity)
        requires
            old(self).wf(),
            old(self).spec_get(e) is Some,
        ensures
            final(self).wf(),
            final(self).num_slots() == old(self).num_slots(),
            final(self).spec_num_chunks() == old(self).spec_num_chunks(),
            !final(self).live(e.id as int),
            forall|x: int| x != e.id as int ==> final(self).live(x) == old(self).live(x),
            forall|ee: Entity| ee.id == e.id ==> final(self).spec_get(ee) is None,
            forall|ee: Entity|
                ee.id != e.id ==> final(self).spec_get(ee) == old(self).spec_get(ee),
            final(self).live_count() == old(self).live_count() - 1,
            ({
                let d = old(self).records()[e.id as int];
                let li = old(self).chunk_lens()[d.chunk as int] - 1;
                &&& final(self).chunk_lens() == old(self).chunk_lens().update(d.chunk as int, li)
                &&& final(self).records()[e.id as int] == (EntityData {
                    generation: next_generation(d.generation),
                    group: d.group,
                    chunk: d.chunk,
                    slot: d.slot,
                })
                &&& (d.slot as int) < li ==> ({
                    let m = old(self).owner_at(d.chunk as int, li).unwrap();
                    &&& final(self).records()[m as int] == (EntityData {
                        generation: old(self).records()[m as int].generation,
                        group: old(self).records()[m as int].group,
                        chunk: d.chunk,
                        slot: d.slot,
                    })
                    &&& final(self).owner_at(d.chunk as int, d.slot as int) == Some(m)
                    &&& final(self).value_at(d.chunk as int, d.slot as int) == old(self).value_at(
                        d.chunk as int,
                        li,
                    )
                    &&& final(self).values_defined(d.chunk as int, d.slot as int)
                    &&& forall|x: int|
                        0 <= x < old(self).num_slots() && x != e.id as int && x != m as int
                            ==> (#[trigger] final(self).records()[x]) == old(self).records()[x]
                })
                &&& (d.slot as int) == li ==> forall|x: int|
                    0 <= x < old(self).num_slots() && x != e.id as int ==> (
                    #[trigger] final(self).records()[x]) == old(self).records()[x]
                &&& forall|cc: int, ss: int|
                    0 <= cc < old(self).spec_num_chunks() && 0 <= ss < CHUNK_SIZE && !((
                    d.slot as int) < li && cc == d.chunk as int && (ss == d.slot as int || ss
                        == li)) ==> (#[trigger] final(self).owner_at(cc, ss)) == old(self).owner_at(
                        cc,
                        ss,
                    ) && final(self).value_at(cc, ss) == old(self).value_at(cc, ss) && final(self).values_defined(cc, ss) == old(self).values_defined(cc, ss)
            }),
    {
        let ghost w0 = *old(self);
        proof {
            assert(w0.handle_live(e));
            assert(w0.occupied(
                w0.records()[e.id as int].chunk as int,
                w0.records()[e.id as int].slot as int,
            ));
        }
        let id = e.id as usize;
        let d = self.entities[id];
        let c = d.chunk;
        proof {
            assert(self.chunk_lens()[c as int] == self.group.chunk_data@[c as int].len);
        }
        let old_len = self.group.chunk_data[c].len;
        let last = old_len - 1;
        self.group.chunk_data.set(c, ChunkData { len: last });
        proof {
            assert(self.group.chunk_lens() =~= w0.chunk_lens().update(c as int, last as int));
        }
        let ghost moved_id: EntityId = e.id;
        let swap = d.slot < last;
        if swap {
            proof {
                assert(w0.occupied(c as int, last as int));
                assert(w0.slot_ok(c as int, last as int));
            }
            let moved = match self.entity_comp.slot(c, last) {
                Some(m) => m,
                None => unreached(),
            };
            proof {
                moved_id = moved;
                assert(w0.live(moved as int));
                assert(w0.records()[moved as int].slot == last);
                assert(moved != e.id);
            }
            let amount = last - d.slot;
            self.entity_comp.shift(
                ChunkPtr { index: c },
                Range { start: last, end: old_len },
                amount,
            );
            self.comp_a.shift(ChunkPtr { index: c }, Range { start: last, end: old_len }, amount);
            self.comp_b.shift(ChunkPtr { index: c }, Range { start: last, end: old_len }, amount);
            let mrec = self.entities[moved as usize];
            self.entities.set(
                moved as usize,
                EntityData {
                    generation: mrec.generation,
                    group: mrec.group,
                    chunk: c,
                    slot: d.slot,
                },
            );
        }
        if old_len == CHUNK_SIZE {
            proof {
                if w0.group.on_free_stack(c as int) {
                    let k = choose|k: int|
                        0 <= k < w0.group.free_stack().len() && (
                        #[trigger] w0.group.free_stack()[k]) == c as int;
                    assert(false);
                }
            }
            self.group.free_chunks.push(c);
            proof {
                assert(self.group.free_stack() =~= w0.group.free_stack().push(c as int));
            }
        }
        let g = d.generation;
        let ng: u32 = if g == GENERATION_INVALID - 1 {
            0
        } else {
            g + 1
        };
        self.entities.set(
            id,
            EntityData { generation: ng, group: d.group, chunk: d.chunk, slot: d.slot },
        );
        proof {
            w0.entities_free.lemma_free_in_bounds();
            assert forall|x: int|
                crate::free_list::range_set(e.id as int, e.id as int + 1).contains(
                    x,
                ) implies !self.entities_free.free_set().contains(x) by {}
        }
        self.entities_free.deallocate(Range { start: e.id, end: e.id + 1 });
        proof {
            let f = *self;
            let n0 = w0.spec_num_chunks();
            let ci = c as int;
            let si = d.slot as int;
            let li = last as int;
            let mi = moved_id as int;
            assert(f.free_ids() =~= w0.free_ids().insert(e.id as int));
            assert(f.chunk_lens() == w0.chunk_lens().update(ci, li));

            // Which coordinates changed: only (ci, si) was rewritten, and
            // (ci, li) fell out of the occupied region.
            assert forall|cc: int, ss: int|
                0 <= cc < n0 && 0 <= ss < CHUNK_SIZE && !(cc == ci && (ss == si || ss == li))
                    implies {
                &&& (#[trigger] f.owner_at(cc, ss)) == w0.owner_at(cc, ss)
                &&& f.value_at(cc, ss) == w0.value_at(cc, ss)
                &&& f.values_defined(cc, ss) == w0.values_defined(cc, ss)
            } by {}
            if swap {
                assert(f.owner_at(ci, si) == w0.owner_at(ci, li));
                assert(f.value_at(ci, si) == w0.value_at(ci, li));
                assert(f.values_defined(ci, si) == w0.values_defined(ci, li));
            }

            // Group bookkeeping stays well formed.
            assert forall|cc: int|
                0 <= cc < f.group.spec_num_chunks() && (#[trigger] f.group.chunk_lens()[cc])
                    < CHUNK_SIZE implies f.group.on_free_stack(cc) by {
                if cc == ci {
                    if old_len == CHUNK_SIZE {
                        assert(f.group.free_stack().last() == ci);
                    } else {
                        assert(w0.group.on_free_stack(cc));
                        let k = choose|k: int|
                            0 <= k < w0.group.free_stack().len() && (
                            #[trigger] w0.group.free_stack()[k]) == cc;
                        assert(f.group.free_stack()[k] == cc);
                    }
                } else {
                    assert(w0.group.chunk_lens()[cc] < CHUNK_SIZE);
                    assert(w0.group.on_free_stack(cc));
                    let k = choose|k: int|
                        0 <= k < w0.group.free_stack().len() && (
                        #[trigger] w0.group.free_stack()[k]) == cc;
                    assert(f.group.free_stack()[k] == cc);
                }
            }
            assert(f.group_wf());

            // Records of live ids still point at occupied, matching slots.
            assert forall|x: int| #[trigger] f.live(x) implies f.data_ok(x) by {
                assert(x != e.id as int);
                assert(w0.live(x));
                assert(w0.data_ok(x));
                let dx = w0.records()[x];
                if swap && x == mi {
                    assert(f.records()[x].chunk == ci && f.records()[x].slot == si);
                    assert(f.occupied(ci, si));
                    assert(f.owner_at(ci, si) == Some(moved_id));
                } else {
                    assert(f.records()[x] == dx);
                    if dx.chunk as int == ci && dx.slot as int == li {
                        assert(w0.slot_ok(ci, li));
                        assert(x == mi && swap);
                        assert(false);
                    }
                    if dx.chunk as int == ci && dx.slot as int == si {
                        assert(w0.slot_ok(ci, si));
                        assert(x == e.id as int);
                        assert(false);
                    }
                    assert(f.occupied(dx.chunk as int, dx.slot as int));
                    assert(f.owner_at(dx.chunk as int, dx.slot as int) == w0.owner_at(
                        dx.chunk as int,
                        dx.slot as int,
                    ));
                }
            }

            // Occupied coordinates still carry live owners and values.
            assert forall|cc: int, ss: int| #[trigger] f.occupied(cc, ss) implies f.slot_ok(
                cc,
                ss,
            ) by {
                assert(w0.occupied(cc, ss));
                assert(w0.slot_ok(cc, ss));
                if swap && cc == ci && ss == si {
                    assert(f.owner_at(ci, si) == Some(moved_id));
                    assert(f.live(mi));
                    assert(f.records()[mi].chunk == ci && f.records()[mi].slot == si);
                    assert(f.values_defined(ci, si));
                } else {
                    assert(!(cc == ci && ss == li));
                    let x = w0.owner_at(cc, ss).unwrap() as int;
                    assert(w0.live(x));
                    assert(w0.records()[x].chunk == cc && w0.records()[x].slot == ss);
                    assert(x != e.id as int);
                    assert(!(swap && x == mi));
                    assert(f.owner_at(cc, ss) == w0.owner_at(cc, ss));
                    assert(f.records()[x] == w0.records()[x]);
                    assert(f.live(x));
                    assert(f.values_defined(cc, ss));
                }
            }
            assert(f.wf());

            // Any handle to the freed slot is now stale.
            assert forall|ee: Entity| ee.id == e.id implies f.spec_get(ee) is None by {
                if f.handle_live(ee) {
                    let dn = f.records()[ee.id as int];
                    assert(dn.chunk as int == ci && dn.slot as int == si);
                    if swap {
                        assert(f.owner_at(ci, si) == Some(moved_id));
                        assert(false);
                    } else {
                        assert(si == li);
                        assert(!f.occupied(ci, si));
                        assert(false);
                    }
                }
            }

            // Every other handle resolves exactly as before.
            assert forall|ee: Entity| ee.id != e.id implies f.spec_get(ee) == w0.spec_get(ee) by {
                if w0.spec_get(ee) is Some {
                    assert(w0.handle_live(ee));
                    let dx = w0.records()[ee.id as int];
                    assert(w0.slot_ok(dx.chunk as int, dx.slot as int));
                    assert(w0.live(ee.id as int));
                    if swap && ee.id == moved_id {
                        assert(f.records()[ee.id as int].generation == dx.generation);
                        assert(f.handle_live(ee));
                        assert(f.value_at(ci, si) == w0.value_at(ci, li));
                        assert(dx.chunk as int == ci && dx.slot as int == li);
                    } else {
                        assert(f.records()[ee.id as int] == dx);
                        if dx.chunk as int == ci && dx.slot as int == li {
                            assert(ee.id as int == mi && swap);
                            assert(false);
                        }
                        if dx.chunk as int == ci && dx.slot as int == si {
                            assert(ee.id as int == e.id as int);
                            assert(false);
                        }
                        assert(f.occupied(dx.chunk as int, dx.slot as int));
                        assert(f.handle_live(ee));
                        assert(f.value_at(dx.chunk as int, dx.slot as int) == w0.value_at(
                            dx.chunk as int,
                            dx.slot as int,
                        ));
                    }
                } else {
                    if f.handle_live(ee) {
                        let dn = f.records()[ee.id as int];
                        if swap && ee.id as int == mi {
                            assert(dn.chunk as int == ci && dn.slot as int == si);
                            assert(dn.generation == w0.records()[mi].generation);
                            assert(w0.handle_live(ee));
                            assert(false);
                        } else {
                            assert(dn == w0.records()[ee.id as int]);
                            assert(f.occupied(dn.chunk as int, dn.slot as int));
                            assert(w0.occupied(dn.chunk as int, dn.slot as int));
                            if dn.chunk as int == ci && dn.slot as int == si {
                                if swap {
                                    assert(f.owner_at(ci, si) == Some(moved_id));
                                    assert(w0.slot_ok(ci, si));
                                    assert(false);
                                } else {
                                    assert(false);
                                }
                            } else {
                                assert(!(dn.chunk as int == ci && dn.slot as int == li));
                                assert(f.owner_at(dn.chunk as int, dn.slot as int) == w0.owner_at(
                                    dn.chunk as int,
                                    dn.slot as int,
                                ));
                                assert(w0.handle_live(ee));
                                assert(false);
                            }
                        }
                    }
                }
            }

            // One fewer live entity.
            w0.lemma_items_prefix_len(n0);
            f.lemma_items_prefix_len(n0);
            Self::lemma_lens_sum_update(w0.chunk_lens(), ci, li, n0);

            // The mechanism clauses: the freed record, the moved record, and
            // the freed coordinate's new contents.
            assert(f.records()[e.id as int] == (EntityData {
                generation: next_generation(d.generation),
                group: d.group,
                chunk: d.chunk,
                slot: d.slot,
            }));
            if swap {
                assert(w0.owner_at(ci, li) == Some(moved_id));
                assert(f.records()[mi] == (EntityData {
                    generation: w0.records()[mi].generation,
                    group: w0.records()[mi].group,
                    chunk: d.chunk,
                    slot: d.slot,
                }));
                assert(w0.values_defined(ci, li));
                assert(f.values_defined(ci, si));
            } else {
                assert forall|cc: int, ss: int|
                    0 <= cc < n0 && 0 <= ss < CHUNK_SIZE implies (#[trigger] f.owner_at(cc, ss))
                    == w0.owner_at(cc, ss) && f.value_at(cc, ss) == w0.value_at(cc, ss)
                    && f.values_defined(cc, ss) == w0.values_defined(cc, ss) by {}
            }
        }
    }

    /// Create one entity per element of the parallel input arrays and write
    /// the fresh handles into `entities`, which runs parallel to the inputs.
    /// Every handle resolves to its input values; existing entities are
    /// untouched.
    pub fn create_entities(
        &mut self,
        entities: &mut Vec<Entity>,
        stream_a: &Vec<A>,
        stream_b: &Vec<B>,
    )
        requires
            old(self).wf(),
            old(entities)@.len() == stream_a@.len(),
            old(entities)@.len() == stream_b@.len(),
            old(self).num_slots() + old(entities)@.len() <= u32::MAX as int,
            old(self).spec_num_chunks() + old(entities)@.len() <= usize::MAX as int,
        ensures
            final(self).wf(),
            final(entities)@.len() == old(entities)@.len(),
            forall|i: int|
                0 <= i < final(entities)@.len() ==> #[trigger] final(self).spec_get(
                    final(entities)@[i],
                ) == Some((stream_a@[i], stream_b@[i])),
            forall|i: int, j: int|
                0 <= i < j < final(entities)@.len()
                    ==> final(entities)@[i].id != final(entities)@[j].id,
            forall|ee: Entity|
                old(self).spec_get(ee) is Some ==> final(self).spec_get(ee) == old(self).spec_get(
                    ee,
                ),
            forall|ee: Entity|
                old(self).spec_get(ee) is None && (forall|i: int|
                    0 <= i < final(entities)@.len() ==> ee != (#[trigger] final(entities)@[i]))
                    ==> final(self).spec_get(ee) is None,
            forall|x: int|
                (forall|i: int|
                    0 <= i < final(entities)@.len()
                        ==> x != (#[trigger] final(entities)@[i]).id as int)
                    ==> final(self).live(x) == old(self).live(x),
            final(self).live_count() == old(self).live_count() + old(entities)@.len(),
            old(self).num_slots() <= final(self).num_slots()
                <= old(self).num_slots() + old(entities)@.len(),
            old(self).spec_num_chunks() <= final(self).spec_num_chunks() <= old(self).spec_num_chunks() + old(entities)@.len(),
            old(entities)@.len() == 0 ==> *final(self) == *old(self)
                && final(entities)@ == old(entities)@,
    {
        let n = entities.len();
        if n == 0 {
            return ;
        }
        let mut i: usize = 0;
        while i < n
            invariant
                self.wf(),
                i <= n,
                entities@.len() == n,
                stream_a@.len() == n,
                stream_b@.len() == n,
                old(self).num_slots() + n <= u32::MAX as int,
                old(self).spec_num_chunks() + n <= usize::MAX as int,
                old(self).num_slots() <= self.num_slots() <= old(self).num_slots() + i,
                old(self).spec_num_chunks() <= self.spec_num_chunks() <= old(self).spec_num_chunks() + i,
                self.live_count() == old(self).live_count() + i,
                forall|x: int|
                    (forall|k: int| 0 <= k < i ==> x != (#[trigger] entities@[k]).id as int)
                        ==> self.live(x) == old(self).live(x),
                forall|k: int|
                    0 <= k < i ==> #[trigger] self.spec_get(entities@[k]) == Some(
                        (stream_a@[k], stream_b@[k]),
                    ),
                forall|k: int, l: int| 0 <= k < l < i ==> entities@[k].id != entities@[l].id,
                forall|ee: Entity|
                    old(self).spec_get(ee) is Some ==> self.spec_get(ee) == old(self).spec_get(ee),
                forall|ee: Entity|
                    old(self).spec_get(ee) is None && (forall|k: int|
                        0 <= k < i ==> ee != (#[trigger] entities@[k])) ==> self.spec_get(
                        ee,
                    ) is None,
            decreases n - i,
        {
            let ghost pre = *self;
            let ghost ents_pre = entities@;
            let e = self.create_entity(stream_a[i], stream_b[i]);
            entities.set(i, e);
            proof {
                assert forall|ee: Entity|
                    old(self).spec_get(ee) is None && (forall|k: int|
                        0 <= k < i + 1 ==> ee != (#[trigger] entities@[k])) implies self.spec_get(
                    ee,
                ) is None by {
                    assert(ee != entities@[i as int]);
                    assert(ee != e);
                    assert forall|k: int| 0 <= k < i implies ee != (#[trigger] ents_pre[k]) by {
                        assert(ents_pre[k] == entities@[k]);
                    }
                    if ee.id == e.id {
                        assert(ee.generation != e.generation);
                    } else {
                        assert(pre.spec_get(ee) is None);
                    }
                }
                assert forall|x: int|
                    (forall|k: int| 0 <= k < i + 1 ==> x != (#[trigger] entities@[k]).id as int)
                        implies self.live(x) == old(self).live(x) by {
                    assert(x != entities@[i as int].id as int);
                    assert(x != e.id as int);
                    assert forall|k: int| 0 <= k < i implies x != (#[trigger] ents_pre[k]).id as int by {
                        assert(ents_pre[k] == entities@[k]);
                    }
                }
                assert forall|k: int, l: int|
                    0 <= k < l < i + 1 implies entities@[k].id != entities@[l].id by {
                    if l == i {
                        assert(pre.spec_get(entities@[k]) == Some((stream_a@[k], stream_b@[k])));
                        assert(pre.handle_live(entities@[k]));
                        let dk = pre.records()[entities@[k].id as int];
                        assert(pre.occupied(dk.chunk as int, dk.slot as int));
                        assert(pre.slot_ok(dk.chunk as int, dk.slot as int));
                        assert(pre.live(entities@[k].id as int));
                        assert(!pre.live(e.id as int));
                    }
                }
            }
            i += 1;
        }
    }

    /// How many entities of a batch occupy chunk `c`, judged by their
    /// records in this world. Swap-compaction moves entities only within
    /// their own chunk, so the tally is stable while a batch is freed.
    pub open spec fn batch_freed_from(self, entities: Seq<Entity>, c: int) -> int
        decreases entities.len(),
    {
        if entities.len() == 0 {
            0
        } else {
            self.batch_freed_from(entities.drop_last(), c) + if (
            self.records()[entities.last().id as int].chunk as int) == c {
                1int
            } else {
                0int
            }
        }
    }

    /// Remove a batch of live entities with pairwise distinct ids. Each
    /// freed entity comes out of its own chunk's occupancy count, the chunk
    /// count is unchanged, and handles outside the batch resolve exactly as
    /// before; in particular an entity moved by swap-compaction keeps its
    /// handle and its values.
    pub fn free_entities(&mut self, entities: &Vec<Entity>)
        requires
            old(self).wf(),
            forall|i: int|
                0 <= i < entities@.len() ==> #[trigger] old(self).spec_get(entities@[i]) is Some,
            forall|i: int, j: int|
                0 <= i < j < entities@.len() ==> entities@[i].id != entities@[j].id,
        ensures
            final(self).wf(),
            final(self).num_slots() == old(self).num_slots(),
            final(self).spec_num_chunks() == old(self).spec_num_chunks(),
            forall|c: int|
                0 <= c < old(self).spec_num_chunks() ==> (#[trigger] final(self).chunk_lens()[c])
                    == old(self).chunk_lens()[c] - old(self).batch_freed_from(entities@, c),
            forall|i: int|
                0 <= i < entities@.len() ==> #[trigger] final(self).spec_get(
                    entities@[i],
                ) is None,
            forall|i: int|
                0 <= i < entities@.len() ==> !final(self).live((#[trigger] entities@[i]).id as int),
            forall|i: int|
                0 <= i < entities@.len() ==> (#[trigger] final(self).records()[entities@[i].id as int]).generation == next_generation(
                    old(self).records()[entities@[i].id as int].generation,
                ),
            forall|x: int|
                (forall|i: int|
                    0 <= i < entities@.len() ==> x != (#[trigger] entities@[i]).id as int)
                    ==> final(self).live(x) == old(self).live(x),
            forall|ee: Entity|
                (forall|i: int| 0 <= i < entities@.len() ==> ee.id != (#[trigger] entities@[i]).id)
                    ==> final(self).spec_get(ee) == old(self).spec_get(ee),
            final(self).live_count() == old(self).live_count() - entities@.len(),
    {
        let n = entities.len();
        let mut i: usize = 0;
        while i < n
            invariant
                self.wf(),
                i <= n,
                entities@.len() == n,
                self.num_slots() == old(self).num_slots(),
                self.spec_num_chunks() == old(self).spec_num_chunks(),
                self.live_count() == old(self).live_count() - i,
                forall|k: int, l: int| 0 <= k < l < n ==> entities@[k].id != entities@[l].id,
                forall|c: int|
                    0 <= c < old(self).spec_num_chunks() ==> (#[trigger] self.chunk_lens()[c])
                        == old(self).chunk_lens()[c] - old(self).batch_freed_from(
                        entities@.subrange(0, i as int),
                        c,
                    ),
                forall|k: int|
                    i <= k < n ==> (#[trigger] self.records()[entities@[k].id as int]).chunk
                        == old(self).records()[entities@[k].id as int].chunk,
                forall|k: int|
                    i <= k < n ==> (#[trigger] self.records()[entities@[k].id as int]).generation
                        == old(self).records()[entities@[k].id as int].generation,
                forall|k: int|
                    0 <= k < i ==> (#[trigger] self.records()[entities@[k].id as int]).generation
                        == next_generation(old(self).records()[entities@[k].id as int].generation),
                forall|k: int|
                    0 <= k < i ==> #[trigger] self.spec_get(entities@[k]) is None,
                forall|k: int|
                    0 <= k < i ==> !self.live((#[trigger] entities@[k]).id as int),
                forall|x: int|
                    (forall|k: int| 0 <= k < n ==> x != (#[trigger] entities@[k]).id as int)
                        ==> self.live(x) == old(self).live(x),
                forall|k: int|
                    i <= k < n ==> #[trigger] self.spec_get(entities@[k]) == old(self).spec_get(
                        entities@[k],
                    ),
                forall|k: int|
                    0 <= k < n ==> #[trigger] old(self).spec_get(entities@[k]) is Some,
                forall|ee: Entity|
                    (forall|k: int| 0 <= k < n ==> ee.id != (#[trigger] entities@[k]).id)
                        ==> self.spec_get(ee) == old(self).spec_get(ee),
            decreases n - i,
        {
            let ghost pre = *self;
            let e = entities[i];
            proof {
                assert(self.spec_get(entities@[i as int]) is Some);
                assert(pre.handle_live(e));
            }
            self.free_entity(e);
            proof {
                let d = pre.records()[e.id as int];
                let li = pre.chunk_lens()[d.chunk as int] - 1;

                // Unprocessed batch entities stay in their chunk: only the
                // moved entity's record changed, and only its slot.
                assert(pre.occupied(d.chunk as int, d.slot as int));
                assert(d.slot as int <= li);
                assert forall|k: int|
                    i + 1 <= k < n implies (#[trigger] self.records()[entities@[k].id as int]).chunk
                    == old(self).records()[entities@[k].id as int].chunk && (
                self.records()[entities@[k].id as int]).generation == old(self).records()[entities@[k].id as int].generation by {
                    let x = entities@[k].id as int;
                    assert(x != e.id as int);
                    assert(pre.spec_get(entities@[k]) == old(self).spec_get(entities@[k]));
                    assert(old(self).spec_get(entities@[k]) is Some);
                    assert(pre.handle_live(entities@[k]));
                    assert(0 <= x < pre.num_slots());
                    if (d.slot as int) < li {
                        let m = pre.owner_at(d.chunk as int, li).unwrap();
                        if x == m as int {
                            assert(pre.occupied(d.chunk as int, li));
                            assert(pre.slot_ok(d.chunk as int, li));
                            assert(pre.records()[m as int].chunk == d.chunk);
                        } else {
                            assert(self.records()[x] == pre.records()[x]);
                        }
                    } else {
                        assert(self.records()[x] == pre.records()[x]);
                    }
                }

                // Freed records keep their bumped generation: later frees
                // rewrite only live records.
                assert forall|k: int|
                    0 <= k < i + 1 implies (#[trigger] self.records()[entities@[k].id as int]).generation
                    == next_generation(old(self).records()[entities@[k].id as int].generation) by {
                    let x = entities@[k].id as int;
                    if k < i {
                        assert(x != e.id as int);
                        assert(old(self).spec_get(entities@[k]) is Some);
                        assert(old(self).handle_live(entities@[k]));
                        assert(0 <= x < pre.num_slots());
                        if (d.slot as int) < li {
                            let m = pre.owner_at(d.chunk as int, li).unwrap();
                            if x == m as int {
                                assert(pre.occupied(d.chunk as int, li));
                                assert(pre.slot_ok(d.chunk as int, li));
                                assert(pre.live(m as int));
                                assert(!pre.live(x));
                                assert(false);
                            } else {
                                assert(self.records()[x] == pre.records()[x]);
                            }
                        } else {
                            assert(self.records()[x] == pre.records()[x]);
                        }
                    }
                }

                // This entity came out of its own chunk's occupancy count.
                assert(entities@.subrange(0, i + 1).drop_last() =~= entities@.subrange(
                    0,
                    i as int,
                ));
                assert(entities@.subrange(0, i + 1).last() == entities@[i as int]);
                assert forall|c: int|
                    0 <= c < old(self).spec_num_chunks() implies (#[trigger] self.chunk_lens()[c])
                    == old(self).chunk_lens()[c] - old(self).batch_freed_from(
                    entities@.subrange(0, i + 1),
                    c,
                ) by {
                    assert(self.chunk_lens() == pre.chunk_lens().update(d.chunk as int, li));
                    assert(d.chunk == old(self).records()[e.id as int].chunk);
                    assert(old(self).batch_freed_from(entities@.subrange(0, i + 1), c)
                        == old(self).batch_freed_from(entities@.subrange(0, i as int), c) + if (
                    old(self).records()[e.id as int].chunk as int) == c {
                        1int
                    } else {
                        0int
                    });
                }
            }
            i += 1;
        }
        proof {
            assert(entities@.subrange(0, n as int) =~= entities@);
        }
    }

    /// The prefix item sequences only grow with the chunk index, keeping
    /// earlier entries in place.
    proof fn lemma_prefix_step(self, c: int, d: int)
        requires
            self.group_wf(),
            0 <= c <= d <= self.spec_num_chunks(),
        ensures
            self.items_prefix(c).len() <= self.items_prefix(d).len(),
            forall|i: int|
                0 <= i < self.items_prefix(c).len() ==> (#[trigger] self.items_prefix(d)[i])
                    == self.items_prefix(c)[i],
        decreases d,
    {
        if c < d {
            self.lemma_prefix_step(c, d - 1);
        }
    }

    /// The flattened item sequence lists the value of occupied slot `s` of
    /// chunk `c` at position `items_prefix(c).len() + s`.
    proof fn lemma_items_index(self, c: int, s: int)
        requires
            self.group_wf(),
            0 <= c < self.spec_num_chunks(),
            0 <= s < self.chunk_lens()[c],
        ensures
            0 <= self.items_prefix(c).len() + s < self.items().len(),
            self.items()[self.items_prefix(c).len() + s] == self.chunk_items(c)[s],
    {
        assert(self.items_prefix(c + 1) == self.items_prefix(c) + self.chunk_items(c));
        assert(self.items_prefix(c + 1)[self.items_prefix(c).len() + s] == self.chunk_items(c)[s]);
        self.lemma_prefix_step(c + 1, self.spec_num_chunks());
    }

    /// Law: whatever a live handle resolves to is among the values the group
    /// iteration yields.
    pub proof fn lemma_live_value_iterated(self, e: Entity)
        requires
            self.wf(),
            self.spec_get(e) is Some,
        ensures
            self.items().contains(self.spec_get(e).unwrap()),
    {
        let d = self.records()[e.id as int];
        self.lemma_items_index(d.chunk as int, d.slot as int);
        assert(self.items()[self.items_prefix(d.chunk as int).len() + d.slot] == self.value_at(
            d.chunk as int,
            d.slot as int,
        ));
    }

    /// Whether a cursor stands at a coordinate of this world or at its end.
    pub open spec fn iter_wf(self, it: GroupIterator2) -> bool {
        &&& 0 <= (it.cur_chunk as int) <= self.spec_num_chunks()
        &&& (it.cur_chunk as int) < self.spec_num_chunks() ==> 0 <= (it.cur_slot as int)
            <= self.chunk_lens()[it.cur_chunk as int]
        &&& (it.cur_chunk as int) == self.spec_num_chunks() ==> it.cur_slot == 0
    }

    /// How many items the cursor has already yielded.
    pub open spec fn iter_pos(self, it: GroupIterator2) -> int {
        self.items_prefix(it.cur_chunk as int).len() + it.cur_slot
    }

    /// A cursor's position never exceeds the total number of items.
    pub proof fn lemma_iter_pos_bounded(self, it: GroupIterator2)
        requires
            self.group_wf(),
            self.iter_wf(it),
        ensures
            0 <= self.iter_pos(it) <= self.items().len(),
    {
        let c = it.cur_chunk as int;
        if c < self.spec_num_chunks() {
            assert(self.items_prefix(c + 1) == self.items_prefix(c) + self.chunk_items(c));
            self.lemma_prefix_step(c + 1, self.spec_num_chunks());
        }
    }

    /// The group's chunk bookkeeping.
    pub closed spec fn spec_group(self) -> GroupStorage {
        self.group
    }

    /// Borrow the group's chunk bookkeeping.
    pub fn group_storage(&self) -> (r: &GroupStorage)
        ensures
            *r == self.spec_group(),
            r.chunk_lens() == self.chunk_lens(),
    {
        &self.group
    }

    /// The occupied count of chunk `c`.
    pub fn chunk_len_at(&self, c: ChunkId) -> (r: usize)
        requires
            (c as int) < self.spec_num_chunks(),
        ensures
            r == self.chunk_lens()[c as int],
    {
        proof {
            assert(self.chunk_lens()[c as int] == self.group.chunk_data@[c as int].len);
        }
        self.group.chunk_data[c].len
    }

    /// Read the first component's slot at a coordinate.
    fn comp_a_slot(&self, c: ChunkId, s: SlotId) -> (r: Option<A>)
        requires
            self.storages_wf(),
            (c as int) < self.spec_num_chunks(),
            s < CHUNK_SIZE,
        ensures
            r == self.comp_a@[c as int][s as int],
    {
        self.comp_a.slot(c, s)
    }

    /// Read the second component's slot at a coordinate.
    fn comp_b_slot(&self, c: ChunkId, s: SlotId) -> (r: Option<B>)
        requires
            self.storages_wf(),
            (c as int) < self.spec_num_chunks(),
            s < CHUNK_SIZE,
        ensures
            r == self.comp_b@[c as int][s as int],
    {
        self.comp_b.slot(c, s)
    }

    /// A fresh cursor over this world's populated slots, positioned at the
    /// first item.
    pub fn query_group(&self) -> (it: GroupIterator2)
        requires
            self.wf(),
        ensures
            self.iter_wf(it),
            self.iter_pos(it) == 0,
    {
        GroupIterator2 { cur_chunk: 0, cur_slot: 0 }
    }

    /// A world with no entities, no chunks, and an empty free list.
    pub fn new() -> (w: World<A, B>)
        ensures
            w.wf(),
            w.num_slots() == 0,
            w.spec_num_chunks() == 0,
            w.live_count() == 0,
            w.items() == Seq::<(A, B)>::empty(),
    {
        let w = World {
            entities: Vec::new(),
            entities_free: Allocator::new(),
            group: GroupStorage { chunk_data: Vec::new(), free_chunks: Vec::new() },
            entity_comp: ComponentStorage::new(),
            comp_a: ComponentStorage::new(),
            comp_b: ComponentStorage::new(),
        };
        w
    }

    /// Resolve a handle to its component values; stale handles (freed or
    /// reused slots) resolve to `None`.
    pub fn get(&self, e: Entity) -> (r: Option<(A, B)>)
        requires
            self.wf(),
        ensures
            r == self.spec_get(e),
    {
        let id = e.id as usize;
        if id >= self.entities.len() {
            return None;
        }
        let d = self.entities[id];
        if d.generation != e.generation {
            return None;
        }
        if d.chunk >= self.group.chunk_data.len() {
            return None;
        }
        proof {
            assert(self.chunk_lens()[d.chunk as int] == self.group.chunk_data@[d.chunk as int].len);
        }
        if d.slot >= self.group.chunk_data[d.chunk].len {
            return None;
        }
        proof {
            assert(self.occupied(d.chunk as int, d.slot as int));
        }
        let owner = self.entity_comp.slot(d.chunk, d.slot);
        match owner {
            Some(oid) => {
                if oid != e.id {
                    return None;
                }
                let va = self.comp_a.slot(d.chunk, d.slot);
                let vb = self.comp_b.slot(d.chunk, d.slot);
                match (va, vb) {
                    (Some(a), Some(b)) => Some((a, b)),
                    _ => unreached(),
                }
            },
            None => None,
        }
    }
}

impl GroupIterator2 {
    /// Yield the value at the cursor's position and advance, skipping chunks
    /// whose occupied slots are exhausted; `None` once every populated slot
    /// has been yielded.
    pub fn next<A: Component, B: Component>(&mut self, world: &World<A, B>) -> (r: Option<(A, B)>)
        requires
            world.wf(),
            world.iter_wf(*old(self)),
        ensures
            world.iter_wf(*final(self)),
            world.iter_pos(*old(self)) < world.items().len() ==> {
                &&& r == Some(world.items()[world.iter_pos(*old(self))])
                &&& world.iter_pos(*final(self)) == world.iter_pos(*old(self)) + 1
            },
            world.iter_pos(*old(self)) >= world.items().len() ==> r is None && world.iter_pos(
                *final(self),
            ) == world.iter_pos(*old(self)),
    {
        let ghost pos0 = world.iter_pos(*old(self));
        proof {
            world.lemma_iter_pos_bounded(*old(self));
        }
        let num_chunks = world.group.num_chunks();
        while self.cur_chunk < num_chunks && self.cur_slot >= world.chunk_len_at(self.cur_chunk)
            invariant
                world.wf(),
                num_chunks == world.spec_num_chunks(),
                world.iter_wf(*self),
                world.iter_pos(*self) == pos0,
            decreases world.spec_num_chunks() - self.cur_chunk,
        {
            proof {
                assert(world.items_prefix(self.cur_chunk + 1) == world.items_prefix(
                    self.cur_chunk as int,
                ) + world.chunk_items(self.cur_chunk as int));
            }
            self.cur_chunk += 1;
            self.cur_slot = 0;
        }
        if self.cur_chunk >= num_chunks {
            proof {
                world.lemma_iter_pos_bounded(*self);
            }
            return None;
        }
        let c = self.cur_chunk;
        let s = self.cur_slot;
        proof {
            assert(world.occupied(c as int, s as int));
            assert(world.slot_ok(c as int, s as int));
            world.lemma_items_index(c as int, s as int);
        }
        let va = world.comp_a_slot(c, s);
        let vb = world.comp_b_slot(c, s);
        self.cur_slot += 1;
        match (va, vb) {
            (Some(a), Some(b)) => Some((a, b)),
            _ => unreached(),
        }
    }
}

} // verus!
