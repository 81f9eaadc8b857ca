//! Chunked storage for one component type.
//!
//! A storage owns a growable list of fixed-capacity chunks. A slot that has
//! not been filled yet holds no value; group bookkeeping decides which slots
//! count as occupied.

use core::ops::Range;
use vstd::pervasive::VecAdditionalExecFns;
use vstd::prelude::*;
use vstd::std_specs::vec::vec_index_mut;

use crate::{ChunkId, CHUNK_SIZE, SlotId};

verus! {

/// Marker for plain-data component types stored in chunked arrays.
pub trait Component: Copy + Sized + 'static {

}

/// Non-owning handle to one chunk of a storage, identified by its index.
#[derive(Clone, Copy, PartialEq, Eq, Structural, Debug)]
pub struct ChunkPtr {
    pub index: ChunkId,
}

/// Capability shared by all component storages: handing out fresh chunks.
pub trait Storage {
    /// Number of chunks currently allocated.
    spec fn spec_num_chunks(&self) -> nat;

    /// Allocate one more chunk and return its handle.
    fn alloc_chunk(&mut self) -> (r: ChunkPtr)
        ensures
            final(self).spec_num_chunks() == old(self).spec_num_chunks() + 1,
            r.index == old(self).spec_num_chunks(),
    ;
}

/// Chunked arrays for one concrete component type.
pub struct ComponentStorage<C> {
    chunks: Vec<Vec<Option<C>>>,
}

impl<C> View for ComponentStorage<C> {
    type V = Seq<Seq<Option<C>>>;

    closed spec fn view(&self) -> Seq<Seq<Option<C>>> {
        self.chunks@.map(|_c: int, chunk: Vec<Option<C>>| chunk@)
    }
}

impl<C: Copy> ComponentStorage<C> {
    /// Every chunk has exactly `CHUNK_SIZE` slots.
    pub open spec fn wf(self) -> bool {
        forall|c: int| 0 <= c < self@.len() ==> (#[trigger] self@[c]).len() == CHUNK_SIZE
    }

    /// A storage with no chunks.
    pub fn new() -> (r: ComponentStorage<C>)
        ensures
            r.wf(),
            r@ == Seq::<Seq<Option<C>>>::empty(),
    {
        let r = ComponentStorage { chunks: Vec::new() };
        proof {
            assert(r@ =~= Seq::<Seq<Option<C>>>::empty());
        }
        r
    }

    /// One fresh chunk with every slot still unfilled.
    fn new_chunk() -> (v: Vec<Option<C>>)
        ensures
            v@.len() == CHUNK_SIZE,
            forall|s: int| 0 <= s < CHUNK_SIZE ==> (#[trigger] v@[s]) is None,
    {
        let mut v: Vec<Option<C>> = Vec::new();
        while v.len() < CHUNK_SIZE
            invariant
                v@.len() <= CHUNK_SIZE,
                forall|s: int| 0 <= s < v@.len() ==> (#[trigger] v@[s]) is None,
            decreases CHUNK_SIZE - v@.len(),
        {
            v.push(None);
        }
        v
    }

    /// Grow the chunk list to at least `num_chunks` chunks; never shrinks.
    /// New chunks start with every slot unfilled.
    pub fn resize(&mut self, num_chunks: usize)
        requires
            old(self).wf(),
        ensures
            final(self).wf(),
            final(self)@.len() == if num_chunks >= old(self)@.len() {
                num_chunks as int
            } else {
                old(self)@.len() as int
            },
            forall|c: int| 0 <= c < old(self)@.len() ==> final(self)@[c] == old(self)@[c],
            forall|c: int, s: int|
                old(self)@.len() <= c < final(self)@.len() && 0 <= s < CHUNK_SIZE
                    ==> (#[trigger] final(self)@[c][s]) is None,
    {
        while self.chunks.len() < num_chunks
            invariant
                old(self).wf(),
                self@.len() >= old(self)@.len(),
                self@.len() <= if num_chunks >= old(self)@.len() {
                    num_chunks as int
                } else {
                    old(self)@.len() as int
                },
                forall|c: int| 0 <= c < old(self)@.len() ==> self@[c] == old(self)@[c],
                forall|c: int, s: int|
                    old(self)@.len() <= c < self@.len() && 0 <= s < CHUNK_SIZE ==> (#[trigger] self@[c][s]) is None,
                forall|c: int| 0 <= c < self@.len() ==> (#[trigger] self@[c]).len() == CHUNK_SIZE,
            decreases num_chunks - self.chunks@.len(),
        {
            let chunk = Self::new_chunk();
            let ghost pre = self@;
            self.chunks.push(chunk);
            proof {
                assert(self@ =~= pre.push(chunk@));
            }
        }
    }

    /// Read the slot at `(chunk, slot)`.
    pub fn slot(&self, chunk: ChunkId, slot: SlotId) -> (r: Option<C>)
        requires
            self.wf(),
            chunk < self@.len(),
            slot < CHUNK_SIZE,
        ensures
            r == self@[chunk as int][slot as int],
    {
        proof {
            assert(self@[chunk as int] == self.chunks@[chunk as int]@);
        }
        self.chunks[chunk][slot]
    }

    /// Store `value` in the slot at `(chunk, slot)`.
    pub fn set_slot(&mut self, chunk: ChunkId, slot: SlotId, value: C)
        requires
            old(self).wf(),
            chunk < old(self)@.len(),
            slot < CHUNK_SIZE,
        ensures
            final(self).wf(),
            final(self)@ == old(self)@.update(
                chunk as int,
                old(self)@[chunk as int].update(slot as int, Some(value)),
            ),
    {
        self.write_slot(chunk, slot, Some(value));
    }

    /// Overwrite the slot at `(chunk, slot)` with `value`, filled or not.
    fn write_slot(&mut self, chunk: ChunkId, slot: SlotId, value: Option<C>)
        requires
            old(self).wf(),
            chunk < old(self)@.len(),
            slot < CHUNK_SIZE,
        ensures
            final(self).wf(),
            final(self)@ == old(self)@.update(
                chunk as int,
                old(self)@[chunk as int].update(slot as int, value),
            ),
    {
        proof {
            assert(self@[chunk as int] == self.chunks@[chunk as int]@);
        }
        let inner = vec_index_mut(&mut self.chunks, chunk);
        inner.set(slot, value);
        proof {
            assert(self@ =~= old(self)@.update(
                chunk as int,
                old(self)@[chunk as int].update(slot as int, value),
            ));
        }
    }

    /// Copy `num` component values from `stream`, starting at `stream_base`,
    /// into consecutive slots of one chunk starting at `slot_base`.
    pub fn fill_slots(
        &mut self,
        chunk: ChunkId,
        slot_base: SlotId,
        stream: &Vec<C>,
        stream_base: usize,
        num: usize,
    )
        requires
            old(self).wf(),
            chunk < old(self)@.len(),
            slot_base + num <= CHUNK_SIZE,
            stream_base + num <= stream@.len(),
        ensures
            final(self).wf(),
            final(self)@.len() == old(self)@.len(),
            forall|c: int| 0 <= c < old(self)@.len() && c != chunk ==> final(self)@[c] == old(
                self,
            )@[c],
            forall|s: int|
                0 <= s < CHUNK_SIZE && !(slot_base <= s < slot_base + num)
                    ==> final(self)@[chunk as int][s] == old(self)@[chunk as int][s],
            forall|j: int|
                0 <= j < num ==> (#[trigger] final(self)@[chunk as int][slot_base + j]) == Some(
                    stream@[stream_base + j],
                ),
    {
        let stream_len = stream.len();
        let mut j: usize = 0;
        while j < num
            invariant
                self.wf(),
                chunk < self@.len(),
                self@.len() == old(self)@.len(),
                j <= num,
                slot_base + num <= CHUNK_SIZE,
                stream_len == stream@.len(),
                stream_base + num <= stream@.len(),
                forall|c: int| 0 <= c < old(self)@.len() && c != chunk ==> self@[c] == old(
                    self,
                )@[c],
                forall|s: int|
                    0 <= s < CHUNK_SIZE && !(slot_base <= s < slot_base + j) ==> self@[chunk as int][s]
                        == old(self)@[chunk as int][s],
                forall|i: int|
                    0 <= i < j ==> (#[trigger] self@[chunk as int][slot_base + i]) == Some(
                        stream@[stream_base + i],
                    ),
            decreases num - j,
        {
            self.set_slot(chunk, slot_base + j, stream[stream_base + j]);
            j += 1;
        }
    }

    /// Move a run of slots backward within one chunk by `amount` positions,
    /// as compaction does when it closes a freed slot.
    pub fn shift(&mut self, chunk: ChunkPtr, slots: Range<usize>, amount: usize)
        requires
            old(self).wf(),
            chunk.index < old(self)@.len(),
            amount <= slots.start,
            slots.start <= slots.end,
            slots.end <= CHUNK_SIZE,
        ensures
            final(self).wf(),
            final(self)@.len() == old(self)@.len(),
            forall|c: int| 0 <= c < old(self)@.len() && c != chunk.index ==> final(self)@[c] == old(
                self,
            )@[c],
            forall|i: int|
                slots.start - amount <= i < slots.end - amount
                    ==> final(self)@[chunk.index as int][i] == old(self)@[chunk.index as int][i + amount],
            forall|i: int|
                0 <= i < CHUNK_SIZE && !(slots.start - amount <= i < slots.end - amount)
                    ==> final(self)@[chunk.index as int][i] == old(self)@[chunk.index as int][i],
    {
        let mut i: usize = slots.start;
        while i < slots.end
            invariant
                self.wf(),
                chunk.index < self@.len(),
                self@.len() == old(self)@.len(),
                amount <= slots.start <= i <= slots.end,
                slots.end <= CHUNK_SIZE,
                forall|c: int| 0 <= c < old(self)@.len() && c != chunk.index ==> self@[c] == old(
                    self,
                )@[c],
                forall|k: int|
                    slots.start - amount <= k < i - amount ==> self@[chunk.index as int][k] == old(
                        self,
                    )@[chunk.index as int][k + amount],
                forall|k: int|
                    0 <= k < CHUNK_SIZE && !(slots.start - amount <= k < i - amount) ==> self@[chunk.index as int][k]
                        == old(self)@[chunk.index as int][k],
            decreases slots.end - i,
        {
            let v = self.slot(chunk.index, i);
            self.write_slot(chunk.index, i - amount, v);
            i += 1;
        }
    }
}

impl<C: Copy> Storage for ComponentStorage<C> {
    closed spec fn spec_num_chunks(&self) -> nat {
        self@.len()
    }

    fn alloc_chunk(&mut self) -> (r: ChunkPtr) {
        let index = self.chunks.len();
        let chunk = Self::new_chunk();
        let ghost pre = self@;
        self.chunks.push(chunk);
        proof {
            assert(self@ =~= pre.push(chunk@));
        }
        ChunkPtr { index }
    }
}

} // verus!
