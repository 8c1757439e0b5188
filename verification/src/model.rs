//! A region: a grid of 32 by 32 chunk slots.

use vstd::prelude::*;

use crate::error::{self, RegionError, RegionErrorKind};
use crate::formats::{self, RegionFormat};

verus! {

pub const REGION_SIDE: usize = 32;

pub const REGION_CHUNK_COUNT: usize = 1024;

/// A chunk: when it was last saved, and its uncompressed data.
#[derive(Clone, Debug, PartialEq, Eq)]
pub struct ChunkData {
    pub timestamp: i64,
    pub raw_nbt: Vec<u8>,
}

/// What a chunk holds.
#[verifier::ext_equal]
pub struct ChunkView {
    pub timestamp: i64,
    pub raw_nbt: Seq<u8>,
}

impl View for ChunkData {
    type V = ChunkView;

    open spec fn view(&self) -> ChunkView {
        ChunkView { timestamp: self.timestamp, raw_nbt: self.raw_nbt@ }
    }
}

/// The slots of a region.
#[derive(Clone, Debug, PartialEq, Eq)]
pub struct ChunkSlots {
    slots: Vec<Option<ChunkData>>,
}

impl View for ChunkSlots {
    type V = Seq<Option<ChunkView>>;

    closed spec fn view(&self) -> Seq<Option<ChunkView>> {
        Seq::new(self.slots@.len(), |i: int| slot_view(self.slots@[i]))
    }
}

/// A region: its place in the world, and one slot for each of its chunks.
#[derive(Clone, Debug, PartialEq, Eq)]
pub struct Region {
    pub region_x: i32,
    pub region_z: i32,
    pub chunks: ChunkSlots,
}

/// What a region holds.
#[verifier::ext_equal]
pub struct RegionView {
    pub region_x: i32,
    pub region_z: i32,
    pub chunks: Seq<Option<ChunkView>>,
}

/// What a slot holds.
pub open spec fn slot_view(slot: Option<ChunkData>) -> Option<ChunkView> {
    match slot {
        Some(chunk) => Some(chunk@),
        None => None,
    }
}

impl View for Region {
    type V = RegionView;

    open spec fn view(&self) -> RegionView {
        RegionView { region_x: self.region_x, region_z: self.region_z, chunks: self.chunks@ }
    }
}

/// The chunks of `slots` with their indices, in order.
pub open spec fn occupied(slots: Seq<Option<ChunkView>>) -> Seq<(int, ChunkView)>
    decreases slots.len(),
{
    if slots.len() == 0 {
        seq![]
    } else {
        match slots.last() {
            Some(chunk) => occupied(slots.drop_last()).push((slots.len() - 1, chunk)),
            None => occupied(slots.drop_last()),
        }
    }
}

/// The greatest timestamp in `chunks`, or 0 where there is none.
pub open spec fn newest_of(chunks: Seq<(int, ChunkView)>) -> i64
    decreases chunks.len(),
{
    if chunks.len() == 0 {
        0
    } else if chunks.len() == 1 {
        chunks[0].1.timestamp
    } else {
        let before = newest_of(chunks.drop_last());
        if chunks.last().1.timestamp > before {
            chunks.last().1.timestamp
        } else {
            before
        }
    }
}

/// There are no chunks in empty slots.
pub proof fn lemma_occupied_empty(slots: Seq<Option<ChunkView>>)
    requires
        forall|i: int| 0 <= i < slots.len() ==> #[trigger] slots[i] is None,
    ensures
        occupied(slots).len() == 0,
    decreases slots.len(),
{
    if slots.len() > 0 {
        assert(slots[slots.len() - 1] is None);
        assert forall|i: int| 0 <= i < slots.len() - 1 implies #[trigger] slots.drop_last()[i]
            is None by {
            assert(slots[i] is None);
        }
        lemma_occupied_empty(slots.drop_last());
    }
}

/// A region without chunks.
pub open spec fn empty_region(region_x: i32, region_z: i32) -> RegionView {
    RegionView {
        region_x,
        region_z,
        chunks: Seq::new(REGION_CHUNK_COUNT as nat, |i: int| None::<ChunkView>),
    }
}

/// There are at most as many chunks as slots.
pub proof fn lemma_occupied_bounded(slots: Seq<Option<ChunkView>>)
    ensures
        occupied(slots).len() <= slots.len(),
    decreases slots.len(),
{
    if slots.len() > 0 {
        lemma_occupied_bounded(slots.drop_last());
    }
}

/// A chunk in an empty slot is one chunk more.
pub proof fn lemma_occupied_update(slots: Seq<Option<ChunkView>>, index: int, chunk: ChunkView)
    requires
        0 <= index < slots.len(),
        slots[index] is None,
    ensures
        occupied(slots.update(index, Some(chunk))).len() == occupied(slots).len() + 1,
    decreases slots.len(),
{
    let updated = slots.update(index, Some(chunk));
    if index < slots.len() - 1 {
        lemma_occupied_update(slots.drop_last(), index, chunk);
        assert(updated.drop_last() =~= slots.drop_last().update(index, Some(chunk)));
    } else {
        assert(updated.drop_last() =~= slots.drop_last());
    }
}

/// The listed chunks are those that the slots hold, by increasing index.
pub proof fn law_occupied_lists_every_chunk(slots: Seq<Option<ChunkView>>)
    ensures
        forall|k: int|
            0 <= k < occupied(slots).len() ==> {
                let (index, chunk) = #[trigger] occupied(slots)[k];
                0 <= index < slots.len() && slots[index] == Some(chunk)
            },
        forall|i: int|
            0 <= i < slots.len() && #[trigger] slots[i] is Some ==> occupied(slots).contains(
                (i, slots[i]->0),
            ),
        forall|j: int, k: int|
            0 <= j < k < occupied(slots).len() ==> (#[trigger] occupied(slots)[j]).0 < (
            #[trigger] occupied(slots)[k]).0,
    decreases slots.len(),
{
    if slots.len() > 0 {
        let before = slots.drop_last();
        law_occupied_lists_every_chunk(before);
        assert forall|i: int| 0 <= i < slots.len() && #[trigger] slots[i] is Some implies occupied(
            slots,
        ).contains((i, slots[i]->0)) by {
            if i < slots.len() - 1 {
                assert(before[i] == slots[i]);
                assert(occupied(before).contains((i, before[i]->0)));
                let k = choose|k: int|
                    0 <= k < occupied(before).len() && occupied(before)[k] == (i, before[i]->0);
                assert(occupied(slots)[k] == occupied(before)[k]);
            } else {
                assert(occupied(slots).last() == (i, slots[i]->0));
            }
        }
        assert forall|k: int| 0 <= k < occupied(slots).len() implies ({
            let (index, chunk) = #[trigger] occupied(slots)[k];
            0 <= index < slots.len() && slots[index] == Some(chunk)
        }) by {
            if k < occupied(before).len() {
                assert(occupied(slots)[k] == occupied(before)[k]);
                let (index, chunk) = occupied(before)[k];
                assert(before[index] == slots[index]);
            }
        }
        assert forall|j: int, k: int| 0 <= j < k < occupied(slots).len() implies (
        #[trigger] occupied(slots)[j]).0 < (#[trigger] occupied(slots)[k]).0 by {
            assert(occupied(slots)[j] == occupied(before)[j]);
            if k < occupied(before).len() {
                assert(occupied(slots)[k] == occupied(before)[k]);
            }
        }
    }
}

/// The newest timestamp is that of some chunk, and none is newer.
pub proof fn law_newest_is_greatest(chunks: Seq<(int, ChunkView)>)
    ensures
        forall|k: int|
            0 <= k < chunks.len() ==> (#[trigger] chunks[k]).1.timestamp <= newest_of(chunks),
        chunks.len() > 0 ==> exists|k: int|
            0 <= k < chunks.len() && (#[trigger] chunks[k]).1.timestamp == newest_of(chunks),
    decreases chunks.len(),
{
    if chunks.len() > 1 {
        let before = chunks.drop_last();
        law_newest_is_greatest(before);
        assert forall|k: int| 0 <= k < chunks.len() implies (#[trigger] chunks[k]).1.timestamp
            <= newest_of(chunks) by {
            if k < before.len() {
                assert(before[k] == chunks[k]);
            }
        }
        let k = choose|k: int|
            0 <= k < before.len() && (#[trigger] before[k]).1.timestamp == newest_of(before);
        assert(chunks[k] == before[k]);
        assert(chunks[chunks.len() - 1] == chunks.last());
    } else if chunks.len() == 1 {
        assert(chunks[0].1.timestamp == newest_of(chunks));
    }
}

impl Region {
    /// Whether the region has a slot for each of its chunks.
    pub open spec fn well_formed(&self) -> bool {
        self@.chunks.len() == REGION_CHUNK_COUNT
    }

    pub fn new(region_x: i32, region_z: i32) -> (region: Region)
        ensures
            region.well_formed(),
            region@ == empty_region(region_x, region_z),
    {
        let mut chunks: Vec<Option<ChunkData>> = Vec::with_capacity(REGION_CHUNK_COUNT);
        for i in 0..REGION_CHUNK_COUNT
            invariant
                chunks@.len() == i,
                forall|k: int| 0 <= k < i ==> #[trigger] chunks@[k] is None,
        {
            chunks.push(None);
        }
        let region = Region { region_x, region_z, chunks: ChunkSlots { slots: chunks } };
        assert(region@.chunks =~= empty_region(region_x, region_z).chunks);
        region
    }

    /// Puts `chunk` into the slot `index`.
    pub fn set_chunk(&mut self, index: usize, chunk: ChunkData) -> (result: Result<(), RegionError>)
        requires
            old(self).well_formed(),
        ensures
            final(self).well_formed(),
            match result {
                Ok(_) => {
                    &&& index < REGION_CHUNK_COUNT
                    &&& final(self)@ == (RegionView {
                        chunks: old(self)@.chunks.update(index as int, Some(chunk@)),
                        ..old(self)@
                    })
                },
                Err(error) => {
                    &&& index >= REGION_CHUNK_COUNT
                    &&& error@ == error::region_fault(RegionErrorKind::ChunkIndexOutOfRange(index))
                    &&& final(self)@ == old(self)@
                },
            },
    {
        if index >= REGION_CHUNK_COUNT {
            return Err(RegionError::new(RegionErrorKind::ChunkIndexOutOfRange(index)));
        }
        self.chunks.slots.set(index, Some(chunk));
        assert(self@.chunks =~= old(self)@.chunks.update(index as int, Some(chunk@)));
        Ok(())
    }

    /// The chunk in the slot `index`, if it holds one.
    pub fn chunk(&self, index: usize) -> (chunk: Option<&ChunkData>)
        ensures
            match chunk {
                Some(data) => index < self@.chunks.len() && self@.chunks[index as int] == Some(
                    data@,
                ),
                None => index < self@.chunks.len() ==> self@.chunks[index as int] is None,
            },
    {
        if index < self.chunks.slots.len() {
            self.chunks.slots[index].as_ref()
        } else {
            None
        }
    }

    /// The chunks with their indices, in order.
    pub fn iter_chunks(&self) -> (list: Vec<(usize, &ChunkData)>)
        ensures
            list@.len() == occupied(self@.chunks).len(),
            forall|k: int|
                0 <= k < list@.len() ==> {
                    &&& (#[trigger] list@[k]).0 == occupied(self@.chunks)[k].0
                    &&& list@[k].1@ == occupied(self@.chunks)[k].1
                },
    {
        let ghost slots = self@.chunks;
        let mut list: Vec<(usize, &ChunkData)> = Vec::new();
        let mut i: usize = 0;
        while i < self.chunks.slots.len()
            invariant
                i <= self.chunks.slots.len(),
                slots == self@.chunks,
                list@.len() == occupied(slots.take(i as int)).len(),
                forall|k: int|
                    0 <= k < list@.len() ==> {
                        &&& (#[trigger] list@[k]).0 == occupied(slots.take(i as int))[k].0
                        &&& list@[k].1@ == occupied(slots.take(i as int))[k].1
                    },
            decreases self.chunks.slots.len() - i,
        {
            assert(slots.take(i + 1).drop_last() =~= slots.take(i as int));
            if let Some(chunk) = &self.chunks.slots[i] {
                list.push((i, chunk));
            }
            i += 1;
        }
        assert(slots.take(i as int) =~= slots);
        list
    }

    /// The number of chunks.
    pub fn chunk_count(&self) -> (count: usize)
        ensures
            count == occupied(self@.chunks).len(),
    {
        self.iter_chunks().len()
    }

    /// The greatest timestamp of a chunk, or 0 where there is none.
    pub fn newest_timestamp(&self) -> (newest: i64)
        ensures
            newest == newest_of(occupied(self@.chunks)),
    {
        let ghost all = occupied(self@.chunks);
        let list = self.iter_chunks();
        if list.len() == 0 {
            return 0;
        }
        let mut newest = list[0].1.timestamp;
        let mut i: usize = 1;
        assert(newest == newest_of(all.take(1)));
        while i < list.len()
            invariant
                1 <= i <= list.len(),
                list@.len() == all.len(),
                forall|k: int| 0 <= k < list@.len() ==> (#[trigger] list@[k]).1@ == all[k].1,
                newest == newest_of(all.take(i as int)),
            decreases list.len() - i,
        {
            assert(all.take(i + 1).drop_last() =~= all.take(i as int));
            let timestamp = list[i].1.timestamp;
            assert(list@[i as int].1@ == all[i as int].1);
            if timestamp > newest {
                newest = timestamp;
            }
            i += 1;
        }
        assert(all.take(i as int) =~= all);
        newest
    }

    /// The name of the file that holds this region in `format`.
    pub fn file_name(&self, format: RegionFormat) -> (name: String)
        ensures
            name@ == formats::region_file_name_text(format, self@.region_x, self@.region_z),
    {
        format.region_file_name(self.region_x, self.region_z)
    }
}

} // verus!
