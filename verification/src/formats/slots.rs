//! The list of chunk slots that both blinear versions are made of: for each slot
//! the length of a chunk section and the section, or a length of 0 where the slot
//! is empty.

use vstd::prelude::*;

use crate::bytes::{self, push_u32, read_i32};
use crate::error::{self, ChunkFault, RegionError, RegionErrorKind};
use crate::formats::{self, encode_chunk_section, BLINEAR_HASH_SEED};
use crate::model::{ChunkData, ChunkView};

verus! {

/// What stands at some place of a list of slots.
#[derive(Clone, Copy, Debug, PartialEq, Eq, Structural)]
pub enum SlotReading {
    /// The list ends inside the length.
    Ended,
    /// The length is negative.
    Negative,
    /// The slot is empty.
    Empty,
    /// The list ends inside the section.
    Overrun,
    /// The slot holds a section of that length.
    Section(usize),
}

/// What stands at `offset` of the list `data`.
pub open spec fn slot_at(data: Seq<u8>, offset: int) -> SlotReading {
    if offset + 4 > data.len() {
        SlotReading::Ended
    } else {
        let length = bytes::i32_at(data, offset);
        if length < 0 {
            SlotReading::Negative
        } else if length == 0 {
            SlotReading::Empty
        } else if offset + 4 + length > data.len() {
            SlotReading::Overrun
        } else {
            SlotReading::Section(length as usize)
        }
    }
}

/// The section of that length in the slot at `offset`.
pub open spec fn section_at(data: Seq<u8>, offset: int, length: usize) -> Seq<u8> {
    data.subrange(offset + 4, offset + 4 + length)
}

/// Reads what stands at `offset` of the list `data`.
pub fn read_slot(data: &[u8], offset: usize) -> (reading: SlotReading)
    requires
        offset <= data@.len(),
    ensures
        reading == slot_at(data@, offset as int),
{
    let rest = data.len() - offset;
    if rest < 4 {
        return SlotReading::Ended;
    }
    let length = read_i32(data, offset);
    if length < 0 {
        SlotReading::Negative
    } else if length == 0 {
        SlotReading::Empty
    } else if length as usize > rest - 4 {
        SlotReading::Overrun
    } else {
        SlotReading::Section(length as usize)
    }
}

/// The slot that holds `slot`.
pub open spec fn slot_bytes(slot: Option<ChunkView>) -> Seq<u8> {
    match slot {
        Some(chunk) => bytes::be_u32((16 + chunk.raw_nbt.len()) as u32) + formats::section_bytes(
            chunk,
            BLINEAR_HASH_SEED,
        ),
        None => bytes::be_u32(0),
    }
}

/// The list that holds `slots`.
pub open spec fn slots_bytes(slots: Seq<Option<ChunkView>>) -> Seq<u8>
    decreases slots.len(),
{
    if slots.len() == 0 {
        seq![]
    } else {
        slots_bytes(slots.drop_last()) + slot_bytes(slots.last())
    }
}

/// Why `slot` cannot be written, if it cannot: its chunk is too long, or, with
/// `too_large`, its section is.
pub open spec fn slot_fault(slot: Option<ChunkView>, too_large: RegionErrorKind) -> Option<
    RegionErrorKind,
> {
    match slot {
        Some(chunk) => if chunk.raw_nbt.len() > i32::MAX {
            Some(RegionErrorKind::ChunkTooLarge)
        } else if 16 + chunk.raw_nbt.len() > i32::MAX {
            Some(too_large)
        } else {
            None
        },
        None => None,
    }
}

/// Why the first of `slots` that cannot be written cannot.
pub open spec fn slots_fault(slots: Seq<Option<ChunkView>>, too_large: RegionErrorKind) -> Option<
    RegionErrorKind,
>
    decreases slots.len(),
{
    if slots.len() == 0 {
        None
    } else {
        match slots_fault(slots.drop_last(), too_large) {
            Some(kind) => Some(kind),
            None => slot_fault(slots.last(), too_large),
        }
    }
}

/// Where the list can be written, each slot can.
pub proof fn lemma_no_fault(slots: Seq<Option<ChunkView>>, too_large: RegionErrorKind, i: int)
    requires
        slots_fault(slots, too_large) is None,
        0 <= i < slots.len(),
    ensures
        slot_fault(slots[i], too_large) is None,
    decreases slots.len(),
{
    if i < slots.len() - 1 {
        lemma_no_fault(slots.drop_last(), too_large, i);
    }
}

/// A fault in the first slots is the fault of them all.
pub proof fn lemma_early_fault(slots: Seq<Option<ChunkView>>, too_large: RegionErrorKind, n: int)
    requires
        0 <= n <= slots.len(),
        slots_fault(slots.take(n), too_large) is Some,
    ensures
        slots_fault(slots, too_large) == slots_fault(slots.take(n), too_large),
    decreases slots.len(),
{
    if n < slots.len() {
        assert(slots.drop_last().take(n) =~= slots.take(n));
        lemma_early_fault(slots.drop_last(), too_large, n);
    } else {
        assert(slots.take(n) =~= slots);
    }
}

/// Appends the slot that holds `slot` to `out`.
pub fn push_slot(out: &mut Vec<u8>, slot: Option<&ChunkData>, too_large: RegionErrorKind) -> (result:
    Result<(), RegionError>)
    ensures
        match result {
            Ok(_) => {
                &&& slot_fault(slot_of(slot), too_large) is None
                &&& final(out)@ == old(out)@ + slot_bytes(slot_of(slot))
            },
            Err(error) => {
                &&& slot_fault(slot_of(slot), too_large) == Some(error.kind)
                &&& error@ == error::region_fault(error.kind)
            },
        },
{
    match slot {
        None => {
            push_u32(out, 0);
        },
        Some(chunk) => {
            let section = match encode_chunk_section(chunk, BLINEAR_HASH_SEED) {
                Ok(section) => section,
                Err(error) => {
                    return Err(error);
                },
            };
            if section.len() > i32::MAX as usize {
                return Err(RegionError::new(too_large));
            }
            push_u32(out, section.len() as u32);
            bytes::append(out, section.as_slice());
            assert(out@ =~= old(out)@ + slot_bytes(slot_of(slot)));
        },
    }
    Ok(())
}

/// What a borrowed slot holds.
pub open spec fn slot_of(slot: Option<&ChunkData>) -> Option<ChunkView> {
    match slot {
        Some(chunk) => Some(chunk@),
        None => None,
    }
}

/// The list of the first slots starts the list of them all.
pub proof fn lemma_slots_prefix(slots: Seq<Option<ChunkView>>, n: int)
    requires
        0 <= n <= slots.len(),
    ensures
        slots_bytes(slots.take(n)).len() <= slots_bytes(slots).len(),
        slots_bytes(slots).take(slots_bytes(slots.take(n)).len() as int) == slots_bytes(
            slots.take(n),
        ),
    decreases slots.len(),
{
    let part = slots_bytes(slots.take(n));
    if n < slots.len() {
        let before = slots_bytes(slots.drop_last());
        assert(slots.drop_last().take(n) =~= slots.take(n));
        lemma_slots_prefix(slots.drop_last(), n);
        assert(slots_bytes(slots).take(part.len() as int) =~= before.take(part.len() as int));
    } else {
        assert(slots.take(n) =~= slots);
        assert(slots_bytes(slots).take(part.len() as int) =~= part);
    }
}

/// A section takes 16 bytes more than its chunk.
pub proof fn lemma_section_len(chunk: ChunkView)
    ensures
        formats::section_bytes(chunk, BLINEAR_HASH_SEED).len() == 16 + chunk.raw_nbt.len(),
{
}

/// Whether the place `at` of `data` reads as `slot`, with its timestamp in
/// milliseconds, and the next slot starts at `next`.
pub open spec fn reads_as(data: Seq<u8>, at: int, slot: Option<ChunkView>, next: int) -> bool {
    match slot {
        None => slot_at(data, at) == SlotReading::Empty && next == at + 4,
        Some(chunk) => {
            let length = (16 + chunk.raw_nbt.len()) as usize;
            &&& slot_at(data, at) == SlotReading::Section(length)
            &&& formats::section_outcome(section_at(data, at, length), BLINEAR_HASH_SEED) == Ok::<
                ChunkView,
                ChunkFault,
            >(formats::millis_chunk(chunk))
            &&& next == at + 4 + length
        },
    }
}

#[verifier::rlimit(40)]
proof fn lemma_written_slot_reads_back(
    data: Seq<u8>,
    at: int,
    slot: Option<ChunkView>,
    too_large: RegionErrorKind,
)
    requires
        slot_fault(slot, too_large) is None,
        0 <= at,
        at + slot_bytes(slot).len() <= data.len(),
        data.subrange(at, at + slot_bytes(slot).len()) == slot_bytes(slot),
    ensures
        reads_as(data, at, slot, at + slot_bytes(slot).len()),
{
    let written = slot_bytes(slot);
    let part = data.subrange(at, at + written.len());
    match slot {
        None => {
            bytes::lemma_u32_at_be_u32(data, at, 0);
        },
        Some(chunk) => {
            let section = formats::section_bytes(chunk, BLINEAR_HASH_SEED);
            lemma_section_len(chunk);
            let length = (16 + chunk.raw_nbt.len()) as u32;
            assert(data.subrange(at, at + 4) =~= bytes::be_u32(length)) by {
                assert(data.subrange(at, at + 4) =~= part.take(4));
                assert(part.take(4) =~= bytes::be_u32(length));
            }
            bytes::lemma_u32_at_be_u32(data, at, length);
            assert(section_at(data, at, length as usize) =~= part.skip(4));
            assert(part.skip(4) =~= section);
            formats::law_section_reads_back(chunk, BLINEAR_HASH_SEED);
        },
    }
}

/// Each slot of a written list reads back: an empty one as empty, one that holds a
/// chunk as a section from which the chunk comes back with its timestamp in
/// milliseconds.
pub proof fn law_slot_reads_back(slots: Seq<Option<ChunkView>>, too_large: RegionErrorKind, i: int)
    requires
        slots_fault(slots, too_large) is None,
        0 <= i < slots.len(),
    ensures
        reads_as(
            slots_bytes(slots),
            slots_bytes(slots.take(i)).len() as int,
            slots[i],
            slots_bytes(slots.take(i + 1)).len() as int,
        ),
        slots_bytes(slots.take(i + 1)).len() <= slots_bytes(slots).len(),
{
    let data = slots_bytes(slots);
    let first = slots_bytes(slots.take(i));
    let upto = slots_bytes(slots.take(i + 1));
    let at = first.len() as int;
    lemma_no_fault(slots, too_large, i);
    lemma_slots_prefix(slots, i + 1);
    assert(slots.take(i + 1).drop_last() =~= slots.take(i));
    assert(upto == first + slot_bytes(slots[i]));
    assert(data.subrange(at, upto.len() as int) =~= data.take(upto.len() as int).skip(at));
    assert(upto.skip(at) =~= slot_bytes(slots[i]));
    lemma_written_slot_reads_back(data, at, slots[i], too_large);
}

/// `slots` with all but the first `n` of them empty.
pub open spec fn first_slots(slots: Seq<Option<ChunkView>>, n: int) -> Seq<Option<ChunkView>> {
    Seq::new(
        slots.len(),
        |i: int|
            if i < n {
                slots[i]
            } else {
                None
            },
    )
}

} // verus!
