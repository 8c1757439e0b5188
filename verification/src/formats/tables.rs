//! What the table of a linear file and the chunk data behind it are read as.

use vstd::prelude::*;

use crate::bytes;
use crate::codec;
use crate::error::{RegionErrorKind, RegionFault};
use crate::formats::{self, linear, ReadView};
use crate::model::{self, ChunkView, RegionView};
use crate::path::PathView;

verus! {

/// The data of the chunks in `slots`, one after the other.
pub open spec fn chunk_data(slots: Seq<Option<ChunkView>>) -> Seq<u8>
    decreases slots.len(),
{
    if slots.len() == 0 {
        seq![]
    } else {
        chunk_data(slots.drop_last()) + match slots.last() {
            Some(chunk) => chunk.raw_nbt,
            None => seq![],
        }
    }
}

/// Whether the payload `data` tells of `slots`: a table of 1024 lengths and timestamps,
/// with a length of 0 for an empty slot, and behind it the data of the chunks.
pub open spec fn payload_tells(data: Seq<u8>, slots: Seq<Option<ChunkView>>) -> bool {
    &&& slots.len() == 1024
    &&& data.len() >= 8192
    &&& forall|i: int|
        0 <= i < 1024 ==> match #[trigger] slots[i] {
            Some(chunk) => {
                &&& chunk.raw_nbt.len() > 0
                &&& bytes::u32_at(data, 8 * i) == chunk.raw_nbt.len()
                &&& bytes::u32_at(data, 8 * i + 4) == chunk.timestamp
            },
            None => bytes::u32_at(data, 8 * i) == 0,
        }
    &&& data.skip(8192) == chunk_data(slots)
}

/// The lengths in the table are those of the data before each chunk.
proof fn lemma_totals(data: Seq<u8>, slots: Seq<Option<ChunkView>>, n: int)
    requires
        0 <= n <= 1024,
        slots.len() == 1024,
        forall|i: int|
            0 <= i < 1024 ==> match #[trigger] slots[i] {
                Some(chunk) => {
                    &&& chunk.raw_nbt.len() > 0
                    &&& bytes::u32_at(data, 8 * i) == chunk.raw_nbt.len()
                },
                None => bytes::u32_at(data, 8 * i) == 0,
            },
    ensures
        linear::table_total(data, n) == chunk_data(slots.take(n)).len(),
        linear::table_count(data, n) == model::occupied(slots.take(n)).len(),
    decreases n,
{
    if n > 0 {
        lemma_totals(data, slots, n - 1);
        assert(slots.take(n).drop_last() =~= slots.take(n - 1));
        assert(slots.take(n).last() == slots[n - 1]);
    }
}

/// The data of the first chunks starts the data of them all.
proof fn lemma_data_prefix(slots: Seq<Option<ChunkView>>, n: int)
    requires
        0 <= n <= slots.len(),
    ensures
        chunk_data(slots.take(n)).len() <= chunk_data(slots).len(),
        chunk_data(slots).take(chunk_data(slots.take(n)).len() as int) == chunk_data(
            slots.take(n),
        ),
    decreases slots.len(),
{
    let part = chunk_data(slots.take(n));
    if n < slots.len() {
        let before = chunk_data(slots.drop_last());
        assert(slots.drop_last().take(n) =~= slots.take(n));
        lemma_data_prefix(slots.drop_last(), n);
        assert(chunk_data(slots).take(part.len() as int) =~= before.take(part.len() as int));
    } else {
        assert(slots.take(n) =~= slots);
        assert(chunk_data(slots).take(part.len() as int) =~= part);
    }
}

/// The slots that are read of a payload hold its data in their order.
proof fn lemma_slots_hold_data(data: Seq<u8>, slots: Seq<Option<ChunkView>>, n: int)
    requires
        0 <= n <= 1024,
        slots == Seq::new(1024, |i: int| linear::payload_slot(data, i)),
        8192 + linear::table_total(data, n) <= data.len(),
    ensures
        chunk_data(slots.take(n)) == data.subrange(8192, 8192int + linear::table_total(data, n)),
    decreases n,
{
    if n > 0 {
        lemma_slots_hold_data(data, slots, n - 1);
        assert(slots.take(n).drop_last() =~= slots.take(n - 1));
        assert(slots.take(n).last() == linear::payload_slot(data, n - 1));
        let before = 8192int + linear::table_total(data, n - 1);
        let after = 8192int + linear::table_total(data, n);
        assert(data.subrange(8192, after) =~= data.subrange(8192, before) + data.subrange(
            before,
            after,
        ));
        if before == after {
            assert(data.subrange(before, after) =~= seq![]);
        }
    } else {
        assert(data.subrange(8192, 8192) =~= seq![]);
    }
}

/// The slots that a payload tells of are those that are read of it.
proof fn lemma_told_slots(data: Seq<u8>, slots: Seq<Option<ChunkView>>)
    requires
        payload_tells(data, slots),
    ensures
        slots == Seq::new(1024, |i: int| linear::payload_slot(data, i)),
        8192 + linear::table_total(data, 1024) == data.len(),
        linear::table_count(data, 1024) == model::occupied(slots).len(),
{
    let read = Seq::new(1024, |i: int| linear::payload_slot(data, i));
    let all = chunk_data(slots);
    lemma_totals(data, slots, 1024);
    assert(slots.take(1024) =~= slots);
    assert forall|i: int| 0 <= i < 1024 implies read[i] == #[trigger] slots[i] by {
        if let Some(chunk) = slots[i] {
            lemma_totals(data, slots, i);
            lemma_data_prefix(slots, i + 1);
            let before = chunk_data(slots.take(i));
            let upto = chunk_data(slots.take(i + 1));
            assert(slots.take(i + 1).drop_last() =~= slots.take(i));
            assert(slots.take(i + 1).last() == slots[i]);
            assert(upto == before + chunk.raw_nbt);
            let start = 8192int + linear::table_total(data, i);
            let raw = data.subrange(start, start + chunk.raw_nbt.len());
            assert(raw =~= chunk.raw_nbt) by {
                assert forall|j: int| 0 <= j < chunk.raw_nbt.len() implies raw[j]
                    == chunk.raw_nbt[j] by {
                    let at = before.len() + j;
                    assert(upto[at] == chunk.raw_nbt[j]);
                    assert(all.take(upto.len() as int)[at] == upto[at]);
                    assert(data.skip(8192)[at] == all[at]);
                }
            }
        }
    }
    assert(read =~= slots);
}

/// A payload is read as the slots that it tells of, where they hold as many chunks as the
/// header says, and no other payload is read.
pub proof fn law_payload_is_read_by_its_table(
    region_x: i32,
    region_z: i32,
    chunk_count: u16,
    data: Seq<u8>,
    slots: Seq<Option<ChunkView>>,
)
    requires
        data.len() <= usize::MAX,
    ensures
        linear::payload_read(region_x, region_z, chunk_count, data) == Ok::<ReadView, RegionFault>(
            (ReadView {
                region: RegionView { region_x, region_z, chunks: slots },
                diagnostics: seq![],
                discarded_chunks: 0,
            }),
        ) <==> payload_tells(data, slots) && model::occupied(slots).len() == chunk_count,
        linear::payload_read(region_x, region_z, chunk_count, data) matches Ok(read) ==> read
            == (ReadView {
            region: RegionView { region_x, region_z, chunks: read.region.chunks },
            diagnostics: seq![],
            discarded_chunks: 0,
        }),
{
    if payload_tells(data, slots) && model::occupied(slots).len() == chunk_count {
        lemma_told_slots(data, slots);
    }
    if let Ok(read) = linear::payload_read(region_x, region_z, chunk_count, data) {
        let chunks = read.region.chunks;
        if slots == chunks {
            assert(chunks =~= Seq::new(1024, |i: int| linear::payload_slot(data, i)));
            assert forall|i: int| 0 <= i < 1024 implies match #[trigger] slots[i] {
                Some(chunk) => {
                    &&& chunk.raw_nbt.len() > 0
                    &&& bytes::u32_at(data, 8 * i) == chunk.raw_nbt.len()
                    &&& bytes::u32_at(data, 8 * i + 4) == chunk.timestamp
                },
                None => bytes::u32_at(data, 8 * i) == 0,
            } by {
                lemma_total_within(data, i);
            }
            lemma_totals(data, slots, 1024);
            assert(slots.take(1024) =~= slots);
            lemma_slots_hold_data(data, slots, 1024);
            assert(data.skip(8192) =~= data.subrange(8192, data.len() as int));
        }
    }
}

/// A chunk ends where the table says that it ends, within the data of them all.
proof fn lemma_total_within(data: Seq<u8>, i: int)
    requires
        0 <= i < 1024,
    ensures
        linear::table_total(data, i) + linear::table_size(data, i) <= linear::table_total(
            data,
            1024,
        ),
{
    lemma_total_grows(data, i + 1, 1024);
}

proof fn lemma_total_grows(data: Seq<u8>, n: int, m: int)
    requires
        0 <= n <= m,
    ensures
        linear::table_total(data, n) <= linear::table_total(data, m),
    decreases m,
{
    if n < m {
        lemma_total_grows(data, n, m - 1);
    }
}

/// A linear file of either version that is named after a region is read where it starts
/// and ends with the superblock, has the length that its header tells, and holds a
/// payload that tells of as many chunks as the header does.
pub proof fn law_linear_is_read_by_its_table(
    path: PathView,
    bytes: Seq<u8>,
    data: Seq<u8>,
    slots: Seq<Option<ChunkView>>,
)
    requires
        data.len() <= usize::MAX,
        bytes.len() >= 40,
        codec::zstd_stream_decoded(bytes.subrange(32, bytes.len() - 8)) matches Ok(content)
            && content == data,
    ensures
        linear::read_outcome(path, bytes) matches Ok(read) ==> {
            &&& formats::path_coords(path) == Ok::<(i32, i32), RegionErrorKind>(
                (read.region.region_x, read.region.region_z),
            )
            &&& read.diagnostics.len() == 0
            &&& read.discarded_chunks == 0
        },
        (linear::read_outcome(path, bytes) matches Ok(read) && read.region.chunks == slots) <==> {
            &&& formats::path_coords(path) is Ok
            &&& bytes::u64_at(bytes, 0) == 0xc3ff_1318_3cca_9d9a
            &&& bytes[8] == 1 || bytes[8] == 2
            &&& 40 + bytes::u32_at(bytes, 20) == bytes.len()
            &&& bytes::u64_at(bytes, bytes.len() - 8) == 0xc3ff_1318_3cca_9d9a
            &&& payload_tells(data, slots)
            &&& model::occupied(slots).len() == bytes::u16_at(bytes, 18)
        },
{
    if let Ok((region_x, region_z)) = formats::path_coords(path) {
        law_payload_is_read_by_its_table(
            region_x,
            region_z,
            bytes::u16_at(bytes, 18),
            data,
            slots,
        );
    }
}

/// A linear file that is too short, or whose compressed part cannot be decompressed, is
/// not read.
pub proof fn law_broken_linear_is_not_read(path: PathView, bytes: Seq<u8>)
    requires
        bytes.len() < 40 || codec::zstd_stream_decoded(bytes.subrange(32, bytes.len() - 8)) is Err,
    ensures
        linear::read_outcome(path, bytes) is Err,
{
}

} // verus!
