//! How region files are laid out when they are written.

use vstd::prelude::*;
use vstd::string::*;

use crate::bytes;
use crate::codec;
use crate::error::{RegionErrorKind, RegionFault};
use crate::formats::sections::listed;
use crate::formats::tables::chunk_data;
use crate::formats::{
    self, blinear_v2, blinear_v3, linear, mca, slots, EncodedView, RegionFormat, SidecarView,
    BLINEAR_HASH_SEED,
};
use crate::model::{self, ChunkView, RegionView};
use crate::text;

verus! {

/// Whether a compressed chunk is too long for its record to stand in 255 sectors.
pub open spec fn is_oversized(stream: Seq<u8>) -> bool {
    5 + stream.len() > 255 * 4096
}

/// Whether the slot `i` of an mca file holds `chunk`, which is compressed to `stream`: a
/// record in the least number of whole sectors behind the tables, or, where it is too long
/// for that, a mark in one sector for a file of its own.
pub open spec fn holds_chunk_at(
    file: Seq<u8>,
    i: int,
    chunk: ChunkView,
    stream: Seq<u8>,
) -> bool {
    let location = bytes::u32_at(file, 4 * i) as int;
    let start = location / 256 * 4096;
    let count = location % 256;
    &&& location / 256 >= 2
    &&& count >= 1
    &&& start + count * 4096 <= file.len()
    &&& bytes::u32_at(file, 4096 + 4 * i) == formats::seconds_of(chunk.timestamp)
    &&& forall|p: int|
        start + 5 + (if is_oversized(stream) {
            0
        } else {
            stream.len()
        }) <= p < start + count * 4096 ==> #[trigger] file[p] == 0
    &&& if is_oversized(stream) {
        &&& count == 1
        &&& file[start + 4] == 130
    } else {
        &&& (count - 1) * 4096 < 5 + stream.len() <= count * 4096
        &&& bytes::u32_at(file, start) == 1 + stream.len()
        &&& file[start + 4] == 2
        &&& file.subrange(start + 5, start + 5 + stream.len()) == stream
    }
}

/// A record takes the least number of whole sectors that it fits in.
proof fn lemma_record_sectors(stream: Seq<u8>)
    ensures
        ({
            let size = mca::record_bytes(stream).len();
            &&& size % 4096 == 0
            &&& 4096 <= size
            &&& if is_oversized(stream) {
                size == 4096
            } else {
                size - 4096 < 5 + stream.len() <= size
            }
        }),
{
    mca::lemma_record_size(stream);
}

/// A record is filled up with zeros.
proof fn lemma_record_filled(stream: Seq<u8>)
    ensures
        ({
            let record = mca::record_bytes(stream);
            forall|p: int|
                5 + (if is_oversized(stream) {
                    0
                } else {
                    stream.len()
                }) <= p < record.len() ==> #[trigger] record[p] == 0
        }),
{
    mca::lemma_record_size(stream);
}

/// A chunk of a written mca file is held by its slot.
proof fn lemma_chunk_held(region: RegionView, level: i32, i: int)
    requires
        region.chunks.len() == 1024,
        mca::slots_written(region, level, 1024) is Ok,
        0 <= i < 1024,
        region.chunks[i] is Some,
    ensures
        ({
            let sectors = mca::slots_written(region, level, 1024)->Ok_0;
            let chunk = region.chunks[i]->0;
            &&& codec::zlib_compressed(chunk.raw_nbt, level) matches Ok(stream)
            &&& holds_chunk_at(mca::file_bytes(sectors), i, chunk, stream)
            &&& is_oversized(stream) ==> sectors.sidecars.contains(
                SidecarView {
                    file_name: mca::chunk_file_name(region.region_x, region.region_z, i),
                    bytes: stream,
                },
            )
        }),
{
    let sectors = mca::slots_written(region, level, 1024)->Ok_0;
    let file = mca::file_bytes(sectors);
    let chunk = region.chunks[i]->0;
    let stream = codec::zlib_compressed(chunk.raw_nbt, level)->Ok_0;
    mca::lemma_chunk_in_file(region, level, i);
    let offset = mca::chunk_offset(file, i);
    let limit = mca::chunk_limit(file, i);
    mca::lemma_record_parts(file, offset, stream);
    lemma_record_sectors(stream);
    lemma_record_filled(stream);
    let record = mca::record_bytes(stream);
    assert forall|p: int|
        offset + 5 + (if is_oversized(stream) {
            0
        } else {
            stream.len()
        }) <= p < limit implies #[trigger] file[p] == 0 by {
        assert(file.subrange(offset, limit)[p - offset] == record[p - offset]);
    }
}

/// A slot without a chunk is written as zeros.
proof fn lemma_gap_words(region: RegionView, level: i32, i: int)
    requires
        0 <= i < region.chunks.len(),
        region.chunks[i] is None,
        mca::slots_written(region, level, i as nat) matches Ok(before)
            && before.locations.len() == i && before.timestamps.len() == i,
    ensures
        mca::slots_written(region, level, (i + 1) as nat) matches Ok(after) && after.locations[i]
            == 0 && after.timestamps[i] == 0,
{
    let before = mca::slots_written(region, level, i as nat)->Ok_0;
    assert(mca::slots_written(region, level, (i + 1) as nat) == Ok::<mca::SectorsView, RegionFault>(
        mca::gap_written(before),
    ));
}

/// A file is made of whole sectors, and holds the words of its tables.
proof fn lemma_tables_held(sectors: mca::SectorsView, i: int)
    requires
        mca::of_slots(sectors, 1024),
        0 <= i < 1024,
    ensures
        ({
            let file = mca::file_bytes(sectors);
            &&& file.len() >= 8192
            &&& file.len() % 4096 == 0
            &&& bytes::u32_at(file, 4 * i) == sectors.locations[i]
            &&& bytes::u32_at(file, 4096 + 4 * i) == sectors.timestamps[i]
        }),
{
    mca::lemma_file_head(sectors, i);
    let size = sectors.data.len() as int;
    let length = mca::file_bytes(sectors).len() as int;
    assert(length == 8192 + size);
    assert(size % 4096 == 0);
    assert(length % 4096 == 0) by (nonlinear_arith)
        requires
            length == 8192 + size,
            size % 4096 == 0,
    ;
}

/// A slot without a chunk is zeros in both tables of a written mca file.
proof fn lemma_gap_held(region: RegionView, level: i32, i: int)
    requires
        mca::slots_written(region, level, 1024) is Ok,
        0 <= i < 1024 <= region.chunks.len(),
        region.chunks[i] is None,
    ensures
        mca::slots_written(region, level, 1024)->Ok_0.locations[i] == 0,
        mca::slots_written(region, level, 1024)->Ok_0.timestamps[i] == 0,
{
    mca::lemma_slots_prefix(region, level, i as nat, 1024);
    mca::lemma_slots_prefix(region, level, (i + 1) as nat, 1024);
    lemma_gap_words(region, level, i);
}

/// An mca file is made of whole sectors, and each slot is laid out in it: an empty one as
/// zeros in both tables, one with a chunk as a record of its own, or as a file of its own
/// where it is oversized.
pub proof fn law_mca_file_is_laid_out(
    region: RegionView,
    level: i32,
    encoded: EncodedView,
    i: int,
)
    requires
        region.chunks.len() == 1024,
        mca::encoded_region(region, level) == Ok::<EncodedView, RegionFault>(encoded),
        0 <= i < 1024,
    ensures
        ({
            let file = encoded.main_file_bytes;
            &&& file.len() >= 8192
            &&& file.len() % 4096 == 0
            &&& match region.chunks[i] {
                None => bytes::u32_at(file, 4 * i) == 0 && bytes::u32_at(file, 4096 + 4 * i) == 0,
                Some(chunk) => {
                    &&& codec::zlib_compressed(chunk.raw_nbt, level) matches Ok(stream)
                    &&& holds_chunk_at(file, i, chunk, stream)
                    &&& is_oversized(stream) ==> encoded.sidecar_files.contains(
                        SidecarView {
                            file_name: mca::chunk_file_name(region.region_x, region.region_z, i),
                            bytes: stream,
                        },
                    )
                },
            }
        }),
{
    let sectors = mca::slots_written(region, level, 1024)->Ok_0;
    mca::lemma_slots_prefix(region, level, i as nat, 1024);
    lemma_tables_held(sectors, i);
    if region.chunks[i] is Some {
        lemma_chunk_held(region, level, i);
    } else {
        lemma_gap_held(region, level, i);
    }
}

/// The records of an mca file stand in the order of their slots and do not overlap.
pub proof fn law_mca_records_do_not_overlap(
    region: RegionView,
    level: i32,
    encoded: EncodedView,
    i: int,
    j: int,
)
    requires
        region.chunks.len() == 1024,
        mca::encoded_region(region, level) == Ok::<EncodedView, RegionFault>(encoded),
        0 <= i < j < 1024,
        region.chunks[i] is Some,
        region.chunks[j] is Some,
    ensures
        ({
            let first = bytes::u32_at(encoded.main_file_bytes, 4 * i) as int;
            let second = bytes::u32_at(encoded.main_file_bytes, 4 * j) as int;
            first / 256 + first % 256 <= second / 256
        }),
{
    let before = mca::slots_written(region, level, i as nat)->Ok_0;
    let after = mca::slots_written(region, level, (i + 1) as nat)->Ok_0;
    let stream = codec::zlib_compressed(region.chunks[i]->0.raw_nbt, level)->Ok_0;
    mca::lemma_slots_prefix(region, level, j as nat, 1024);
    mca::lemma_slots_prefix(region, level, (i + 1) as nat, j as nat);
    mca::lemma_slots_prefix(region, level, i as nat, (i + 1) as nat);
    mca::lemma_chunk_in_file(region, level, i);
    mca::lemma_chunk_in_file(region, level, j);
    assert(after.data == before.data + mca::record_bytes(stream));
}

/// The chunk files of an mca file are those of its oversized chunks.
pub proof fn law_chunk_files_are_needed(
    region: RegionView,
    level: i32,
    encoded: EncodedView,
    k: int,
)
    requires
        region.chunks.len() == 1024,
        mca::encoded_region(region, level) == Ok::<EncodedView, RegionFault>(encoded),
        0 <= k < encoded.sidecar_files.len(),
    ensures
        exists|i: int| #[trigger]
            is_chunk_file(region, level, encoded.sidecar_files[k], i) && 0 <= i < 1024,
{
    lemma_chunk_files(region, level, 1024, k);
}

/// Whether a file is that of the chunk `i`, which is too long for the region file.
pub open spec fn is_chunk_file(
    region: RegionView,
    level: i32,
    sidecar: SidecarView,
    i: int,
) -> bool {
    &&& region.chunks[i] matches Some(chunk)
    &&& codec::zlib_compressed(chunk.raw_nbt, level) matches Ok(stream)
    &&& is_oversized(stream)
    &&& sidecar.bytes == stream
    &&& sidecar.file_name == mca::chunk_file_name(region.region_x, region.region_z, i)
}

proof fn lemma_chunk_files(region: RegionView, level: i32, n: nat, k: int)
    requires
        n <= 1024,
        mca::slots_written(region, level, n) is Ok,
        0 <= k < mca::slots_written(region, level, n)->Ok_0.sidecars.len(),
    ensures
        exists|i: int| #[trigger]
            is_chunk_file(
                region,
                level,
                mca::slots_written(region, level, n)->Ok_0.sidecars[k],
                i,
            ) && 0 <= i < n,
    decreases n,
{
    let all = mca::slots_written(region, level, n)->Ok_0;
    if n > 0 {
        let before = mca::slots_written(region, level, (n - 1) as nat)->Ok_0;
        mca::lemma_slots_prefix(region, level, (n - 1) as nat, n);
        if k < before.sidecars.len() {
            lemma_chunk_files(region, level, (n - 1) as nat, k);
            let i = choose|i: int| #[trigger]
                is_chunk_file(region, level, before.sidecars[k], i) && 0 <= i < n - 1;
            assert(all.sidecars[k] == before.sidecars[k]);
            assert(is_chunk_file(region, level, all.sidecars[k], i));
        } else {
            assert(is_chunk_file(region, level, all.sidecars[k], n - 1));
        }
    }
}

/// A region is written as mca unless one of its chunks cannot be compressed.
pub proof fn law_mca_needs_every_chunk(region: RegionView, level: i32)
    requires
        region.chunks.len() == 1024,
    ensures
        mca::encoded_region(region, level) is Ok <==> forall|i: int|
            0 <= i < 1024 ==> match #[trigger] region.chunks[i] {
                Some(chunk) => codec::zlib_compressed(chunk.raw_nbt, level) is Ok,
                None => true,
            },
        mca::encoded_region(region, level) matches Ok(encoded) ==> {
            let chunks = model::occupied(region.chunks);
            &&& encoded.diagnostics.len() == 0
            &&& encoded.units.len() == chunks.len()
        },
{
    lemma_mca_needs(region, level, 1024);
    assert(region.chunks.take(1024) =~= region.chunks);
}

proof fn lemma_mca_needs(region: RegionView, level: i32, n: nat)
    requires
        n <= region.chunks.len(),
    ensures
        mca::slots_written(region, level, n) is Ok <==> forall|i: int|
            0 <= i < n ==> match #[trigger] region.chunks[i] {
                Some(chunk) => codec::zlib_compressed(chunk.raw_nbt, level) is Ok,
                None => true,
            },
        mca::slots_written(region, level, n) matches Ok(sectors) ==> sectors.units.len()
            == model::occupied(region.chunks.take(n as int)).len(),
    decreases n,
{
    if n > 0 {
        lemma_mca_needs(region, level, (n - 1) as nat);
        let last = region.chunks[n - 1];
        assert(region.chunks.take(n as int).drop_last() =~= region.chunks.take(n - 1));
        assert(region.chunks.take(n as int).last() == last);
    }
}

/// The name of the file of a chunk tells the place of the chunk in the world: 32 chunks of
/// each region in either direction, first along x, then along z.
pub proof fn law_chunk_file_name_tells_the_chunk(region_x: i32, region_z: i32, i: int)
    requires
        0 <= i < 1024,
    ensures
        ({
            let name = mca::chunk_file_name(region_x, region_z, i);
            let second = formats::next_dot(name, 2);
            let third = formats::next_dot(name, second + 1);
            &&& text::number_in(name.subrange(2, second)) matches Some(x)
            &&& text::number_in(name.subrange(second + 1, third)) matches Some(z)
            &&& 32 * region_x <= x < 32 * region_x + 32
            &&& 32 * region_z <= z < 32 * region_z + 32
            &&& (x - 32 * region_x) + 32 * (z - 32 * region_z) == i
            &&& name[0] == 'c'
            &&& name[1] == '.'
            &&& name.skip(name.len() - 4) == ".mcc"@
        }),
{
    let name = mca::chunk_file_name(region_x, region_z, i);
    mca::lemma_chunk_file_name_parts(region_x, region_z, i);
    reveal_strlit("c.");
    reveal_strlit(".mcc");
    assert(".mcc"@.len() == 4);
    assert(name.skip(name.len() - 4) =~= ".mcc"@);
}

/// The newest of some timestamps in seconds is that of a chunk, and none is newer.
pub proof fn law_newest_second_is_greatest(slots: Seq<Option<ChunkView>>)
    ensures
        forall|i: int|
            0 <= i < slots.len() ==> match #[trigger] slots[i] {
                Some(chunk) => formats::seconds_of(chunk.timestamp) <= linear::newest_seconds(
                    slots,
                ),
                None => true,
            },
        linear::newest_seconds(slots) == 0 || exists|i: int|
            0 <= i < slots.len() && match #[trigger] slots[i] {
                Some(chunk) => formats::seconds_of(chunk.timestamp) == linear::newest_seconds(
                    slots,
                ),
                None => false,
            },
    decreases slots.len(),
{
    if slots.len() > 0 {
        let before = slots.drop_last();
        law_newest_second_is_greatest(before);
        assert forall|i: int| 0 <= i < slots.len() implies match #[trigger] slots[i] {
            Some(chunk) => formats::seconds_of(chunk.timestamp) <= linear::newest_seconds(slots),
            None => true,
        } by {
            if i < before.len() {
                assert(before[i] == slots[i]);
            }
        }
        let newest = linear::newest_seconds(before);
        if linear::newest_seconds(slots) == newest && newest != 0 {
            let i = choose|i: int|
                0 <= i < before.len() && match #[trigger] before[i] {
                    Some(chunk) => formats::seconds_of(chunk.timestamp) == newest,
                    None => false,
                };
            assert(slots[i] == before[i]);
        } else {
            assert(slots[slots.len() - 1] == slots.last());
        }
    }
}

/// A linear file starts with a header of 32 bytes: the superblock, the version 1, the
/// newest timestamp, the level, the number of chunks, and the length of what follows.
pub proof fn law_linear_file_is_laid_out(region: RegionView, level: i32, encoded: EncodedView)
    requires
        region.chunks.len() == 1024,
        linear::encoded_region(region, level) == Ok::<EncodedView, RegionFault>(encoded),
    ensures
        ({
            let file = encoded.main_file_bytes;
            &&& codec::zstd_bulk_compressed(linear::raw_bytes(region.chunks), level) matches Ok(
                frame,
            )
            &&& file.len() == 32 + frame.len() + 8
            &&& bytes::u64_at(file, 0) == 0xc3ff_1318_3cca_9d9a
            &&& file[8] == 1
            &&& bytes::u64_at(file, 9) == linear::newest_seconds(region.chunks)
            &&& file[17] == level as u8
            &&& bytes::u16_at(file, 18) == model::occupied(region.chunks).len()
            &&& bytes::u32_at(file, 20) == frame.len()
            &&& bytes::u64_at(file, 24) == 0
            &&& file.subrange(32, 32int + frame.len()) == frame
            &&& bytes::u64_at(file, 32int + frame.len()) == 0xc3ff_1318_3cca_9d9a
            &&& encoded.sidecar_files.len() == 0
            &&& encoded.diagnostics.len() == 0
        }),
{
    let frame = codec::zstd_bulk_compressed(linear::raw_bytes(region.chunks), level)->Ok_0;
    linear::lemma_file_parts(region.chunks, level, frame);
    lemma_linear_header(
        linear::newest_seconds(region.chunks),
        model::occupied(region.chunks).len() as u16,
        level,
        frame,
    );
}

#[verifier::rlimit(40)]
proof fn lemma_linear_header(newest: u32, chunk_count: u16, level: i32, frame: Seq<u8>)
    ensures
        ({
            let file = linear::framed_bytes(newest, chunk_count, level, frame);
            &&& file.len() >= 32
            &&& bytes::u64_at(file, 9) == newest
            &&& file[17] == level as u8
            &&& bytes::u64_at(file, 24) == 0
        }),
{
    let file = linear::framed_bytes(newest, chunk_count, level, frame);
    assert(file.subrange(9, 17) =~= bytes::be_u64(newest as u64));
    bytes::lemma_u64_at_be_u64(file, 9, newest as u64);
    assert(file.subrange(24, 32) =~= bytes::be_u64(0));
    bytes::lemma_u64_at_be_u64(file, 24, 0);
}

/// A blinear file of version 2 starts with a header of 18 bytes: the superblock, the
/// version, the newest timestamp in milliseconds, and the level.
pub proof fn law_version_two_is_laid_out(
    region: RegionView,
    level: i32,
    profiled: bool,
    encoded: EncodedView,
)
    requires
        region.chunks.len() == 1024,
        blinear_v2::encoded_region(region, level, profiled) == Ok::<EncodedView, RegionFault>(
            encoded,
        ),
    ensures
        ({
            let file = encoded.main_file_bytes;
            let raw = slots::slots_bytes(region.chunks);
            &&& file.len() >= 18
            &&& bytes::i64_at(file, 0) == -0x2008_1225_0269
            &&& file[8] == 2
            &&& bytes::i64_at(file, 9) == model::newest_of(
                model::occupied(formats::millis_slots(region.chunks)),
            )
            &&& file[17] == level as u8
            &&& if profiled {
                codec::yields(codec::zstd_bulk_compressed(raw, level), file.skip(18))
            } else {
                codec::yields(codec::zstd_stream_compressed(raw, level), file.skip(18))
            }
            &&& encoded.sidecar_files.len() == 0
            &&& encoded.diagnostics.len() == 0
        }),
{
    let file = encoded.main_file_bytes;
    let header = blinear_v2::header_bytes(region.chunks, level);
    let newest = model::newest_of(model::occupied(formats::millis_slots(region.chunks)));
    assert(file.subrange(0, 8) =~= bytes::be_i64(formats::BLINEAR_SUPERBLOCK));
    bytes::lemma_i64_at_be_i64(file, 0, formats::BLINEAR_SUPERBLOCK);
    assert(file.subrange(9, 17) =~= bytes::be_i64(newest));
    bytes::lemma_i64_at_be_i64(file, 9, newest);
    assert(header.len() == 18);
    assert(file.skip(18) =~= file.skip(header.len() as int));
    let raw = slots::slots_bytes(region.chunks);
    let frame = if profiled {
        codec::zstd_bulk_compressed(raw, level)->Ok_0
    } else {
        codec::zstd_stream_compressed(raw, level)->Ok_0
    };
    assert(file == header + frame);
    assert(file.skip(18) =~= frame);
}

/// A blinear file of version 3 starts with a header of 14 bytes: the superblock, the
/// version, the level and the seed of the hashes; then come the places of its buckets. A
/// bucket without a chunk has none, any other stands there compressed behind its lengths.
pub proof fn law_version_three_is_laid_out(
    region: RegionView,
    level: i32,
    encoded: EncodedView,
    bucket: int,
)
    requires
        region.chunks.len() == 1024,
        blinear_v3::encoded_region(region, level) == Ok::<EncodedView, RegionFault>(encoded),
        0 <= bucket < 16,
    ensures
        ({
            let file = encoded.main_file_bytes;
            let slots = region.chunks.subrange(64 * bucket, 64 * bucket + 64);
            let at = bytes::u64_at(file, 14 + 8 * bucket) as int;
            &&& file.len() >= 142
            &&& bytes::i64_at(file, 0) == -0x2008_1225_0269
            &&& file[8] == 3
            &&& file[9] == level as u8
            &&& bytes::u32_at(file, 10) == 0x0721
            &&& if forall|i: int| 0 <= i < 64 ==> #[trigger] slots[i] is None {
                at == 0
            } else {
                let raw = slots::slots_bytes(slots);
                &&& codec::zstd_bulk_compressed(raw, level) matches Ok(frame)
                &&& 142 <= at
                &&& at + 8 + frame.len() <= file.len()
                &&& bytes::i32_at(file, at) == raw.len()
                &&& bytes::i32_at(file, at + 4) == frame.len()
                &&& file.subrange(at + 8, at + 8 + frame.len()) == frame
            }
            &&& encoded.sidecar_files.len() == 0
            &&& encoded.diagnostics.len() == 0
        }),
{
    let buckets = blinear_v3::buckets_written(region.chunks, level, 16)->Ok_0;
    let file = blinear_v3::file_bytes(level, buckets);
    let slots = region.chunks.subrange(64 * bucket, 64 * bucket + 64);
    assert(slots == blinear_v3::bucket_slots(region.chunks, bucket));
    blinear_v3::lemma_buckets_prefix(region.chunks, level, 16, 16);
    blinear_v3::lemma_file_head(level, buckets, bucket);
    assert(file[9] == level as u8) by {
        let header = blinear_v3::header_bytes(level);
        assert(header[9] == level as u8);
        assert(file[9] == header[9]);
    }
    if forall|i: int| 0 <= i < 64 ==> #[trigger] slots[i] is None {
        blinear_v3::lemma_no_entry_in_file(region.chunks, level, bucket);
    } else {
        let i = choose|i: int| 0 <= i < 64 && !(#[trigger] slots[i] is None);
        assert(slots[i] is Some);
        blinear_v3::lemma_entry_in_file(region.chunks, level, bucket);
        let raw = slots::slots_bytes(slots);
        let frame = codec::zstd_bulk_compressed(raw, level)->Ok_0;
        blinear_v3::lemma_entry_at(
            file,
            buckets.offsets[bucket] as int,
            raw.len() as u32,
            frame,
        );
    }
}

/// The section of a slot: nothing for an empty one, else the length of the chunk, its
/// timestamp in milliseconds, the hash of its data, and its data.
pub open spec fn section_of(slot: Option<ChunkView>) -> Seq<u8> {
    match slot {
        None => seq![],
        Some(chunk) => bytes::be_u32(chunk.raw_nbt.len() as u32) + bytes::be_i64(
            formats::millis_of(chunk.timestamp),
        ) + bytes::be_u32(codec::xxh32_of(chunk.raw_nbt, 0x0721)) + chunk.raw_nbt,
    }
}

/// Slots are written as the list of their sections.
pub proof fn law_slots_are_listed(slots: Seq<Option<ChunkView>>)
    ensures
        slots::slots_bytes(slots) == listed(
            Seq::new(slots.len(), |i: int| section_of(slots[i])),
        ),
    decreases slots.len(),
{
    let sections = Seq::new(slots.len(), |i: int| section_of(slots[i]));
    if slots.len() > 0 {
        let before = slots.drop_last();
        law_slots_are_listed(before);
        assert(sections.drop_last() =~= Seq::new(before.len(), |i: int| section_of(before[i])));
        let last = slots.last();
        let section = section_of(last);
        if let Some(chunk) = last {
            assert(section == formats::section_bytes(chunk, BLINEAR_HASH_SEED));
            assert(section.len() == 16 + chunk.raw_nbt.len());
        }
        assert(slots::slot_bytes(last) =~= bytes::be_u32(section.len() as u32) + section);
        assert(slots::slots_bytes(slots) =~= listed(sections));
    } else {
        assert(slots::slots_bytes(slots) =~= listed(sections));
    }
}

/// Whether each chunk is short enough for a section of it to have a length.
pub open spec fn sections_fit(slots: Seq<Option<ChunkView>>) -> bool {
    forall|i: int|
        0 <= i < slots.len() ==> match #[trigger] slots[i] {
            Some(chunk) => 16 + chunk.raw_nbt.len() <= 0x7fff_ffff,
            None => true,
        }
}

proof fn lemma_sections_fit(slots: Seq<Option<ChunkView>>, too_large: RegionErrorKind)
    ensures
        slots::slots_fault(slots, too_large) is None <==> sections_fit(slots),
    decreases slots.len(),
{
    if slots.len() > 0 {
        let before = slots.drop_last();
        lemma_sections_fit(before, too_large);
        assert(slots[slots.len() - 1] == slots.last());
        if sections_fit(slots) {
            assert forall|i: int| 0 <= i < before.len() implies match #[trigger] before[i] {
                Some(chunk) => 16 + chunk.raw_nbt.len() <= 0x7fff_ffff,
                None => true,
            } by {
                assert(before[i] == slots[i]);
            }
        }
        if sections_fit(before) && slots::slot_fault(slots.last(), too_large) is None {
            assert forall|i: int| 0 <= i < slots.len() implies match #[trigger] slots[i] {
                Some(chunk) => 16 + chunk.raw_nbt.len() <= 0x7fff_ffff,
                None => true,
            } by {
                if i < before.len() {
                    assert(before[i] == slots[i]);
                }
            }
        }
    }
}

/// The slots of a bucket.
pub open spec fn bucket_of(slots: Seq<Option<ChunkView>>, bucket: int) -> Seq<Option<ChunkView>> {
    slots.subrange(64 * bucket, 64 * bucket + 64)
}

/// Whether a bucket can be written: its chunks have sections, and where there is one, the
/// list of them can be compressed, and neither is too long for its length to be told.
pub open spec fn bucket_fits(slots: Seq<Option<ChunkView>>, level: i32) -> bool {
    &&& sections_fit(slots)
    &&& (exists|i: int| 0 <= i < slots.len() && #[trigger] slots[i] is Some) ==> {
        let raw = slots::slots_bytes(slots);
        &&& raw.len() <= 0x7fff_ffff
        &&& codec::zstd_bulk_compressed(raw, level) matches Ok(frame)
        &&& frame.len() <= 0x7fff_ffff
    }
}

proof fn lemma_buckets_fit(slots: Seq<Option<ChunkView>>, level: i32, n: nat)
    requires
        slots.len() == 1024,
        n <= 16,
    ensures
        blinear_v3::buckets_written(slots, level, n) is Ok <==> forall|b: int|
            0 <= b < n ==> bucket_fits(#[trigger] bucket_of(slots, b), level),
    decreases n,
{
    if n > 0 {
        lemma_buckets_fit(slots, level, (n - 1) as nat);
        let last = bucket_of(slots, n - 1);
        assert(last == blinear_v3::bucket_slots(slots, n - 1));
        lemma_sections_fit(last, RegionErrorKind::BlinearV3SectionTooLarge);
    }
}

/// A region is written in a format unless one of its chunks is too long for it or cannot be
/// compressed, and there is no format for both blinear versions to write.
pub proof fn law_region_is_written_where_it_can_be(
    region: RegionView,
    format: RegionFormat,
    level: i32,
    profiled: bool,
)
    requires
        region.chunks.len() == 1024,
    ensures
        formats::encoded_region(region, format, level, profiled) is Ok <==> match format {
            RegionFormat::Mca => forall|i: int|
                0 <= i < 1024 ==> match #[trigger] region.chunks[i] {
                    Some(chunk) => codec::zlib_compressed(chunk.raw_nbt, level) is Ok,
                    None => true,
                },
            RegionFormat::Linear => {
                &&& forall|i: int|
                    0 <= i < 1024 ==> match #[trigger] region.chunks[i] {
                        Some(chunk) => chunk.raw_nbt.len() <= 0xffff_ffff,
                        None => true,
                    }
                &&& codec::zstd_bulk_compressed(
                    linear::raw_bytes(region.chunks),
                    level,
                ) matches Ok(frame)
                &&& frame.len() <= 0xffff_ffff
            },
            RegionFormat::Blinear => false,
            RegionFormat::BlinearV2 => {
                &&& sections_fit(region.chunks)
                &&& if profiled {
                    codec::zstd_bulk_compressed(slots::slots_bytes(region.chunks), level) is Ok
                } else {
                    codec::zstd_stream_compressed(slots::slots_bytes(region.chunks), level) is Ok
                }
            },
            RegionFormat::BlinearV3 => forall|b: int|
                0 <= b < 16 ==> bucket_fits(#[trigger] bucket_of(region.chunks, b), level),
        },
        formats::encoded_region(region, RegionFormat::Blinear, level, profiled) matches Err(fault)
            ==> fault.kind == RegionErrorKind::GenericTarget,
{
    law_mca_needs_every_chunk(region, level);
    lemma_sections_fit(region.chunks, RegionErrorKind::BlinearV2SectionTooLarge);
    lemma_buckets_fit(region.chunks, level, 16);
}

/// The payload of a linear file is a table of the length and the second of each chunk, with
/// zeros for an empty slot, and behind it the data of the chunks one after the other.
pub proof fn law_linear_payload_is_laid_out(slots: Seq<Option<ChunkView>>, i: int)
    requires
        slots.len() == 1024,
        0 <= i < 1024,
        linear::slots_fit(slots),
    ensures
        ({
            let raw = linear::raw_bytes(slots);
            &&& raw.len() >= 8192
            &&& raw.skip(8192) == chunk_data(slots)
            &&& match slots[i] {
                Some(chunk) => {
                    &&& bytes::u32_at(raw, 8 * i) == chunk.raw_nbt.len()
                    &&& bytes::u32_at(raw, 8 * i + 4) == formats::seconds_of(chunk.timestamp)
                },
                None => bytes::u32_at(raw, 8 * i) == 0 && bytes::u32_at(raw, 8 * i + 4) == 0,
            }
        }),
{
    let raw = linear::raw_bytes(slots);
    let table = linear::table_bytes(slots);
    let entry = linear::table_entry(slots[i]);
    linear::lemma_table_entry_at(slots, i);
    lemma_chunk_data(slots);
    assert(raw.skip(8192) =~= linear::payload_bytes(slots));
    let (length, second) = match slots[i] {
        Some(chunk) => (chunk.raw_nbt.len() as u32, formats::seconds_of(chunk.timestamp)),
        None => (0u32, 0u32),
    };
    assert(entry == bytes::be_u32(length) + bytes::be_u32(second));
    assert(raw.subrange(8 * i, 8 * i + 4) =~= table.subrange(8 * i, 8 * i + 8).take(4));
    assert(entry.take(4) =~= bytes::be_u32(length));
    assert(raw.subrange(8 * i + 4, 8 * i + 8) =~= table.subrange(8 * i, 8 * i + 8).skip(4));
    assert(entry.skip(4) =~= bytes::be_u32(second));
    bytes::lemma_u32_at_be_u32(raw, 8 * i, length);
    bytes::lemma_u32_at_be_u32(raw, 8 * i + 4, second);
    if let Some(chunk) = slots[i] {
        assert(chunk.raw_nbt.len() <= u32::MAX);
    }
}

proof fn lemma_chunk_data(slots: Seq<Option<ChunkView>>)
    ensures
        linear::payload_bytes(slots) == chunk_data(slots),
    decreases slots.len(),
{
    if slots.len() > 0 {
        lemma_chunk_data(slots.drop_last());
    }
}

/// Each piece that is compressed on its own is told with its length before and after: the
/// payload of a linear file, and that of a blinear file of version 2 where it is profiled.
pub proof fn law_payload_is_one_unit(
    region: RegionView,
    level: i32,
    profiled: bool,
    encoded: EncodedView,
)
    requires
        region.chunks.len() == 1024,
        linear::raw_bytes(region.chunks).len() <= usize::MAX,
        slots::slots_bytes(region.chunks).len() <= usize::MAX,
        encoded.main_file_bytes.len() <= usize::MAX,
    ensures
        linear::encoded_region(region, level) == Ok::<EncodedView, RegionFault>(encoded) ==> {
            &&& encoded.units.len() == 1
            &&& encoded.units[0].raw_len == linear::raw_bytes(region.chunks).len()
            &&& encoded.units[0].compressed_len == encoded.main_file_bytes.len() - 40
        },
        blinear_v2::encoded_region(region, level, profiled) == Ok::<EncodedView, RegionFault>(
            encoded,
        ) ==> if profiled {
            &&& encoded.units.len() == 1
            &&& encoded.units[0].raw_len == slots::slots_bytes(region.chunks).len()
            &&& encoded.units[0].compressed_len == encoded.main_file_bytes.len() - 18
        } else {
            encoded.units.len() == 0
        },
{
    if linear::encoded_region(region, level) == Ok::<EncodedView, RegionFault>(encoded) {
        law_linear_file_is_laid_out(region, level, encoded);
    }
    if blinear_v2::encoded_region(region, level, profiled) == Ok::<EncodedView, RegionFault>(
        encoded,
    ) {
        law_version_two_is_laid_out(region, level, profiled, encoded);
        let header = blinear_v2::header_bytes(region.chunks, level);
        assert(header.len() == 18);
    }
}

/// The pieces of an mca file are its chunks, in their order, each with its length before
/// and after it was compressed.
pub proof fn law_chunks_are_units(region: RegionView, level: i32, encoded: EncodedView, k: int)
    requires
        region.chunks.len() == 1024,
        mca::encoded_region(region, level) == Ok::<EncodedView, RegionFault>(encoded),
        0 <= k < encoded.units.len(),
    ensures
        encoded.units.len() == model::occupied(region.chunks).len(),
        ({
            let raw = model::occupied(region.chunks)[k].1.raw_nbt;
            &&& raw.len() <= usize::MAX ==> encoded.units[k].raw_len == raw.len()
            &&& codec::zlib_compressed(raw, level) matches Ok(stream)
            &&& stream.len() <= usize::MAX ==> encoded.units[k].compressed_len == stream.len()
        }),
{
    lemma_chunk_units(region, level, 1024, k);
    assert(region.chunks.take(1024) =~= region.chunks);
}

proof fn lemma_chunk_units(region: RegionView, level: i32, n: nat, k: int)
    requires
        n <= region.chunks.len(),
        mca::slots_written(region, level, n) is Ok,
        0 <= k < mca::slots_written(region, level, n)->Ok_0.units.len(),
    ensures
        mca::slots_written(region, level, n)->Ok_0.units.len() == model::occupied(
            region.chunks.take(n as int),
        ).len(),
        ({
            let units = mca::slots_written(region, level, n)->Ok_0.units;
            let raw = model::occupied(region.chunks.take(n as int))[k].1.raw_nbt;
            &&& raw.len() <= usize::MAX ==> units[k].raw_len == raw.len()
            &&& codec::zlib_compressed(raw, level) matches Ok(stream)
            &&& stream.len() <= usize::MAX ==> units[k].compressed_len == stream.len()
        }),
    decreases n,
{
    if n > 0 {
        let part = region.chunks.take(n as int);
        let before = mca::slots_written(region, level, (n - 1) as nat)->Ok_0;
        lemma_mca_needs(region, level, n);
        lemma_mca_needs(region, level, (n - 1) as nat);
        assert(part.drop_last() =~= region.chunks.take(n - 1));
        assert(part.last() == region.chunks[n - 1]);
        if k < before.units.len() {
            lemma_chunk_units(region, level, (n - 1) as nat, k);
            assert(mca::slots_written(region, level, n)->Ok_0.units[k] == before.units[k]);
            assert(model::occupied(part)[k] == model::occupied(part.drop_last())[k]);
        }
    }
}

/// A region that is not written is refused for what is wrong with it: a chunk or a list of
/// chunks that is too long, or what cannot be compressed.
pub proof fn law_write_refusal_tells_the_reason(
    region: RegionView,
    level: i32,
    profiled: bool,
)
    requires
        region.chunks.len() == 1024,
    ensures
        linear::encoded_region(region, level) matches Err(fault) ==> {
            let compressed = codec::zstd_bulk_compressed(linear::raw_bytes(region.chunks), level);
            match fault.kind {
                RegionErrorKind::LinearChunkTooLarge => exists|i: int|
                    0 <= i < 1024 && match #[trigger] region.chunks[i] {
                        Some(chunk) => chunk.raw_nbt.len() > 0xffff_ffff,
                        None => false,
                    },
                RegionErrorKind::LinearCompression => compressed == Err::<Seq<u8>, Seq<char>>(
                    fault.detail,
                ),
                RegionErrorKind::LinearCompressedTooLarge => compressed matches Ok(frame)
                    && frame.len() > 0xffff_ffff,
                _ => false,
            }
        },
        blinear_v2::encoded_region(region, level, profiled) matches Err(fault) ==> {
            let raw = slots::slots_bytes(region.chunks);
            match fault.kind {
                RegionErrorKind::ChunkTooLarge => !sections_fit(region.chunks),
                RegionErrorKind::BlinearV2SectionTooLarge => !sections_fit(region.chunks),
                RegionErrorKind::BlinearV2Compression => profiled && codec::zstd_bulk_compressed(
                    raw,
                    level,
                ) == Err::<Seq<u8>, Seq<char>>(fault.detail),
                RegionErrorKind::BlinearV2Stream => !profiled && codec::zstd_stream_compressed(
                    raw,
                    level,
                ) == Err::<Seq<u8>, Seq<char>>(fault.detail),
                _ => false,
            }
        },
{
    lemma_sections_fit(region.chunks, RegionErrorKind::BlinearV2SectionTooLarge);
    lemma_fault_kinds(region.chunks, RegionErrorKind::BlinearV2SectionTooLarge);
}

proof fn lemma_fault_kinds(slots: Seq<Option<ChunkView>>, too_large: RegionErrorKind)
    ensures
        slots::slots_fault(slots, too_large) matches Some(kind) ==> kind
            == RegionErrorKind::ChunkTooLarge || kind == too_large,
    decreases slots.len(),
{
    if slots.len() > 0 {
        lemma_fault_kinds(slots.drop_last(), too_large);
    }
}

} // verus!
