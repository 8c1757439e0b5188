//! The linear format: a header, a compressed payload and a footer. The payload is a
//! table with the length and the timestamp of each chunk, and then the chunks.

use vstd::prelude::*;

use crate::bytes::{
    self, push_u16, push_u32, push_u64, read_u16, read_u32, read_u64,
};
use crate::codec::{self, zstd_compress, zstd_stream_decode};
use crate::error::{self, RegionError, RegionErrorKind, RegionFault};
use crate::formats::{
    self, normalize_timestamp_to_u32, parse_region_coords_from_path, EncodedRegion, EncodedUnit,
    EncodedView, ReadOutcome, ReadView, LINEAR_SUPERBLOCK,
};
use crate::model::{self, ChunkData, ChunkView, Region, RegionView, REGION_CHUNK_COUNT};
use crate::path::{PathView, SavePath};

verus! {

/// The length of the header.
pub const FILE_HEADER_SIZE: usize = 32;

/// The length of the footer.
pub const FILE_FOOTER_SIZE: usize = 8;

/// The length of the table.
pub const INNER_HEADER_SIZE: usize = 8192;

/// The length of the chunk `i`, by the table.
pub open spec fn table_size(data: Seq<u8>, i: int) -> nat {
    bytes::u32_at(data, 8 * i) as nat
}

/// The length of the first `n` chunks together, by the table.
pub open spec fn table_total(data: Seq<u8>, n: int) -> nat
    decreases n,
{
    if n <= 0 {
        0
    } else {
        table_total(data, n - 1) + table_size(data, n - 1)
    }
}

/// The number of chunks among the first `n` slots, by the table.
pub open spec fn table_count(data: Seq<u8>, n: int) -> nat
    decreases n,
{
    if n <= 0 {
        0
    } else {
        table_count(data, n - 1) + if table_size(data, n - 1) > 0 {
            1nat
        } else {
            0
        }
    }
}

/// The chunk `i` of the payload.
pub open spec fn payload_slot(data: Seq<u8>, i: int) -> Option<ChunkView> {
    if table_size(data, i) == 0 {
        None
    } else {
        let start = INNER_HEADER_SIZE + table_total(data, i);
        Some(
            ChunkView {
                timestamp: bytes::u32_at(data, 8 * i + 4) as i64,
                raw_nbt: data.subrange(start, start + table_size(data, i)),
            },
        )
    }
}

/// What is read of the decompressed payload `data`, where the header tells of
/// `chunk_count` chunks.
pub open spec fn payload_read(
    region_x: i32,
    region_z: i32,
    chunk_count: u16,
    data: Seq<u8>,
) -> Result<ReadView, RegionFault> {
    let count = table_count(data, REGION_CHUNK_COUNT as int);
    let total = table_total(data, REGION_CHUNK_COUNT as int);
    if data.len() < INNER_HEADER_SIZE {
        Err(error::region_fault(RegionErrorKind::LinearTable))
    } else if total > usize::MAX {
        Err(error::region_fault(RegionErrorKind::LinearOverflow))
    } else if count != chunk_count {
        Err(
            error::region_fault(
                RegionErrorKind::LinearChunkCount(chunk_count as usize, count as usize),
            ),
        )
    } else if INNER_HEADER_SIZE + total != data.len() {
        Err(error::region_fault(RegionErrorKind::LinearPayload))
    } else {
        Ok(
            formats::all_read(
                RegionView {
                    region_x,
                    region_z,
                    chunks: Seq::new(REGION_CHUNK_COUNT as nat, |i: int| payload_slot(data, i)),
                },
            ),
        )
    }
}

/// What reading the file `path` with the content `bytes` gives.
pub open spec fn read_outcome(path: PathView, bytes: Seq<u8>) -> Result<ReadView, RegionFault> {
    if bytes.len() < FILE_HEADER_SIZE + FILE_FOOTER_SIZE {
        Err(error::region_fault(RegionErrorKind::LinearTooSmall))
    } else {
        match formats::path_coords(path) {
            Err(kind) => Err(error::region_fault(kind)),
            Ok((region_x, region_z)) => {
                let chunk_count = bytes::u16_at(bytes, 18);
                let footer = FILE_HEADER_SIZE + bytes::u32_at(bytes, 20);
                if bytes::u64_at(bytes, 0) != LINEAR_SUPERBLOCK {
                    Err(error::region_fault(RegionErrorKind::LinearSuperblock))
                } else if bytes[8] != 1 && bytes[8] != 2 {
                    Err(error::region_fault(RegionErrorKind::LinearVersion(bytes[8])))
                } else if footer + FILE_FOOTER_SIZE != bytes.len() {
                    Err(error::region_fault(RegionErrorKind::LinearLength))
                } else if bytes::u64_at(bytes, footer) != LINEAR_SUPERBLOCK {
                    Err(error::region_fault(RegionErrorKind::LinearFooter))
                } else {
                    match codec::zstd_stream_decoded(
                        bytes.subrange(FILE_HEADER_SIZE as int, footer),
                    ) {
                        Err(text) => Err(
                            RegionFault { kind: RegionErrorKind::Decompression, detail: text },
                        ),
                        Ok(data) => payload_read(region_x, region_z, chunk_count, data),
                    }
                }
            },
        }
    }
}

/// The first lengths add up to no more than all of them.
proof fn lemma_total_grows(data: Seq<u8>, n: int, m: int)
    requires
        0 <= n <= m,
    ensures
        table_total(data, n) <= table_total(data, m),
    decreases m,
{
    if n < m {
        lemma_total_grows(data, n, m - 1);
    }
}

/// Reads the decompressed payload `data` of the region at `(region_x, region_z)`,
/// whose header tells of `chunk_count` chunks.
pub fn read_payload(region_x: i32, region_z: i32, chunk_count: u16, data: &[u8]) -> (result: Result<
    ReadOutcome,
    RegionError,
>)
    ensures
        formats::read_result(result) == payload_read(region_x, region_z, chunk_count, data@),
        result matches Ok(outcome) ==> outcome.well_formed(),
{
    if data.len() < INNER_HEADER_SIZE {
        return Err(RegionError::new(RegionErrorKind::LinearTable));
    }
    let mut count: usize = 0;
    let mut total: usize = 0;
    let mut index: usize = 0;
    while index < REGION_CHUNK_COUNT
        invariant
            index <= REGION_CHUNK_COUNT,
            data@.len() >= INNER_HEADER_SIZE,
            count <= index,
            count == table_count(data@, index as int),
            total == table_total(data@, index as int),
        decreases REGION_CHUNK_COUNT - index,
    {
        let size = read_u32(data, 8 * index) as usize;
        if size > 0 {
            count = count + 1;
        }
        if size > usize::MAX - total {
            proof {
                lemma_total_grows(data@, index + 1, REGION_CHUNK_COUNT as int);
            }
            return Err(RegionError::new(RegionErrorKind::LinearOverflow));
        }
        total = total + size;
        index = index + 1;
    }
    if count != chunk_count as usize {
        return Err(
            RegionError::new(RegionErrorKind::LinearChunkCount(chunk_count as usize, count)),
        );
    }
    if total != data.len() - INNER_HEADER_SIZE {
        return Err(RegionError::new(RegionErrorKind::LinearPayload));
    }
    let length = data.len();
    let mut outcome = ReadOutcome::new(region_x, region_z);
    let mut offset: usize = INNER_HEADER_SIZE;
    index = 0;
    let ghost whole = Seq::new(REGION_CHUNK_COUNT as nat, |i: int| payload_slot(data@, i));
    assert(formats::slots::first_slots(whole, 0) =~= outcome@.region.chunks);
    while index < REGION_CHUNK_COUNT
        invariant
            index <= REGION_CHUNK_COUNT,
            length == data@.len(),
            length >= INNER_HEADER_SIZE,
            length == INNER_HEADER_SIZE + table_total(data@, REGION_CHUNK_COUNT as int),
            whole == Seq::new(REGION_CHUNK_COUNT as nat, |i: int| payload_slot(data@, i)),
            offset == INNER_HEADER_SIZE + table_total(data@, index as int),
            outcome.well_formed(),
            outcome@ == formats::all_read(
                RegionView {
                    region_x,
                    region_z,
                    chunks: formats::slots::first_slots(whole, index as int),
                },
            ),
        decreases REGION_CHUNK_COUNT - index,
    {
        proof {
            lemma_total_grows(data@, index + 1, REGION_CHUNK_COUNT as int);
        }
        let size = read_u32(data, 8 * index) as usize;
        let ghost before = formats::slots::first_slots(whole, index as int);
        let ghost after = formats::slots::first_slots(whole, index + 1);
        if size > 0 {
            let timestamp = read_u32(data, 8 * index + 4) as i64;
            let raw_nbt = bytes::copy_range(data, offset, offset + size);
            let chunk = ChunkData { timestamp, raw_nbt };
            assert(Some(chunk@) == payload_slot(data@, index as int));
            outcome.keep(index, chunk);
            assert(after =~= before.update(index as int, Some(chunk@)));
            offset = offset + size;
        } else {
            assert(after =~= before);
        }
        index = index + 1;
    }
    assert(formats::slots::first_slots(whole, index as int) =~= whole);
    Ok(outcome)
}

/// Reads the file `path` with the content `bytes`.
pub fn read_region_bytes(path: &SavePath, bytes: &[u8]) -> (result: Result<
    ReadOutcome,
    RegionError,
>)
    ensures
        formats::read_result(result) == read_outcome(path@, bytes@),
        result matches Ok(outcome) ==> outcome.well_formed(),
{
    let length = bytes.len();
    if length < FILE_HEADER_SIZE + FILE_FOOTER_SIZE {
        return Err(RegionError::new(RegionErrorKind::LinearTooSmall));
    }
    let (region_x, region_z) = match parse_region_coords_from_path(path) {
        Ok(coords) => coords,
        Err(error) => {
            return Err(error);
        },
    };
    if read_u64(bytes, 0) != LINEAR_SUPERBLOCK {
        return Err(RegionError::new(RegionErrorKind::LinearSuperblock));
    }
    let version = bytes[8];
    if version != 1 && version != 2 {
        return Err(RegionError::new(RegionErrorKind::LinearVersion(version)));
    }
    let chunk_count = read_u16(bytes, 18);
    let compressed_len = read_u32(bytes, 20) as usize;
    if compressed_len != length - FILE_FOOTER_SIZE - FILE_HEADER_SIZE {
        return Err(RegionError::new(RegionErrorKind::LinearLength));
    }
    let footer = FILE_HEADER_SIZE + compressed_len;
    if read_u64(bytes, footer) != LINEAR_SUPERBLOCK {
        return Err(RegionError::new(RegionErrorKind::LinearFooter));
    }
    let compressed = vstd::slice::slice_subrange(bytes, FILE_HEADER_SIZE, footer);
    match zstd_stream_decode(compressed) {
        Ok(data) => read_payload(region_x, region_z, chunk_count, data.as_slice()),
        Err(text) => Err(RegionError::with_detail(RegionErrorKind::Decompression, text)),
    }
}

/// The entry of `slot` in the table.
pub open spec fn table_entry(slot: Option<ChunkView>) -> Seq<u8> {
    match slot {
        Some(chunk) => bytes::be_u32(chunk.raw_nbt.len() as u32) + bytes::be_u32(
            formats::seconds_of(chunk.timestamp),
        ),
        None => bytes::be_u32(0) + bytes::be_u32(0),
    }
}

/// The table of `slots`.
pub open spec fn table_bytes(slots: Seq<Option<ChunkView>>) -> Seq<u8>
    decreases slots.len(),
{
    if slots.len() == 0 {
        seq![]
    } else {
        table_bytes(slots.drop_last()) + table_entry(slots.last())
    }
}

/// The data of the chunk in `slot`.
pub open spec fn slot_payload(slot: Option<ChunkView>) -> Seq<u8> {
    match slot {
        Some(chunk) => chunk.raw_nbt,
        None => seq![],
    }
}

/// The data of the chunks in `slots`, one after the other.
pub open spec fn payload_bytes(slots: Seq<Option<ChunkView>>) -> Seq<u8>
    decreases slots.len(),
{
    if slots.len() == 0 {
        seq![]
    } else {
        payload_bytes(slots.drop_last()) + slot_payload(slots.last())
    }
}

/// The greatest timestamp in seconds, or 0 where there is none.
pub open spec fn newest_seconds(slots: Seq<Option<ChunkView>>) -> u32
    decreases slots.len(),
{
    if slots.len() == 0 {
        0
    } else {
        let before = newest_seconds(slots.drop_last());
        match slots.last() {
            Some(chunk) => if formats::seconds_of(chunk.timestamp) > before {
                formats::seconds_of(chunk.timestamp)
            } else {
                before
            },
            None => before,
        }
    }
}

/// Whether each chunk of `slots` is short enough for the table.
pub open spec fn slots_fit(slots: Seq<Option<ChunkView>>) -> bool {
    forall|i: int|
        0 <= i < slots.len() ==> match #[trigger] slots[i] {
            Some(chunk) => chunk.raw_nbt.len() <= u32::MAX,
            None => true,
        }
}

/// The file with the payload that is compressed to `frame`, with `chunk_count` chunks
/// the newest of which is of the second `newest`.
pub open spec fn framed_bytes(newest: u32, chunk_count: u16, level: i32, frame: Seq<u8>) -> Seq<u8> {
    bytes::be_u64(LINEAR_SUPERBLOCK) + seq![1u8] + bytes::be_u64(newest as u64) + seq![level as u8]
        + bytes::be_u16(chunk_count) + bytes::be_u32(frame.len() as u32) + bytes::be_u64(0) + frame
        + bytes::be_u64(LINEAR_SUPERBLOCK)
}

/// The file with `slots`, whose payload is compressed to `frame`.
pub open spec fn file_bytes(slots: Seq<Option<ChunkView>>, level: i32, frame: Seq<u8>) -> Seq<u8> {
    framed_bytes(newest_seconds(slots), model::occupied(slots).len() as u16, level, frame)
}

/// The file with a payload of `raw_len` bytes and that outcome of its compression.
pub open spec fn frame_outcome(
    newest: u32,
    chunk_count: u16,
    raw_len: nat,
    level: i32,
    compressed: Result<Seq<u8>, Seq<char>>,
) -> Result<EncodedView, RegionFault> {
    match compressed {
        Err(text) => Err(RegionFault { kind: RegionErrorKind::LinearCompression, detail: text }),
        Ok(frame) => if frame.len() > u32::MAX {
            Err(error::region_fault(RegionErrorKind::LinearCompressedTooLarge))
        } else {
            Ok(
                formats::single_file(
                    framed_bytes(newest, chunk_count, level, frame),
                    seq![
                        EncodedUnit {
                            raw_len: raw_len as usize,
                            compressed_len: frame.len() as usize,
                        },
                    ],
                ),
            )
        },
    }
}

/// The table and the data of `slots`.
pub open spec fn raw_bytes(slots: Seq<Option<ChunkView>>) -> Seq<u8> {
    table_bytes(slots) + payload_bytes(slots)
}

/// The file that `region` is written to.
pub open spec fn encoded_region(region: RegionView, level: i32) -> Result<
    EncodedView,
    RegionFault,
> {
    let raw = raw_bytes(region.chunks);
    if !slots_fit(region.chunks) {
        Err(error::region_fault(RegionErrorKind::LinearChunkTooLarge))
    } else {
        frame_outcome(
            newest_seconds(region.chunks),
            model::occupied(region.chunks).len() as u16,
            raw.len(),
            level,
            codec::zstd_bulk_compressed(raw, level),
        )
    }
}

/// A payload before it is compressed, and what the header tells of it.
#[derive(Debug)]
pub struct RawPayload {
    pub bytes: Vec<u8>,
    pub chunk_count: u16,
    pub newest: u32,
}

/// The payload of `region`.
pub fn raw_payload(region: &Region) -> (result: Result<RawPayload, RegionError>)
    requires
        region.well_formed(),
    ensures
        match result {
            Ok(payload) => {
                &&& slots_fit(region@.chunks)
                &&& payload.bytes@ == raw_bytes(region@.chunks)
                &&& payload.chunk_count == model::occupied(region@.chunks).len()
                &&& payload.newest == newest_seconds(region@.chunks)
            },
            Err(error) => !slots_fit(region@.chunks) && error@ == error::region_fault(
                RegionErrorKind::LinearChunkTooLarge,
            ),
        },
{
    let ghost slots = region@.chunks;
    let mut complete: Vec<u8> = Vec::new();
    let mut payload: Vec<u8> = Vec::new();
    let mut chunk_count: u16 = 0;
    let mut newest: u32 = 0;
    let mut index: usize = 0;
    while index < REGION_CHUNK_COUNT
        invariant
            region.well_formed(),
            slots == region@.chunks,
            index <= REGION_CHUNK_COUNT,
            chunk_count <= index,
            chunk_count == model::occupied(slots.take(index as int)).len(),
            newest == newest_seconds(slots.take(index as int)),
            complete@ == table_bytes(slots.take(index as int)),
            payload@ == payload_bytes(slots.take(index as int)),
            slots_fit(slots.take(index as int)),
        decreases REGION_CHUNK_COUNT - index,
    {
        let ghost first = slots.take(index as int);
        let ghost next = slots.take(index + 1);
        assert(next.drop_last() =~= first);
        match region.chunk(index) {
            Some(chunk) => {
                if chunk.raw_nbt.len() > u32::MAX as usize {
                    assert(slots[index as int] == Some(chunk@));
                    return Err(RegionError::new(RegionErrorKind::LinearChunkTooLarge));
                }
                let (timestamp, _) = normalize_timestamp_to_u32(chunk.timestamp);
                if timestamp > newest {
                    newest = timestamp;
                }
                chunk_count = chunk_count + 1;
                push_u32(&mut complete, chunk.raw_nbt.len() as u32);
                push_u32(&mut complete, timestamp);
                bytes::append(&mut payload, chunk.raw_nbt.as_slice());
            },
            None => {
                push_u32(&mut complete, 0);
                push_u32(&mut complete, 0);
                assert(payload@ =~= payload_bytes(first) + slot_payload(None));
            },
        }
        assert(complete@ =~= table_bytes(first) + table_entry(slots[index as int]));
        assert forall|i: int| 0 <= i < next.len() implies match #[trigger] next[i] {
            Some(chunk) => chunk.raw_nbt.len() <= u32::MAX,
            None => true,
        } by {
            if i < index {
                assert(first[i] == next[i]);
            }
        }
        index = index + 1;
    }
    assert(slots.take(index as int) =~= slots);
    bytes::append(&mut complete, payload.as_slice());
    Ok(RawPayload { bytes: complete, chunk_count, newest })
}

/// The file with `payload`, whose compression came out as `compressed`.
pub fn frame_payload(
    payload: &RawPayload,
    compression_level: i32,
    compressed: Result<Vec<u8>, String>,
) -> (result: Result<EncodedRegion, RegionError>)
    ensures
        formats::encode_result(result) == frame_outcome(
            payload.newest,
            payload.chunk_count,
            payload.bytes@.len(),
            compression_level,
            codec::result_view(compressed),
        ),
{
    let frame = match compressed {
        Ok(frame) => frame,
        Err(text) => {
            return Err(RegionError::with_detail(RegionErrorKind::LinearCompression, text));
        },
    };
    if frame.len() > u32::MAX as usize {
        return Err(RegionError::new(RegionErrorKind::LinearCompressedTooLarge));
    }
    let mut main_file_bytes: Vec<u8> = Vec::new();
    push_u64(&mut main_file_bytes, LINEAR_SUPERBLOCK);
    main_file_bytes.push(1);
    push_u64(&mut main_file_bytes, payload.newest as u64);
    main_file_bytes.push(compression_level as u8);
    push_u16(&mut main_file_bytes, payload.chunk_count);
    push_u32(&mut main_file_bytes, frame.len() as u32);
    push_u64(&mut main_file_bytes, 0);
    bytes::append(&mut main_file_bytes, frame.as_slice());
    push_u64(&mut main_file_bytes, LINEAR_SUPERBLOCK);
    assert(main_file_bytes@ =~= framed_bytes(
        payload.newest,
        payload.chunk_count,
        compression_level,
        frame@,
    ));
    let mut units: Vec<EncodedUnit> = Vec::new();
    units.push(EncodedUnit { raw_len: payload.bytes.len(), compressed_len: frame.len() });
    Ok(EncodedRegion::single(main_file_bytes, units))
}

/// Writes `region` at the compression level `compression_level`.
pub fn encode_region(region: &Region, compression_level: i32) -> (result: Result<
    EncodedRegion,
    RegionError,
>)
    requires
        region.well_formed(),
    ensures
        formats::encode_result(result) == encoded_region(region@, compression_level),
        result matches Ok(encoded) ==> formats::no_empty_chunk(region@.chunks) ==> forall|path: PathView|
            formats::names_region(path, region@) ==> #[trigger] read_outcome(
                path,
                encoded.main_file_bytes@,
            ) == Ok::<ReadView, RegionFault>(formats::all_read(formats::seconds_region(region@))),
{
    let payload = match raw_payload(region) {
        Ok(payload) => payload,
        Err(error) => {
            return Err(error);
        },
    };
    let compressed = zstd_compress(payload.bytes.as_slice(), compression_level);
    let ghost outcome = codec::result_view(compressed);
    assert(payload_bytes(region@.chunks).len() <= payload.bytes.len());
    let result = frame_payload(&payload, compression_level, compressed);
    proof {
        if result is Ok && formats::no_empty_chunk(region@.chunks) {
            lemma_reads_back_anywhere(region@, compression_level, outcome->Ok_0);
        }
    }
    result
}

/// A region that was written reads back from any file that is named after it.
proof fn lemma_reads_back_anywhere(region: RegionView, level: i32, frame: Seq<u8>)
    requires
        region.chunks.len() == REGION_CHUNK_COUNT,
        slots_fit(region.chunks),
        formats::no_empty_chunk(region.chunks),
        payload_bytes(region.chunks).len() <= usize::MAX,
        frame.len() <= u32::MAX,
        codec::yields(codec::zstd_stream_decoded(frame), raw_bytes(region.chunks)),
    ensures
        forall|path: PathView|
            formats::names_region(path, region) ==> #[trigger] read_outcome(
                path,
                file_bytes(region.chunks, level, frame),
            ) == Ok::<ReadView, RegionFault>(formats::all_read(formats::seconds_region(region))),
{
    assert forall|path: PathView| formats::names_region(path, region) implies #[trigger] read_outcome(
        path,
        file_bytes(region.chunks, level, frame),
    ) == Ok::<ReadView, RegionFault>(formats::all_read(formats::seconds_region(region))) by {
        law_region_reads_back(region, level, frame, path);
    }
}

/// The table takes eight bytes for each slot, in order.
pub proof fn lemma_table_entry_at(slots: Seq<Option<ChunkView>>, i: int)
    requires
        0 <= i < slots.len(),
    ensures
        table_bytes(slots).len() == 8 * slots.len(),
        table_bytes(slots).subrange(8 * i, 8 * i + 8) == table_entry(slots[i]),
    decreases slots.len(),
{
    let before = slots.drop_last();
    if i < before.len() {
        lemma_table_entry_at(before, i);
        assert(table_bytes(slots).subrange(8 * i, 8 * i + 8) =~= table_bytes(before).subrange(
            8 * i,
            8 * i + 8,
        ));
    } else {
        if before.len() > 0 {
            lemma_table_entry_at(before, 0);
        }
        assert(table_bytes(before).len() == 8 * i);
        assert(table_bytes(slots).subrange(8 * i, 8 * i + 8) =~= table_entry(slots[i]));
    }
}

/// The chunks of the first slots start the chunks of them all.
proof fn lemma_payload_prefix(slots: Seq<Option<ChunkView>>, n: int)
    requires
        0 <= n <= slots.len(),
    ensures
        payload_bytes(slots.take(n)).len() <= payload_bytes(slots).len(),
        payload_bytes(slots).take(payload_bytes(slots.take(n)).len() as int) == payload_bytes(
            slots.take(n),
        ),
    decreases slots.len(),
{
    let part = payload_bytes(slots.take(n));
    if n < slots.len() {
        assert(slots.drop_last().take(n) =~= slots.take(n));
        lemma_payload_prefix(slots.drop_last(), n);
        assert(payload_bytes(slots).take(part.len() as int) =~= payload_bytes(
            slots.drop_last(),
        ).take(part.len() as int));
    } else {
        assert(slots.take(n) =~= slots);
        assert(payload_bytes(slots).take(part.len() as int) =~= part);
    }
}

/// The table of a written payload tells the length and the timestamp of each chunk.
proof fn lemma_entry_reads_back(slots: Seq<Option<ChunkView>>, i: int)
    requires
        slots_fit(slots),
        0 <= i < slots.len(),
    ensures
        ({
            let data = table_bytes(slots) + payload_bytes(slots);
            &&& table_size(data, i) == slot_payload(slots[i]).len()
            &&& slots[i] matches Some(chunk) ==> bytes::u32_at(data, 8 * i + 4)
                == formats::seconds_of(chunk.timestamp)
        }),
{
    let data = table_bytes(slots) + payload_bytes(slots);
    let entry = table_entry(slots[i]);
    lemma_table_entry_at(slots, i);
    assert(data.subrange(8 * i, 8 * i + 8) =~= table_bytes(slots).subrange(8 * i, 8 * i + 8));
    assert(data.subrange(8 * i, 8 * i + 4) =~= data.subrange(8 * i, 8 * i + 8).subrange(0, 4));
    assert(data.subrange(8 * i + 4, 8 * i + 8) =~= data.subrange(8 * i, 8 * i + 8).subrange(4, 8));
    match slots[i] {
        Some(chunk) => {
            assert(entry.subrange(0, 4) =~= bytes::be_u32(chunk.raw_nbt.len() as u32));
            bytes::lemma_u32_at_be_u32(data, 8 * i, chunk.raw_nbt.len() as u32);
            let seconds = formats::seconds_of(chunk.timestamp);
            assert(entry.subrange(4, 8) =~= bytes::be_u32(seconds));
            bytes::lemma_u32_at_be_u32(data, 8 * i + 4, seconds);
        },
        None => {
            assert(entry.subrange(0, 4) =~= bytes::be_u32(0));
            bytes::lemma_u32_at_be_u32(data, 8 * i, 0);
        },
    }
}

/// The table of a written payload tells the number and the length of the chunks.
proof fn lemma_table_reads_back(slots: Seq<Option<ChunkView>>, n: int)
    requires
        slots_fit(slots),
        formats::no_empty_chunk(slots),
        0 <= n <= slots.len(),
    ensures
        ({
            let data = table_bytes(slots) + payload_bytes(slots);
            &&& table_total(data, n) == payload_bytes(slots.take(n)).len()
            &&& table_count(data, n) == model::occupied(slots.take(n)).len()
        }),
    decreases n,
{
    if n > 0 {
        lemma_table_reads_back(slots, n - 1);
        lemma_entry_reads_back(slots, n - 1);
        assert(slots.take(n).drop_last() =~= slots.take(n - 1));
        assert(slots[n - 1] matches Some(chunk) ==> chunk.raw_nbt.len() > 0);
    }
}

/// A chunk of a written payload reads back, with its timestamp in seconds.
proof fn lemma_slot_reads_back(slots: Seq<Option<ChunkView>>, i: int)
    requires
        slots_fit(slots),
        formats::no_empty_chunk(slots),
        slots.len() == REGION_CHUNK_COUNT,
        0 <= i < slots.len(),
    ensures
        payload_slot(table_bytes(slots) + payload_bytes(slots), i) == formats::seconds_slots(
            slots,
        )[i],
{
    let data = table_bytes(slots) + payload_bytes(slots);
    lemma_entry_reads_back(slots, i);
    lemma_table_entry_at(slots, i);
    match slots[i] {
        Some(chunk) => {
            let first = payload_bytes(slots.take(i));
            let upto = payload_bytes(slots.take(i + 1));
            lemma_table_reads_back(slots, i);
            lemma_payload_prefix(slots, i + 1);
            assert(slots.take(i + 1).drop_last() =~= slots.take(i));
            assert(upto == first + chunk.raw_nbt);
            let start = INNER_HEADER_SIZE + first.len();
            assert(data.subrange(start as int, start + chunk.raw_nbt.len())
                =~= payload_bytes(slots).take(upto.len() as int).skip(first.len() as int));
            assert(upto.skip(first.len() as int) =~= chunk.raw_nbt);
        },
        None => {},
    }
}

/// The parts of a written file stand where they are looked for.
pub proof fn lemma_file_parts(slots: Seq<Option<ChunkView>>, level: i32, frame: Seq<u8>)
    requires
        slots.len() == REGION_CHUNK_COUNT,
        frame.len() <= u32::MAX,
    ensures
        ({
            let file = file_bytes(slots, level, frame);
            let footer = FILE_HEADER_SIZE + frame.len();
            &&& file.len() == footer + FILE_FOOTER_SIZE
            &&& bytes::u64_at(file, 0) == LINEAR_SUPERBLOCK
            &&& file[8] == 1
            &&& bytes::u16_at(file, 18) == model::occupied(slots).len()
            &&& bytes::u32_at(file, 20) == frame.len()
            &&& bytes::u64_at(file, footer as int) == LINEAR_SUPERBLOCK
            &&& file.subrange(FILE_HEADER_SIZE as int, footer as int) == frame
        }),
{
    let file = file_bytes(slots, level, frame);
    let footer = FILE_HEADER_SIZE + frame.len();
    model::lemma_occupied_bounded(slots);
    assert(file.subrange(0, 8) =~= bytes::be_u64(LINEAR_SUPERBLOCK));
    bytes::lemma_u64_at_be_u64(file, 0, LINEAR_SUPERBLOCK);
    assert(file.subrange(18, 20) =~= bytes::be_u16(model::occupied(slots).len() as u16));
    bytes::lemma_u16_at_be_u16(file, 18, model::occupied(slots).len() as u16);
    assert(file.subrange(20, 24) =~= bytes::be_u32(frame.len() as u32));
    bytes::lemma_u32_at_be_u32(file, 20, frame.len() as u32);
    assert(file.subrange(footer as int, footer + 8) =~= bytes::be_u64(LINEAR_SUPERBLOCK));
    bytes::lemma_u64_at_be_u64(file, footer as int, LINEAR_SUPERBLOCK);
    assert(file.subrange(FILE_HEADER_SIZE as int, footer as int) =~= frame);
}

/// A region that was written reads back whole, without a diagnostic, with the
/// timestamps of its chunks in seconds, where none of its chunks is empty and
/// `frame` is a frame from which its payload can be had back.
pub proof fn law_region_reads_back(region: RegionView, level: i32, frame: Seq<u8>, path: PathView)
    requires
        region.chunks.len() == REGION_CHUNK_COUNT,
        slots_fit(region.chunks),
        formats::no_empty_chunk(region.chunks),
        payload_bytes(region.chunks).len() <= usize::MAX,
        frame.len() <= u32::MAX,
        codec::yields(codec::zstd_stream_decoded(frame), raw_bytes(region.chunks)),
        formats::names_region(path, region),
    ensures
        read_outcome(path, file_bytes(region.chunks, level, frame)) == Ok::<ReadView, RegionFault>(
            formats::all_read(formats::seconds_region(region)),
        ),
{
    let slots = region.chunks;
    let data = raw_bytes(slots);
    let whole = Seq::new(REGION_CHUNK_COUNT as nat, |i: int| payload_slot(data, i));
    lemma_file_parts(slots, level, frame);
    lemma_table_reads_back(slots, REGION_CHUNK_COUNT as int);
    lemma_table_entry_at(slots, 0);
    assert(slots.take(REGION_CHUNK_COUNT as int) =~= slots);
    assert forall|i: int| 0 <= i < REGION_CHUNK_COUNT implies #[trigger] whole[i]
        == formats::seconds_slots(slots)[i] by {
        lemma_slot_reads_back(slots, i);
    }
    assert(whole =~= formats::seconds_slots(slots));
}

} // verus!
