//! The mca format: a table with the place of each chunk, a table with the timestamp
//! of each chunk, and the compressed chunks in sectors of 4 KiB. A chunk that does
//! not fit into 255 sectors stands in a file of its own.

use vstd::prelude::*;
use vstd::string::*;

use crate::bytes::{self, push_u32, read_u32};
use crate::codec::{self, gzip_decompress, zlib_compress, zlib_decompress};
use crate::diagnostic::DiagnosticCode;
use crate::error::{
    self, ChunkError, ChunkErrorKind, ChunkFault, RegionError, RegionErrorKind, RegionFault,
};
use crate::formats::{
    self, normalize_timestamp_to_u32, parse_region_coords_from_path, EncodedRegion, EncodedUnit,
    EncodedView, ReadOutcome, ReadView, SidecarFile, SidecarView,
};
use crate::model::{self, ChunkData, ChunkView, Region, RegionView, REGION_CHUNK_COUNT, REGION_SIDE};
use crate::path::{PathView, SavePath};
use crate::text::{self, push_decimal, push_signed};

verus! {

/// The length of the two tables.
pub const MCA_HEADER_SIZE: usize = 8192;

/// The length of a sector.
pub const MCA_SECTOR_SIZE: usize = 4096;

/// The compression type of a chunk that is compressed with gzip.
pub const MCA_COMPRESSION_GZIP: u8 = 1;

/// The compression type of a chunk that is compressed with zlib.
pub const MCA_COMPRESSION_ZLIB: u8 = 2;

/// What is added to the compression type of a chunk in a file of its own.
pub const MCA_EXTERNAL_FLAG: u8 = 128;

/// The compression type of a chunk in a file of its own, compressed with zlib.
pub const MCA_EXTERNAL_ZLIB: u8 = 130;

/// The greatest length of a chunk in the region file, with its length and type.
pub const MAX_INLINE_SIZE: usize = 1_044_480;

/// The content of the file that holds the chunk `index`, or why it cannot be read.
#[derive(Debug)]
pub struct ExternalChunk {
    pub index: usize,
    pub payload: Result<Vec<u8>, String>,
}

/// What is known of the chunk files beside a region file, by slot.
pub type Externals = Seq<ExternalChunk>;

/// What is known of the file that holds the chunk `index`.
pub open spec fn external_of(externals: Externals, index: int) -> Option<
    Result<Seq<u8>, Seq<char>>,
>
    decreases externals.len(),
{
    if externals.len() == 0 {
        None
    } else if externals.last().index == index {
        Some(codec::result_view(externals.last().payload))
    } else {
        external_of(externals.drop_last(), index)
    }
}

/// The name `c.<x>.<z>.mcc` of the file that holds the chunk `index` of the region at
/// `(region_x, region_z)`, by the coordinates of the chunk in the world.
pub open spec fn chunk_file_name(region_x: i32, region_z: i32, index: int) -> Seq<char> {
    "c."@ + text::signed_decimal(region_x * REGION_SIDE + index % (REGION_SIDE as int)) + "."@
        + text::signed_decimal(region_z * REGION_SIDE + index / (REGION_SIDE as int)) + ".mcc"@
}

/// The name of the file that holds the chunk `index` of the region at
/// `(region_x, region_z)`.
pub fn external_chunk_file_name(region_x: i32, region_z: i32, index: usize) -> (name: String)
    requires
        index < REGION_CHUNK_COUNT,
    ensures
        name@ == chunk_file_name(region_x, region_z, index as int),
{
    let mut name = "c.".to_owned();
    push_signed(&mut name, region_x as i64 * REGION_SIDE as i64 + (index % REGION_SIDE) as i64);
    name.append(".");
    push_signed(&mut name, region_z as i64 * REGION_SIDE as i64 + (index / REGION_SIDE) as i64);
    name.append(".mcc");
    name
}

/// The sector at which the chunk `i` starts.
pub open spec fn sector_index(bytes: Seq<u8>, i: int) -> int {
    bytes::u32_at(bytes, 4 * i) as int / 256
}

/// The number of sectors of the chunk `i`.
pub open spec fn sector_count(bytes: Seq<u8>, i: int) -> int {
    bytes::u32_at(bytes, 4 * i) as int % 256
}

/// Where the chunk `i` starts.
pub open spec fn chunk_offset(bytes: Seq<u8>, i: int) -> int {
    sector_index(bytes, i) * MCA_SECTOR_SIZE
}

/// Where the sectors of the chunk `i` end.
pub open spec fn chunk_limit(bytes: Seq<u8>, i: int) -> int {
    chunk_offset(bytes, i) + sector_count(bytes, i) * MCA_SECTOR_SIZE
}

/// Whether the chunk `i` stands in a file of its own.
pub open spec fn is_external(bytes: Seq<u8>, i: int) -> bool {
    &&& sector_index(bytes, i) != 0
    &&& sector_count(bytes, i) != 0
    &&& chunk_offset(bytes, i) + 5 <= bytes.len()
    &&& bytes[chunk_offset(bytes, i) + 4] >= MCA_EXTERNAL_FLAG
}

/// A message about the slot `index` of the file `path`.
pub open spec fn slot_text(path: PathView, index: usize, rest: Seq<char>) -> Seq<char> {
    "chunk slot "@ + text::decimal(index as nat) + " in "@ + path.text() + rest
}

fn slot_message(path: &SavePath, index: usize, rest: &str) -> (message: String)
    ensures
        message@ == slot_text(path@, index, rest@),
{
    let mut message = "chunk slot ".to_owned();
    push_decimal(&mut message, index as u64);
    message.append(" in ");
    message.append(path.text().as_str());
    message.append(rest);
    message
}

/// The decompressed form of `data`, compressed as `compression_id` tells.
pub open spec fn decompressed(compression_id: int, data: Seq<u8>) -> Result<Seq<u8>, ChunkFault> {
    let result = if compression_id == MCA_COMPRESSION_GZIP {
        codec::gzip_decoded(data)
    } else {
        codec::zlib_decoded(data)
    };
    if compression_id != MCA_COMPRESSION_GZIP && compression_id != MCA_COMPRESSION_ZLIB {
        Err(error::chunk_fault(ChunkErrorKind::UnsupportedCompression(compression_id as u8)))
    } else {
        match result {
            Ok(raw) => Ok(raw),
            Err(text) => Err(
                ChunkFault { kind: ChunkErrorKind::DecompressionFailed, detail: text },
            ),
        }
    }
}

/// The data of the chunk `i`, whose sectors lie within the file.
pub open spec fn chunk_payload(
    bytes: Seq<u8>,
    externals: Externals,
    region_x: i32,
    region_z: i32,
    i: int,
) -> Result<Seq<u8>, ChunkFault> {
    let offset = chunk_offset(bytes, i);
    let length = bytes::u32_at(bytes, offset) as int;
    let compression_id = bytes[offset + 4] as int % 128;
    if bytes[offset + 4] >= MCA_EXTERNAL_FLAG {
        match external_of(externals, i) {
            Some(Ok(data)) => decompressed(compression_id, data),
            Some(Err(text)) => Err(
                ChunkFault { kind: ChunkErrorKind::ExternalUnreadable, detail: text },
            ),
            None => Err(
                ChunkFault {
                    kind: ChunkErrorKind::ExternalUnreadable,
                    detail: "failed to read external chunk file "@ + chunk_file_name(
                        region_x,
                        region_z,
                        i,
                    ),
                },
            ),
        }
    } else if length < 1 {
        Err(error::chunk_fault(ChunkErrorKind::LengthTooShort))
    } else if offset + 4 + length > chunk_limit(bytes, i) {
        Err(error::chunk_fault(ChunkErrorKind::ExceedsAllocation))
    } else {
        decompressed(compression_id, bytes.subrange(offset + 5, offset + 4 + length))
    }
}

/// What is read once the data of the chunk `index` is known: the chunk is kept, or a
/// warning stands for it.
pub open spec fn payload_kept(
    path: PathView,
    index: usize,
    timestamp: u32,
    payload: Result<Seq<u8>, ChunkFault>,
    read: ReadView,
) -> ReadView {
    match payload {
        Err(fault) => read.warned_at(
            path,
            DiagnosticCode::CorruptChunk,
            slot_text(
                path,
                index,
                " is corrupted and was skipped: "@ + error::chunk_error_text(
                    fault.kind,
                    fault.detail,
                ),
            ),
            index,
        ).discarding(),
        Ok(raw) => if raw.len() == 0 {
            read.warned_at(
                path,
                DiagnosticCode::CorruptChunk,
                slot_text(path, index, " decompressed to an empty payload and was skipped"@),
                index,
            ).discarding()
        } else {
            read.with_chunk(
                index as int,
                ChunkView { timestamp: timestamp as i64, raw_nbt: raw },
            )
        },
    }
}

/// What is read once the slot `index` has been read.
pub open spec fn slot_read(
    path: PathView,
    bytes: Seq<u8>,
    externals: Externals,
    index: usize,
    read: ReadView,
) -> ReadView {
    let i = index as int;
    if sector_index(bytes, i) == 0 && sector_count(bytes, i) == 0 {
        read
    } else if sector_index(bytes, i) == 0 || sector_count(bytes, i) == 0 {
        read.warned_at(
            path,
            DiagnosticCode::InvalidMetadata,
            slot_text(path, index, " has an invalid sector pointer and was skipped"@),
            index,
        ).discarding()
    } else if chunk_limit(bytes, i) > bytes.len() || chunk_offset(bytes, i) + 5 > bytes.len() {
        read.warned_at(
            path,
            DiagnosticCode::SkippedData,
            slot_text(path, index, " points outside the region file and was skipped"@),
            index,
        ).discarding()
    } else {
        payload_kept(
            path,
            index,
            bytes::u32_at(bytes, MCA_SECTOR_SIZE + 4 * i),
            chunk_payload(bytes, externals, read.region.region_x, read.region.region_z, i),
            read,
        )
    }
}

/// What is read once the first `n` slots have been read.
pub open spec fn slots_read(
    path: PathView,
    bytes: Seq<u8>,
    externals: Externals,
    n: nat,
    read: ReadView,
) -> ReadView
    decreases n,
{
    if n == 0 {
        read
    } else {
        slot_read(
            path,
            bytes,
            externals,
            (n - 1) as usize,
            slots_read(path, bytes, externals, (n - 1) as nat, read),
        )
    }
}

/// What reading the file `path` with the content `bytes` gives.
pub open spec fn read_outcome(path: PathView, bytes: Seq<u8>, externals: Externals) -> Result<
    ReadView,
    RegionFault,
> {
    if bytes.len() < MCA_HEADER_SIZE {
        Err(error::region_fault(RegionErrorKind::McaTooSmall))
    } else {
        match formats::path_coords(path) {
            Err(kind) => Err(error::region_fault(kind)),
            Ok((region_x, region_z)) => Ok(
                slots_read(
                    path,
                    bytes,
                    externals,
                    REGION_CHUNK_COUNT as nat,
                    formats::nothing_read(region_x, region_z),
                ),
            ),
        }
    }
}

/// The number of the first `n` slots that point to a chunk, readable or not.
pub open spec fn used_slots(bytes: Seq<u8>, n: int) -> nat
    decreases n,
{
    if n <= 0 {
        0
    } else {
        used_slots(bytes, n - 1) + if sector_index(bytes, n - 1) == 0 && sector_count(
            bytes,
            n - 1,
        ) == 0 {
            0
        } else {
            1nat
        }
    }
}

/// Of the slots read so far, each that points to a chunk gave a chunk or a warning.
proof fn lemma_slots_counted(
    path: PathView,
    bytes: Seq<u8>,
    externals: Externals,
    n: nat,
    region_x: i32,
    region_z: i32,
)
    requires
        n <= REGION_CHUNK_COUNT,
    ensures
        ({
            let read = slots_read(
                path,
                bytes,
                externals,
                n,
                formats::nothing_read(region_x, region_z),
            );
            &&& formats::discards_warned(read)
            &&& read.discarded_chunks == read.diagnostics.len()
            &&& read.region.chunks.len() == REGION_CHUNK_COUNT
            &&& forall|i: int|
                n <= i < REGION_CHUNK_COUNT ==> #[trigger] read.region.chunks[i] is None
            &&& model::occupied(read.region.chunks).len() + read.discarded_chunks == used_slots(
                bytes,
                n as int,
            )
        }),
    decreases n,
{
    let nothing = formats::nothing_read(region_x, region_z);
    if n == 0 {
        model::lemma_occupied_empty(nothing.region.chunks);
    } else {
        lemma_slots_counted(path, bytes, externals, (n - 1) as nat, region_x, region_z);
        let before = slots_read(path, bytes, externals, (n - 1) as nat, nothing);
        let after = slots_read(path, bytes, externals, n, nothing);
        let i = n - 1;
        assert(before.region.chunks[i] is None);
        if after.diagnostics.len() > before.diagnostics.len() {
            formats::lemma_warned_stays(before, after.diagnostics.last());
        } else if after != before {
            model::lemma_occupied_update(
                before.region.chunks,
                i,
                after.region.chunks[i]->0,
            );
        }
    }
}

/// Each slot of a region file that points to a chunk is read as one, or the chunk is
/// counted as given up, with one warning.
pub proof fn law_every_chunk_is_accounted_for(path: PathView, bytes: Seq<u8>, externals: Externals)
    ensures
        match read_outcome(path, bytes, externals) {
            Ok(read) => {
                &&& model::occupied(read.region.chunks).len() + read.discarded_chunks
                    == used_slots(bytes, REGION_CHUNK_COUNT as int)
                &&& read.diagnostics.len() == read.discarded_chunks
            },
            Err(_) => true,
        },
{
    if let Ok((region_x, region_z)) = formats::path_coords(path) {
        lemma_slots_counted(
            path,
            bytes,
            externals,
            REGION_CHUNK_COUNT as nat,
            region_x,
            region_z,
        );
    }
}

/// What is read of a file tells of each chunk that was given up.
pub proof fn lemma_discards_warned(path: PathView, bytes: Seq<u8>, externals: Externals)
    ensures
        match read_outcome(path, bytes, externals) {
            Ok(read) => formats::discards_warned(read),
            Err(_) => true,
        },
{
    if let Ok((region_x, region_z)) = formats::path_coords(path) {
        lemma_slots_counted(
            path,
            bytes,
            externals,
            REGION_CHUNK_COUNT as nat,
            region_x,
            region_z,
        );
    }
}

/// The place of a chunk: its first sector and the number of its sectors.
fn read_location(bytes: &[u8], index: usize) -> (location: (u64, u64))
    requires
        index < REGION_CHUNK_COUNT,
        bytes@.len() >= MCA_HEADER_SIZE,
    ensures
        location.0 == sector_index(bytes@, index as int),
        location.1 == sector_count(bytes@, index as int),
        location.0 < 0x100_0000,
        location.1 < 256,
{
    let location = read_u32(bytes, 4 * index);
    ((location / 256) as u64, (location % 256) as u64)
}

/// Where a chunk starts and where its sectors end.
fn chunk_range(bytes: &[u8], index: usize) -> (range: (u64, u64))
    requires
        index < REGION_CHUNK_COUNT,
        bytes@.len() >= MCA_HEADER_SIZE,
    ensures
        range.0 == chunk_offset(bytes@, index as int),
        range.1 == chunk_limit(bytes@, index as int),
        range.0 <= range.1 < 0x100_0000_0000,
{
    let (sector, count) = read_location(bytes, index);
    let offset = sector * MCA_SECTOR_SIZE as u64;
    (offset, offset + count * MCA_SECTOR_SIZE as u64)
}

/// The content of the file that holds the chunk `index`, or the text of the error.
fn find_external(externals: &Vec<ExternalChunk>, index: usize) -> (found: Option<&Result<Vec<u8>, String>>)
    ensures
        match found {
            Some(result) => external_of(externals@, index as int) == Some(
                codec::result_view(*result),
            ),
            None => external_of(externals@, index as int) is None,
        },
{
    let mut i: usize = externals.len();
    assert(externals@.take(i as int) =~= externals@);
    while i > 0
        invariant
            i <= externals.len(),
            external_of(externals@, index as int) == external_of(
                externals@.take(i as int),
                index as int,
            ),
        decreases i,
    {
        assert(externals@.take(i as int).drop_last() =~= externals@.take(i - 1));
        if externals[i - 1].index == index {
            return Some(&externals[i - 1].payload);
        }
        i = i - 1;
    }
    None
}

/// The result of decompressing a chunk, taken by its view.
pub open spec fn payload_result(result: Result<Vec<u8>, ChunkError>) -> Result<
    Seq<u8>,
    ChunkFault,
> {
    match result {
        Ok(raw) => Ok(raw@),
        Err(error) => Err(error@),
    }
}

/// Decompresses `data` as `compression_id` tells.
fn decompress(compression_id: u8, data: &[u8]) -> (result: Result<Vec<u8>, ChunkError>)
    ensures
        payload_result(result) == decompressed(compression_id as int, data@),
{
    let result = if compression_id == MCA_COMPRESSION_GZIP {
        gzip_decompress(data)
    } else if compression_id == MCA_COMPRESSION_ZLIB {
        zlib_decompress(data)
    } else {
        return Err(ChunkError::new(ChunkErrorKind::UnsupportedCompression(compression_id)));
    };
    match result {
        Ok(raw) => Ok(raw),
        Err(text) => Err(ChunkError::with_detail(ChunkErrorKind::DecompressionFailed, text)),
    }
}

/// Reads the data of the chunk `index`, whose sectors lie within the file.
pub fn decode_chunk_payload(
    bytes: &[u8],
    externals: &Vec<ExternalChunk>,
    region_x: i32,
    region_z: i32,
    index: usize,
) -> (result: Result<Vec<u8>, ChunkError>)
    requires
        index < REGION_CHUNK_COUNT,
        bytes@.len() >= MCA_HEADER_SIZE,
        chunk_limit(bytes@, index as int) <= bytes@.len(),
        chunk_offset(bytes@, index as int) + 5 <= bytes@.len(),
    ensures
        payload_result(result) == chunk_payload(
            bytes@,
            externals@,
            region_x,
            region_z,
            index as int,
        ),
{
    let (start, limit) = chunk_range(bytes, index);
    let size = bytes.len();
    let offset = start as usize;
    let compression_type = bytes[offset + 4];
    let compression_id = compression_type % 128;
    if compression_type >= MCA_EXTERNAL_FLAG {
        match find_external(externals, index) {
            Some(Ok(data)) => decompress(compression_id, data.as_slice()),
            Some(Err(text)) => Err(
                ChunkError::with_detail(ChunkErrorKind::ExternalUnreadable, text.clone()),
            ),
            None => {
                let mut detail = "failed to read external chunk file ".to_owned();
                detail.append(external_chunk_file_name(region_x, region_z, index).as_str());
                Err(ChunkError::with_detail(ChunkErrorKind::ExternalUnreadable, detail))
            },
        }
    } else {
        let length = read_u32(bytes, offset) as u64;
        if length < 1 {
            return Err(ChunkError::new(ChunkErrorKind::LengthTooShort));
        }
        if offset as u64 + 4 + length > limit {
            return Err(ChunkError::new(ChunkErrorKind::ExceedsAllocation));
        }
        let end = (offset as u64 + 4 + length) as usize;
        decompress(compression_id, vstd::slice::slice_subrange(bytes, offset + 5, end))
    }
}

/// Keeps the data of the chunk `index`, or warns of it and counts it as given up.
pub fn keep_payload(
    path: &SavePath,
    index: usize,
    timestamp: u32,
    payload: Result<Vec<u8>, ChunkError>,
    outcome: &mut ReadOutcome,
)
    requires
        index < REGION_CHUNK_COUNT,
        old(outcome).well_formed(),
        old(outcome)@.discarded_chunks < usize::MAX,
    ensures
        final(outcome).well_formed(),
        final(outcome)@ == payload_kept(
            path@,
            index,
            timestamp,
            payload_result(payload),
            old(outcome)@,
        ),
{
    match payload {
        Err(error) => {
            let mut rest = " is corrupted and was skipped: ".to_owned();
            rest.append(error.message().as_str());
            let message = slot_message(path, index, rest.as_str());
            outcome.warn_at(path, DiagnosticCode::CorruptChunk, message, index);
            outcome.discard();
        },
        Ok(raw_nbt) => {
            if raw_nbt.len() == 0 {
                let message = slot_message(
                    path,
                    index,
                    " decompressed to an empty payload and was skipped",
                );
                outcome.warn_at(path, DiagnosticCode::CorruptChunk, message, index);
                outcome.discard();
            } else {
                outcome.keep(index, ChunkData { timestamp: timestamp as i64, raw_nbt });
            }
        },
    }
}

fn read_slot(
    path: &SavePath,
    bytes: &[u8],
    externals: &Vec<ExternalChunk>,
    index: usize,
    outcome: &mut ReadOutcome,
)
    requires
        index < REGION_CHUNK_COUNT,
        bytes@.len() >= MCA_HEADER_SIZE,
        old(outcome).well_formed(),
        old(outcome)@.discarded_chunks < usize::MAX,
    ensures
        final(outcome).well_formed(),
        final(outcome)@ == slot_read(path@, bytes@, externals@, index, old(outcome)@),
        final(outcome)@.discarded_chunks <= old(outcome)@.discarded_chunks + 1,
{
    let (sector, count) = read_location(bytes, index);
    if sector == 0 && count == 0 {
        return ;
    }
    if sector == 0 || count == 0 {
        let message = slot_message(path, index, " has an invalid sector pointer and was skipped");
        outcome.warn_at(path, DiagnosticCode::InvalidMetadata, message, index);
        outcome.discard();
        return ;
    }
    let (offset, limit) = chunk_range(bytes, index);
    let size = bytes.len() as u64;
    if limit > size || offset + 5 > size {
        let message = slot_message(path, index, " points outside the region file and was skipped");
        outcome.warn_at(path, DiagnosticCode::SkippedData, message, index);
        outcome.discard();
        return ;
    }
    let timestamp = read_u32(bytes, MCA_SECTOR_SIZE + 4 * index);
    let region_x = outcome.region.region_x;
    let region_z = outcome.region.region_z;
    let payload = decode_chunk_payload(bytes, externals, region_x, region_z, index);
    keep_payload(path, index, timestamp, payload, outcome);
}

/// Reads the file `path` with the content `bytes`, beside which stand the chunk files
/// `externals`.
pub fn read_region_bytes(path: &SavePath, bytes: &[u8], externals: &Vec<ExternalChunk>) -> (result: Result<
    ReadOutcome,
    RegionError,
>)
    ensures
        formats::read_result(result) == read_outcome(path@, bytes@, externals@),
        result matches Ok(outcome) ==> outcome.well_formed(),
{
    if bytes.len() < MCA_HEADER_SIZE {
        return Err(RegionError::new(RegionErrorKind::McaTooSmall));
    }
    let (region_x, region_z) = match parse_region_coords_from_path(path) {
        Ok(coords) => coords,
        Err(error) => {
            return Err(error);
        },
    };
    let mut outcome = ReadOutcome::new(region_x, region_z);
    let mut index: usize = 0;
    while index < REGION_CHUNK_COUNT
        invariant
            index <= REGION_CHUNK_COUNT,
            bytes@.len() >= MCA_HEADER_SIZE,
            outcome.well_formed(),
            outcome@.discarded_chunks <= index,
            outcome@ == slots_read(
                path@,
                bytes@,
                externals@,
                index as nat,
                formats::nothing_read(region_x, region_z),
            ),
        decreases REGION_CHUNK_COUNT - index,
    {
        read_slot(path, bytes, externals, index, &mut outcome);
        index = index + 1;
    }
    Ok(outcome)
}

/// Whether one of the chunks stands in a file of its own.
pub open spec fn uses_external(bytes: Seq<u8>) -> bool {
    exists|i: int| 0 <= i < REGION_CHUNK_COUNT && #[trigger] is_external(bytes, i)
}

fn external_slot(bytes: &[u8], index: usize) -> (external: bool)
    requires
        index < REGION_CHUNK_COUNT,
        bytes@.len() >= MCA_HEADER_SIZE,
    ensures
        external == is_external(bytes@, index as int),
{
    let (sector, count) = read_location(bytes, index);
    if sector == 0 || count == 0 {
        return false;
    }
    let (offset, _) = chunk_range(bytes, index);
    let size = bytes.len();
    if offset + 5 > size as u64 {
        return false;
    }
    bytes[offset as usize + 4] >= MCA_EXTERNAL_FLAG
}

/// Whether one of the chunks of a file with the content `bytes` stands in a file of
/// its own.
pub fn region_uses_external_chunks(bytes: &[u8]) -> (result: Result<bool, RegionError>)
    ensures
        match result {
            Ok(uses) => bytes@.len() >= MCA_HEADER_SIZE && uses == uses_external(bytes@),
            Err(error) => bytes@.len() < MCA_HEADER_SIZE && error@ == error::region_fault(
                RegionErrorKind::McaTooSmall,
            ),
        },
{
    if bytes.len() < MCA_HEADER_SIZE {
        return Err(RegionError::new(RegionErrorKind::McaTooSmall));
    }
    let mut index: usize = 0;
    while index < REGION_CHUNK_COUNT
        invariant
            index <= REGION_CHUNK_COUNT,
            bytes@.len() >= MCA_HEADER_SIZE,
            forall|i: int| 0 <= i < index ==> !#[trigger] is_external(bytes@, i),
        decreases REGION_CHUNK_COUNT - index,
    {
        if external_slot(bytes, index) {
            assert(is_external(bytes@, index as int));
            return Ok(true);
        }
        index = index + 1;
    }
    Ok(false)
}

/// The slots among the first `n` whose chunks stand in files of their own, in order.
pub open spec fn external_slots(bytes: Seq<u8>, n: int) -> Seq<int>
    decreases n,
{
    if n <= 0 {
        seq![]
    } else if is_external(bytes, n - 1) {
        external_slots(bytes, n - 1).push(n - 1)
    } else {
        external_slots(bytes, n - 1)
    }
}

/// A chunk file that a region file refers to.
#[derive(Debug)]
pub struct ExternalFile {
    pub index: usize,
    pub file_name: String,
}

/// The chunk files that the file `path` with the content `bytes` refers to.
pub fn external_chunk_files(path: &SavePath, bytes: &[u8]) -> (result: Result<
    Vec<ExternalFile>,
    RegionError,
>)
    ensures
        match result {
            Ok(files) => {
                let slots = external_slots(bytes@, REGION_CHUNK_COUNT as int);
                &&& bytes@.len() >= MCA_HEADER_SIZE
                &&& formats::path_coords(path@) is Ok
                &&& files@.len() == slots.len()
                &&& forall|k: int|
                    0 <= k < files@.len() ==> {
                        let (region_x, region_z) = formats::path_coords(path@)->Ok_0;
                        &&& (#[trigger] files@[k]).index == slots[k]
                        &&& files@[k].file_name@ == chunk_file_name(region_x, region_z, slots[k])
                    }
            },
            Err(error) => {
                ||| bytes@.len() < MCA_HEADER_SIZE && error@ == error::region_fault(
                    RegionErrorKind::McaTooSmall,
                )
                ||| bytes@.len() >= MCA_HEADER_SIZE && formats::path_coords(path@) == Err::<
                    (i32, i32),
                    RegionErrorKind,
                >(error.kind) && error@ == error::region_fault(error.kind)
            },
        },
{
    if bytes.len() < MCA_HEADER_SIZE {
        return Err(RegionError::new(RegionErrorKind::McaTooSmall));
    }
    let (region_x, region_z) = match parse_region_coords_from_path(path) {
        Ok(coords) => coords,
        Err(error) => {
            return Err(error);
        },
    };
    let mut files: Vec<ExternalFile> = Vec::new();
    let mut index: usize = 0;
    while index < REGION_CHUNK_COUNT
        invariant
            index <= REGION_CHUNK_COUNT,
            bytes@.len() >= MCA_HEADER_SIZE,
            files@.len() == external_slots(bytes@, index as int).len(),
            forall|k: int|
                0 <= k < files@.len() ==> {
                    let slots = external_slots(bytes@, index as int);
                    &&& (#[trigger] files@[k]).index == slots[k]
                    &&& files@[k].file_name@ == chunk_file_name(region_x, region_z, slots[k])
                },
        decreases REGION_CHUNK_COUNT - index,
    {
        if external_slot(bytes, index) {
            let file_name = external_chunk_file_name(region_x, region_z, index);
            files.push(ExternalFile { index, file_name });
        }
        index = index + 1;
    }
    Ok(files)
}

/// The sum of the sizes that are known.
pub open spec fn known_total(sizes: Seq<Option<u64>>) -> nat
    decreases sizes.len(),
{
    if sizes.len() == 0 {
        0
    } else {
        known_total(sizes.drop_last()) + match sizes.last() {
            Some(size) => size as nat,
            None => 0,
        }
    }
}

/// The known sizes of a part add up to no more than those of the whole.
proof fn lemma_known_total_grows(sizes: Seq<Option<u64>>, n: int)
    requires
        0 <= n <= sizes.len(),
    ensures
        known_total(sizes.take(n)) <= known_total(sizes),
    decreases sizes.len(),
{
    if n < sizes.len() {
        assert(sizes.drop_last().take(n) =~= sizes.take(n));
        lemma_known_total_grows(sizes.drop_last(), n);
    } else {
        assert(sizes.take(n) =~= sizes);
    }
}

/// The size of the file `path` with the content `bytes` together with the chunk files
/// that it refers to, whose sizes are `sidecar_sizes` as far as they exist.
pub fn storage_size(path: &SavePath, bytes: &[u8], sidecar_sizes: &Vec<Option<u64>>) -> (result: Result<
    u64,
    RegionError,
>)
    requires
        bytes@.len() + known_total(sidecar_sizes@) <= u64::MAX,
    ensures
        match result {
            Ok(size) => {
                &&& bytes@.len() >= MCA_HEADER_SIZE
                &&& formats::path_coords(path@) is Ok
                &&& size == bytes@.len() + known_total(sidecar_sizes@)
            },
            Err(error) => {
                ||| bytes@.len() < MCA_HEADER_SIZE && error@ == error::region_fault(
                    RegionErrorKind::McaTooSmall,
                )
                ||| bytes@.len() >= MCA_HEADER_SIZE && formats::path_coords(path@) == Err::<
                    (i32, i32),
                    RegionErrorKind,
                >(error.kind) && error@ == error::region_fault(error.kind)
            },
        },
{
    if bytes.len() < MCA_HEADER_SIZE {
        return Err(RegionError::new(RegionErrorKind::McaTooSmall));
    }
    match parse_region_coords_from_path(path) {
        Ok(_) => {},
        Err(error) => {
            return Err(error);
        },
    }
    let mut total = bytes.len() as u64;
    let mut i: usize = 0;
    while i < sidecar_sizes.len()
        invariant
            i <= sidecar_sizes.len(),
            bytes@.len() + known_total(sidecar_sizes@) <= u64::MAX,
            total == bytes@.len() + known_total(sidecar_sizes@.take(i as int)),
        decreases sidecar_sizes.len() - i,
    {
        assert(sidecar_sizes@.take(i + 1).drop_last() =~= sidecar_sizes@.take(i as int));
        proof {
            lemma_known_total_grows(sidecar_sizes@, i + 1);
        }
        if let Some(size) = sidecar_sizes[i] {
            total = total + size;
        }
        i = i + 1;
    }
    assert(sidecar_sizes@.take(i as int) =~= sidecar_sizes@);
    Ok(total)
}

/// `data` with zeros up to a sector boundary.
pub open spec fn padded(data: Seq<u8>) -> Seq<u8> {
    let rest = data.len() % (MCA_SECTOR_SIZE as nat);
    if rest == 0 {
        data
    } else {
        data + Seq::new((MCA_SECTOR_SIZE - rest) as nat, |i: int| 0u8)
    }
}

/// Pads `out` with zeros up to a sector boundary.
pub fn pad_to_sector_boundary(out: &mut Vec<u8>)
    requires
        old(out)@.len() + MCA_SECTOR_SIZE <= usize::MAX,
    ensures
        final(out)@ == padded(old(out)@),
        final(out)@.len() % (MCA_SECTOR_SIZE as nat) == 0,
{
    let ghost data = out@;
    let rest = out.len() % MCA_SECTOR_SIZE;
    if rest != 0 {
        let pad = MCA_SECTOR_SIZE - rest;
        let mut i: usize = 0;
        while i < pad
            invariant
                i <= pad,
                out@ == data + Seq::new(i as nat, |k: int| 0u8),
            decreases pad - i,
        {
            out.push(0);
            i = i + 1;
            assert(out@ =~= data + Seq::new(i as nat, |k: int| 0u8));
        }
    }
}

/// The location of a chunk of `sectors` sectors from the sector `start` on, as it
/// stands in the table.
pub open spec fn location_of(start: int, sectors: int) -> u32 {
    (start * 256 + sectors) as u32
}

/// Whether a compressed chunk needs a file of its own.
pub open spec fn needs_file(stream: Seq<u8>) -> bool {
    stream.len() + 5 > MAX_INLINE_SIZE
}

/// What stands in the sectors of a chunk that is compressed to `stream`.
pub open spec fn record_bytes(stream: Seq<u8>) -> Seq<u8> {
    if needs_file(stream) {
        padded(bytes::be_u32(1).push(MCA_EXTERNAL_ZLIB))
    } else {
        padded(bytes::be_u32((stream.len() + 1) as u32).push(MCA_COMPRESSION_ZLIB) + stream)
    }
}

/// The slots written so far: the two tables, the sectors, and the chunk files.
#[verifier::ext_equal]
pub struct SectorsView {
    pub locations: Seq<u32>,
    pub timestamps: Seq<u32>,
    pub data: Seq<u8>,
    pub sidecars: Seq<SidecarView>,
    pub units: Seq<EncodedUnit>,
}

/// The slots written so far and one more, which holds a chunk.
pub open spec fn chunk_written(
    region_x: i32,
    region_z: i32,
    chunk: ChunkView,
    stream: Seq<u8>,
    before: SectorsView,
) -> SectorsView {
    let record = record_bytes(stream);
    SectorsView {
        locations: before.locations.push(
            location_of(
                (2 + before.data.len() / (MCA_SECTOR_SIZE as nat)) as int,
                (record.len() / (MCA_SECTOR_SIZE as nat)) as int,
            ),
        ),
        timestamps: before.timestamps.push(formats::seconds_of(chunk.timestamp)),
        data: before.data + record,
        sidecars: if needs_file(stream) {
            before.sidecars.push(
                SidecarView {
                    file_name: chunk_file_name(
                        region_x,
                        region_z,
                        before.locations.len() as int,
                    ),
                    bytes: stream,
                },
            )
        } else {
            before.sidecars
        },
        units: before.units.push(
            EncodedUnit {
                raw_len: chunk.raw_nbt.len() as usize,
                compressed_len: stream.len() as usize,
            },
        ),
    }
}

/// The slots written so far and one more, which holds a chunk with that outcome of its
/// compression.
pub open spec fn chunk_outcome(
    region_x: i32,
    region_z: i32,
    chunk: ChunkView,
    compressed: Result<Seq<u8>, Seq<char>>,
    before: SectorsView,
) -> Result<SectorsView, RegionFault> {
    match compressed {
        Err(text) => Err(
            RegionFault {
                kind: RegionErrorKind::McaCompression(before.locations.len() as usize),
                detail: text,
            },
        ),
        Ok(stream) => Ok(chunk_written(region_x, region_z, chunk, stream, before)),
    }
}

/// The slots written so far and one more without a chunk.
pub open spec fn gap_written(before: SectorsView) -> SectorsView {
    SectorsView {
        locations: before.locations.push(0),
        timestamps: before.timestamps.push(0),
        ..before
    }
}

/// The slots written so far and one more.
pub open spec fn slot_written(
    region_x: i32,
    region_z: i32,
    slot: Option<ChunkView>,
    level: i32,
    before: SectorsView,
) -> Result<SectorsView, RegionFault> {
    match slot {
        None => Ok(gap_written(before)),
        Some(chunk) => chunk_outcome(
            region_x,
            region_z,
            chunk,
            codec::zlib_compressed(chunk.raw_nbt, level),
            before,
        ),
    }
}

/// Nothing written yet.
pub open spec fn no_sectors() -> SectorsView {
    SectorsView {
        locations: seq![],
        timestamps: seq![],
        data: seq![],
        sidecars: seq![],
        units: seq![],
    }
}

/// The first `n` slots of `region`.
pub open spec fn slots_written(region: RegionView, level: i32, n: nat) -> Result<
    SectorsView,
    RegionFault,
>
    decreases n,
{
    if n == 0 {
        Ok(no_sectors())
    } else {
        match slots_written(region, level, (n - 1) as nat) {
            Err(fault) => Err(fault),
            Ok(before) => slot_written(
                region.region_x,
                region.region_z,
                region.chunks[n - 1],
                level,
                before,
            ),
        }
    }
}

/// A table as it stands in the file.
pub open spec fn words_bytes(words: Seq<u32>) -> Seq<u8>
    decreases words.len(),
{
    if words.len() == 0 {
        seq![]
    } else {
        words_bytes(words.drop_last()) + bytes::be_u32(words.last())
    }
}

/// The region file with these tables and sectors.
pub open spec fn file_bytes(sectors: SectorsView) -> Seq<u8> {
    words_bytes(sectors.locations) + words_bytes(sectors.timestamps) + sectors.data
}

/// The files with these tables, sectors and chunk files.
pub open spec fn files_of(sectors: SectorsView) -> EncodedView {
    EncodedView {
        main_file_bytes: file_bytes(sectors),
        sidecar_files: sectors.sidecars,
        diagnostics: seq![],
        units: sectors.units,
    }
}

/// The files that `region` is written to.
pub open spec fn encoded_region(region: RegionView, level: i32) -> Result<
    EncodedView,
    RegionFault,
> {
    match slots_written(region, level, REGION_CHUNK_COUNT as nat) {
        Err(fault) => Err(fault),
        Ok(sectors) => Ok(files_of(sectors)),
    }
}

/// A slot that cannot be written makes the region unwritable.
proof fn lemma_early_fault(region: RegionView, level: i32, n: nat, m: nat)
    requires
        n <= m,
        slots_written(region, level, n) is Err,
    ensures
        slots_written(region, level, m) == slots_written(region, level, n),
    decreases m,
{
    if n < m {
        lemma_early_fault(region, level, n, (m - 1) as nat);
    }
}

/// The sectors of a chunk are whole, and there are from 1 to 255 of them.
pub proof fn lemma_record_size(stream: Seq<u8>)
    ensures
        record_bytes(stream).len() % (MCA_SECTOR_SIZE as nat) == 0,
        MCA_SECTOR_SIZE <= record_bytes(stream).len() <= MAX_INLINE_SIZE,
{
}

fn push_words(out: &mut Vec<u8>, words: &Vec<u32>)
    ensures
        final(out)@ == old(out)@ + words_bytes(words@),
{
    let ghost start = out@;
    let mut i: usize = 0;
    assert(out@ =~= start + words_bytes(words@.take(0)));
    while i < words.len()
        invariant
            i <= words.len(),
            out@ == start + words_bytes(words@.take(i as int)),
        decreases words.len() - i,
    {
        push_u32(out, words[i]);
        assert(words@.take(i + 1).drop_last() =~= words@.take(i as int));
        assert(out@ =~= start + words_bytes(words@.take(i + 1)));
        i = i + 1;
    }
    assert(words@.take(i as int) =~= words@);
}

/// The sectors of a chunk that is compressed to `stream`.
fn record(stream: &Vec<u8>) -> (out: Vec<u8>)
    ensures
        out@ == record_bytes(stream@),
{
    let mut out: Vec<u8> = Vec::new();
    if stream.len() > MAX_INLINE_SIZE - 5 {
        push_u32(&mut out, 1);
        out.push(MCA_EXTERNAL_ZLIB);
        assert(out@ =~= bytes::be_u32(1).push(MCA_EXTERNAL_ZLIB));
    } else {
        push_u32(&mut out, (stream.len() + 1) as u32);
        out.push(MCA_COMPRESSION_ZLIB);
        bytes::append(&mut out, stream.as_slice());
        assert(out@ =~= bytes::be_u32((stream@.len() + 1) as u32).push(MCA_COMPRESSION_ZLIB)
            + stream@);
    }
    pad_to_sector_boundary(&mut out);
    out
}

/// The slots of a region file that is being written, in order.
#[derive(Debug)]
pub struct Sectors {
    pub locations: Vec<u32>,
    pub timestamps: Vec<u32>,
    pub data: Vec<u8>,
    pub sidecars: Vec<SidecarFile>,
    pub units: Vec<EncodedUnit>,
}

impl View for Sectors {
    type V = SectorsView;

    open spec fn view(&self) -> SectorsView {
        SectorsView {
            locations: self.locations@,
            timestamps: self.timestamps@,
            data: self.data@,
            sidecars: formats::sidecar_views(self.sidecars@),
            units: self.units@,
        }
    }
}

impl Sectors {
    /// Whether the sectors are whole, and no slot has more than 255.
    pub open spec fn well_formed(&self) -> bool {
        &&& self.locations@.len() <= REGION_CHUNK_COUNT
        &&& self.data@.len() % (MCA_SECTOR_SIZE as nat) == 0
        &&& self.data@.len() <= self.locations@.len() * MAX_INLINE_SIZE
    }

    /// Nothing written yet.
    pub fn new() -> (sectors: Sectors)
        ensures
            sectors.well_formed(),
            sectors@ == no_sectors(),
    {
        let sectors = Sectors {
            locations: Vec::new(),
            timestamps: Vec::new(),
            data: Vec::new(),
            sidecars: Vec::new(),
            units: Vec::new(),
        };
        assert(sectors@ =~= no_sectors());
        sectors
    }

    /// Writes a slot without a chunk.
    pub fn push_gap(&mut self)
        requires
            old(self).well_formed(),
            old(self)@.locations.len() < REGION_CHUNK_COUNT,
        ensures
            final(self).well_formed(),
            final(self)@ == gap_written(old(self)@),
    {
        self.locations.push(0);
        self.timestamps.push(0);
    }

    /// Writes a slot with `chunk` of the region at `(region_x, region_z)`, whose
    /// compression came out as `compressed`.
    pub fn push_chunk(
        &mut self,
        region_x: i32,
        region_z: i32,
        chunk: &ChunkData,
        compressed: Result<Vec<u8>, String>,
    ) -> (result: Result<(), RegionError>)
        requires
            old(self).well_formed(),
            old(self)@.locations.len() < REGION_CHUNK_COUNT,
        ensures
            final(self).well_formed(),
            match result {
                Ok(_) => chunk_outcome(
                    region_x,
                    region_z,
                    chunk@,
                    codec::result_view(compressed),
                    old(self)@,
                ) == Ok::<SectorsView, RegionFault>(final(self)@),
                Err(error) => {
                    &&& chunk_outcome(
                        region_x,
                        region_z,
                        chunk@,
                        codec::result_view(compressed),
                        old(self)@,
                    ) == Err::<SectorsView, RegionFault>(error@)
                    &&& final(self)@ == old(self)@
                },
            },
    {
        let ghost before = self@;
        let index = self.locations.len();
        let stream = match compressed {
            Ok(stream) => stream,
            Err(text) => {
                return Err(RegionError::with_detail(RegionErrorKind::McaCompression(index), text));
            },
        };
        proof {
            lemma_record_size(stream@);
        }
        let (timestamp, _) = normalize_timestamp_to_u32(chunk.timestamp);
        self.timestamps.push(timestamp);
        let sectors = record(&stream);
        let start = (self.data.len() / MCA_SECTOR_SIZE) as u32 + 2;
        let count = (sectors.len() / MCA_SECTOR_SIZE) as u32;
        self.locations.push(start * 256 + count);
        bytes::append(&mut self.data, sectors.as_slice());
        self.units.push(
            EncodedUnit { raw_len: chunk.raw_nbt.len(), compressed_len: stream.len() },
        );
        let ghost written = chunk_written(region_x, region_z, chunk@, stream@, before);
        if stream.len() > MAX_INLINE_SIZE - 5 {
            let file_name = external_chunk_file_name(region_x, region_z, index);
            let ghost view = SidecarView { file_name: file_name@, bytes: stream@ };
            self.sidecars.push(SidecarFile { file_name, bytes: stream });
            assert(formats::sidecar_views(self.sidecars@) =~= before.sidecars.push(view));
        }
        assert(self@ =~= written);
        Ok(())
    }

    /// The files of the slots.
    pub fn finish(self) -> (encoded: EncodedRegion)
        ensures
            encoded@ == files_of(self@),
    {
        let mut main_file_bytes: Vec<u8> = Vec::new();
        push_words(&mut main_file_bytes, &self.locations);
        push_words(&mut main_file_bytes, &self.timestamps);
        bytes::append(&mut main_file_bytes, self.data.as_slice());
        let encoded = EncodedRegion {
            main_file_bytes,
            sidecar_files: self.sidecars,
            diagnostics: Vec::new(),
            units: self.units,
        };
        assert(encoded@ =~= files_of(self@));
        encoded
    }
}

/// Writes `region` at the compression level `compression_level`.
pub fn encode_region(region: &Region, compression_level: i32) -> (result: Result<
    EncodedRegion,
    RegionError,
>)
    requires
        region.well_formed(),
        0 <= compression_level <= 10,
    ensures
        formats::encode_result(result) == encoded_region(region@, compression_level),
        result matches Ok(encoded) ==> formats::no_empty_chunk(region@.chunks) ==> forall|
            path: PathView,
            externals: Externals,
        |
            formats::names_region(path, region@) && holds_sidecars(
                externals,
                region@,
                encoded@.sidecar_files,
            ) ==> #[trigger] read_outcome(path, encoded.main_file_bytes@, externals) == Ok::<
                ReadView,
                RegionFault,
            >(formats::all_read(formats::seconds_region(region@))),
{
    let region_x = region.region_x;
    let region_z = region.region_z;
    let mut sectors = Sectors::new();
    let mut index: usize = 0;
    while index < REGION_CHUNK_COUNT
        invariant
            region.well_formed(),
            0 <= compression_level <= 10,
            region_x == region@.region_x,
            region_z == region@.region_z,
            index <= REGION_CHUNK_COUNT,
            sectors.well_formed(),
            sectors@.locations.len() == index,
            slots_written(region@, compression_level, index as nat) == Ok::<
                SectorsView,
                RegionFault,
            >(sectors@),
            forall|i: int|
                0 <= i < index ==> slot_restored(#[trigger] region@.chunks[i], compression_level),
        decreases REGION_CHUNK_COUNT - index,
    {
        assert(slots_written(region@, compression_level, (index + 1) as nat) == slot_written(
            region_x,
            region_z,
            region@.chunks[index as int],
            compression_level,
            sectors@,
        ));
        match region.chunk(index) {
            None => {
                sectors.push_gap();
            },
            Some(chunk) => {
                let compressed = zlib_compress(chunk.raw_nbt.as_slice(), compression_level);
                match sectors.push_chunk(region_x, region_z, chunk, compressed) {
                    Ok(_) => {},
                    Err(error) => {
                        proof {
                            lemma_early_fault(
                                region@,
                                compression_level,
                                (index + 1) as nat,
                                REGION_CHUNK_COUNT as nat,
                            );
                        }
                        return Err(error);
                    },
                }
            },
        }
        index = index + 1;
    }
    let encoded = sectors.finish();
    proof {
        if formats::no_empty_chunk(region@.chunks) {
            assert forall|path: PathView, externals: Externals|
                formats::names_region(path, region@) && holds_sidecars(
                    externals,
                    region@,
                    encoded@.sidecar_files,
                ) implies #[trigger] read_outcome(path, encoded.main_file_bytes@, externals)
                == Ok::<ReadView, RegionFault>(
                formats::all_read(formats::seconds_region(region@)),
            ) by {
                law_region_reads_back(region@, compression_level, path, externals);
            }
        }
    }
    Ok(encoded)
}

/// Whether the chunk in `slot` can be had back from what it is compressed to.
pub open spec fn slot_restored(slot: Option<ChunkView>, level: i32) -> bool {
    slot matches Some(chunk) ==> codec::zlib_compressed(chunk.raw_nbt, level) matches Ok(stream)
        ==> codec::yields(codec::zlib_decoded(stream), chunk.raw_nbt)
}

/// Whether `externals` are the chunk files `sidecars` of `region`.
pub open spec fn holds_sidecars(
    externals: Externals,
    region: RegionView,
    sidecars: Seq<SidecarView>,
) -> bool {
    forall|k: int, i: int|
        0 <= k < sidecars.len() && 0 <= i < REGION_CHUNK_COUNT && (#[trigger] sidecars[k]).file_name
            == #[trigger] chunk_file_name(region.region_x, region.region_z, i) ==> external_of(
            externals,
            i,
        ) == Some(Ok::<Seq<u8>, Seq<char>>(sidecars[k].bytes))
}

/// The chunk files of a region have different names.
pub proof fn law_chunk_file_names_differ(region_x: i32, region_z: i32, i: int, j: int)
    requires
        0 <= i < REGION_CHUNK_COUNT,
        0 <= j < REGION_CHUNK_COUNT,
        chunk_file_name(region_x, region_z, i) == chunk_file_name(region_x, region_z, j),
    ensures
        i == j,
{
    lemma_chunk_file_name_parts(region_x, region_z, i);
    lemma_chunk_file_name_parts(region_x, region_z, j);
}

pub proof fn lemma_chunk_file_name_parts(region_x: i32, region_z: i32, i: int)
    ensures
        ({
            let name = chunk_file_name(region_x, region_z, i);
            let second = formats::next_dot(name, 2);
            let third = formats::next_dot(name, second + 1);
            &&& text::number_in(name.subrange(2, second)) == Some(
                region_x * REGION_SIDE + i % (REGION_SIDE as int),
            )
            &&& text::number_in(name.subrange(second + 1, third)) == Some(
                region_z * REGION_SIDE + i / (REGION_SIDE as int),
            )
        }),
{
    let name = chunk_file_name(region_x, region_z, i);
    let x = region_x * REGION_SIDE + i % (REGION_SIDE as int);
    let z = region_z * REGION_SIDE + i / (REGION_SIDE as int);
    reveal_strlit("c.");
    reveal_strlit(".");
    reveal_strlit(".mcc");
    assert("c."@ =~= seq!['c', '.']);
    assert("."@ =~= seq!['.']);
    formats::lemma_numbered_name(name, 'c', x, z, ".mcc"@);
    text::law_signed_decimal_reads_back(x);
    text::law_signed_decimal_reads_back(z);
}

/// A table takes four bytes for each entry, in order.
proof fn lemma_word_at(words: Seq<u32>, i: int)
    requires
        0 <= i < words.len(),
    ensures
        words_bytes(words).len() == 4 * words.len(),
        words_bytes(words).subrange(4 * i, 4 * i + 4) == bytes::be_u32(words[i]),
    decreases words.len(),
{
    let before = words.drop_last();
    if i < before.len() {
        lemma_word_at(before, i);
        assert(words_bytes(words).subrange(4 * i, 4 * i + 4) =~= words_bytes(before).subrange(
            4 * i,
            4 * i + 4,
        ));
    } else {
        if before.len() > 0 {
            lemma_word_at(before, 0);
        }
        assert(words_bytes(before).len() == 4 * i);
        assert(words_bytes(words).subrange(4 * i, 4 * i + 4) =~= bytes::be_u32(words[i]));
    }
}

/// Whether what was written as `part` starts what is written as `all`.
pub open spec fn starts(part: SectorsView, all: SectorsView) -> bool {
    &&& part.locations.len() <= all.locations.len()
    &&& part.timestamps.len() <= all.timestamps.len()
    &&& forall|i: int| 0 <= i < part.locations.len() ==> part.locations[i] == all.locations[i]
    &&& forall|i: int| 0 <= i < part.timestamps.len() ==> part.timestamps[i] == all.timestamps[i]
    &&& part.data.len() <= all.data.len()
    &&& part.data == all.data.take(part.data.len() as int)
    &&& part.sidecars.len() <= all.sidecars.len()
    &&& forall|k: int| 0 <= k < part.sidecars.len() ==> part.sidecars[k] == all.sidecars[k]
}

/// Whether the first `n` slots were written, in whole sectors.
pub open spec fn of_slots(sectors: SectorsView, n: nat) -> bool {
    &&& sectors.locations.len() == n
    &&& sectors.timestamps.len() == n
    &&& sectors.data.len() % (MCA_SECTOR_SIZE as nat) == 0
    &&& sectors.data.len() <= n * MAX_INLINE_SIZE
}

/// One more slot leaves what was written before it.
#[verifier::rlimit(40)]
proof fn lemma_slot_added(
    region_x: i32,
    region_z: i32,
    slot: Option<ChunkView>,
    level: i32,
    before: SectorsView,
    n: nat,
)
    requires
        of_slots(before, n),
        slot_written(region_x, region_z, slot, level, before) is Ok,
    ensures
        of_slots(slot_written(region_x, region_z, slot, level, before)->Ok_0, n + 1),
        starts(before, slot_written(region_x, region_z, slot, level, before)->Ok_0),
{
    let after = slot_written(region_x, region_z, slot, level, before)->Ok_0;
    if let Some(chunk) = slot {
        lemma_record_size(codec::zlib_compressed(chunk.raw_nbt, level)->Ok_0);
    }
    assert(after.data.take(before.data.len() as int) =~= before.data);
}

/// What starts the start starts the whole.
proof fn lemma_starts_trans(a: SectorsView, b: SectorsView, c: SectorsView)
    requires
        starts(a, b),
        starts(b, c),
    ensures
        starts(a, c),
{
    assert(c.data.take(a.data.len() as int) =~= c.data.take(b.data.len() as int).take(
        a.data.len() as int,
    ));
}

/// The first slots start the tables, the sectors and the chunk files of them all.
pub proof fn lemma_slots_prefix(region: RegionView, level: i32, n: nat, m: nat)
    requires
        n <= m,
        slots_written(region, level, m) is Ok,
    ensures
        slots_written(region, level, n) is Ok,
        starts(slots_written(region, level, n)->Ok_0, slots_written(region, level, m)->Ok_0),
        of_slots(slots_written(region, level, n)->Ok_0, n),
        of_slots(slots_written(region, level, m)->Ok_0, m),
    decreases m,
{
    let all = slots_written(region, level, m)->Ok_0;
    if m > 0 {
        let before = slots_written(region, level, (m - 1) as nat)->Ok_0;
        lemma_slots_prefix(
            region,
            level,
            if n < m {
                n
            } else {
                (m - 1) as nat
            },
            (m - 1) as nat,
        );
        lemma_slot_added(
            region.region_x,
            region.region_z,
            region.chunks[m - 1],
            level,
            before,
            (m - 1) as nat,
        );
        if n < m {
            lemma_starts_trans(slots_written(region, level, n)->Ok_0, before, all);
        }
    }
    if n == m {
        assert(all.data.take(all.data.len() as int) =~= all.data);
    }
}

/// The tables of a written file stand where they are looked for.
pub proof fn lemma_file_head(sectors: SectorsView, i: int)
    requires
        sectors.locations.len() == REGION_CHUNK_COUNT,
        sectors.timestamps.len() == REGION_CHUNK_COUNT,
        0 <= i < REGION_CHUNK_COUNT,
    ensures
        ({
            let file = file_bytes(sectors);
            &&& file.len() == MCA_HEADER_SIZE + sectors.data.len()
            &&& file.skip(MCA_HEADER_SIZE as int) == sectors.data
            &&& bytes::u32_at(file, 4 * i) == sectors.locations[i]
            &&& bytes::u32_at(file, MCA_SECTOR_SIZE + 4 * i) == sectors.timestamps[i]
        }),
{
    let file = file_bytes(sectors);
    let places = words_bytes(sectors.locations);
    let times = words_bytes(sectors.timestamps);
    lemma_word_at(sectors.locations, i);
    lemma_word_at(sectors.timestamps, i);
    assert(file.skip(MCA_HEADER_SIZE as int) =~= sectors.data);
    assert(file.subrange(4 * i, 4 * i + 4) =~= places.subrange(4 * i, 4 * i + 4));
    bytes::lemma_u32_at_be_u32(file, 4 * i, sectors.locations[i]);
    let at = MCA_SECTOR_SIZE + 4 * i;
    assert(file.subrange(at, at + 4) =~= times.subrange(4 * i, 4 * i + 4));
    bytes::lemma_u32_at_be_u32(file, at, sectors.timestamps[i]);
}

/// A record tells the length and the type of its chunk, and holds it where it fits.
pub proof fn lemma_record_parts(file: Seq<u8>, offset: int, stream: Seq<u8>)
    requires
        0 <= offset,
        offset + record_bytes(stream).len() <= file.len(),
        file.subrange(offset, offset + record_bytes(stream).len()) == record_bytes(stream),
    ensures
        if needs_file(stream) {
            file[offset + 4] == MCA_EXTERNAL_ZLIB
        } else {
            &&& file[offset + 4] == MCA_COMPRESSION_ZLIB
            &&& bytes::u32_at(file, offset) == stream.len() + 1
            &&& 5 + stream.len() <= record_bytes(stream).len()
            &&& file.subrange(offset + 5, offset + 5 + stream.len()) == stream
        },
{
    let record = record_bytes(stream);
    lemma_record_size(stream);
    assert(file[offset + 4] == file.subrange(offset, offset + record.len())[4]);
    if !needs_file(stream) {
        let length = (stream.len() + 1) as u32;
        assert(record.take(4) =~= bytes::be_u32(length));
        assert(file.subrange(offset, offset + 4) =~= file.subrange(
            offset,
            offset + record.len(),
        ).take(4));
        bytes::lemma_u32_at_be_u32(file, offset, length);
        assert(record.subrange(5, 5int + stream.len()) =~= stream);
        assert(file.subrange(offset + 5, offset + 5 + stream.len()) =~= file.subrange(
            offset,
            offset + record.len(),
        ).subrange(5, 5int + stream.len()));
    }
}

/// A chunk stands in a written file where its location says.
pub proof fn lemma_chunk_in_file(region: RegionView, level: i32, i: int)
    requires
        region.chunks.len() == REGION_CHUNK_COUNT,
        slots_written(region, level, REGION_CHUNK_COUNT as nat) is Ok,
        0 <= i < REGION_CHUNK_COUNT,
        region.chunks[i] is Some,
    ensures
        ({
            let sectors = slots_written(region, level, REGION_CHUNK_COUNT as nat)->Ok_0;
            let before = slots_written(region, level, i as nat)->Ok_0;
            let file = file_bytes(sectors);
            &&& codec::zlib_compressed(region.chunks[i]->0.raw_nbt, level) matches Ok(stream)
            &&& sector_index(file, i) >= 2
            &&& sector_count(file, i) >= 1
            &&& chunk_offset(file, i) >= 0
            &&& chunk_limit(file, i) == chunk_offset(file, i) + record_bytes(stream).len()
            &&& chunk_limit(file, i) <= file.len()
            &&& chunk_offset(file, i) == MCA_HEADER_SIZE + before.data.len()
            &&& file.subrange(chunk_offset(file, i), chunk_limit(file, i)) == record_bytes(stream)
            &&& bytes::u32_at(file, MCA_SECTOR_SIZE + 4 * i) == formats::seconds_of(
                region.chunks[i]->0.timestamp,
            )
            &&& needs_file(stream) ==> {
                let k = before.sidecars.len() as int;
                &&& k < sectors.sidecars.len()
                &&& sectors.sidecars[k] == (SidecarView {
                    file_name: chunk_file_name(region.region_x, region.region_z, i),
                    bytes: stream,
                })
            }
        }),
{
    let sectors = slots_written(region, level, REGION_CHUNK_COUNT as nat)->Ok_0;
    let file = file_bytes(sectors);
    lemma_slots_prefix(region, level, i as nat, REGION_CHUNK_COUNT as nat);
    lemma_slots_prefix(region, level, (i + 1) as nat, REGION_CHUNK_COUNT as nat);
    let before = slots_written(region, level, i as nat)->Ok_0;
    let after = slots_written(region, level, (i + 1) as nat)->Ok_0;
    let chunk = region.chunks[i]->0;
    let stream = codec::zlib_compressed(chunk.raw_nbt, level)->Ok_0;
    let record = record_bytes(stream);
    lemma_record_size(stream);
    assert(after == chunk_written(region.region_x, region.region_z, chunk, stream, before));
    assert(sectors.locations[i] == after.locations[i]);
    assert(sectors.timestamps[i] == after.timestamps[i]);
    lemma_file_head(sectors, i);
    let start = before.data.len() / (MCA_SECTOR_SIZE as nat);
    let count = record.len() / (MCA_SECTOR_SIZE as nat);
    assert(before.data.len() == start * MCA_SECTOR_SIZE);
    assert(record.len() == count * MCA_SECTOR_SIZE);
    assert(1 <= count <= 255);
    assert(start <= 1024 * 255);
    assert(sectors.locations[i] == (2 + start) * 256 + count);
    assert(sector_index(file, i) == 2 + start);
    assert(sector_count(file, i) == count);
    let offset = chunk_offset(file, i);
    let limit = chunk_limit(file, i);
    assert(offset == MCA_HEADER_SIZE + before.data.len());
    assert(file.subrange(offset, limit) =~= file.skip(MCA_HEADER_SIZE as int).subrange(
        before.data.len() as int,
        after.data.len() as int,
    ));
    assert(sectors.data.subrange(before.data.len() as int, after.data.len() as int)
        =~= sectors.data.take(after.data.len() as int).skip(before.data.len() as int));
    assert(after.data.skip(before.data.len() as int) =~= record);
    if needs_file(stream) {
        assert(sectors.sidecars[before.sidecars.len() as int]
            == after.sidecars[before.sidecars.len() as int]);
    }
}

/// A record reads back as the data of its chunk.
proof fn lemma_payload_reads_back(
    file: Seq<u8>,
    externals: Externals,
    region_x: i32,
    region_z: i32,
    i: int,
    stream: Seq<u8>,
    raw: Seq<u8>,
)
    requires
        0 <= chunk_offset(file, i),
        chunk_limit(file, i) == chunk_offset(file, i) + record_bytes(stream).len(),
        chunk_limit(file, i) <= file.len(),
        file.subrange(chunk_offset(file, i), chunk_limit(file, i)) == record_bytes(stream),
        needs_file(stream) ==> external_of(externals, i) == Some(
            Ok::<Seq<u8>, Seq<char>>(stream),
        ),
        codec::yields(codec::zlib_decoded(stream), raw),
    ensures
        chunk_payload(file, externals, region_x, region_z, i) == Ok::<Seq<u8>, ChunkFault>(raw),
{
    lemma_record_parts(file, chunk_offset(file, i), stream);
}

/// A chunk with data is kept.
proof fn lemma_kept(
    path: PathView,
    file: Seq<u8>,
    externals: Externals,
    index: usize,
    chunk: ChunkView,
    read: ReadView,
)
    requires
        sector_index(file, index as int) != 0,
        sector_count(file, index as int) != 0,
        chunk_limit(file, index as int) <= file.len(),
        chunk_offset(file, index as int) + 5 <= file.len(),
        bytes::u32_at(file, MCA_SECTOR_SIZE + 4 * index) == formats::seconds_of(chunk.timestamp),
        chunk.raw_nbt.len() > 0,
        chunk_payload(
            file,
            externals,
            read.region.region_x,
            read.region.region_z,
            index as int,
        ) == Ok::<Seq<u8>, ChunkFault>(chunk.raw_nbt),
    ensures
        slot_read(path, file, externals, index, read) == read.with_chunk(
            index as int,
            formats::seconds_chunk(chunk),
        ),
{
}

/// A slot of a written file reads back, with its timestamp in seconds.
proof fn lemma_slot_reads_back(
    region: RegionView,
    level: i32,
    path: PathView,
    externals: Externals,
    index: usize,
    read: ReadView,
)
    requires
        region.chunks.len() == REGION_CHUNK_COUNT,
        slots_written(region, level, REGION_CHUNK_COUNT as nat) is Ok,
        formats::no_empty_chunk(region.chunks),
        holds_sidecars(
            externals,
            region,
            slots_written(region, level, REGION_CHUNK_COUNT as nat)->Ok_0.sidecars,
        ),
        index < REGION_CHUNK_COUNT,
        slot_restored(region.chunks[index as int], level),
        read.region.region_x == region.region_x,
        read.region.region_z == region.region_z,
    ensures
        ({
            let sectors = slots_written(region, level, REGION_CHUNK_COUNT as nat)->Ok_0;
            slot_read(path, file_bytes(sectors), externals, index, read)
                == match region.chunks[index as int] {
                Some(chunk) => read.with_chunk(index as int, formats::seconds_chunk(chunk)),
                None => read,
            }
        }),
{
    let sectors = slots_written(region, level, REGION_CHUNK_COUNT as nat)->Ok_0;
    let file = file_bytes(sectors);
    let i = index as int;
    match region.chunks[i] {
        None => {
            lemma_slots_prefix(region, level, i as nat, REGION_CHUNK_COUNT as nat);
            lemma_slots_prefix(region, level, (i + 1) as nat, REGION_CHUNK_COUNT as nat);
            let after = slots_written(region, level, (i + 1) as nat)->Ok_0;
            assert(sectors.locations[i] == after.locations[i]);
            assert(sectors.locations[i] == 0);
            lemma_file_head(sectors, i);
        },
        Some(chunk) => {
            let stream = codec::zlib_compressed(chunk.raw_nbt, level)->Ok_0;
            let before = slots_written(region, level, i as nat)->Ok_0;
            lemma_chunk_in_file(region, level, i);
            lemma_record_size(stream);
            if needs_file(stream) {
                let k = before.sidecars.len() as int;
                assert(sectors.sidecars[k].file_name == chunk_file_name(
                    region.region_x,
                    region.region_z,
                    i,
                ));
                assert(external_of(externals, i) == Some(Ok::<Seq<u8>, Seq<char>>(stream)));
            }
            lemma_payload_reads_back(
                file,
                externals,
                region.region_x,
                region.region_z,
                i,
                stream,
                chunk.raw_nbt,
            );
            lemma_kept(path, file, externals, index, chunk, read);
        },
    }
}

/// The slots of a written file read back, one after the other.
proof fn lemma_slots_read_back(
    region: RegionView,
    level: i32,
    path: PathView,
    externals: Externals,
    n: nat,
)
    requires
        region.chunks.len() == REGION_CHUNK_COUNT,
        slots_written(region, level, REGION_CHUNK_COUNT as nat) is Ok,
        formats::no_empty_chunk(region.chunks),
        holds_sidecars(
            externals,
            region,
            slots_written(region, level, REGION_CHUNK_COUNT as nat)->Ok_0.sidecars,
        ),
        forall|i: int|
            0 <= i < REGION_CHUNK_COUNT ==> slot_restored(#[trigger] region.chunks[i], level),
        n <= REGION_CHUNK_COUNT,
    ensures
        slots_read(
            path,
            file_bytes(slots_written(region, level, REGION_CHUNK_COUNT as nat)->Ok_0),
            externals,
            n,
            formats::nothing_read(region.region_x, region.region_z),
        ) == formats::all_read(
            RegionView {
                chunks: formats::slots::first_slots(
                    formats::seconds_slots(region.chunks),
                    n as int,
                ),
                ..region
            },
        ),
    decreases n,
{
    let whole = formats::seconds_slots(region.chunks);
    let after = formats::slots::first_slots(whole, n as int);
    if n == 0 {
        let nothing = formats::nothing_read(region.region_x, region.region_z);
        assert(after =~= nothing.region.chunks);
    } else {
        let index = (n - 1) as usize;
        lemma_slots_read_back(region, level, path, externals, index as nat);
        let before = formats::slots::first_slots(whole, index as int);
        let read = formats::all_read(RegionView { chunks: before, ..region });
        assert(slot_restored(region.chunks[index as int], level));
        lemma_slot_reads_back(region, level, path, externals, index, read);
        match region.chunks[index as int] {
            Some(chunk) => {
                assert(after =~= before.update(
                    index as int,
                    Some(formats::seconds_chunk(chunk)),
                ));
            },
            None => {
                assert(after =~= before);
            },
        }
    }
}

/// A region that was written reads back whole, without a diagnostic, with the
/// timestamps of its chunks in seconds, where none of its chunks is empty, each can
/// be had back from what it is compressed to, and the chunk files are at hand.
pub proof fn law_region_reads_back(
    region: RegionView,
    level: i32,
    path: PathView,
    externals: Externals,
)
    requires
        region.chunks.len() == REGION_CHUNK_COUNT,
        encoded_region(region, level) is Ok,
        formats::no_empty_chunk(region.chunks),
        forall|i: int|
            0 <= i < REGION_CHUNK_COUNT ==> slot_restored(#[trigger] region.chunks[i], level),
        formats::names_region(path, region),
        holds_sidecars(externals, region, encoded_region(region, level)->Ok_0.sidecar_files),
    ensures
        read_outcome(path, encoded_region(region, level)->Ok_0.main_file_bytes, externals) == Ok::<
            ReadView,
            RegionFault,
        >(formats::all_read(formats::seconds_region(region))),
{
    let sectors = slots_written(region, level, REGION_CHUNK_COUNT as nat)->Ok_0;
    let whole = formats::seconds_slots(region.chunks);
    lemma_slots_prefix(region, level, 0, REGION_CHUNK_COUNT as nat);
    lemma_file_head(sectors, 0);
    lemma_slots_read_back(region, level, path, externals, REGION_CHUNK_COUNT as nat);
    assert(formats::slots::first_slots(whole, REGION_CHUNK_COUNT as int) =~= whole);
}

/// Whether the file at `k` is the one that stands for the slot `i`: no later one does.
pub open spec fn stands_for(externals: Externals, k: int, i: int) -> bool {
    &&& 0 <= k < externals.len()
    &&& externals[k].index == i
    &&& forall|j: int| k < j < externals.len() ==> (#[trigger] externals[j]).index != i
}

/// Whether the chunk file of the slot `i` is at hand with the content `data`.
pub open spec fn file_at_hand(externals: Externals, i: int, data: Seq<u8>) -> bool {
    exists|k: int| #[trigger]
        stands_for(externals, k, i) && (externals[k].payload matches Ok(content) && content@
            == data)
}

/// Whether `data` is the compressed form of the chunk `i`, whose sectors are those from
/// `start` up to `end` of the file: it stands in them, after a length and a type, or in a
/// file of its own.
pub open spec fn compressed_in(
    bytes: Seq<u8>,
    externals: Externals,
    i: int,
    start: int,
    end: int,
    data: Seq<u8>,
) -> bool {
    let length = bytes::u32_at(bytes, start);
    if bytes[start + 4] < 128 {
        length >= 1 && start + 4 + length <= end && data == bytes.subrange(
            start + 5,
            start + 4 + length,
        )
    } else {
        file_at_hand(externals, i, data)
    }
}

/// Whether the file tells that the chunk `i` is `raw`: its location names sectors, all of
/// them in the file, and what they hold is decompressed to `raw`, which is not empty.
pub open spec fn tells_chunk(bytes: Seq<u8>, externals: Externals, i: int, raw: Seq<u8>) -> bool {
    let location = bytes::u32_at(bytes, 4 * i) as int;
    let start = location / 256 * 4096;
    let end = start + location % 256 * 4096;
    &&& location / 256 > 0
    &&& location % 256 > 0
    &&& end <= bytes.len()
    &&& raw.len() > 0
    &&& exists|data: Seq<u8>| #[trigger]
        compressed_in(bytes, externals, i, start, end, data) && (if bytes[start + 4] as int % 128
            == 1 {
            codec::yields(codec::gzip_decoded(data), raw)
        } else {
            bytes[start + 4] as int % 128 == 2 && codec::yields(codec::zlib_decoded(data), raw)
        })
}

pub proof fn lemma_external_at_hand(externals: Externals, i: int, data: Seq<u8>)
    ensures
        file_at_hand(externals, i, data) <==> external_of(externals, i) == Some(
            Ok::<Seq<u8>, Seq<char>>(data),
        ),
    decreases externals.len(),
{
    if externals.len() > 0 {
        let before = externals.drop_last();
        let last = externals.len() - 1;
        lemma_external_at_hand(before, i, data);
        if externals[last].index == i {
            assert(stands_for(externals, last, i));
        }
        assert forall|k: int| #[trigger] stands_for(externals, k, i) implies k == last
            || stands_for(before, k, i) by {
            assert forall|j: int| k < j < before.len() implies (#[trigger] before[j]).index
                != i by {
                assert(before[j] == externals[j]);
            }
        }
        assert forall|k: int| #[trigger]
            stands_for(before, k, i) && externals[last].index != i implies stands_for(
            externals,
            k,
            i,
        ) by {
            assert forall|j: int| k < j < externals.len() implies (#[trigger] externals[j]).index
                != i by {
                if j < last {
                    assert(before[j] == externals[j]);
                }
            }
        }
    }
}

/// A record within the file holds the chunk that the file tells of.
proof fn lemma_payload_told(
    bytes: Seq<u8>,
    externals: Externals,
    region_x: i32,
    region_z: i32,
    i: int,
    raw: Seq<u8>,
)
    requires
        sector_index(bytes, i) > 0,
        sector_count(bytes, i) > 0,
        chunk_limit(bytes, i) <= bytes.len(),
        raw.len() > 0,
    ensures
        chunk_payload(bytes, externals, region_x, region_z, i) == Ok::<Seq<u8>, ChunkFault>(raw)
            <==> tells_chunk(bytes, externals, i, raw),
{
    let start = chunk_offset(bytes, i);
    let end = chunk_limit(bytes, i);
    let length = bytes::u32_at(bytes, start) as int;
    let id = bytes[start + 4] as int % 128;
    let payload = chunk_payload(bytes, externals, region_x, region_z, i);
    if bytes[start + 4] < 128 {
        let data = bytes.subrange(start + 5, start + 4 + length);
        if payload == Ok::<Seq<u8>, ChunkFault>(raw) {
            assert(compressed_in(bytes, externals, i, start, end, data));
        }
        if tells_chunk(bytes, externals, i, raw) {
            assert(compressed_in(bytes, externals, i, start, end, data));
        }
    } else {
        assert forall|data: Seq<u8>|
            compressed_in(bytes, externals, i, start, end, data) == (external_of(externals, i)
                == Some(Ok::<Seq<u8>, Seq<char>>(data))) by {
            lemma_external_at_hand(externals, i, data);
        }
        if payload == Ok::<Seq<u8>, ChunkFault>(raw) {
            let data = external_of(externals, i)->0->Ok_0;
            assert(compressed_in(bytes, externals, i, start, end, data));
        }
    }
}

/// The slots read so far hold what the file tells of them, and the others nothing.
proof fn lemma_slots_told(
    path: PathView,
    bytes: Seq<u8>,
    externals: Externals,
    n: nat,
    region_x: i32,
    region_z: i32,
    i: int,
)
    requires
        n <= REGION_CHUNK_COUNT,
        0 <= i < REGION_CHUNK_COUNT,
    ensures
        ({
            let read = slots_read(
                path,
                bytes,
                externals,
                n,
                formats::nothing_read(region_x, region_z),
            );
            &&& read.region.region_x == region_x
            &&& read.region.region_z == region_z
            &&& read.region.chunks.len() == REGION_CHUNK_COUNT
            &&& i >= n ==> read.region.chunks[i] is None
            &&& i < n ==> forall|raw: Seq<u8>| #[trigger]
                tells_chunk(bytes, externals, i, raw) ==> read.region.chunks[i] == Some(
                    ChunkView {
                        timestamp: bytes::u32_at(bytes, 4096 + 4 * i) as i64,
                        raw_nbt: raw,
                    },
                )
            &&& read.region.chunks[i] matches Some(chunk) ==> tells_chunk(
                bytes,
                externals,
                i,
                chunk.raw_nbt,
            )
        }),
    decreases n,
{
    if n > 0 {
        let nothing = formats::nothing_read(region_x, region_z);
        let before = slots_read(path, bytes, externals, (n - 1) as nat, nothing);
        let after = slots_read(path, bytes, externals, n, nothing);
        lemma_slots_told(path, bytes, externals, (n - 1) as nat, region_x, region_z, i);
        if i == n - 1 {
            if sector_index(bytes, i) > 0 && sector_count(bytes, i) > 0 && chunk_limit(bytes, i)
                <= bytes.len() {
                assert forall|raw: Seq<u8>| raw.len() > 0 implies (chunk_payload(
                    bytes,
                    externals,
                    region_x,
                    region_z,
                    i,
                ) == Ok::<Seq<u8>, ChunkFault>(raw)) == #[trigger] tells_chunk(
                    bytes,
                    externals,
                    i,
                    raw,
                ) by {
                    lemma_payload_told(bytes, externals, region_x, region_z, i, raw);
                }
                assert(chunk_offset(bytes, i) + 5 <= bytes.len());
            }
        } else {
            assert(after.region.chunks[i] == before.region.chunks[i]);
        }
    }
}

/// A region file with both tables that is named after a region is read, and the chunk in
/// each slot is the one that the file tells of, with the timestamp in the second table,
/// wherever its sectors are and whatever the other slots hold.
pub proof fn law_every_told_chunk_is_read(
    path: PathView,
    bytes: Seq<u8>,
    externals: Externals,
    i: int,
    raw: Seq<u8>,
)
    requires
        0 <= i < REGION_CHUNK_COUNT,
    ensures
        read_outcome(path, bytes, externals) is Ok <==> bytes.len() >= 8192
            && formats::path_coords(path) is Ok,
        read_outcome(path, bytes, externals) matches Ok(read) ==> {
            &&& formats::path_coords(path) == Ok::<(i32, i32), RegionErrorKind>(
                (read.region.region_x, read.region.region_z),
            )
            &&& read.region.chunks.len() == 1024
            &&& tells_chunk(bytes, externals, i, raw) <==> (read.region.chunks[i] matches Some(
                chunk,
            ) && chunk.raw_nbt == raw)
            &&& read.region.chunks[i] matches Some(chunk) ==> chunk.timestamp == bytes::u32_at(
                bytes,
                4096 + 4 * i,
            )
        },
{
    if let Ok((region_x, region_z)) = formats::path_coords(path) {
        lemma_slots_told(
            path,
            bytes,
            externals,
            REGION_CHUNK_COUNT as nat,
            region_x,
            region_z,
            i,
        );
        if bytes.len() >= 8192 {
            let read = read_outcome(path, bytes, externals)->Ok_0;
            if let Some(chunk) = read.region.chunks[i] {
                assert(tells_chunk(bytes, externals, i, chunk.raw_nbt));
            }
        }
    }
}

} // verus!
