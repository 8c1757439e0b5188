//! The third version of the blinear format: a header, the offsets of sixteen
//! buckets, and for each bucket that holds a chunk a compressed list of slots.

use vstd::prelude::*;
use vstd::string::*;

use crate::bytes::{self, push_i64, push_u32, push_u64, read_i32, read_i64, read_u32, read_u64};
use crate::codec::{self, zstd_compress, zstd_decompress};
use crate::diagnostic::DiagnosticCode;
use crate::error::{self, RegionError, RegionErrorKind, RegionFault};
use crate::formats::slots::{self, push_slot, read_slot, SlotReading};
use crate::formats::{
    self, decode_chunk_section, parse_region_coords_from_path, EncodedRegion, EncodedUnit,
    EncodedView, ReadOutcome, ReadView, BLINEAR_HASH_SEED, BLINEAR_SUPERBLOCK,
};
use crate::model::{ChunkView, Region, RegionView};
use crate::path::{PathView, SavePath};
use crate::text::{self, push_decimal};

verus! {

/// The length of the header before the offsets.
pub const HEADER_SIZE: usize = 14;

/// The number of slots in a bucket.
pub const BUCKET_SIZE: usize = 64;

/// The number of buckets.
pub const BUCKET_COUNT: usize = 16;

/// Where the buckets start: after the header and the offsets.
pub const DATA_START_OFFSET: usize = 142;

/// A message about a bucket.
pub open spec fn bucket_text(bucket: usize, rest: Seq<char>) -> Seq<char> {
    "bucket "@ + text::decimal(bucket as nat) + rest
}

/// A message about a slot of a bucket.
pub open spec fn bucket_slot_text(bucket: usize, middle: Seq<char>, index: usize) -> Seq<char> {
    bucket_text(bucket, middle) + text::decimal(index as nat)
}

fn bucket_message(bucket: usize, rest: &str) -> (message: String)
    ensures
        message@ == bucket_text(bucket, rest@),
{
    let mut message = "bucket ".to_owned();
    push_decimal(&mut message, bucket as u64);
    message.append(rest);
    message
}

fn bucket_slot_message(bucket: usize, middle: &str, index: usize) -> (message: String)
    ensures
        message@ == bucket_slot_text(bucket, middle@, index),
{
    let mut message = bucket_message(bucket, middle);
    push_decimal(&mut message, index as u64);
    message
}

/// How far the slots of a bucket have been read: up to `offset` of its data, or
/// until the data turned out to be unreadable.
pub struct BucketScan {
    pub read: ReadView,
    pub offset: int,
    pub stopped: bool,
}

/// One more slot of a bucket, the slot `index` of the region.
pub open spec fn scan_slot(
    path: PathView,
    hash_seed: u32,
    bucket: usize,
    data: Seq<u8>,
    index: usize,
    scan: BucketScan,
) -> BucketScan {
    match slots::slot_at(data, scan.offset) {
        SlotReading::Ended => BucketScan {
            read: scan.read.warned_at(
                path,
                DiagnosticCode::CorruptBucket,
                bucket_slot_text(bucket, " ended early while reading slot "@, index),
                index,
            ),
            stopped: true,
            ..scan
        },
        SlotReading::Negative => BucketScan {
            read: scan.read.warned_at(
                path,
                DiagnosticCode::InvalidMetadata,
                bucket_slot_text(bucket, " contains a negative section length at slot "@, index),
                index,
            ),
            stopped: true,
            ..scan
        },
        SlotReading::Empty => BucketScan { offset: scan.offset + 4, ..scan },
        SlotReading::Overrun => BucketScan {
            read: scan.read.warned_at(
                path,
                DiagnosticCode::SkippedData,
                bucket_slot_text(bucket, " overruns its decompressed buffer at slot "@, index),
                index,
            ),
            stopped: true,
            ..scan
        },
        SlotReading::Section(length) => BucketScan {
            read: scan.read.with_section(
                path,
                index,
                formats::section_outcome(slots::section_at(data, scan.offset, length), hash_seed),
            ),
            offset: scan.offset + 4 + length,
            ..scan
        },
    }
}

/// The first `n` slots of a bucket.
pub open spec fn scan_slots(
    path: PathView,
    hash_seed: u32,
    bucket: usize,
    data: Seq<u8>,
    n: nat,
    read: ReadView,
) -> BucketScan
    decreases n,
{
    if n == 0 {
        BucketScan { read, offset: 0, stopped: false }
    } else {
        let before = scan_slots(path, hash_seed, bucket, data, (n - 1) as nat, read);
        if before.stopped {
            before
        } else {
            scan_slot(
                path,
                hash_seed,
                bucket,
                data,
                (bucket * BUCKET_SIZE + n - 1) as usize,
                before,
            )
        }
    }
}

/// What is read once the decompressed `data` of a bucket has been read.
pub open spec fn bucket_data_read(
    path: PathView,
    hash_seed: u32,
    bucket: usize,
    data: Seq<u8>,
    read: ReadView,
) -> ReadView {
    let scan = scan_slots(path, hash_seed, bucket, data, BUCKET_SIZE as nat, read);
    if !scan.stopped && scan.offset != data.len() {
        scan.read.warned(
            path,
            DiagnosticCode::SkippedData,
            bucket_text(bucket, " has trailing bytes after its 64 chunk slots"@),
        )
    } else {
        scan.read
    }
}

/// What is read once the bucket at `offset` has been read.
pub open spec fn bucket_read(
    path: PathView,
    hash_seed: u32,
    bytes: Seq<u8>,
    bucket: usize,
    offset: u64,
    read: ReadView,
) -> ReadView {
    if offset == 0 {
        read
    } else if offset < DATA_START_OFFSET || offset + 8 > bytes.len() {
        read.warned(
            path,
            DiagnosticCode::SkippedData,
            bucket_text(bucket, " points outside the file and was skipped"@),
        )
    } else {
        let original = bytes::i32_at(bytes, offset as int);
        let compressed = bytes::i32_at(bytes, offset + 4);
        if original <= 0 || compressed <= 0 {
            read.warned(
                path,
                DiagnosticCode::InvalidMetadata,
                bucket_text(bucket, " has an invalid length header and was skipped"@),
            )
        } else if offset + 8 + compressed > bytes.len() {
            read.warned(
                path,
                DiagnosticCode::SkippedData,
                bucket_text(bucket, " overruns the file and was skipped"@),
            )
        } else {
            let frame = bytes.subrange(offset + 8, offset + 8 + compressed);
            match codec::zstd_bulk_decoded(frame, original as usize) {
                Ok(data) => bucket_data_read(path, hash_seed, bucket, data, read),
                Err(error) => read.warned(
                    path,
                    DiagnosticCode::CorruptBucket,
                    bucket_text(
                        bucket,
                        " failed zstd decompression and was skipped: "@ + error,
                    ),
                ),
            }
        }
    }
}

/// What is read once the first `n` buckets have been read.
pub open spec fn buckets_read(
    path: PathView,
    hash_seed: u32,
    bytes: Seq<u8>,
    n: nat,
    read: ReadView,
) -> ReadView
    decreases n,
{
    if n == 0 {
        read
    } else {
        bucket_read(
            path,
            hash_seed,
            bytes,
            (n - 1) as usize,
            bytes::u64_at(bytes, HEADER_SIZE + (n - 1) * 8),
            buckets_read(path, hash_seed, bytes, (n - 1) as nat, read),
        )
    }
}

/// What reading the file `path` with the content `bytes` gives.
pub open spec fn read_outcome(path: PathView, bytes: Seq<u8>) -> Result<ReadView, RegionFault> {
    if bytes.len() < DATA_START_OFFSET {
        Err(error::region_fault(RegionErrorKind::BlinearV3TooSmall))
    } else {
        match formats::path_coords(path) {
            Err(kind) => Err(error::region_fault(kind)),
            Ok((region_x, region_z)) => if bytes::i64_at(bytes, 0) != BLINEAR_SUPERBLOCK {
                Err(error::region_fault(RegionErrorKind::BlinearV3Superblock))
            } else if bytes[8] != 3 {
                Err(error::region_fault(RegionErrorKind::BlinearV3Version(bytes[8])))
            } else {
                Ok(
                    buckets_read(
                        path,
                        bytes::u32_at(bytes, 10),
                        bytes,
                        BUCKET_COUNT as nat,
                        formats::nothing_read(region_x, region_z),
                    ),
                )
            },
        }
    }
}

/// What is read of some slots of a bucket tells of each chunk that was given up.
proof fn lemma_slots_warned(
    path: PathView,
    hash_seed: u32,
    bucket: usize,
    data: Seq<u8>,
    n: nat,
    read: ReadView,
)
    requires
        formats::discards_warned(read),
    ensures
        formats::discards_warned(scan_slots(path, hash_seed, bucket, data, n, read).read),
    decreases n,
{
    if n > 0 {
        lemma_slots_warned(path, hash_seed, bucket, data, (n - 1) as nat, read);
        let before = scan_slots(path, hash_seed, bucket, data, (n - 1) as nat, read).read;
        let after = scan_slots(path, hash_seed, bucket, data, n, read).read;
        if after.diagnostics.len() > before.diagnostics.len() {
            formats::lemma_warned_stays(before, after.diagnostics.last());
        }
    }
}

/// What is read of some buckets tells of each chunk that was given up.
proof fn lemma_buckets_warned(
    path: PathView,
    hash_seed: u32,
    bytes: Seq<u8>,
    n: nat,
    read: ReadView,
)
    requires
        formats::discards_warned(read),
    ensures
        formats::discards_warned(buckets_read(path, hash_seed, bytes, n, read)),
    decreases n,
{
    if n > 0 {
        lemma_buckets_warned(path, hash_seed, bytes, (n - 1) as nat, read);
        let before = buckets_read(path, hash_seed, bytes, (n - 1) as nat, read);
        let bucket = (n - 1) as usize;
        let offset = bytes::u64_at(bytes, HEADER_SIZE + (n - 1) * 8);
        let after = bucket_read(path, hash_seed, bytes, bucket, offset, before);
        let original = bytes::i32_at(bytes, offset as int);
        let compressed = bytes::i32_at(bytes, offset + 4);
        let frame = bytes.subrange(offset + 8, offset + 8 + compressed);
        let decoded = codec::zstd_bulk_decoded(frame, original as usize);
        if let Ok(data) = decoded {
            lemma_slots_warned(path, hash_seed, bucket, data, BUCKET_SIZE as nat, before);
            let scan = scan_slots(path, hash_seed, bucket, data, BUCKET_SIZE as nat, before).read;
            let all = bucket_data_read(path, hash_seed, bucket, data, before);
            if all.diagnostics.len() > scan.diagnostics.len() {
                formats::lemma_warned_stays(scan, all.diagnostics.last());
            }
            if after != all && after.diagnostics.len() > before.diagnostics.len() {
                formats::lemma_warned_stays(before, after.diagnostics.last());
            }
        } else if after.diagnostics.len() > before.diagnostics.len() {
            formats::lemma_warned_stays(before, after.diagnostics.last());
        }
    }
}

/// What is read of a file tells of each chunk that was given up.
pub proof fn lemma_discards_warned(path: PathView, bytes: Seq<u8>)
    ensures
        match read_outcome(path, bytes) {
            Ok(read) => formats::discards_warned(read),
            Err(_) => true,
        },
{
    if let Ok((region_x, region_z)) = formats::path_coords(path) {
        lemma_buckets_warned(
            path,
            bytes::u32_at(bytes, 10),
            bytes,
            BUCKET_COUNT as nat,
            formats::nothing_read(region_x, region_z),
        );
    }
}

/// Reads the decompressed `data` of a bucket.
pub fn read_bucket_data(
    path: &SavePath,
    hash_seed: u32,
    bucket: usize,
    data: &[u8],
    outcome: &mut ReadOutcome,
)
    requires
        bucket < BUCKET_COUNT,
        old(outcome).well_formed(),
        old(outcome)@.discarded_chunks + BUCKET_SIZE <= usize::MAX,
    ensures
        final(outcome).well_formed(),
        final(outcome)@ == bucket_data_read(path@, hash_seed, bucket, data@, old(outcome)@),
        final(outcome)@.discarded_chunks <= old(outcome)@.discarded_chunks + BUCKET_SIZE,
{
    let ghost start = outcome@;
    let size = data.len();
    let mut offset: usize = 0;
    let mut valid = true;
    let mut slot: usize = 0;
    while slot < BUCKET_SIZE && valid
        invariant
            bucket < BUCKET_COUNT,
            slot <= BUCKET_SIZE,
            size == data@.len(),
            offset <= size,
            start.discarded_chunks + BUCKET_SIZE <= usize::MAX,
            outcome.well_formed(),
            outcome@.discarded_chunks <= start.discarded_chunks + slot,
            ({
                let scan = scan_slots(path@, hash_seed, bucket, data@, slot as nat, start);
                &&& scan.read == outcome@
                &&& scan.stopped == !valid
                &&& valid ==> scan.offset == offset
            }),
            valid || scan_slots(path@, hash_seed, bucket, data@, BUCKET_SIZE as nat, start)
                == scan_slots(path@, hash_seed, bucket, data@, slot as nat, start),
        decreases BUCKET_SIZE - slot,
    {
        let index = bucket * BUCKET_SIZE + slot;
        let reading = read_slot(data, offset);
        match reading {
            SlotReading::Ended => {
                let message = bucket_slot_message(
                    bucket,
                    " ended early while reading slot ",
                    index,
                );
                outcome.warn_at(path, DiagnosticCode::CorruptBucket, message, index);
                valid = false;
            },
            SlotReading::Negative => {
                let message = bucket_slot_message(
                    bucket,
                    " contains a negative section length at slot ",
                    index,
                );
                outcome.warn_at(path, DiagnosticCode::InvalidMetadata, message, index);
                valid = false;
            },
            SlotReading::Empty => {
                offset = offset + 4;
            },
            SlotReading::Overrun => {
                let message = bucket_slot_message(
                    bucket,
                    " overruns its decompressed buffer at slot ",
                    index,
                );
                outcome.warn_at(path, DiagnosticCode::SkippedData, message, index);
                valid = false;
            },
            SlotReading::Section(length) => {
                let section = vstd::slice::slice_subrange(data, offset + 4, offset + 4 + length);
                let result = decode_chunk_section(section, hash_seed);
                outcome.keep_section(path, index, result);
                offset = offset + 4 + length;
            },
        }
        slot = slot + 1;
        proof {
            if !valid {
                lemma_scan_stopped(
                    path@,
                    hash_seed,
                    bucket,
                    data@,
                    slot as nat,
                    BUCKET_SIZE as nat,
                    start,
                );
            }
        }
    }
    if valid && offset != size {
        let message = bucket_message(bucket, " has trailing bytes after its 64 chunk slots");
        outcome.warn(path, DiagnosticCode::SkippedData, message);
    }
}

/// Slots after an unreadable one are not read.
proof fn lemma_scan_stopped(
    path: PathView,
    hash_seed: u32,
    bucket: usize,
    data: Seq<u8>,
    n: nat,
    m: nat,
    read: ReadView,
)
    requires
        n <= m,
        scan_slots(path, hash_seed, bucket, data, n, read).stopped,
    ensures
        scan_slots(path, hash_seed, bucket, data, m, read) == scan_slots(
            path,
            hash_seed,
            bucket,
            data,
            n,
            read,
        ),
    decreases m,
{
    if n < m {
        lemma_scan_stopped(path, hash_seed, bucket, data, n, (m - 1) as nat, read);
    }
}

fn read_bucket(
    path: &SavePath,
    hash_seed: u32,
    bytes: &[u8],
    bucket: usize,
    bucket_offset: u64,
    outcome: &mut ReadOutcome,
)
    requires
        bucket < BUCKET_COUNT,
        old(outcome).well_formed(),
        old(outcome)@.discarded_chunks + BUCKET_SIZE <= usize::MAX,
    ensures
        final(outcome).well_formed(),
        final(outcome)@ == bucket_read(
            path@,
            hash_seed,
            bytes@,
            bucket,
            bucket_offset,
            old(outcome)@,
        ),
        final(outcome)@.discarded_chunks <= old(outcome)@.discarded_chunks + BUCKET_SIZE,
{
    if bucket_offset == 0 {
        return ;
    }
    let length = bytes.len();
    if length < 8 || bucket_offset < DATA_START_OFFSET as u64 || bucket_offset > (length - 8)
        as u64 {
        let message = bucket_message(bucket, " points outside the file and was skipped");
        outcome.warn(path, DiagnosticCode::SkippedData, message);
        return ;
    }
    let offset = bucket_offset as usize;
    let original = read_i32(bytes, offset);
    let compressed = read_i32(bytes, offset + 4);
    if original <= 0 || compressed <= 0 {
        let message = bucket_message(bucket, " has an invalid length header and was skipped");
        outcome.warn(path, DiagnosticCode::InvalidMetadata, message);
        return ;
    }
    let start = offset + 8;
    if compressed as usize > length - start {
        let message = bucket_message(bucket, " overruns the file and was skipped");
        outcome.warn(path, DiagnosticCode::SkippedData, message);
        return ;
    }
    let frame = vstd::slice::slice_subrange(bytes, start, start + compressed as usize);
    match zstd_decompress(frame, original as usize) {
        Ok(data) => {
            read_bucket_data(path, hash_seed, bucket, data.as_slice(), outcome);
        },
        Err(error) => {
            let mut rest = " failed zstd decompression and was skipped: ".to_owned();
            rest.append(error.as_str());
            let message = bucket_message(bucket, rest.as_str());
            outcome.warn(path, DiagnosticCode::CorruptBucket, message);
        },
    }
}

/// Reads the file `path` with the content `bytes`.
pub fn read_region_bytes(path: &SavePath, bytes: &[u8]) -> (result: Result<
    ReadOutcome,
    RegionError,
>)
    ensures
        formats::read_result(result) == read_outcome(path@, bytes@),
        result matches Ok(outcome) ==> outcome.well_formed(),
{
    if bytes.len() < DATA_START_OFFSET {
        return Err(RegionError::new(RegionErrorKind::BlinearV3TooSmall));
    }
    let (region_x, region_z) = match parse_region_coords_from_path(path) {
        Ok(coords) => coords,
        Err(error) => {
            return Err(error);
        },
    };
    if read_i64(bytes, 0) != BLINEAR_SUPERBLOCK {
        return Err(RegionError::new(RegionErrorKind::BlinearV3Superblock));
    }
    if bytes[8] != 3 {
        return Err(RegionError::new(RegionErrorKind::BlinearV3Version(bytes[8])));
    }
    let hash_seed = read_u32(bytes, 10);
    let mut outcome = ReadOutcome::new(region_x, region_z);
    let mut bucket: usize = 0;
    while bucket < BUCKET_COUNT
        invariant
            bucket <= BUCKET_COUNT,
            bytes@.len() >= DATA_START_OFFSET,
            outcome.well_formed(),
            outcome@ == buckets_read(
                path@,
                hash_seed,
                bytes@,
                bucket as nat,
                formats::nothing_read(region_x, region_z),
            ),
            outcome@.discarded_chunks <= bucket * BUCKET_SIZE,
        decreases BUCKET_COUNT - bucket,
    {
        let offset = read_u64(bytes, HEADER_SIZE + bucket * 8);
        read_bucket(path, hash_seed, bytes, bucket, offset, &mut outcome);
        bucket = bucket + 1;
    }
    Ok(outcome)
}

/// The slots of a bucket.
pub open spec fn bucket_slots(slots: Seq<Option<ChunkView>>, bucket: int) -> Seq<
    Option<ChunkView>,
> {
    slots.subrange(bucket * BUCKET_SIZE, bucket * BUCKET_SIZE + BUCKET_SIZE)
}

/// Whether one of `slots` holds a chunk.
pub open spec fn holds_chunk(slots: Seq<Option<ChunkView>>) -> bool {
    exists|i: int| 0 <= i < slots.len() && #[trigger] slots[i] is Some
}

/// Buckets as they are written: an offset for each, 0 for one without a chunk, and
/// the others one after the other.
#[verifier::ext_equal]
pub struct BucketsView {
    pub offsets: Seq<u64>,
    pub data: Seq<u8>,
    pub units: Seq<EncodedUnit>,
}

/// A bucket as it stands in the file: two lengths and the frame.
pub open spec fn entry_bytes(raw_len: u32, frame: Seq<u8>) -> Seq<u8> {
    bytes::be_u32(raw_len) + bytes::be_u32(frame.len() as u32) + frame
}

/// The buckets written so far and one more without a chunk.
pub open spec fn gap_written(before: BucketsView) -> BucketsView {
    BucketsView { offsets: before.offsets.push(0), ..before }
}

/// The buckets written so far and one more with a list of slots of `raw_len` bytes and
/// that outcome of its compression.
pub open spec fn frame_outcome(
    raw_len: nat,
    compressed: Result<Seq<u8>, Seq<char>>,
    before: BucketsView,
) -> Result<BucketsView, RegionFault> {
    match compressed {
        Err(text) => Err(
            RegionFault { kind: RegionErrorKind::BlinearV3Compression, detail: text },
        ),
        Ok(frame) => if raw_len > i32::MAX {
            Err(error::region_fault(RegionErrorKind::BlinearV3BucketTooLarge))
        } else if frame.len() > i32::MAX {
            Err(error::region_fault(RegionErrorKind::BlinearV3CompressedTooLarge))
        } else {
            Ok(
                BucketsView {
                    offsets: before.offsets.push((DATA_START_OFFSET + before.data.len()) as u64),
                    data: before.data + entry_bytes(raw_len as u32, frame),
                    units: before.units.push(
                        EncodedUnit {
                            raw_len: raw_len as usize,
                            compressed_len: frame.len() as usize,
                        },
                    ),
                },
            )
        },
    }
}

/// The buckets written so far and one more that holds `slots`.
pub open spec fn bucket_written(
    slots: Seq<Option<ChunkView>>,
    level: i32,
    before: BucketsView,
) -> Result<BucketsView, RegionFault> {
    let raw = slots::slots_bytes(slots);
    match slots::slots_fault(slots, RegionErrorKind::BlinearV3SectionTooLarge) {
        Some(kind) => Err(error::region_fault(kind)),
        None => if !holds_chunk(slots) {
            Ok(gap_written(before))
        } else {
            frame_outcome(raw.len(), codec::zstd_bulk_compressed(raw, level), before)
        },
    }
}

/// Nothing written yet.
pub open spec fn no_buckets() -> BucketsView {
    BucketsView { offsets: seq![], data: seq![], units: seq![] }
}

/// The first `n` buckets of a region with the given slots.
pub open spec fn buckets_written(slots: Seq<Option<ChunkView>>, level: i32, n: nat) -> Result<
    BucketsView,
    RegionFault,
>
    decreases n,
{
    if n == 0 {
        Ok(no_buckets())
    } else {
        match buckets_written(slots, level, (n - 1) as nat) {
            Err(fault) => Err(fault),
            Ok(before) => bucket_written(bucket_slots(slots, n - 1), level, before),
        }
    }
}

/// The offsets as they stand after the header.
pub open spec fn offsets_bytes(offsets: Seq<u64>) -> Seq<u8>
    decreases offsets.len(),
{
    if offsets.len() == 0 {
        seq![]
    } else {
        offsets_bytes(offsets.drop_last()) + bytes::be_u64(offsets.last())
    }
}

/// The header.
pub open spec fn header_bytes(level: i32) -> Seq<u8> {
    bytes::be_i64(BLINEAR_SUPERBLOCK) + seq![3u8, level as u8] + bytes::be_u32(BLINEAR_HASH_SEED)
}

/// A file with these buckets.
pub open spec fn file_bytes(level: i32, buckets: BucketsView) -> Seq<u8> {
    header_bytes(level) + offsets_bytes(buckets.offsets) + buckets.data
}

/// The file that `region` is written to.
pub open spec fn encoded_region(region: RegionView, level: i32) -> Result<
    EncodedView,
    RegionFault,
> {
    match buckets_written(region.chunks, level, BUCKET_COUNT as nat) {
        Err(fault) => Err(fault),
        Ok(buckets) => Ok(formats::single_file(file_bytes(level, buckets), buckets.units)),
    }
}

/// An unwritable bucket makes the region unwritable.
proof fn lemma_early_fault(slots: Seq<Option<ChunkView>>, level: i32, n: nat, m: nat)
    requires
        n <= m,
        buckets_written(slots, level, n) is Err,
    ensures
        buckets_written(slots, level, m) == buckets_written(slots, level, n),
    decreases m,
{
    if n < m {
        lemma_early_fault(slots, level, n, (m - 1) as nat);
    }
}

/// The list of slots of a bucket, and whether one of them holds a chunk.
pub fn bucket_payload(region: &Region, bucket: usize) -> (result: Result<(Vec<u8>, bool), RegionError>)
    requires
        region.well_formed(),
        bucket < BUCKET_COUNT,
    ensures
        ({
            let slots = bucket_slots(region@.chunks, bucket as int);
            let fault = slots::slots_fault(slots, RegionErrorKind::BlinearV3SectionTooLarge);
            match result {
                Ok((raw, any)) => {
                    &&& fault is None
                    &&& raw@ == slots::slots_bytes(slots)
                    &&& any == holds_chunk(slots)
                },
                Err(error) => fault == Some(error.kind) && error@ == error::region_fault(
                    error.kind,
                ),
            }
        }),
{
    let ghost slots = bucket_slots(region@.chunks, bucket as int);
    let mut raw: Vec<u8> = Vec::new();
    let mut any = false;
    let mut slot: usize = 0;
    while slot < BUCKET_SIZE
        invariant
            region.well_formed(),
            bucket < BUCKET_COUNT,
            slot <= BUCKET_SIZE,
            slots == bucket_slots(region@.chunks, bucket as int),
            slots.len() == BUCKET_SIZE,
            raw@ == slots::slots_bytes(slots.take(slot as int)),
            slots::slots_fault(
                slots.take(slot as int),
                RegionErrorKind::BlinearV3SectionTooLarge,
            ) is None,
            any == exists|i: int| 0 <= i < slot && #[trigger] slots[i] is Some,
        decreases BUCKET_SIZE - slot,
    {
        let chunk = region.chunk(bucket * BUCKET_SIZE + slot);
        assert(slots.take(slot + 1).drop_last() =~= slots.take(slot as int));
        assert(slots[slot as int] == slots::slot_of(chunk));
        match push_slot(&mut raw, chunk, RegionErrorKind::BlinearV3SectionTooLarge) {
            Ok(_) => {},
            Err(error) => {
                proof {
                    slots::lemma_early_fault(
                        slots,
                        RegionErrorKind::BlinearV3SectionTooLarge,
                        slot + 1,
                    );
                }
                return Err(error);
            },
        }
        if chunk.is_some() {
            any = true;
        }
        slot = slot + 1;
    }
    assert(slots.take(slot as int) =~= slots);
    Ok((raw, any))
}

/// The buckets of a file that is being written, in order.
#[derive(Debug)]
pub struct Buckets {
    pub offsets: Vec<u64>,
    pub data: Vec<u8>,
    pub units: Vec<EncodedUnit>,
}

impl View for Buckets {
    type V = BucketsView;

    open spec fn view(&self) -> BucketsView {
        BucketsView { offsets: self.offsets@, data: self.data@, units: self.units@ }
    }
}

impl Buckets {
    /// Whether there are no more buckets than a file has, each of a length that the
    /// file can tell.
    pub open spec fn well_formed(&self) -> bool {
        &&& self.offsets@.len() <= BUCKET_COUNT
        &&& self.data@.len() <= self.offsets@.len() * 0x1_0000_0000
    }

    /// Nothing written yet.
    pub fn new() -> (buckets: Buckets)
        ensures
            buckets.well_formed(),
            buckets@ == no_buckets(),
    {
        let buckets = Buckets { offsets: Vec::new(), data: Vec::new(), units: Vec::new() };
        assert(buckets@ =~= no_buckets());
        buckets
    }

    /// Writes a bucket without a chunk.
    pub fn push_gap(&mut self)
        requires
            old(self).well_formed(),
            old(self)@.offsets.len() < BUCKET_COUNT,
        ensures
            final(self).well_formed(),
            final(self)@ == gap_written(old(self)@),
    {
        self.offsets.push(0);
    }

    /// Writes a bucket with a list of slots of `raw_len` bytes, whose compression came
    /// out as `compressed`.
    pub fn push_frame(&mut self, raw_len: usize, compressed: Result<Vec<u8>, String>) -> (result:
        Result<(), RegionError>)
        requires
            old(self).well_formed(),
            old(self)@.offsets.len() < BUCKET_COUNT,
        ensures
            final(self).well_formed(),
            match result {
                Ok(_) => frame_outcome(
                    raw_len as nat,
                    codec::result_view(compressed),
                    old(self)@,
                ) == Ok::<BucketsView, RegionFault>(final(self)@),
                Err(error) => {
                    &&& frame_outcome(
                        raw_len as nat,
                        codec::result_view(compressed),
                        old(self)@,
                    ) == Err::<BucketsView, RegionFault>(error@)
                    &&& final(self)@ == old(self)@
                },
            },
    {
        let ghost before = self@;
        let frame = match compressed {
            Ok(frame) => frame,
            Err(text) => {
                return Err(RegionError::with_detail(RegionErrorKind::BlinearV3Compression, text));
            },
        };
        if raw_len > i32::MAX as usize {
            return Err(RegionError::new(RegionErrorKind::BlinearV3BucketTooLarge));
        }
        if frame.len() > i32::MAX as usize {
            return Err(RegionError::new(RegionErrorKind::BlinearV3CompressedTooLarge));
        }
        self.offsets.push(DATA_START_OFFSET as u64 + self.data.len() as u64);
        push_u32(&mut self.data, raw_len as u32);
        push_u32(&mut self.data, frame.len() as u32);
        bytes::append(&mut self.data, frame.as_slice());
        assert(self.data@ =~= before.data + entry_bytes(raw_len as u32, frame@));
        self.units.push(EncodedUnit { raw_len, compressed_len: frame.len() });
        Ok(())
    }

    /// The file with these buckets.
    pub fn finish(self, compression_level: i32) -> (encoded: EncodedRegion)
        ensures
            encoded@ == formats::single_file(file_bytes(compression_level, self@), self@.units),
    {
        let mut main_file_bytes: Vec<u8> = Vec::new();
        push_i64(&mut main_file_bytes, BLINEAR_SUPERBLOCK);
        main_file_bytes.push(3);
        main_file_bytes.push(compression_level as u8);
        push_u32(&mut main_file_bytes, BLINEAR_HASH_SEED);
        assert(main_file_bytes@ =~= header_bytes(compression_level));
        let mut i: usize = 0;
        while i < self.offsets.len()
            invariant
                i <= self.offsets.len(),
                main_file_bytes@ == header_bytes(compression_level) + offsets_bytes(
                    self.offsets@.take(i as int),
                ),
            decreases self.offsets.len() - i,
        {
            push_u64(&mut main_file_bytes, self.offsets[i]);
            assert(self.offsets@.take(i + 1).drop_last() =~= self.offsets@.take(i as int));
            assert(main_file_bytes@ =~= header_bytes(compression_level) + offsets_bytes(
                self.offsets@.take(i + 1),
            ));
            i = i + 1;
        }
        assert(self.offsets@.take(i as int) =~= self.offsets@);
        bytes::append(&mut main_file_bytes, self.data.as_slice());
        EncodedRegion::single(main_file_bytes, self.units)
    }
}

/// Writes `region` at the compression level `compression_level`.
pub fn encode_region(region: &Region, compression_level: i32) -> (result: Result<
    EncodedRegion,
    RegionError,
>)
    requires
        region.well_formed(),
    ensures
        formats::encode_result(result) == encoded_region(region@, compression_level),
        result matches Ok(encoded) ==> forall|path: PathView|
            formats::names_region(path, region@) ==> #[trigger] read_outcome(
                path,
                encoded.main_file_bytes@,
            ) == Ok::<ReadView, RegionFault>(formats::all_read(formats::millis_region(region@))),
{
    let ghost slots = region@.chunks;
    let mut buckets = Buckets::new();
    let mut bucket: usize = 0;
    while bucket < BUCKET_COUNT
        invariant
            region.well_formed(),
            slots == region@.chunks,
            bucket <= BUCKET_COUNT,
            buckets.well_formed(),
            buckets@.offsets.len() == bucket,
            buckets_written(slots, compression_level, bucket as nat) == Ok::<
                BucketsView,
                RegionFault,
            >(buckets@),
            forall|b: int|
                0 <= b < bucket && holds_chunk(#[trigger] bucket_slots(slots, b)) ==> restored(
                    slots::slots_bytes(bucket_slots(slots, b)),
                    compression_level,
                ),
        decreases BUCKET_COUNT - bucket,
    {
        let ghost bucket_list = bucket_slots(slots, bucket as int);
        assert(buckets_written(slots, compression_level, (bucket + 1) as nat) == bucket_written(
            bucket_list,
            compression_level,
            buckets@,
        ));
        proof {
            if bucket_written(bucket_list, compression_level, buckets@) is Err {
                lemma_early_fault(
                    slots,
                    compression_level,
                    (bucket + 1) as nat,
                    BUCKET_COUNT as nat,
                );
            }
        }
        let (raw, any) = match bucket_payload(region, bucket) {
            Ok(payload) => payload,
            Err(error) => {
                return Err(error);
            },
        };
        if any {
            let compressed = zstd_compress(raw.as_slice(), compression_level);
            match buckets.push_frame(raw.len(), compressed) {
                Ok(_) => {},
                Err(error) => {
                    return Err(error);
                },
            }
        } else {
            buckets.push_gap();
        }
        bucket = bucket + 1;
    }
    let encoded = buckets.finish(compression_level);
    proof {
        assert forall|path: PathView| formats::names_region(path, region@) implies #[trigger] read_outcome(
            path,
            encoded.main_file_bytes@,
        ) == Ok::<ReadView, RegionFault>(formats::all_read(formats::millis_region(region@))) by {
            law_region_reads_back(region@, compression_level, path);
        }
    }
    Ok(encoded)
}

/// Whether `raw` can be had back from the frame that it is compressed to.
pub open spec fn restored(raw: Seq<u8>, level: i32) -> bool {
    codec::zstd_bulk_compressed(raw, level) matches Ok(frame) ==> frame.len() > 0 && codec::yields(
        codec::zstd_bulk_decoded(frame, raw.len() as usize),
        raw,
    )
}

/// The offsets take eight bytes each, in order.
proof fn lemma_offset_at(offsets: Seq<u64>, i: int)
    requires
        0 <= i < offsets.len(),
    ensures
        offsets_bytes(offsets).len() == 8 * offsets.len(),
        offsets_bytes(offsets).subrange(8 * i, 8 * i + 8) == bytes::be_u64(offsets[i]),
    decreases offsets.len(),
{
    let before = offsets.drop_last();
    if i < before.len() {
        lemma_offset_at(before, i);
        assert(offsets_bytes(offsets).subrange(8 * i, 8 * i + 8) =~= offsets_bytes(
            before,
        ).subrange(8 * i, 8 * i + 8));
    } else {
        if before.len() > 0 {
            lemma_offset_at(before, 0);
        }
        assert(offsets_bytes(before).len() == 8 * i);
        assert(offsets_bytes(offsets).subrange(8 * i, 8 * i + 8) =~= bytes::be_u64(offsets[i]));
    }
}

/// The first buckets start the list of them all.
pub proof fn lemma_buckets_prefix(slots: Seq<Option<ChunkView>>, level: i32, n: nat, m: nat)
    requires
        n <= m,
        buckets_written(slots, level, m) is Ok,
    ensures
        buckets_written(slots, level, n) is Ok,
        ({
            let part = buckets_written(slots, level, n)->Ok_0;
            let all = buckets_written(slots, level, m)->Ok_0;
            &&& part.offsets.len() == n
            &&& all.offsets.len() == m
            &&& part.offsets == all.offsets.take(n as int)
            &&& part.data.len() <= all.data.len()
            &&& part.data == all.data.take(part.data.len() as int)
        }),
    decreases m,
{
    let all = buckets_written(slots, level, m)->Ok_0;
    if n < m {
        lemma_buckets_prefix(slots, level, n, (m - 1) as nat);
        let part = buckets_written(slots, level, n)->Ok_0;
        let before = buckets_written(slots, level, (m - 1) as nat)->Ok_0;
        assert(all.offsets.take(n as int) =~= before.offsets.take(n as int));
        assert(all.data.take(part.data.len() as int) =~= before.data.take(part.data.len() as int));
    } else {
        if m > 0 {
            lemma_buckets_prefix(slots, level, (m - 1) as nat, (m - 1) as nat);
        }
        assert(all.offsets.take(n as int) =~= all.offsets);
        assert(all.data.take(all.data.len() as int) =~= all.data);
    }
}

/// How far the slots of a written bucket have been read after the first `n`: nothing but
/// the chunks in them and in the buckets before.
spec fn first_read(region: RegionView, bucket: int, n: int) -> BucketScan {
    BucketScan {
        read: formats::all_read(
            RegionView {
                chunks: slots::first_slots(
                    formats::millis_slots(region.chunks),
                    bucket * BUCKET_SIZE + n,
                ),
                ..region
            },
        ),
        offset: slots::slots_bytes(bucket_slots(region.chunks, bucket).take(n)).len() as int,
        stopped: false,
    }
}

/// The slot `i` of a written bucket reads back after those before it.
proof fn lemma_slot_reads_back(path: PathView, region: RegionView, bucket: usize, i: int)
    requires
        region.chunks.len() == BUCKET_COUNT * BUCKET_SIZE,
        bucket < BUCKET_COUNT,
        0 <= i < BUCKET_SIZE,
        slots::slots_fault(
            bucket_slots(region.chunks, bucket as int),
            RegionErrorKind::BlinearV3SectionTooLarge,
        ) is None,
    ensures
        scan_slot(
            path,
            BLINEAR_HASH_SEED,
            bucket,
            slots::slots_bytes(bucket_slots(region.chunks, bucket as int)),
            (bucket * BUCKET_SIZE + i) as usize,
            first_read(region, bucket as int, i),
        ) == first_read(region, bucket as int, i + 1),
{
    let written = bucket_slots(region.chunks, bucket as int);
    let whole = formats::millis_slots(region.chunks);
    let at = bucket * BUCKET_SIZE + i;
    slots::law_slot_reads_back(written, RegionErrorKind::BlinearV3SectionTooLarge, i);
    assert(written[i] == region.chunks[at]);
    let before = slots::first_slots(whole, at);
    let after = slots::first_slots(whole, at + 1);
    match written[i] {
        None => {
            assert(after =~= before);
        },
        Some(chunk) => {
            assert(after =~= before.update(at, Some(formats::millis_chunk(chunk))));
        },
    }
}

/// The slots of a written bucket read back, one after the other.
proof fn lemma_bucket_data_reads_back(
    path: PathView,
    region: RegionView,
    bucket: usize,
    n: nat,
)
    requires
        region.chunks.len() == BUCKET_COUNT * BUCKET_SIZE,
        bucket < BUCKET_COUNT,
        n <= BUCKET_SIZE,
        slots::slots_fault(
            bucket_slots(region.chunks, bucket as int),
            RegionErrorKind::BlinearV3SectionTooLarge,
        ) is None,
    ensures
        scan_slots(
            path,
            BLINEAR_HASH_SEED,
            bucket,
            slots::slots_bytes(bucket_slots(region.chunks, bucket as int)),
            n,
            first_read(region, bucket as int, 0).read,
        ) == first_read(region, bucket as int, n as int),
    decreases n,
{
    if n > 0 {
        lemma_bucket_data_reads_back(path, region, bucket, (n - 1) as nat);
        lemma_slot_reads_back(path, region, bucket, n - 1);
    } else {
        let written = bucket_slots(region.chunks, bucket as int);
        assert(slots::slots_bytes(written.take(0)).len() == 0);
    }
}

/// A written file starts with its header and its offsets.
pub proof fn lemma_file_head(level: i32, buckets: BucketsView, bucket: int)
    requires
        buckets.offsets.len() == BUCKET_COUNT,
        0 <= bucket < BUCKET_COUNT,
    ensures
        ({
            let file = file_bytes(level, buckets);
            &&& file.len() == DATA_START_OFFSET + buckets.data.len()
            &&& file.skip(DATA_START_OFFSET as int) == buckets.data
            &&& bytes::i64_at(file, 0) == BLINEAR_SUPERBLOCK
            &&& file[8] == 3
            &&& bytes::u32_at(file, 10) == BLINEAR_HASH_SEED
            &&& bytes::u64_at(file, HEADER_SIZE + bucket * 8) == buckets.offsets[bucket]
        }),
{
    let file = file_bytes(level, buckets);
    let header = header_bytes(level);
    let table = offsets_bytes(buckets.offsets);
    lemma_offset_at(buckets.offsets, bucket);
    assert(header.len() == HEADER_SIZE);
    assert(file.skip(DATA_START_OFFSET as int) =~= buckets.data);
    assert(file.subrange(0, 8) =~= bytes::be_i64(BLINEAR_SUPERBLOCK));
    bytes::lemma_i64_at_be_i64(file, 0, BLINEAR_SUPERBLOCK);
    assert(file.subrange(10, 14) =~= bytes::be_u32(BLINEAR_HASH_SEED));
    bytes::lemma_u32_at_be_u32(file, 10, BLINEAR_HASH_SEED);
    let at = HEADER_SIZE + bucket * 8;
    assert(file.subrange(at, at + 8) =~= table.subrange(8 * bucket, 8 * bucket + 8));
    bytes::lemma_u64_at_be_u64(file, at, buckets.offsets[bucket]);
}

pub proof fn lemma_entry_at(file: Seq<u8>, offset: int, raw_len: u32, frame: Seq<u8>)
    requires
        0 <= offset,
        offset + 8 + frame.len() <= file.len(),
        raw_len <= i32::MAX,
        frame.len() <= i32::MAX,
        file.subrange(offset, offset + 8 + frame.len()) == entry_bytes(raw_len, frame),
    ensures
        bytes::i32_at(file, offset) == raw_len,
        bytes::i32_at(file, offset + 4) == frame.len(),
        file.subrange(offset + 8, offset + 8 + frame.len()) == frame,
{
    let entry = entry_bytes(raw_len, frame);
    assert(file.subrange(offset, offset + 4) =~= entry.take(4));
    assert(entry.take(4) =~= bytes::be_u32(raw_len));
    bytes::lemma_u32_at_be_u32(file, offset, raw_len);
    assert(file.subrange(offset + 4, offset + 8) =~= entry.subrange(4, 8));
    assert(entry.subrange(4, 8) =~= bytes::be_u32(frame.len() as u32));
    bytes::lemma_u32_at_be_u32(file, offset + 4, frame.len() as u32);
    assert(file.subrange(offset + 8, offset + 8 + frame.len()) =~= entry.skip(8));
    assert(entry.skip(8) =~= frame);
}

/// A bucket with a chunk stands in a written file at its offset.
#[verifier::rlimit(40)]
pub proof fn lemma_entry_in_file(slots: Seq<Option<ChunkView>>, level: i32, bucket: int)
    requires
        0 <= bucket < BUCKET_COUNT,
        buckets_written(slots, level, BUCKET_COUNT as nat) is Ok,
        holds_chunk(bucket_slots(slots, bucket)),
    ensures
        ({
            let buckets = buckets_written(slots, level, BUCKET_COUNT as nat)->Ok_0;
            let file = file_bytes(level, buckets);
            let raw = slots::slots_bytes(bucket_slots(slots, bucket));
            let offset = buckets.offsets[bucket] as int;
            &&& slots::slots_fault(
                bucket_slots(slots, bucket),
                RegionErrorKind::BlinearV3SectionTooLarge,
            ) is None
            &&& codec::zstd_bulk_compressed(raw, level) matches Ok(frame)
            &&& raw.len() <= i32::MAX
            &&& frame.len() <= i32::MAX
            &&& DATA_START_OFFSET <= offset
            &&& offset + 8 + frame.len() <= file.len()
            &&& file.subrange(offset, offset + 8 + frame.len()) == entry_bytes(
                raw.len() as u32,
                frame,
            )
        }),
{
    let buckets = buckets_written(slots, level, BUCKET_COUNT as nat)->Ok_0;
    let file = file_bytes(level, buckets);
    let written = bucket_slots(slots, bucket);
    lemma_buckets_prefix(slots, level, bucket as nat, BUCKET_COUNT as nat);
    lemma_buckets_prefix(slots, level, (bucket + 1) as nat, BUCKET_COUNT as nat);
    let before = buckets_written(slots, level, bucket as nat)->Ok_0;
    let after = buckets_written(slots, level, (bucket + 1) as nat)->Ok_0;
    assert(bucket_written(written, level, before) == Ok::<BucketsView, RegionFault>(after));
    assert(buckets.offsets[bucket] == after.offsets[bucket]);
    let raw = slots::slots_bytes(written);
    let frame = codec::zstd_bulk_compressed(raw, level)->Ok_0;
    let start = before.data.len();
    lemma_offset_small(slots, level, bucket as nat);
    lemma_file_head(level, buckets, 0);
    let entry = entry_bytes(raw.len() as u32, frame);
    let offset = DATA_START_OFFSET + start;
    assert(entry.len() == 8 + frame.len());
    assert(after.data == before.data + entry);
    assert(file.subrange(offset as int, offset + entry.len()) =~= file.skip(
        DATA_START_OFFSET as int,
    ).subrange(start as int, (start + entry.len()) as int));
    assert(buckets.data.subrange(start as int, (start + entry.len()) as int)
        =~= buckets.data.take(after.data.len() as int).skip(start as int));
    assert(after.data.skip(start as int) =~= entry);
}

/// A bucket without a chunk has no offset.
pub proof fn lemma_no_entry_in_file(slots: Seq<Option<ChunkView>>, level: i32, bucket: int)
    requires
        0 <= bucket < BUCKET_COUNT,
        buckets_written(slots, level, BUCKET_COUNT as nat) is Ok,
        !holds_chunk(bucket_slots(slots, bucket)),
    ensures
        buckets_written(slots, level, BUCKET_COUNT as nat)->Ok_0.offsets[bucket] == 0,
{
    let buckets = buckets_written(slots, level, BUCKET_COUNT as nat)->Ok_0;
    lemma_buckets_prefix(slots, level, bucket as nat, BUCKET_COUNT as nat);
    lemma_buckets_prefix(slots, level, (bucket + 1) as nat, BUCKET_COUNT as nat);
    let after = buckets_written(slots, level, (bucket + 1) as nat)->Ok_0;
    assert(buckets.offsets[bucket] == after.offsets[bucket]);
}

/// A bucket of a written file reads back.
#[verifier::rlimit(40)]
proof fn lemma_bucket_reads_back(path: PathView, region: RegionView, level: i32, bucket: usize)
    requires
        region.chunks.len() == BUCKET_COUNT * BUCKET_SIZE,
        bucket < BUCKET_COUNT,
        buckets_written(region.chunks, level, BUCKET_COUNT as nat) is Ok,
        holds_chunk(bucket_slots(region.chunks, bucket as int)) ==> restored(
            slots::slots_bytes(bucket_slots(region.chunks, bucket as int)),
            level,
        ),
    ensures
        ({
            let buckets = buckets_written(region.chunks, level, BUCKET_COUNT as nat)->Ok_0;
            let whole = formats::millis_slots(region.chunks);
            let first = bucket * BUCKET_SIZE;
            bucket_read(
                path,
                BLINEAR_HASH_SEED,
                file_bytes(level, buckets),
                bucket,
                buckets.offsets[bucket as int],
                formats::all_read(
                    RegionView { chunks: slots::first_slots(whole, first), ..region },
                ),
            ) == formats::all_read(
                RegionView { chunks: slots::first_slots(whole, first + BUCKET_SIZE), ..region },
            )
        }),
{
    let buckets = buckets_written(region.chunks, level, BUCKET_COUNT as nat)->Ok_0;
    let written = bucket_slots(region.chunks, bucket as int);
    let whole = formats::millis_slots(region.chunks);
    let first = bucket * BUCKET_SIZE;
    if holds_chunk(written) {
        let raw = slots::slots_bytes(written);
        let frame = codec::zstd_bulk_compressed(raw, level)->Ok_0;
        lemma_entry_in_file(region.chunks, level, bucket as int);
        lemma_entry_at(
            file_bytes(level, buckets),
            buckets.offsets[bucket as int] as int,
            raw.len() as u32,
            frame,
        );
        lemma_some_bytes(written);
        lemma_bucket_data_reads_back(path, region, bucket, BUCKET_SIZE as nat);
        assert(written.take(BUCKET_SIZE as int) =~= written);
    } else {
        lemma_no_entry_in_file(region.chunks, level, bucket as int);
        assert forall|i: int| first <= i < first + BUCKET_SIZE implies whole[i] is None by {
            assert(written[i - first] == region.chunks[i]);
            assert(!(written[i - first] is Some));
        }
        assert(slots::first_slots(whole, first + BUCKET_SIZE) =~= slots::first_slots(
            whole,
            first as int,
        ));
    }
}

/// A list of slots takes four bytes at least.
proof fn lemma_some_bytes(slots: Seq<Option<ChunkView>>)
    requires
        slots.len() > 0,
    ensures
        slots::slots_bytes(slots).len() > 0,
{
    assert(slots::slot_bytes(slots.last()).len() >= 4);
}

/// The buckets stay small enough for their offsets.
proof fn lemma_offset_small(slots: Seq<Option<ChunkView>>, level: i32, n: nat)
    requires
        buckets_written(slots, level, n) is Ok,
        n <= BUCKET_COUNT,
    ensures
        buckets_written(slots, level, n)->Ok_0.data.len() <= n * 0x1_0000_0000,
    decreases n,
{
    if n > 0 {
        lemma_offset_small(slots, level, (n - 1) as nat);
    }
}

/// A region that was written reads back whole, without a diagnostic, with the
/// timestamps of its chunks in milliseconds.
pub proof fn law_region_reads_back(region: RegionView, level: i32, path: PathView)
    requires
        region.chunks.len() == BUCKET_COUNT * BUCKET_SIZE,
        encoded_region(region, level) is Ok,
        formats::names_region(path, region),
        forall|b: int|
            0 <= b < BUCKET_COUNT && holds_chunk(#[trigger] bucket_slots(region.chunks, b))
                ==> restored(slots::slots_bytes(bucket_slots(region.chunks, b)), level),
    ensures
        read_outcome(path, encoded_region(region, level)->Ok_0.main_file_bytes) == Ok::<
            ReadView,
            RegionFault,
        >(formats::all_read(formats::millis_region(region))),
{
    let buckets = buckets_written(region.chunks, level, BUCKET_COUNT as nat)->Ok_0;
    let whole = formats::millis_slots(region.chunks);
    lemma_buckets_prefix(region.chunks, level, 0, BUCKET_COUNT as nat);
    lemma_file_head(level, buckets, 0);
    lemma_buckets_read_back(path, region, level, BUCKET_COUNT as nat);
    assert(slots::first_slots(whole, BUCKET_COUNT * BUCKET_SIZE) =~= whole);
}

proof fn lemma_buckets_read_back(path: PathView, region: RegionView, level: i32, n: nat)
    requires
        region.chunks.len() == BUCKET_COUNT * BUCKET_SIZE,
        n <= BUCKET_COUNT,
        buckets_written(region.chunks, level, BUCKET_COUNT as nat) is Ok,
        forall|b: int|
            0 <= b < BUCKET_COUNT && holds_chunk(#[trigger] bucket_slots(region.chunks, b))
                ==> restored(slots::slots_bytes(bucket_slots(region.chunks, b)), level),
    ensures
        ({
            let buckets = buckets_written(region.chunks, level, BUCKET_COUNT as nat)->Ok_0;
            let whole = formats::millis_slots(region.chunks);
            buckets_read(
                path,
                BLINEAR_HASH_SEED,
                file_bytes(level, buckets),
                n,
                formats::nothing_read(region.region_x, region.region_z),
            ) == formats::all_read(
                RegionView { chunks: slots::first_slots(whole, n * BUCKET_SIZE), ..region },
            )
        }),
    decreases n,
{
    let buckets = buckets_written(region.chunks, level, BUCKET_COUNT as nat)->Ok_0;
    let whole = formats::millis_slots(region.chunks);
    let nothing = formats::nothing_read(region.region_x, region.region_z);
    if n == 0 {
        assert(slots::first_slots(whole, 0) =~= nothing.region.chunks);
    } else {
        let bucket = (n - 1) as usize;
        assert(bucket_slots(region.chunks, bucket as int) == bucket_slots(region.chunks, n - 1));
        lemma_buckets_read_back(path, region, level, bucket as nat);
        lemma_bucket_reads_back(path, region, level, bucket);
        lemma_buckets_prefix(region.chunks, level, 0, BUCKET_COUNT as nat);
        lemma_file_head(level, buckets, bucket as int);
    }
}

} // verus!
