//! The second version of the blinear format: a header, and one compressed list of
//! all the slots.

use vstd::prelude::*;
use vstd::string::*;

use crate::bytes::{self, push_i64, read_i64};
use crate::codec::{self, zstd_compress, zstd_stream_compress, zstd_stream_decode};
use crate::diagnostic::DiagnosticCode;
use crate::error::{self, RegionError, RegionErrorKind, RegionFault};
use crate::formats::slots::{self, push_slot, read_slot, SlotReading};
use crate::formats::{
    self, decode_chunk_section, newest_timestamp_millis, parse_region_coords_from_path,
    EncodedRegion, EncodedUnit, EncodedView, ReadOutcome, ReadView, BLINEAR_HASH_SEED,
    BLINEAR_SUPERBLOCK,
};
use crate::model::{self, ChunkView, Region, RegionView, REGION_CHUNK_COUNT};
use crate::path::{PathView, SavePath};

verus! {

/// The length of the header.
pub const HEADER_SIZE: usize = 18;

/// How far the slots have been read: up to `offset` of the payload, or until a chunk
/// that the payload does not hold whole.
pub struct SlotScan {
    pub read: ReadView,
    pub offset: int,
    pub stopped: bool,
}

/// One more slot, the slot `index`.
pub open spec fn scan_slot(path: PathView, data: Seq<u8>, index: usize, scan: SlotScan) -> Result<
    SlotScan,
    RegionFault,
> {
    match slots::slot_at(data, scan.offset) {
        SlotReading::Ended => Err(error::region_fault(RegionErrorKind::BlinearV2Ended(index))),
        SlotReading::Negative => Err(
            error::region_fault(RegionErrorKind::BlinearV2NegativeSection(index)),
        ),
        SlotReading::Empty => Ok(SlotScan { offset: scan.offset + 4, ..scan }),
        SlotReading::Overrun => Ok(
            SlotScan {
                read: scan.read.warned_at(
                    path,
                    DiagnosticCode::SkippedData,
                    "chunk points past the decompressed buffer and was skipped"@,
                    index,
                ).discarding(),
                offset: scan.offset + 4,
                stopped: true,
            },
        ),
        SlotReading::Section(length) => Ok(
            SlotScan {
                read: scan.read.with_section(
                    path,
                    index,
                    formats::section_outcome(
                        slots::section_at(data, scan.offset, length),
                        BLINEAR_HASH_SEED,
                    ),
                ),
                offset: scan.offset + 4 + length,
                ..scan
            },
        ),
    }
}

/// The first `n` slots.
pub open spec fn scan_slots(path: PathView, data: Seq<u8>, n: nat, read: ReadView) -> Result<
    SlotScan,
    RegionFault,
>
    decreases n,
{
    if n == 0 {
        Ok(SlotScan { read, offset: 0, stopped: false })
    } else {
        match scan_slots(path, data, (n - 1) as nat, read) {
            Err(fault) => Err(fault),
            Ok(before) => if before.stopped {
                Ok(before)
            } else {
                scan_slot(path, data, (n - 1) as usize, before)
            },
        }
    }
}

/// What is read of the decompressed payload `data`.
pub open spec fn payload_read(path: PathView, data: Seq<u8>, read: ReadView) -> Result<
    ReadView,
    RegionFault,
> {
    match scan_slots(path, data, REGION_CHUNK_COUNT as nat, read) {
        Err(fault) => Err(fault),
        Ok(scan) => if scan.offset != data.len() {
            Err(error::region_fault(RegionErrorKind::BlinearV2Trailing))
        } else {
            Ok(scan.read)
        },
    }
}

/// What reading the file `path` with the content `bytes` gives.
pub open spec fn read_outcome(path: PathView, bytes: Seq<u8>) -> Result<ReadView, RegionFault> {
    if bytes.len() < HEADER_SIZE {
        Err(error::region_fault(RegionErrorKind::BlinearV2TooSmall))
    } else {
        match formats::path_coords(path) {
            Err(kind) => Err(error::region_fault(kind)),
            Ok((region_x, region_z)) => if bytes::i64_at(bytes, 0) != BLINEAR_SUPERBLOCK {
                Err(error::region_fault(RegionErrorKind::BlinearV2Superblock))
            } else if bytes[8] != 2 {
                Err(error::region_fault(RegionErrorKind::BlinearV2Version(bytes[8])))
            } else {
                match codec::zstd_stream_decoded(bytes.skip(HEADER_SIZE as int)) {
                    Err(text) => Err(
                        RegionFault { kind: RegionErrorKind::Decompression, detail: text },
                    ),
                    Ok(data) => payload_read(
                        path,
                        data,
                        formats::nothing_read(region_x, region_z),
                    ),
                }
            },
        }
    }
}

/// What is read of some slots tells of each chunk that was given up.
proof fn lemma_slots_warned(path: PathView, data: Seq<u8>, n: nat, read: ReadView)
    requires
        formats::discards_warned(read),
    ensures
        match scan_slots(path, data, n, read) {
            Ok(scan) => formats::discards_warned(scan.read),
            Err(_) => true,
        },
    decreases n,
{
    if n > 0 {
        lemma_slots_warned(path, data, (n - 1) as nat, read);
        if let Ok(scan) = scan_slots(path, data, n, read) {
            let before = scan_slots(path, data, (n - 1) as nat, read)->Ok_0.read;
            if scan.read.diagnostics.len() > before.diagnostics.len() {
                formats::lemma_warned_stays(before, scan.read.diagnostics.last());
            }
        }
    }
}

/// What is read of a file tells of each chunk that was given up.
pub proof fn lemma_discards_warned(path: PathView, bytes: Seq<u8>)
    ensures
        match read_outcome(path, bytes) {
            Ok(read) => formats::discards_warned(read),
            Err(_) => true,
        },
{
    if let Ok((region_x, region_z)) = formats::path_coords(path) {
        if let Ok(data) = codec::zstd_stream_decoded(bytes.skip(HEADER_SIZE as int)) {
            lemma_slots_warned(
                path,
                data,
                REGION_CHUNK_COUNT as nat,
                formats::nothing_read(region_x, region_z),
            );
        }
    }
}

/// Where the slots cannot be read up to one, they cannot be read up to a later one.
proof fn lemma_scan_fault(path: PathView, data: Seq<u8>, n: nat, m: nat, read: ReadView)
    requires
        n <= m,
        scan_slots(path, data, n, read) is Err || scan_slots(path, data, n, read)->Ok_0.stopped,
    ensures
        scan_slots(path, data, m, read) == scan_slots(path, data, n, read),
    decreases m,
{
    if n < m {
        lemma_scan_fault(path, data, n, (m - 1) as nat, read);
    }
}

/// Reads the decompressed payload `data` of the region at `(region_x, region_z)`.
pub fn read_payload(path: &SavePath, region_x: i32, region_z: i32, data: &[u8]) -> (result: Result<
    ReadOutcome,
    RegionError,
>)
    ensures
        formats::read_result(result) == payload_read(
            path@,
            data@,
            formats::nothing_read(region_x, region_z),
        ),
        result matches Ok(outcome) ==> outcome.well_formed(),
{
    let ghost start = formats::nothing_read(region_x, region_z);
    let size = data.len();
    let mut outcome = ReadOutcome::new(region_x, region_z);
    let mut offset: usize = 0;
    let mut whole = true;
    let mut index: usize = 0;
    while index < REGION_CHUNK_COUNT && whole
        invariant
            index <= REGION_CHUNK_COUNT,
            size == data@.len(),
            offset <= size,
            outcome.well_formed(),
            outcome@.discarded_chunks <= index,
            start == formats::nothing_read(region_x, region_z),
            scan_slots(path@, data@, index as nat, start) == Ok::<SlotScan, RegionFault>(
                SlotScan { read: outcome@, offset: offset as int, stopped: !whole },
            ),
            whole || scan_slots(path@, data@, REGION_CHUNK_COUNT as nat, start) == scan_slots(
                path@,
                data@,
                index as nat,
                start,
            ),
        decreases REGION_CHUNK_COUNT - index,
    {
        proof {
            let next = scan_slots(path@, data@, (index + 1) as nat, start);
            if next is Err || next->Ok_0.stopped {
                lemma_scan_fault(
                    path@,
                    data@,
                    (index + 1) as nat,
                    REGION_CHUNK_COUNT as nat,
                    start,
                );
            }
        }
        let reading = read_slot(data, offset);
        match reading {
            SlotReading::Ended => {
                return Err(RegionError::new(RegionErrorKind::BlinearV2Ended(index)));
            },
            SlotReading::Negative => {
                return Err(RegionError::new(RegionErrorKind::BlinearV2NegativeSection(index)));
            },
            SlotReading::Empty => {
                offset = offset + 4;
            },
            SlotReading::Overrun => {
                let message = "chunk points past the decompressed buffer and was skipped".to_owned();
                outcome.warn_at(path, DiagnosticCode::SkippedData, message, index);
                outcome.discard();
                offset = offset + 4;
                whole = false;
            },
            SlotReading::Section(length) => {
                let section = vstd::slice::slice_subrange(data, offset + 4, offset + 4 + length);
                let result = decode_chunk_section(section, BLINEAR_HASH_SEED);
                outcome.keep_section(path, index, result);
                offset = offset + 4 + length;
            },
        }
        index = index + 1;
    }
    if offset != size {
        return Err(RegionError::new(RegionErrorKind::BlinearV2Trailing));
    }
    Ok(outcome)
}

/// Reads the file `path` with the content `bytes`.
pub fn read_region_bytes(path: &SavePath, bytes: &[u8]) -> (result: Result<
    ReadOutcome,
    RegionError,
>)
    ensures
        formats::read_result(result) == read_outcome(path@, bytes@),
        result matches Ok(outcome) ==> outcome.well_formed(),
{
    if bytes.len() < HEADER_SIZE {
        return Err(RegionError::new(RegionErrorKind::BlinearV2TooSmall));
    }
    let (region_x, region_z) = match parse_region_coords_from_path(path) {
        Ok(coords) => coords,
        Err(error) => {
            return Err(error);
        },
    };
    if read_i64(bytes, 0) != BLINEAR_SUPERBLOCK {
        return Err(RegionError::new(RegionErrorKind::BlinearV2Superblock));
    }
    if bytes[8] != 2 {
        return Err(RegionError::new(RegionErrorKind::BlinearV2Version(bytes[8])));
    }
    let compressed = vstd::slice::slice_subrange(bytes, HEADER_SIZE, bytes.len());
    assert(compressed@ =~= bytes@.skip(HEADER_SIZE as int));
    match zstd_stream_decode(compressed) {
        Ok(data) => read_payload(path, region_x, region_z, data.as_slice()),
        Err(text) => Err(RegionError::with_detail(RegionErrorKind::Decompression, text)),
    }
}

/// The header of a file with the slots `slots`.
pub open spec fn header_bytes(slots: Seq<Option<ChunkView>>, level: i32) -> Seq<u8> {
    bytes::be_i64(BLINEAR_SUPERBLOCK) + seq![2u8] + bytes::be_i64(
        model::newest_of(model::occupied(formats::millis_slots(slots))),
    ) + seq![level as u8]
}

/// The file with the slots `slots` and that outcome of the compression of its payload of
/// `raw_len` bytes: with `profiled`, the payload was compressed at once and is counted,
/// else it was compressed as a stream.
pub open spec fn frame_outcome(
    slots: Seq<Option<ChunkView>>,
    raw_len: nat,
    level: i32,
    profiled: bool,
    compressed: Result<Seq<u8>, Seq<char>>,
) -> Result<EncodedView, RegionFault> {
    match compressed {
        Err(text) => Err(
            RegionFault {
                kind: if profiled {
                    RegionErrorKind::BlinearV2Compression
                } else {
                    RegionErrorKind::BlinearV2Stream
                },
                detail: text,
            },
        ),
        Ok(frame) => Ok(
            formats::single_file(
                header_bytes(slots, level) + frame,
                if profiled {
                    seq![
                        EncodedUnit {
                            raw_len: raw_len as usize,
                            compressed_len: frame.len() as usize,
                        },
                    ]
                } else {
                    seq![]
                },
            ),
        ),
    }
}

/// The file that `region` is written to: with `profiled`, its payload is compressed
/// at once and counted, else it is compressed as a stream.
pub open spec fn encoded_region(region: RegionView, level: i32, profiled: bool) -> Result<
    EncodedView,
    RegionFault,
> {
    let raw = slots::slots_bytes(region.chunks);
    match slots::slots_fault(region.chunks, RegionErrorKind::BlinearV2SectionTooLarge) {
        Some(kind) => Err(error::region_fault(kind)),
        None => frame_outcome(
            region.chunks,
            raw.len(),
            level,
            profiled,
            if profiled {
                codec::zstd_bulk_compressed(raw, level)
            } else {
                codec::zstd_stream_compressed(raw, level)
            },
        ),
    }
}

/// The list of all the slots of `region`.
pub fn raw_payload(region: &Region) -> (result: Result<Vec<u8>, RegionError>)
    requires
        region.well_formed(),
    ensures
        ({
            let fault = slots::slots_fault(
                region@.chunks,
                RegionErrorKind::BlinearV2SectionTooLarge,
            );
            match result {
                Ok(raw) => fault is None && raw@ == slots::slots_bytes(region@.chunks),
                Err(error) => fault == Some(error.kind) && error@ == error::region_fault(
                    error.kind,
                ),
            }
        }),
{
    let ghost slots = region@.chunks;
    let mut raw: Vec<u8> = Vec::new();
    let mut index: usize = 0;
    while index < REGION_CHUNK_COUNT
        invariant
            region.well_formed(),
            slots == region@.chunks,
            index <= REGION_CHUNK_COUNT,
            raw@ == slots::slots_bytes(slots.take(index as int)),
            slots::slots_fault(
                slots.take(index as int),
                RegionErrorKind::BlinearV2SectionTooLarge,
            ) is None,
        decreases REGION_CHUNK_COUNT - index,
    {
        let chunk = region.chunk(index);
        assert(slots.take(index + 1).drop_last() =~= slots.take(index as int));
        assert(slots[index as int] == slots::slot_of(chunk));
        match push_slot(&mut raw, chunk, RegionErrorKind::BlinearV2SectionTooLarge) {
            Ok(_) => {},
            Err(error) => {
                proof {
                    slots::lemma_early_fault(
                        slots,
                        RegionErrorKind::BlinearV2SectionTooLarge,
                        index + 1,
                    );
                }
                return Err(error);
            },
        }
        index = index + 1;
    }
    assert(slots.take(index as int) =~= slots);
    Ok(raw)
}

/// The file with the slots of `region`, the compression of whose payload of `raw_len`
/// bytes came out as `compressed`.
pub fn frame_payload(
    region: &Region,
    raw_len: usize,
    compression_level: i32,
    profiled: bool,
    compressed: Result<Vec<u8>, String>,
) -> (result: Result<EncodedRegion, RegionError>)
    ensures
        formats::encode_result(result) == frame_outcome(
            region@.chunks,
            raw_len as nat,
            compression_level,
            profiled,
            codec::result_view(compressed),
        ),
{
    let frame = match compressed {
        Ok(frame) => frame,
        Err(text) => {
            let kind = if profiled {
                RegionErrorKind::BlinearV2Compression
            } else {
                RegionErrorKind::BlinearV2Stream
            };
            return Err(RegionError::with_detail(kind, text));
        },
    };
    let mut main_file_bytes: Vec<u8> = Vec::new();
    push_i64(&mut main_file_bytes, BLINEAR_SUPERBLOCK);
    main_file_bytes.push(2);
    push_i64(&mut main_file_bytes, newest_timestamp_millis(region));
    main_file_bytes.push(compression_level as u8);
    assert(main_file_bytes@ =~= header_bytes(region@.chunks, compression_level));
    bytes::append(&mut main_file_bytes, frame.as_slice());
    let mut units: Vec<EncodedUnit> = Vec::new();
    if profiled {
        units.push(EncodedUnit { raw_len, compressed_len: frame.len() });
    }
    Ok(EncodedRegion::single(main_file_bytes, units))
}

/// Writes `region` at the compression level `compression_level`.
pub fn encode_region_to_writer(region: &Region, compression_level: i32) -> (result: Result<
    EncodedRegion,
    RegionError,
>)
    requires
        region.well_formed(),
    ensures
        formats::encode_result(result) == encoded_region(region@, compression_level, false),
        result matches Ok(encoded) ==> forall|path: PathView|
            formats::names_region(path, region@) ==> #[trigger] read_outcome(
                path,
                encoded.main_file_bytes@,
            ) == Ok::<ReadView, RegionFault>(formats::all_read(formats::millis_region(region@))),
{
    encode_region_to_writer_profiled(region, compression_level, false)
}

/// Writes `region` at the compression level `compression_level`: with `profiled`, its
/// payload is compressed at once and counted, else it is compressed as a stream.
pub fn encode_region_to_writer_profiled(
    region: &Region,
    compression_level: i32,
    profiled: bool,
) -> (result: Result<EncodedRegion, RegionError>)
    requires
        region.well_formed(),
    ensures
        formats::encode_result(result) == encoded_region(region@, compression_level, profiled),
        result matches Ok(encoded) ==> forall|path: PathView|
            formats::names_region(path, region@) ==> #[trigger] read_outcome(
                path,
                encoded.main_file_bytes@,
            ) == Ok::<ReadView, RegionFault>(formats::all_read(formats::millis_region(region@))),
{
    let raw = match raw_payload(region) {
        Ok(raw) => raw,
        Err(error) => {
            return Err(error);
        },
    };
    let compressed = if profiled {
        zstd_compress(raw.as_slice(), compression_level)
    } else {
        zstd_stream_compress(raw.as_slice(), compression_level)
    };
    let ghost outcome = codec::result_view(compressed);
    let result = frame_payload(region, raw.len(), compression_level, profiled, compressed);
    proof {
        if result is Ok {
            let frame = outcome->Ok_0;
            assert forall|path: PathView| formats::names_region(path, region@) implies #[trigger] read_outcome(
                path,
                result->Ok_0.main_file_bytes@,
            ) == Ok::<ReadView, RegionFault>(
                formats::all_read(formats::millis_region(region@)),
            ) by {
                law_region_reads_back(region@, compression_level, frame, path);
            }
        }
    }
    result
}

/// How far the slots of a written payload have been read after the first `n`: nothing
/// but the chunks in them.
spec fn first_read(region: RegionView, n: int) -> SlotScan {
    SlotScan {
        read: formats::all_read(
            RegionView {
                chunks: slots::first_slots(formats::millis_slots(region.chunks), n),
                ..region
            },
        ),
        offset: slots::slots_bytes(region.chunks.take(n)).len() as int,
        stopped: false,
    }
}

/// The slot `i` of a written payload reads back after those before it.
proof fn lemma_slot_reads_back(path: PathView, region: RegionView, i: int)
    requires
        0 <= i < REGION_CHUNK_COUNT,
        region.chunks.len() == REGION_CHUNK_COUNT,
        slots::slots_fault(region.chunks, RegionErrorKind::BlinearV2SectionTooLarge) is None,
    ensures
        scan_slot(
            path,
            slots::slots_bytes(region.chunks),
            i as usize,
            first_read(region, i),
        ) == Ok::<SlotScan, RegionFault>(first_read(region, i + 1)),
{
    let whole = formats::millis_slots(region.chunks);
    slots::law_slot_reads_back(region.chunks, RegionErrorKind::BlinearV2SectionTooLarge, i);
    let before = slots::first_slots(whole, i);
    let after = slots::first_slots(whole, i + 1);
    match region.chunks[i] {
        None => {
            assert(after =~= before);
        },
        Some(chunk) => {
            assert(after =~= before.update(i, Some(formats::millis_chunk(chunk))));
        },
    }
}

/// The slots of a written payload read back, one after the other.
proof fn lemma_slots_read_back(path: PathView, region: RegionView, n: nat)
    requires
        n <= REGION_CHUNK_COUNT,
        region.chunks.len() == REGION_CHUNK_COUNT,
        slots::slots_fault(region.chunks, RegionErrorKind::BlinearV2SectionTooLarge) is None,
    ensures
        scan_slots(
            path,
            slots::slots_bytes(region.chunks),
            n,
            formats::nothing_read(region.region_x, region.region_z),
        ) == Ok::<SlotScan, RegionFault>(first_read(region, n as int)),
    decreases n,
{
    if n == 0 {
        let nothing = formats::nothing_read(region.region_x, region.region_z);
        assert(first_read(region, 0).read.region.chunks =~= nothing.region.chunks);
        assert(slots::slots_bytes(region.chunks.take(0)).len() == 0);
    } else {
        lemma_slots_read_back(path, region, (n - 1) as nat);
        lemma_slot_reads_back(path, region, n - 1);
    }
}

/// A region that was written reads back whole, without a diagnostic, with the
/// timestamps of its chunks in milliseconds, wherever `frame` is a frame from which
/// its payload can be had back.
pub proof fn law_region_reads_back(region: RegionView, level: i32, frame: Seq<u8>, path: PathView)
    requires
        region.chunks.len() == REGION_CHUNK_COUNT,
        slots::slots_fault(region.chunks, RegionErrorKind::BlinearV2SectionTooLarge) is None,
        codec::yields(codec::zstd_stream_decoded(frame), slots::slots_bytes(region.chunks)),
        formats::names_region(path, region),
    ensures
        read_outcome(path, header_bytes(region.chunks, level) + frame) == Ok::<
            ReadView,
            RegionFault,
        >(formats::all_read(formats::millis_region(region))),
{
    let header = header_bytes(region.chunks, level);
    let file = header + frame;
    let whole = formats::millis_slots(region.chunks);
    assert(header.len() == HEADER_SIZE);
    assert(file.subrange(0, 8) =~= bytes::be_i64(BLINEAR_SUPERBLOCK));
    bytes::lemma_i64_at_be_i64(file, 0, BLINEAR_SUPERBLOCK);
    assert(file.skip(HEADER_SIZE as int) =~= frame);
    lemma_slots_read_back(path, region, REGION_CHUNK_COUNT as nat);
    assert(region.chunks.take(REGION_CHUNK_COUNT as int) =~= region.chunks);
    assert(slots::first_slots(whole, REGION_CHUNK_COUNT as int) =~= whole);
}

} // verus!
