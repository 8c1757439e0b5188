use region_converter::diagnostic::{warning_count, DiagnosticCode};
use region_converter::error::{ChunkErrorKind, RegionErrorKind};
use region_converter::formats::mca::{
    external_chunk_files, region_uses_external_chunks, storage_size, ExternalChunk,
};
use region_converter::formats::{
    blinear_v2, blinear_v3, decode_chunk_section, decode_region, detect_format,
    detect_storage_format, encode_chunk_section, encode_region, encode_region_profiled,
    guess_format_from_path, linear, looks_like_region_file, normalize_timestamp_to_millis,
    normalize_timestamp_to_u32, parse_region_coords_from_path, read_region, region_storage_size,
    xxhash32, EncodedRegion, RegionFormat, RegionStorageFormat, SourceFormatHint,
    BLINEAR_HASH_SEED, BLINEAR_SUPERBLOCK, LINEAR_SUPERBLOCK,
};
use region_converter::model::{ChunkData, Region};
use region_converter::path::{PathComponent, SavePath};

const FORMATS: [RegionFormat; 4] = [
    RegionFormat::Mca,
    RegionFormat::Linear,
    RegionFormat::BlinearV2,
    RegionFormat::BlinearV3,
];

fn path(name: &str) -> SavePath {
    SavePath {
        separator: '/',
        components: vec![
            PathComponent::Normal("world".to_string()),
            PathComponent::Normal(name.to_string()),
        ],
    }
}

fn pseudo_random_bytes(len: usize) -> Vec<u8> {
    let mut state = 0x1234_5678_u32;
    let mut bytes = Vec::with_capacity(len);
    for _ in 0..len {
        state ^= state << 13;
        state ^= state >> 17;
        state ^= state << 5;
        bytes.push((state & 0xff) as u8);
    }
    bytes
}

fn chunk(timestamp: i64, len: usize) -> ChunkData {
    ChunkData { timestamp, raw_nbt: pseudo_random_bytes(len) }
}

fn sample(timestamps: [i64; 3]) -> Region {
    let mut region = Region::new(-1, 3);
    region.set_chunk(0, chunk(timestamps[0], 256)).unwrap();
    region.set_chunk(17, chunk(timestamps[1], 6000)).unwrap();
    region.set_chunk(1023, chunk(timestamps[2], 3)).unwrap();
    region
}

fn no_externals() -> Vec<ExternalChunk> {
    Vec::new()
}

fn file_name(format: RegionFormat) -> SavePath {
    path(&Region::new(-1, 3).file_name(format))
}

fn reread(encoded: &EncodedRegion, format: RegionFormat) -> Region {
    let outcome =
        read_region(&file_name(format), &encoded.main_file_bytes, &no_externals(), format).unwrap();
    assert!(outcome.diagnostics.is_empty());
    assert_eq!(outcome.discarded_chunks, 0);
    outcome.region
}

#[test]
fn seconds_survive_mca_and_linear() {
    let region = sample([1_700_000_000, 5, 0]);
    for format in [RegionFormat::Mca, RegionFormat::Linear] {
        let encoded = encode_region(&region, format, 6).unwrap();
        assert_eq!(reread(&encoded, format), region);
    }
}

#[test]
fn milliseconds_survive_blinear() {
    let region = sample([1_700_000_000_123, 0, -4]);
    for format in [RegionFormat::BlinearV2, RegionFormat::BlinearV3] {
        let encoded = encode_region(&region, format, 6).unwrap();
        assert_eq!(reread(&encoded, format), region);
    }
}

#[test]
fn blinear_stores_seconds_as_milliseconds() {
    let region = sample([1_700_000_000, 5, 7]);
    for format in [RegionFormat::BlinearV2, RegionFormat::BlinearV3] {
        let back = reread(&encode_region(&region, format, 6).unwrap(), format);
        assert_eq!(back.chunk_count(), 3);
        for (index, expected) in region.iter_chunks() {
            let actual = back.chunk(index).unwrap();
            assert_eq!(actual.raw_nbt, expected.raw_nbt);
            assert_eq!(actual.timestamp, expected.timestamp * 1000);
        }
    }
}

#[test]
fn linear_and_mca_store_milliseconds_as_seconds() {
    let region = sample([1_700_000_000_123, 4_294_967_296, 9_000_000_000_000_000_000]);
    for format in [RegionFormat::Mca, RegionFormat::Linear] {
        let back = reread(&encode_region(&region, format, 6).unwrap(), format);
        assert_eq!(back.chunk(0).unwrap().timestamp, 1_700_000_000);
        assert_eq!(back.chunk(17).unwrap().timestamp, 4_294_967);
        assert_eq!(back.chunk(1023).unwrap().timestamp, i64::from(u32::MAX));
    }
}

#[test]
fn every_format_keeps_payloads_through_every_other() {
    let region = sample([1_700_000_000, 1_600_000_000, 1_500_000_000]);
    for first in FORMATS {
        let once = reread(&encode_region(&region, first, 6).unwrap(), first);
        for second in FORMATS {
            let twice = reread(&encode_region(&once, second, 1).unwrap(), second);
            assert_eq!(twice.chunk_count(), 3);
            for (index, expected) in region.iter_chunks() {
                assert_eq!(twice.chunk(index).unwrap().raw_nbt, expected.raw_nbt);
            }
        }
    }
}

#[test]
fn profiled_blinear_v2_reads_back_too() {
    let region = sample([1_700_000_000_123, 4, -4]);
    let stream = blinear_v2::encode_region_to_writer(&region, 6).unwrap();
    let bulk = blinear_v2::encode_region_to_writer_profiled(&region, 6, true).unwrap();
    assert_eq!(stream.main_file_bytes[..18], bulk.main_file_bytes[..18]);
    assert!(stream.units.is_empty());
    assert_eq!(bulk.units.len(), 1);
    assert_eq!(bulk.units[0].raw_len, 1024 * 4 + 3 * 16 + 256 + 6000 + 3);
    assert_eq!(reread(&stream, RegionFormat::BlinearV2), reread(&bulk, RegionFormat::BlinearV2));
}

#[test]
fn empty_regions_survive() {
    let region = Region::new(-1, 3);
    for format in FORMATS {
        let encoded = encode_region(&region, format, 3).unwrap();
        assert_eq!(reread(&encoded, format), region);
    }
    let mca = encode_region(&region, RegionFormat::Mca, 3).unwrap();
    assert_eq!(mca.main_file_bytes, vec![0_u8; 8192]);
    let v3 = encode_region(&region, RegionFormat::BlinearV3, 3).unwrap();
    assert_eq!(v3.main_file_bytes.len(), 142);
}

#[test]
fn headers_are_laid_out_as_the_formats_say() {
    let region = sample([1_700_000_000, 5, 0]);
    let linear = encode_region(&region, RegionFormat::Linear, 6).unwrap().main_file_bytes;
    assert_eq!(linear[0..8], LINEAR_SUPERBLOCK.to_be_bytes());
    assert_eq!(linear[8], 1);
    assert_eq!(linear[9..17], 1_700_000_000_u64.to_be_bytes());
    assert_eq!(linear[17], 6);
    assert_eq!(linear[18..20], 3_u16.to_be_bytes());
    assert_eq!(linear[20..24], ((linear.len() - 40) as u32).to_be_bytes());
    assert_eq!(linear[linear.len() - 8..], LINEAR_SUPERBLOCK.to_be_bytes());

    let v2 = encode_region(&region, RegionFormat::BlinearV2, 7).unwrap().main_file_bytes;
    assert_eq!(v2[0..8], BLINEAR_SUPERBLOCK.to_be_bytes());
    assert_eq!(v2[8], 2);
    assert_eq!(v2[9..17], 1_700_000_000_000_i64.to_be_bytes());
    assert_eq!(v2[17], 7);
    let payload = zstd::stream::decode_all(&v2[18..]).unwrap();
    assert_eq!(payload[0..4], 272_i32.to_be_bytes());

    let v3 = encode_region(&region, RegionFormat::BlinearV3, 8).unwrap().main_file_bytes;
    assert_eq!(v3[0..8], BLINEAR_SUPERBLOCK.to_be_bytes());
    assert_eq!(v3[8..10], [3, 8]);
    assert_eq!(v3[10..14], BLINEAR_HASH_SEED.to_be_bytes());
    assert_eq!(v3[14..22], 142_u64.to_be_bytes());
    assert_eq!(v3[22..30], 0_u64.to_be_bytes());

    let mca = encode_region(&region, RegionFormat::Mca, 6).unwrap().main_file_bytes;
    assert_eq!(mca[0..4], [0, 0, 2, 1]);
    assert_eq!(mca[4096..4100], 1_700_000_000_u32.to_be_bytes());
    assert_eq!(mca[8192 + 4], 2);
    assert_eq!(mca.len() % 4096, 0);
}

#[test]
fn placeholder_target_is_refused() {
    let error = encode_region(&sample([1, 2, 3]), RegionFormat::Blinear, 6).unwrap_err();
    assert_eq!(error.kind, RegionErrorKind::GenericTarget);
    assert_eq!(
        error.message(&path("r.0.0.b_linear")),
        "generic blinear format is only valid as an input placeholder"
    );
}

#[test]
fn large_mca_chunks_get_files_of_their_own() {
    let mut region = Region::new(-1, 3);
    region.set_chunk(33, chunk(9, 1_400_000)).unwrap();
    region.set_chunk(34, chunk(8, 10)).unwrap();
    let encoded = encode_region(&region, RegionFormat::Mca, 6).unwrap();
    assert_eq!(encoded.sidecar_files.len(), 1);
    assert_eq!(encoded.sidecar_files[0].file_name, "c.-31.97.mcc");
    assert!(region_uses_external_chunks(&encoded.main_file_bytes).unwrap());

    let name = file_name(RegionFormat::Mca);
    let files = external_chunk_files(&name, &encoded.main_file_bytes).unwrap();
    assert_eq!(files.len(), 1);
    assert_eq!(files[0].index, 33);
    assert_eq!(files[0].file_name, "c.-31.97.mcc");

    let externals = vec![ExternalChunk {
        index: 33,
        payload: Ok(encoded.sidecar_files[0].bytes.clone()),
    }];
    let outcome =
        read_region(&name, &encoded.main_file_bytes, &externals, RegionFormat::Mca).unwrap();
    assert_eq!(outcome.region, region);
    assert!(outcome.diagnostics.is_empty());

    let lost =
        read_region(&name, &encoded.main_file_bytes, &no_externals(), RegionFormat::Mca).unwrap();
    assert_eq!(lost.region.chunk_count(), 1);
    assert_eq!(lost.discarded_chunks, 1);
    assert_eq!(
        lost.diagnostics[0].message,
        "chunk slot 33 in world/r.-1.3.mca is corrupted and was skipped: \
         failed to read external chunk file c.-31.97.mcc"
    );
    let unreadable =
        vec![ExternalChunk { index: 33, payload: Err("permission denied".to_string()) }];
    let denied =
        read_region(&name, &encoded.main_file_bytes, &unreadable, RegionFormat::Mca).unwrap();
    assert!(denied.diagnostics[0].message.ends_with("skipped: permission denied"));

    let total = storage_size(&name, &encoded.main_file_bytes, &vec![Some(77), None]).unwrap();
    assert_eq!(total, encoded.main_file_bytes.len() as u64 + 77);
}

#[test]
fn chunks_that_fit_stay_in_the_region_file() {
    let region = sample([1, 2, 3]);
    let encoded = encode_region(&region, RegionFormat::Mca, 6).unwrap();
    assert!(encoded.sidecar_files.is_empty());
    assert!(!region_uses_external_chunks(&encoded.main_file_bytes).unwrap());
    assert!(region_uses_external_chunks(&[0; 100]).is_err());
}

#[test]
fn mca_takes_gzip_chunks() {
    let mut file = vec![0_u8; 8192];
    file[0..4].copy_from_slice(&[0, 0, 2, 1]);
    let mut encoder =
        flate2::write::GzEncoder::new(Vec::new(), flate2::Compression::new(6));
    std::io::Write::write_all(&mut encoder, b"hello").unwrap();
    let stream = encoder.finish().unwrap();
    file.extend_from_slice(&((stream.len() + 1) as u32).to_be_bytes());
    file.push(1);
    file.extend_from_slice(&stream);
    file.resize(12288, 0);
    let outcome =
        read_region(&path("r.0.0.mca"), &file, &no_externals(), RegionFormat::Mca).unwrap();
    assert_eq!(outcome.region.chunk(0).unwrap().raw_nbt, b"hello");
}

#[test]
fn broken_mca_chunks_are_skipped_one_by_one() {
    let region = sample([1, 2, 3]);
    let good = encode_region(&region, RegionFormat::Mca, 6).unwrap().main_file_bytes;
    let name = file_name(RegionFormat::Mca);
    let read = |file: &Vec<u8>| {
        let outcome = read_region(&name, file, &no_externals(), RegionFormat::Mca).unwrap();
        assert_eq!(outcome.discarded_chunks, 1);
        assert_eq!(warning_count(&outcome.diagnostics), 1);
        assert_eq!(outcome.diagnostics[0].location.chunk_index, Some(0));
        assert_eq!(outcome.diagnostics[0].location.region_coords, Some((-1, 3)));
        assert_eq!(outcome.region.chunk_count(), 2);
        (outcome.diagnostics[0].code, outcome.diagnostics[0].message.clone())
    };
    let with = |at: usize, bytes: &[u8]| {
        let mut file = good.clone();
        file[at..at + bytes.len()].copy_from_slice(bytes);
        file
    };

    let (code, message) = read(&with(0, &[0, 0, 2, 0]));
    assert_eq!(code, DiagnosticCode::InvalidMetadata);
    assert_eq!(
        message,
        "chunk slot 0 in world/r.-1.3.mca has an invalid sector pointer and was skipped"
    );
    let (code, message) = read(&with(0, &[0, 0xff, 0, 1]));
    assert_eq!(code, DiagnosticCode::SkippedData);
    assert!(message.ends_with("points outside the region file and was skipped"));
    let (code, message) = read(&with(8192, &[0, 0, 0, 0]));
    assert_eq!(code, DiagnosticCode::CorruptChunk);
    assert!(message.ends_with("chunk length is too short"));
    let (_, message) = read(&with(8192, &[0, 0, 0x20, 0]));
    assert!(message.ends_with("chunk payload exceeds its declared sector allocation"));
    let (_, message) = read(&with(8192 + 4, &[3]));
    assert!(message.ends_with("unsupported mca compression type 3"));
    let (_, message) = read(&with(8192 + 5, &[0xff, 0xff]));
    assert!(message.contains(" is corrupted and was skipped: "));
}

#[test]
fn empty_chunks_do_not_survive_mca_and_linear() {
    let mut region = Region::new(-1, 3);
    region.set_chunk(5, ChunkData { timestamp: 1, raw_nbt: Vec::new() }).unwrap();

    let mca = encode_region(&region, RegionFormat::Mca, 6).unwrap();
    let outcome = read_region(
        &file_name(RegionFormat::Mca),
        &mca.main_file_bytes,
        &no_externals(),
        RegionFormat::Mca,
    )
    .unwrap();
    assert_eq!(outcome.region.chunk_count(), 0);
    assert!(outcome.diagnostics[0].message.contains("decompressed to an empty payload"));

    let linear = encode_region(&region, RegionFormat::Linear, 6).unwrap();
    let error = read_region(
        &file_name(RegionFormat::Linear),
        &linear.main_file_bytes,
        &no_externals(),
        RegionFormat::Linear,
    )
    .unwrap_err();
    assert_eq!(error.kind, RegionErrorKind::LinearChunkCount(1, 0));

    for format in [RegionFormat::BlinearV2, RegionFormat::BlinearV3] {
        let back = reread(&encode_region(&region, format, 6).unwrap(), format);
        assert_eq!(back.chunk(5).unwrap().raw_nbt, Vec::<u8>::new());
    }
}

fn linear_error(bytes: &[u8]) -> RegionErrorKind {
    linear::read_region_bytes(&path("r.0.0.linear"), bytes).unwrap_err().kind
}

fn linear_file(chunk_count: u16, payload: &[u8]) -> Vec<u8> {
    let frame = zstd::bulk::compress(payload, 3).unwrap();
    let mut file = LINEAR_SUPERBLOCK.to_be_bytes().to_vec();
    file.push(2);
    file.extend_from_slice(&[0; 8]);
    file.push(3);
    file.extend_from_slice(&chunk_count.to_be_bytes());
    file.extend_from_slice(&(frame.len() as u32).to_be_bytes());
    file.extend_from_slice(&[0; 8]);
    file.extend_from_slice(&frame);
    file.extend_from_slice(&LINEAR_SUPERBLOCK.to_be_bytes());
    file
}

#[test]
fn broken_linear_files_are_refused() {
    let mut payload = vec![0_u8; 8192];
    payload[0..4].copy_from_slice(&2_u32.to_be_bytes());
    payload[4..8].copy_from_slice(&99_u32.to_be_bytes());
    payload.extend_from_slice(b"ab");
    let good = linear_file(1, &payload);
    let outcome = linear::read_region_bytes(&path("r.0.0.linear"), &good).unwrap();
    assert_eq!(
        outcome.region.chunk(0),
        Some(&ChunkData { timestamp: 99, raw_nbt: b"ab".to_vec() })
    );

    assert_eq!(linear_error(&good[..39]), RegionErrorKind::LinearTooSmall);
    let mut file = good.clone();
    file[0] ^= 1;
    assert_eq!(linear_error(&file), RegionErrorKind::LinearSuperblock);
    let mut file = good.clone();
    file[8] = 3;
    assert_eq!(linear_error(&file), RegionErrorKind::LinearVersion(3));
    let mut file = good.clone();
    file[23] ^= 1;
    assert_eq!(linear_error(&file), RegionErrorKind::LinearLength);
    let mut file = good.clone();
    let last = file.len() - 1;
    file[last] ^= 1;
    assert_eq!(linear_error(&file), RegionErrorKind::LinearFooter);
    let mut file = good.clone();
    file[32] ^= 1;
    assert_eq!(linear_error(&file), RegionErrorKind::Decompression);
    assert_eq!(linear_error(&linear_file(0, &[0; 100])), RegionErrorKind::LinearTable);
    assert_eq!(linear_error(&linear_file(2, &payload)), RegionErrorKind::LinearChunkCount(2, 1));
    payload.push(0);
    assert_eq!(linear_error(&linear_file(1, &payload)), RegionErrorKind::LinearPayload);
    assert_eq!(
        linear::read_region_bytes(&path("level.dat"), &good).unwrap_err().kind,
        RegionErrorKind::FileNameShape
    );
}

fn v2_file(payload: &[u8]) -> Vec<u8> {
    let mut file = BLINEAR_SUPERBLOCK.to_be_bytes().to_vec();
    file.push(2);
    file.extend_from_slice(&[0; 8]);
    file.push(6);
    file.extend_from_slice(&zstd::bulk::compress(payload, 3).unwrap());
    file
}

fn v2_error(bytes: &[u8]) -> RegionErrorKind {
    blinear_v2::read_region_bytes(&path("r.0.0.b_linear"), bytes).unwrap_err().kind
}

fn section(raw: &[u8]) -> Vec<u8> {
    let mut bytes = (raw.len() as i32).to_be_bytes().to_vec();
    bytes.extend_from_slice(&77_i64.to_be_bytes());
    bytes.extend_from_slice(
        &xxhash_rust::xxh32::xxh32(raw, BLINEAR_HASH_SEED).to_be_bytes(),
    );
    bytes.extend_from_slice(raw);
    bytes
}

fn slot(section: &[u8]) -> Vec<u8> {
    let mut bytes = (section.len() as i32).to_be_bytes().to_vec();
    bytes.extend_from_slice(section);
    bytes
}

#[test]
fn broken_blinear_v2_files_are_refused_or_recovered() {
    let mut payload = slot(&section(b"abc"));
    let mut corrupt = section(b"def");
    corrupt[16] ^= 1;
    payload.extend_from_slice(&slot(&corrupt));
    payload.extend_from_slice(&[0; 1022 * 4]);
    let outcome =
        blinear_v2::read_region_bytes(&path("r.0.0.b_linear"), &v2_file(&payload)).unwrap();
    assert_eq!(outcome.region.chunk_count(), 1);
    assert_eq!(outcome.region.chunk(0).unwrap().timestamp, 77);
    assert_eq!(outcome.discarded_chunks, 1);
    assert_eq!(outcome.diagnostics[0].code, DiagnosticCode::CorruptChunk);
    assert!(outcome.diagnostics[0]
        .message
        .starts_with("chunk is corrupted and was skipped: chunk section xxhash32 mismatch: expected 0x"));

    let good = v2_file(&payload);
    assert_eq!(v2_error(&good[..17]), RegionErrorKind::BlinearV2TooSmall);
    let mut file = good.clone();
    file[0] ^= 1;
    assert_eq!(v2_error(&file), RegionErrorKind::BlinearV2Superblock);
    let mut file = good.clone();
    file[8] = 3;
    assert_eq!(v2_error(&file), RegionErrorKind::BlinearV2Version(3));
    assert_eq!(v2_error(&good[..30]), RegionErrorKind::Decompression);
    assert_eq!(v2_error(&v2_file(&[0; 10])), RegionErrorKind::BlinearV2Ended(2));
    assert_eq!(v2_error(&v2_file(&[0xff; 8])), RegionErrorKind::BlinearV2NegativeSection(0));
    payload.push(0);
    assert_eq!(v2_error(&v2_file(&payload)), RegionErrorKind::BlinearV2Trailing);

    let cut = blinear_v2::read_region_bytes(
        &path("r.0.0.b_linear"),
        &v2_file(&[0, 0, 0, 0, 0, 0, 0, 9]),
    )
    .unwrap();
    assert_eq!(cut.discarded_chunks, 1);
    assert_eq!(
        cut.diagnostics[0].message,
        "chunk points past the decompressed buffer and was skipped"
    );
    assert_eq!(v2_error(&v2_file(&[0, 0, 0, 9, 1])), RegionErrorKind::BlinearV2Trailing);
}

fn v3_file(offset: u64, bucket: &[u8]) -> Vec<u8> {
    let mut file = BLINEAR_SUPERBLOCK.to_be_bytes().to_vec();
    file.extend_from_slice(&[3, 6]);
    file.extend_from_slice(&BLINEAR_HASH_SEED.to_be_bytes());
    file.extend_from_slice(&offset.to_be_bytes());
    file.extend_from_slice(&[0; 120]);
    file.extend_from_slice(bucket);
    file
}

fn v3_bucket(payload: &[u8]) -> Vec<u8> {
    let frame = zstd::bulk::compress(payload, 3).unwrap();
    let mut bucket = (payload.len() as i32).to_be_bytes().to_vec();
    bucket.extend_from_slice(&(frame.len() as i32).to_be_bytes());
    bucket.extend_from_slice(&frame);
    bucket
}

fn v3_warning(file: &[u8]) -> (DiagnosticCode, String) {
    let outcome = blinear_v3::read_region_bytes(&path("r.0.0.b_linear"), file).unwrap();
    assert_eq!(outcome.diagnostics.len(), 1);
    (outcome.diagnostics[0].code, outcome.diagnostics[0].message.clone())
}

#[test]
fn broken_blinear_v3_buckets_are_skipped() {
    let mut payload = slot(&section(b"abc"));
    payload.extend_from_slice(&[0; 63 * 4]);
    let outcome =
        blinear_v3::read_region_bytes(&path("r.0.0.b_linear"), &v3_file(142, &v3_bucket(&payload)))
            .unwrap();
    assert_eq!(outcome.region.chunk(0).unwrap().raw_nbt, b"abc");
    assert!(outcome.diagnostics.is_empty());

    let outside = (
        DiagnosticCode::SkippedData,
        "bucket 0 points outside the file and was skipped".to_string(),
    );
    assert_eq!(v3_warning(&v3_file(141, &[0; 64])), outside);
    assert_eq!(v3_warning(&v3_file(142, &[0; 7])), outside);
    assert_eq!(v3_warning(&v3_file(u64::MAX, &[0; 64])), outside);
    assert_eq!(
        v3_warning(&v3_file(142, &[0; 8])),
        (
            DiagnosticCode::InvalidMetadata,
            "bucket 0 has an invalid length header and was skipped".to_string()
        )
    );
    assert_eq!(
        v3_warning(&v3_file(142, &[0, 0, 0, 1, 0, 0, 0, 9, 1])),
        (DiagnosticCode::SkippedData, "bucket 0 overruns the file and was skipped".to_string())
    );
    let (code, message) = v3_warning(&v3_file(142, &[0, 0, 0, 1, 0, 0, 0, 1, 1]));
    assert_eq!(code, DiagnosticCode::CorruptBucket);
    assert!(message.starts_with("bucket 0 failed zstd decompression and was skipped: "));
    let mut tight = v3_bucket(&payload);
    tight[3] -= 1;
    assert_eq!(v3_warning(&v3_file(142, &tight)).0, DiagnosticCode::CorruptBucket);
    assert_eq!(
        v3_warning(&v3_file(142, &v3_bucket(&[0; 6]))),
        (
            DiagnosticCode::CorruptBucket,
            "bucket 0 ended early while reading slot 1".to_string()
        )
    );
    assert_eq!(
        v3_warning(&v3_file(142, &v3_bucket(&[0xff; 4]))),
        (
            DiagnosticCode::InvalidMetadata,
            "bucket 0 contains a negative section length at slot 0".to_string()
        )
    );
    assert_eq!(
        v3_warning(&v3_file(142, &v3_bucket(&[0, 0, 0, 9, 1]))),
        (
            DiagnosticCode::SkippedData,
            "bucket 0 overruns its decompressed buffer at slot 0".to_string()
        )
    );
    payload.push(9);
    assert_eq!(
        v3_warning(&v3_file(142, &v3_bucket(&payload))),
        (
            DiagnosticCode::SkippedData,
            "bucket 0 has trailing bytes after its 64 chunk slots".to_string()
        )
    );
    let mut broken = slot(&section(b"abc")[..10]);
    broken.extend_from_slice(&[0; 63 * 4]);
    assert_eq!(
        v3_warning(&v3_file(142, &v3_bucket(&broken))),
        (
            DiagnosticCode::CorruptChunk,
            "chunk is corrupted and was skipped: chunk section is shorter than 16 bytes"
                .to_string()
        )
    );

    let kind = |bytes: &[u8]| {
        blinear_v3::read_region_bytes(&path("r.0.0.b_linear"), bytes).unwrap_err().kind
    };
    let good = v3_file(142, &v3_bucket(&payload));
    assert_eq!(kind(&good[..141]), RegionErrorKind::BlinearV3TooSmall);
    let mut file = good.clone();
    file[1] ^= 1;
    assert_eq!(kind(&file), RegionErrorKind::BlinearV3Superblock);
    let mut file = good.clone();
    file[8] = 2;
    assert_eq!(kind(&file), RegionErrorKind::BlinearV3Version(2));
}

#[test]
fn chunk_sections_are_checked() {
    let good = section(b"payload");
    let chunk = decode_chunk_section(&good, BLINEAR_HASH_SEED).unwrap();
    assert_eq!(chunk, ChunkData { timestamp: 77, raw_nbt: b"payload".to_vec() });
    let kind = |bytes: &[u8]| decode_chunk_section(bytes, BLINEAR_HASH_SEED).unwrap_err().kind;
    assert_eq!(kind(&good[..15]), ChunkErrorKind::SectionTooShort);
    let mut bytes = good.clone();
    bytes[0] = 0xff;
    assert_eq!(kind(&bytes), ChunkErrorKind::NegativeLength);
    let error = decode_chunk_section(&good[..20], BLINEAR_HASH_SEED).unwrap_err();
    assert_eq!(error.kind, ChunkErrorKind::LengthMismatch(7, 4));
    assert_eq!(
        error.message(),
        "chunk section length mismatch: declared 7 bytes but found 4 bytes"
    );
    assert!(matches!(
        decode_chunk_section(&good, 0).unwrap_err().kind,
        ChunkErrorKind::HashMismatch(_, _)
    ));
    let section =
        encode_chunk_section(&ChunkData { timestamp: 2, raw_nbt: b"xy".to_vec() }, 5).unwrap();
    assert_eq!(section.len(), 18);
    assert_eq!(section[4..12], 2000_i64.to_be_bytes());
    assert_eq!(section[12..16], xxhash32(5, b"xy").to_be_bytes());
}

#[test]
fn hashes_are_those_of_xxh32() {
    assert_eq!(xxhash32(0, b""), 0x02cc_5d05);
    assert_eq!(xxhash32(0, b"a"), 0x550d_7456);
}

#[test]
fn timestamps_change_units() {
    assert_eq!(normalize_timestamp_to_u32(0), (0, false));
    assert_eq!(normalize_timestamp_to_u32(-5), (0, true));
    assert_eq!(normalize_timestamp_to_u32(4_294_967_295), (u32::MAX, false));
    assert_eq!(normalize_timestamp_to_u32(4_294_967_296), (4_294_967, true));
    assert_eq!(normalize_timestamp_to_u32(i64::MAX), (u32::MAX, true));
    assert_eq!(normalize_timestamp_to_millis(3), 3000);
    assert_eq!(normalize_timestamp_to_millis(4_294_967_296), 4_294_967_296);
    assert_eq!(normalize_timestamp_to_millis(-3), -3);
    let seconds = 1_700_000_000;
    assert_eq!(normalize_timestamp_to_u32(normalize_timestamp_to_millis(seconds)).0, 1_700_000_000);
}

#[test]
fn formats_are_detected_from_name_and_header() {
    let v2 = encode_region(&sample([1, 2, 3]), RegionFormat::BlinearV2, 6).unwrap();
    let v3 = encode_region(&sample([1, 2, 3]), RegionFormat::BlinearV3, 6).unwrap();
    let linear = encode_region(&sample([1, 2, 3]), RegionFormat::Linear, 6).unwrap();
    let blinear = path("r.0.0.b_linear");
    assert_eq!(detect_format(&path("r.0.0.mca"), &[]).unwrap(), RegionFormat::Mca);
    assert_eq!(detect_format(&path("r.0.0.linear"), &[]).unwrap(), RegionFormat::Linear);
    assert_eq!(detect_format(&blinear, &v2.main_file_bytes).unwrap(), RegionFormat::BlinearV2);
    assert_eq!(detect_format(&blinear, &v3.main_file_bytes).unwrap(), RegionFormat::BlinearV3);
    assert_eq!(
        detect_format(&blinear, &[0; 8]).unwrap_err().kind,
        RegionErrorKind::BlinearHeaderMissing
    );
    assert_eq!(
        detect_format(&blinear, &[0; 9]).unwrap_err().kind,
        RegionErrorKind::UnknownSuperblock
    );
    let mut header = v2.main_file_bytes[..9].to_vec();
    header[8] = 9;
    assert_eq!(
        detect_format(&blinear, &header).unwrap_err().kind,
        RegionErrorKind::UnknownVersion(9)
    );
    assert_eq!(
        detect_format(&path("r.0.0.zip"), &[]).unwrap_err().kind,
        RegionErrorKind::UnsupportedExtension
    );
    assert_eq!(
        detect_storage_format(&path("r.0.0.linear"), &linear.main_file_bytes).unwrap(),
        RegionStorageFormat::LinearV1
    );
    let mut second = linear.main_file_bytes.clone();
    second[8] = 2;
    assert_eq!(
        detect_storage_format(&path("r.0.0.linear"), &second).unwrap(),
        RegionStorageFormat::LinearV2
    );
    assert_eq!(
        detect_storage_format(&path("r.0.0.linear"), &[1, 2]).unwrap_err().kind,
        RegionErrorKind::LinearTooSmall
    );
    assert_eq!(
        detect_storage_format(&blinear, &v3.main_file_bytes).unwrap().family(),
        RegionFormat::BlinearV3
    );
    assert_eq!(
        region_storage_size(&blinear, RegionStorageFormat::BlinearV3, &[0; 5], &vec![Some(9)])
            .unwrap(),
        5
    );
    assert_eq!(
        read_region(&blinear, &[0; 9], &no_externals(), RegionFormat::Blinear).unwrap_err().kind,
        RegionErrorKind::UnknownSuperblock
    );
}

#[test]
fn decoding_follows_the_hint() {
    let region = sample([1_700_000_000_000, 1_600_000_000_000, 1_500_000_000_000]);
    let v2 = encode_region(&region, RegionFormat::BlinearV2, 6).unwrap();
    let name = file_name(RegionFormat::BlinearV2);
    let decoded = decode_region(
        &name,
        &v2.main_file_bytes,
        &no_externals(),
        SourceFormatHint::BlinearFamily,
    )
    .unwrap();
    assert_eq!(decoded.format, RegionFormat::BlinearV2);
    assert_eq!(decoded.outcome.region, region);
    let wrong =
        decode_region(&name, &v2.main_file_bytes, &no_externals(), SourceFormatHint::BlinearV3);
    assert_eq!(wrong.unwrap_err().kind, RegionErrorKind::BlinearV3Version(2));
}

#[test]
fn region_file_names_tell_coordinates() {
    let coords = |name: &str| parse_region_coords_from_path(&path(name));
    assert_eq!(coords("r.-3.12.mca").unwrap(), (-3, 12));
    assert_eq!(coords("r.+1.2.anything.mca").unwrap(), (1, 2));
    assert_eq!(coords("r.1.mca").unwrap_err().kind, RegionErrorKind::FileNameShape);
    assert_eq!(coords("c.1.2.mca").unwrap_err().kind, RegionErrorKind::FileNameShape);
    assert_eq!(coords("r.x.2.mca").unwrap_err().kind, RegionErrorKind::InvalidRegionX);
    assert_eq!(coords("r.1..mca").unwrap_err().kind, RegionErrorKind::InvalidRegionZ);
    assert_eq!(coords("r.2147483648.0.mca").unwrap_err().kind, RegionErrorKind::InvalidRegionX);
    let nameless = SavePath { separator: '/', components: vec![PathComponent::RootDir] };
    assert_eq!(
        parse_region_coords_from_path(&nameless).unwrap_err().kind,
        RegionErrorKind::MissingFileName
    );
    for format in FORMATS {
        let name = format.region_file_name(i32::MIN, i32::MAX);
        assert_eq!(coords(&name).unwrap(), (i32::MIN, i32::MAX));
    }
    assert!(looks_like_region_file(&path("r.0.0.b_linear"), true));
    assert!(!looks_like_region_file(&path("r.0.0.b_linear"), false));
    assert!(!looks_like_region_file(&path("r.0.0.dat"), true));
    assert_eq!(guess_format_from_path(&path("x.b_linear")).unwrap(), RegionFormat::Blinear);
    assert!(guess_format_from_path(&path(".mca")).is_err());
}

#[test]
fn units_count_what_was_compressed() {
    let region = sample([1, 2, 3]);
    let mca = encode_region_profiled(&region, RegionFormat::Mca, 6, true).unwrap();
    let lengths: Vec<usize> = mca.units.iter().map(|unit| unit.raw_len).collect();
    assert_eq!(lengths, [256, 6000, 3]);
    let linear = encode_region_profiled(&region, RegionFormat::Linear, 6, true).unwrap();
    assert_eq!(linear.units[0].raw_len, 8192 + 6259);
    let v3 = encode_region_profiled(&region, RegionFormat::BlinearV3, 6, true).unwrap();
    assert_eq!(v3.units.len(), 2);
    assert_eq!(v3.units[1].raw_len, 64 * 4 + 16 + 3);
}

#[test]
fn regions_keep_their_chunks() {
    let mut region = Region::new(2, -5);
    assert_eq!(region.chunk_count(), 0);
    assert_eq!(region.newest_timestamp(), 0);
    region.set_chunk(3, chunk(-7, 1)).unwrap();
    assert_eq!(region.newest_timestamp(), -7);
    region.set_chunk(1, chunk(9, 1)).unwrap();
    assert_eq!(region.newest_timestamp(), 9);
    let indices: Vec<usize> = region.iter_chunks().iter().map(|(index, _)| *index).collect();
    assert_eq!(indices, [1, 3]);
    assert!(region.chunk(2).is_none());
    assert!(region.chunk(4096).is_none());
    let error = region.set_chunk(1024, chunk(1, 1)).unwrap_err();
    assert_eq!(
        error.message(&path("r.2.-5.mca")),
        "chunk index 1024 is outside the 32x32 region grid"
    );
    assert_eq!(region.file_name(RegionFormat::BlinearV3), "r.2.-5.b_linear");
    assert_eq!((region.region_x, region.region_z), (2, -5));
}
