use region_converter::discovery::mount_name;
use region_converter::error::{ChunkErrorKind, RegionErrorKind};
use region_converter::formats::mca::Sectors;
use region_converter::formats::{
    blinear_v2, blinear_v3, check_section, linear, section_with_hash, BLINEAR_SUPERBLOCK,
    LINEAR_SUPERBLOCK,
};
use region_converter::model::{ChunkData, Region};
use region_converter::path::{PathComponent, SavePath};

fn region() -> Region {
    let mut region = Region::new(2, -3);
    region.set_chunk(1, ChunkData { timestamp: 70, raw_nbt: vec![9, 8, 7] }).unwrap();
    region.set_chunk(64, ChunkData { timestamp: 60, raw_nbt: vec![5] }).unwrap();
    region
}

fn refused() -> Result<Vec<u8>, String> {
    Err("refused".to_string())
}

#[test]
fn mca_sectors_are_laid_out_around_compressed_chunks() {
    let chunk = ChunkData { timestamp: 70, raw_nbt: vec![9, 8, 7] };
    let mut sectors = Sectors::new();
    sectors.push_gap();
    sectors.push_chunk(2, -3, &chunk, Ok(vec![1; 4092])).unwrap();
    sectors.push_chunk(2, -3, &chunk, Ok(vec![2; 1_044_476])).unwrap();
    let error = sectors.push_chunk(2, -3, &chunk, refused()).unwrap_err();
    assert_eq!(error.kind, RegionErrorKind::McaCompression(3));
    assert_eq!(error.detail, "refused");
    assert_eq!(sectors.locations, [0, 0x202, 0x401]);
    assert_eq!(sectors.timestamps, [0, 70, 70]);
    assert_eq!(sectors.data.len(), 3 * 4096);
    assert_eq!(sectors.data[..6], [0, 0, 0x0f, 0xfd, 2, 1]);
    assert_eq!(sectors.data[8192..8198], [0, 0, 0, 1, 0x82, 0]);
    let encoded = sectors.finish();
    assert_eq!(encoded.sidecar_files.len(), 1);
    assert_eq!(encoded.sidecar_files[0].file_name, "c.66.-96.mcc");
    assert_eq!(encoded.sidecar_files[0].bytes.len(), 1_044_476);
    assert_eq!(encoded.units[1].compressed_len, 1_044_476);
    assert_eq!(encoded.units[1].raw_len, 3);
}

#[test]
fn linear_payloads_are_framed() {
    let payload = linear::raw_payload(&region()).unwrap();
    assert_eq!(payload.chunk_count, 2);
    assert_eq!(payload.newest, 70);
    assert_eq!(payload.bytes.len(), 8192 + 4);
    assert_eq!(payload.bytes[8..16], [0, 0, 0, 3, 0, 0, 0, 70]);
    assert_eq!(payload.bytes[8192..], [9, 8, 7, 5]);

    let encoded = linear::frame_payload(&payload, 4, Ok(vec![0xaa, 0xbb])).unwrap();
    let mut expected = LINEAR_SUPERBLOCK.to_be_bytes().to_vec();
    expected.extend([1, 0, 0, 0, 0, 0, 0, 0, 70, 4, 0, 2, 0, 0, 0, 2]);
    expected.extend([0, 0, 0, 0, 0, 0, 0, 0, 0xaa, 0xbb]);
    expected.extend(LINEAR_SUPERBLOCK.to_be_bytes());
    assert_eq!(encoded.main_file_bytes, expected);
    assert_eq!(encoded.units[0].raw_len, 8196);

    let error = linear::frame_payload(&payload, 4, refused()).unwrap_err();
    assert_eq!(error.kind, RegionErrorKind::LinearCompression);
    assert_eq!(
        error.message(&path("r.2.-3.linear")),
        "failed to zstd-compress the linear region payload: refused"
    );
}

#[test]
fn blinear_v2_payloads_are_framed() {
    let region = region();
    let raw = blinear_v2::raw_payload(&region).unwrap();
    assert_eq!(raw.len(), 1024 * 4 + 2 * 16 + 4);
    let plain =
        blinear_v2::frame_payload(&region, raw.len(), 4, false, Ok(vec![0xaa])).unwrap();
    let mut expected = BLINEAR_SUPERBLOCK.to_be_bytes().to_vec();
    expected.push(2);
    expected.extend(70_000_i64.to_be_bytes());
    expected.extend([4, 0xaa]);
    assert_eq!(plain.main_file_bytes, expected);
    assert!(plain.units.is_empty());
    let counted =
        blinear_v2::frame_payload(&region, raw.len(), 4, true, Ok(vec![0xaa])).unwrap();
    assert_eq!(counted.main_file_bytes, expected);
    assert_eq!(counted.units[0].raw_len, raw.len());

    let error = blinear_v2::frame_payload(&region, 0, 4, false, refused()).unwrap_err();
    assert_eq!(error.kind, RegionErrorKind::BlinearV2Stream);
    let error = blinear_v2::frame_payload(&region, 0, 4, true, refused()).unwrap_err();
    assert_eq!(error.kind, RegionErrorKind::BlinearV2Compression);
}

#[test]
fn blinear_v3_buckets_are_laid_out_around_frames() {
    let region = region();
    let (raw, any) = blinear_v3::bucket_payload(&region, 0).unwrap();
    assert!(any);
    assert_eq!(raw.len(), 64 * 4 + 16 + 3);
    assert_eq!(blinear_v3::bucket_payload(&region, 5).unwrap(), (vec![0; 256], false));

    let mut buckets = blinear_v3::Buckets::new();
    buckets.push_frame(raw.len(), Ok(vec![0xaa, 0xbb])).unwrap();
    buckets.push_gap();
    buckets.push_frame(7, Ok(vec![0xcc])).unwrap();
    assert_eq!(buckets.offsets, [142, 0, 152]);
    assert_eq!(buckets.data[..10], [0, 0, 1, 19, 0, 0, 0, 2, 0xaa, 0xbb]);
    assert_eq!(buckets.data[10..], [0, 0, 0, 7, 0, 0, 0, 1, 0xcc]);
    let error = buckets.push_frame(1, refused()).unwrap_err();
    assert_eq!(error.kind, RegionErrorKind::BlinearV3Compression);
    let error = buckets.push_frame(0x8000_0000, Ok(vec![1])).unwrap_err();
    assert_eq!(error.kind, RegionErrorKind::BlinearV3BucketTooLarge);
    assert_eq!(buckets.offsets.len(), 3);
    let encoded = buckets.finish(9);
    assert_eq!(encoded.main_file_bytes[8..14], [3, 9, 0, 0, 7, 0x21]);
    assert_eq!(encoded.main_file_bytes[14..22], [0, 0, 0, 0, 0, 0, 0, 142]);
    assert_eq!(encoded.units.len(), 2);
}

#[test]
fn sections_are_held_against_their_hash() {
    let chunk = ChunkData { timestamp: 1, raw_nbt: vec![7, 7] };
    let section = section_with_hash(&chunk, 0x0102_0304).unwrap();
    assert_eq!(section, [0, 0, 0, 2, 0, 0, 0, 0, 0, 0, 3, 232, 1, 2, 3, 4, 7, 7]);
    let back = check_section(&section, 0x0102_0304).unwrap();
    assert_eq!(back, ChunkData { timestamp: 1000, raw_nbt: vec![7, 7] });
    let error = check_section(&section, 5).unwrap_err();
    assert_eq!(error.kind, ChunkErrorKind::HashMismatch(0x0102_0304, 5));
    assert_eq!(
        error.message(),
        "chunk section xxhash32 mismatch: expected 0x01020304, got 0x00000005"
    );
    let error = check_section(&section[..17], 5).unwrap_err();
    assert_eq!(error.kind, ChunkErrorKind::LengthMismatch(2, 1));
    assert_eq!(check_section(&[], 5).unwrap_err().kind, ChunkErrorKind::SectionTooShort);
}

fn path(name: &str) -> SavePath {
    SavePath { separator: '/', components: vec![PathComponent::Normal(name.to_string())] }
}

#[test]
fn mounts_are_named_after_the_input_and_the_hash() {
    assert_eq!(mount_name(&path("my world"), 0xab), "my_world__000000ab");
}
