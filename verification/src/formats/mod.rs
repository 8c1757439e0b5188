//! The region file formats.

use vstd::prelude::*;
use vstd::string::*;

use crate::bytes::{self, push_i64, push_u32, read_i32, read_i64, read_u32, read_u64};
use crate::codec::{self, xxh32};
use crate::diagnostic::{self, Diagnostic, DiagnosticCode, DiagnosticLevel, DiagnosticView};
use crate::discovery::SourceView;
use crate::error::{
    self, ChunkError, ChunkErrorKind, ChunkFault, RegionError, RegionErrorKind, RegionFault,
};
use crate::formats::mca::ExternalChunk;
use crate::info::{self, InspectedFiles};
use crate::inspection;
use crate::model::{self, ChunkData, ChunkView, Region, RegionView};
use crate::path::{PathView, SavePath};
use crate::text::{self, chars_of, parse_i32, push_signed};

pub mod blinear_v2;
pub mod blinear_v3;
pub mod detection;
pub mod layout;
pub mod linear;
pub mod mca;
pub mod records;
pub mod sections;
pub mod slots;
pub mod tables;

verus! {

/// The first eight bytes of a blinear file.
pub const BLINEAR_SUPERBLOCK: i64 = -0x2008_1225_0269;

/// The first and the last eight bytes of a linear file.
pub const LINEAR_SUPERBLOCK: u64 = 0xc3ff_1318_3cca_9d9a;

/// The seed of the hashes that blinear files are written with.
pub const BLINEAR_HASH_SEED: u32 = 0x0721;

#[derive(Clone, Copy, Debug, PartialEq, Eq, Structural, Hash)]
pub enum RegionFormat {
    Mca,
    Linear,
    /// Either blinear version: the header of a file tells which.
    Blinear,
    BlinearV2,
    BlinearV3,
}

/// The file name extension of `format`.
pub open spec fn extension_text(format: RegionFormat) -> Seq<char> {
    match format {
        RegionFormat::Mca => "mca"@,
        RegionFormat::Linear => "linear"@,
        _ => "b_linear"@,
    }
}

/// The name `r.<x>.<z>.<extension>`.
pub open spec fn region_file_name_text(format: RegionFormat, region_x: i32, region_z: i32) -> Seq<
    char,
> {
    "r."@ + text::signed_decimal(region_x as int) + "."@ + text::signed_decimal(region_z as int) + "."@
        + extension_text(format)
}

/// The name of `format`.
pub open spec fn format_text(format: RegionFormat) -> Seq<char> {
    match format {
        RegionFormat::Mca => "mca"@,
        RegionFormat::Linear => "linear"@,
        RegionFormat::Blinear => "blinear"@,
        RegionFormat::BlinearV2 => "blinear_v2"@,
        RegionFormat::BlinearV3 => "blinear_v3"@,
    }
}

impl RegionFormat {
    pub fn extension(self) -> (text: &'static str)
        ensures
            text@ == extension_text(self),
    {
        match self {
            RegionFormat::Mca => "mca",
            RegionFormat::Linear => "linear",
            RegionFormat::Blinear => "b_linear",
            RegionFormat::BlinearV2 => "b_linear",
            RegionFormat::BlinearV3 => "b_linear",
        }
    }

    pub fn region_file_name(self, region_x: i32, region_z: i32) -> (name: String)
        ensures
            name@ == region_file_name_text(self, region_x, region_z),
    {
        let mut name = String::new();
        name.append("r.");
        push_signed(&mut name, region_x as i64);
        name.append(".");
        push_signed(&mut name, region_z as i64);
        name.append(".");
        name.append(self.extension());
        assert(name@ =~= region_file_name_text(self, region_x, region_z));
        name
    }

    pub fn default_compression_level(self) -> (level: i32)
        ensures
            level == 6,
    {
        6
    }

    /// The name of the format.
    pub fn name(self) -> (name: &'static str)
        ensures
            name@ == format_text(self),
    {
        match self {
            RegionFormat::Mca => "mca",
            RegionFormat::Linear => "linear",
            RegionFormat::Blinear => "blinear",
            RegionFormat::BlinearV2 => "blinear_v2",
            RegionFormat::BlinearV3 => "blinear_v3",
        }
    }
}

/// The position of the first `.` of `s` from `from` on, or the length of `s`.
pub open spec fn next_dot(s: Seq<char>, from: int) -> int
    decreases s.len() - from,
{
    if from >= s.len() || s[from] == '.' {
        if from < s.len() {
            from
        } else {
            s.len() as int
        }
    } else {
        next_dot(s, from + 1)
    }
}

/// The coordinates in a file name `r.<x>.<z>.<rest>`.
pub open spec fn coords_in(name: Seq<char>) -> Result<(i32, i32), RegionErrorKind> {
    let first = next_dot(name, 0);
    let second = next_dot(name, first + 1);
    let third = next_dot(name, second + 1);
    if third >= name.len() || name.take(first) != seq!['r'] {
        Err(RegionErrorKind::FileNameShape)
    } else {
        match (
            text::i32_in(name.subrange(first + 1, second)),
            text::i32_in(name.subrange(second + 1, third)),
        ) {
            (None, _) => Err(RegionErrorKind::InvalidRegionX),
            (_, None) => Err(RegionErrorKind::InvalidRegionZ),
            (Some(x), Some(z)) => Ok((x, z)),
        }
    }
}

/// From a place without a dot up to `to`, the next dot is the one from `to` on.
proof fn lemma_next_dot_skips(s: Seq<char>, from: int, to: int)
    requires
        0 <= from <= to <= s.len(),
        forall|i: int| from <= i < to ==> s[i] != '.',
    ensures
        next_dot(s, from) == next_dot(s, to),
    decreases to - from,
{
    if from < to {
        lemma_next_dot_skips(s, from + 1, to);
    }
}

/// The dots of a name that is made of a character, two numbers and a rest stand
/// around the numbers.
pub proof fn lemma_numbered_name(name: Seq<char>, first: char, a: int, b: int, rest: Seq<char>)
    requires
        first != '.',
        rest.len() > 0,
        rest[0] == '.',
        name == seq![first, '.'] + text::signed_decimal(a) + seq!['.'] + text::signed_decimal(b)
            + rest,
    ensures
        next_dot(name, 0) == 1,
        ({
            let second = next_dot(name, 2);
            let third = next_dot(name, second + 1);
            &&& third < name.len()
            &&& name.take(1) == seq![first]
            &&& name.subrange(2, second) == text::signed_decimal(a)
            &&& name.subrange(second + 1, third) == text::signed_decimal(b)
        }),
{
    let x = text::signed_decimal(a);
    let z = text::signed_decimal(b);
    text::law_signed_decimal_reads_back(a);
    text::law_signed_decimal_reads_back(b);
    let second = 2int + x.len();
    let third = second + 1 + z.len();
    assert(name[0] == first && name[1] == '.' && name[second] == '.' && name[third]
        == '.');
    assert(next_dot(name, 1) == 1);
    assert forall|i: int| 2 <= i < second implies name[i] != '.' by {
        assert(name[i] == x[i - 2]);
        assert(x.contains(x[i - 2]));
    }
    assert forall|i: int| second + 1 <= i < third implies name[i] != '.' by {
        assert(name[i] == z[i - second - 1]);
        assert(z.contains(z[i - second - 1]));
    }
    lemma_next_dot_skips(name, 2, second);
    lemma_next_dot_skips(name, second + 1, third);
    assert(name.take(1) =~= seq![first]);
    assert(name.subrange(2, second) =~= x);
    assert(name.subrange(second + 1, third) =~= z);
}

/// The name of a region file tells the place of the region.
pub proof fn law_region_file_name_tells_coords(format: RegionFormat, region_x: i32, region_z: i32)
    ensures
        coords_in(region_file_name_text(format, region_x, region_z)) == Ok::<
            (i32, i32),
            RegionErrorKind,
        >((region_x, region_z)),
{
    let name = region_file_name_text(format, region_x, region_z);
    let rest = "."@ + extension_text(format);
    reveal_strlit("r.");
    reveal_strlit(".");
    assert("r."@ =~= seq!['r', '.']);
    assert("."@ =~= seq!['.']);
    assert(name =~= seq!['r', '.'] + text::signed_decimal(region_x as int) + seq!['.']
        + text::signed_decimal(region_z as int) + rest);
    lemma_numbered_name(name, 'r', region_x as int, region_z as int, rest);
    text::law_signed_decimal_reads_back(region_x as int);
    text::law_signed_decimal_reads_back(region_z as int);
}

/// The coordinates in the name of the file `path`.
pub open spec fn path_coords(path: PathView) -> Result<(i32, i32), RegionErrorKind> {
    match path.file_name() {
        None => Err(RegionErrorKind::MissingFileName),
        Some(name) => coords_in(name),
    }
}

fn find_dot(chars: &Vec<char>, from: usize) -> (at: usize)
    requires
        from <= chars@.len(),
    ensures
        at == next_dot(chars@, from as int),
        from <= at <= chars@.len(),
{
    let mut at = from;
    while at < chars.len() && chars[at] != '.'
        invariant
            from <= at <= chars@.len(),
            next_dot(chars@, from as int) == next_dot(chars@, at as int),
        decreases chars@.len() - at,
    {
        at += 1;
    }
    at
}

/// The coordinates in the name of the file `path`.
pub fn parse_region_coords_from_path(path: &SavePath) -> (result: Result<(i32, i32), RegionError>)
    ensures
        match result {
            Ok(coords) => path_coords(path@) == Ok::<(i32, i32), RegionErrorKind>(coords),
            Err(error) => path_coords(path@) == Err::<(i32, i32), RegionErrorKind>(error.kind)
                && error@ == error::region_fault(error.kind),
        },
{
    let name = match path.file_name() {
        Some(name) => name,
        None => {
            return Err(RegionError::new(RegionErrorKind::MissingFileName));
        },
    };
    let chars = chars_of(name.as_str());
    let first = find_dot(&chars, 0);
    if first == chars.len() {
        return Err(RegionError::new(RegionErrorKind::FileNameShape));
    }
    let second = find_dot(&chars, first + 1);
    if second == chars.len() {
        return Err(RegionError::new(RegionErrorKind::FileNameShape));
    }
    let third = find_dot(&chars, second + 1);
    if third == chars.len() || first != 1 || chars[0] != 'r' {
        assert(third < chars@.len() ==> chars@.take(first as int) != seq!['r']) by {
            if first == 1 {
                assert(chars@.take(first as int)[0] == chars@[0]);
            } else {
                assert(chars@.take(first as int).len() != seq!['r'].len());
            }
        }
        return Err(RegionError::new(RegionErrorKind::FileNameShape));
    }
    assert(chars@.take(first as int) =~= seq!['r']);
    let region_x = match parse_i32(&chars, first + 1, second) {
        Some(value) => value,
        None => {
            return Err(RegionError::new(RegionErrorKind::InvalidRegionX));
        },
    };
    match parse_i32(&chars, second + 1, third) {
        Some(region_z) => Ok((region_x, region_z)),
        None => Err(RegionError::new(RegionErrorKind::InvalidRegionZ)),
    }
}

/// The format that the extension of `path` stands for.
pub open spec fn guessed_format(path: PathView) -> Option<RegionFormat> {
    if path.extension() == Some("mca"@) {
        Some(RegionFormat::Mca)
    } else if path.extension() == Some("linear"@) {
        Some(RegionFormat::Linear)
    } else if path.extension() == Some("b_linear"@) {
        Some(RegionFormat::Blinear)
    } else {
        None
    }
}

/// The format that the extension of `path` stands for.
pub fn guess_format_from_path(path: &SavePath) -> (result: Result<RegionFormat, RegionError>)
    ensures
        match result {
            Ok(format) => guessed_format(path@) == Some(format),
            Err(error) => guessed_format(path@) is None && error@ == error::region_fault(
                RegionErrorKind::UnsupportedExtension,
            ),
        },
{
    if path.has_extension("mca") {
        Ok(RegionFormat::Mca)
    } else if path.has_extension("linear") {
        Ok(RegionFormat::Linear)
    } else if path.has_extension("b_linear") {
        Ok(RegionFormat::Blinear)
    } else {
        Err(RegionError::new(RegionErrorKind::UnsupportedExtension))
    }
}

/// Whether the entry `path` is a file that is named like a region file.
pub open spec fn region_file_like(path: PathView, is_file: bool) -> bool {
    is_file && guessed_format(path) is Some && path_coords(path) is Ok
}

/// Whether the entry `path` is a file that is named like a region file.
pub fn looks_like_region_file(path: &SavePath, is_file: bool) -> (looks: bool)
    ensures
        looks == region_file_like(path@, is_file),
{
    is_file && guess_format_from_path(path).is_ok() && parse_region_coords_from_path(path).is_ok()
}

/// The seconds that `timestamp` stands for: itself where it fits, else the
/// thousandth of it, else the greatest number of seconds; 0 for a negative one.
pub open spec fn seconds_of(timestamp: i64) -> u32 {
    if timestamp <= 0 {
        0
    } else if timestamp <= u32::MAX {
        timestamp as u32
    } else if timestamp / 1000 <= u32::MAX {
        (timestamp / 1000) as u32
    } else {
        u32::MAX
    }
}

/// The seconds that `timestamp` stands for, and whether they differ from it.
pub fn normalize_timestamp_to_u32(timestamp: i64) -> (result: (u32, bool))
    ensures
        result.0 == seconds_of(timestamp),
        result.1 == (seconds_of(timestamp) != timestamp),
{
    if timestamp <= 0 {
        return (0, timestamp != 0);
    }
    if timestamp <= u32::MAX as i64 {
        return (timestamp as u32, false);
    }
    let seconds = timestamp / 1000;
    if seconds <= u32::MAX as i64 {
        return (seconds as u32, true);
    }
    (u32::MAX, true)
}

/// The milliseconds that `timestamp` stands for: a thousand times itself where
/// it is a number of seconds, else itself.
pub open spec fn millis_of(timestamp: i64) -> i64 {
    if 0 < timestamp <= u32::MAX {
        (timestamp * 1000) as i64
    } else {
        timestamp
    }
}

/// The milliseconds that `timestamp` stands for.
pub fn normalize_timestamp_to_millis(timestamp: i64) -> (millis: i64)
    ensures
        millis == millis_of(timestamp),
{
    if 0 < timestamp && timestamp <= u32::MAX as i64 {
        timestamp * 1000
    } else {
        timestamp
    }
}

/// Seconds survive the way through milliseconds and back, unless they are so few
/// that their milliseconds pass for seconds.
pub proof fn law_seconds_survive_milliseconds(seconds: u32)
    requires
        seconds == 0 || seconds * 1000 > u32::MAX,
    ensures
        seconds_of(millis_of(seconds as i64)) == seconds,
{
}

/// Normalizing a timestamp to seconds twice is normalizing it once.
pub proof fn law_seconds_are_stable(timestamp: i64)
    ensures
        seconds_of(seconds_of(timestamp) as i64) == seconds_of(timestamp),
{
}

/// `chunk` with its timestamp in milliseconds.
pub open spec fn millis_chunk(chunk: ChunkView) -> ChunkView {
    ChunkView { timestamp: millis_of(chunk.timestamp), ..chunk }
}

/// `chunk` with its timestamp in seconds.
pub open spec fn seconds_chunk(chunk: ChunkView) -> ChunkView {
    ChunkView { timestamp: seconds_of(chunk.timestamp) as i64, ..chunk }
}

/// `slots` with their timestamps in milliseconds.
pub open spec fn millis_slots(slots: Seq<Option<ChunkView>>) -> Seq<Option<ChunkView>> {
    Seq::new(
        slots.len(),
        |i: int|
            match slots[i] {
                Some(chunk) => Some(millis_chunk(chunk)),
                None => None,
            },
    )
}

/// `slots` with their timestamps in seconds.
pub open spec fn seconds_slots(slots: Seq<Option<ChunkView>>) -> Seq<Option<ChunkView>> {
    Seq::new(
        slots.len(),
        |i: int|
            match slots[i] {
                Some(chunk) => Some(seconds_chunk(chunk)),
                None => None,
            },
    )
}

/// `region` with the timestamps of its chunks in milliseconds.
pub open spec fn millis_region(region: RegionView) -> RegionView {
    RegionView { chunks: millis_slots(region.chunks), ..region }
}

/// `region` with the timestamps of its chunks in seconds.
pub open spec fn seconds_region(region: RegionView) -> RegionView {
    RegionView { chunks: seconds_slots(region.chunks), ..region }
}

/// Whether no chunk of `slots` is empty.
pub open spec fn no_empty_chunk(slots: Seq<Option<ChunkView>>) -> bool {
    forall|i: int|
        0 <= i < slots.len() ==> match #[trigger] slots[i] {
            Some(chunk) => chunk.raw_nbt.len() > 0,
            None => true,
        }
}

/// Whether `path` is named after the place of `region`.
pub open spec fn names_region(path: PathView, region: RegionView) -> bool {
    path_coords(path) == Ok::<(i32, i32), RegionErrorKind>((region.region_x, region.region_z))
}

/// The greatest timestamp of a chunk in milliseconds, or 0 where there is none.
pub fn newest_timestamp_millis(region: &Region) -> (newest: i64)
    ensures
        newest == model::newest_of(model::occupied(millis_slots(region@.chunks))),
{
    let ghost slots = region@.chunks;
    let ghost millis = millis_slots(slots);
    let list = region.iter_chunks();
    proof {
        lemma_occupied_millis(slots);
    }
    let ghost all = model::occupied(millis);
    if list.len() == 0 {
        return 0;
    }
    let mut newest = normalize_timestamp_to_millis(list[0].1.timestamp);
    assert(list@[0].1@ == model::occupied(slots)[0].1);
    assert(newest == model::newest_of(all.take(1)));
    let mut i: usize = 1;
    while i < list.len()
        invariant
            1 <= i <= list.len(),
            list@.len() == all.len(),
            forall|k: int|
                0 <= k < list@.len() ==> millis_chunk((#[trigger] list@[k]).1@) == all[k].1,
            newest == model::newest_of(all.take(i as int)),
        decreases list.len() - i,
    {
        assert(all.take(i + 1).drop_last() =~= all.take(i as int));
        assert(millis_chunk(list@[i as int].1@) == all[i as int].1);
        let timestamp = normalize_timestamp_to_millis(list[i].1.timestamp);
        if timestamp > newest {
            newest = timestamp;
        }
        i += 1;
    }
    assert(all.take(i as int) =~= all);
    newest
}

proof fn lemma_occupied_millis(slots: Seq<Option<ChunkView>>)
    ensures
        model::occupied(millis_slots(slots)).len() == model::occupied(slots).len(),
        forall|k: int|
            0 <= k < model::occupied(slots).len() ==> (#[trigger] model::occupied(
                millis_slots(slots),
            )[k]).1 == millis_chunk(model::occupied(slots)[k].1),
    decreases slots.len(),
{
    if slots.len() > 0 {
        lemma_occupied_millis(slots.drop_last());
        assert(millis_slots(slots).drop_last() =~= millis_slots(slots.drop_last()));
    }
}

/// The 32-bit xxHash of `bytes` with `seed`.
pub fn xxhash32(seed: u32, bytes: &[u8]) -> (hash: u32)
    ensures
        hash == codec::xxh32_of(bytes@, seed),
{
    xxh32(bytes, seed)
}

/// The chunk in a chunk section: its length, timestamp and hash, then its data, which has
/// the hash `actual`.
pub open spec fn checked_section(section: Seq<u8>, actual: u32) -> Result<ChunkView, ChunkFault> {
    if section.len() < 16 {
        Err(error::chunk_fault(ChunkErrorKind::SectionTooShort))
    } else if bytes::i32_at(section, 0) < 0 {
        Err(error::chunk_fault(ChunkErrorKind::NegativeLength))
    } else {
        let declared = bytes::i32_at(section, 0) as usize;
        let raw = section.skip(16);
        let expected = bytes::u32_at(section, 12);
        if raw.len() != declared {
            Err(error::chunk_fault(ChunkErrorKind::LengthMismatch(declared, raw.len() as usize)))
        } else if actual != expected {
            Err(error::chunk_fault(ChunkErrorKind::HashMismatch(expected, actual)))
        } else {
            Ok(ChunkView { timestamp: bytes::i64_at(section, 4), raw_nbt: raw })
        }
    }
}

/// The chunk in a chunk section.
pub open spec fn section_outcome(section: Seq<u8>, hash_seed: u32) -> Result<ChunkView, ChunkFault> {
    checked_section(section, codec::xxh32_of(section.skip(16), hash_seed))
}

/// The result of reading a chunk, taken by its view.
pub open spec fn chunk_result(result: Result<ChunkData, ChunkError>) -> Result<ChunkView, ChunkFault> {
    match result {
        Ok(chunk) => Ok(chunk@),
        Err(error) => Err(error@),
    }
}

/// Reads the chunk in a chunk section whose data has the hash `actual`.
pub fn check_section(section: &[u8], actual: u32) -> (result: Result<ChunkData, ChunkError>)
    ensures
        chunk_result(result) == checked_section(section@, actual),
{
    if section.len() < 16 {
        return Err(ChunkError::new(ChunkErrorKind::SectionTooShort));
    }
    let declared = read_i32(section, 0);
    if declared < 0 {
        return Err(ChunkError::new(ChunkErrorKind::NegativeLength));
    }
    let declared = declared as usize;
    let length = section.len() - 16;
    if length != declared {
        return Err(ChunkError::new(ChunkErrorKind::LengthMismatch(declared, length)));
    }
    let expected = read_u32(section, 12);
    if actual != expected {
        return Err(ChunkError::new(ChunkErrorKind::HashMismatch(expected, actual)));
    }
    let raw_nbt = bytes::copy_range(section, 16, section.len());
    assert(raw_nbt@ =~= section@.skip(16));
    Ok(ChunkData { timestamp: read_i64(section, 4), raw_nbt })
}

/// Reads the chunk in a chunk section.
pub fn decode_chunk_section(section: &[u8], hash_seed: u32) -> (result: Result<ChunkData, ChunkError>)
    ensures
        chunk_result(result) == section_outcome(section@, hash_seed),
{
    if section.len() < 16 {
        return Err(ChunkError::new(ChunkErrorKind::SectionTooShort));
    }
    let data = vstd::slice::slice_subrange(section, 16, section.len());
    assert(data@ =~= section@.skip(16));
    check_section(section, xxhash32(hash_seed, data))
}

/// The chunk section of `chunk`, whose data has the hash `hash`.
pub open spec fn hashed_section(chunk: ChunkView, hash: u32) -> Seq<u8> {
    bytes::be_u32(chunk.raw_nbt.len() as u32) + bytes::be_i64(millis_of(chunk.timestamp))
        + bytes::be_u32(hash) + chunk.raw_nbt
}

/// The chunk section of `chunk`.
pub open spec fn section_bytes(chunk: ChunkView, hash_seed: u32) -> Seq<u8> {
    hashed_section(chunk, codec::xxh32_of(chunk.raw_nbt, hash_seed))
}

/// The chunk section of `chunk`, whose data has the hash `hash`.
pub fn section_with_hash(chunk: &ChunkData, hash: u32) -> (result: Result<Vec<u8>, RegionError>)
    ensures
        match result {
            Ok(section) => chunk@.raw_nbt.len() <= i32::MAX && section@ == hashed_section(
                chunk@,
                hash,
            ),
            Err(error) => chunk@.raw_nbt.len() > i32::MAX && error@ == error::region_fault(
                RegionErrorKind::ChunkTooLarge,
            ),
        },
{
    if chunk.raw_nbt.len() > i32::MAX as usize {
        return Err(RegionError::new(RegionErrorKind::ChunkTooLarge));
    }
    let mut section: Vec<u8> = Vec::new();
    push_u32(&mut section, chunk.raw_nbt.len() as u32);
    push_i64(&mut section, normalize_timestamp_to_millis(chunk.timestamp));
    push_u32(&mut section, hash);
    bytes::append(&mut section, chunk.raw_nbt.as_slice());
    assert(section@ =~= hashed_section(chunk@, hash));
    Ok(section)
}

/// The chunk section of `chunk`.
pub fn encode_chunk_section(chunk: &ChunkData, hash_seed: u32) -> (result: Result<
    Vec<u8>,
    RegionError,
>)
    ensures
        match result {
            Ok(section) => chunk@.raw_nbt.len() <= i32::MAX && section@ == section_bytes(
                chunk@,
                hash_seed,
            ),
            Err(error) => chunk@.raw_nbt.len() > i32::MAX && error@ == error::region_fault(
                RegionErrorKind::ChunkTooLarge,
            ),
        },
{
    section_with_hash(chunk, xxhash32(hash_seed, chunk.raw_nbt.as_slice()))
}

/// A section reads back as the chunk that it was made from, with its timestamp
/// in milliseconds.
pub proof fn law_section_reads_back(chunk: ChunkView, hash_seed: u32)
    requires
        chunk.raw_nbt.len() <= i32::MAX,
    ensures
        section_outcome(section_bytes(chunk, hash_seed), hash_seed) == Ok::<ChunkView, ChunkFault>(
            millis_chunk(chunk),
        ),
{
    let section = section_bytes(chunk, hash_seed);
    let hash = codec::xxh32_of(chunk.raw_nbt, hash_seed);
    assert(section.subrange(0, 4) =~= bytes::be_u32(chunk.raw_nbt.len() as u32));
    bytes::lemma_u32_at_be_u32(section, 0, chunk.raw_nbt.len() as u32);
    assert(section.subrange(4, 12) =~= bytes::be_i64(millis_of(chunk.timestamp)));
    bytes::lemma_i64_at_be_i64(section, 4, millis_of(chunk.timestamp));
    assert(section.subrange(12, 16) =~= bytes::be_u32(hash));
    bytes::lemma_u32_at_be_u32(section, 12, hash);
    assert(section.skip(16) =~= chunk.raw_nbt);
}

/// What reading a region file gives.
#[derive(Debug)]
pub struct ReadOutcome {
    pub region: Region,
    pub diagnostics: Vec<Diagnostic>,
    pub discarded_chunks: usize,
}

/// What reading a region file gives.
#[verifier::ext_equal]
pub struct ReadView {
    pub region: RegionView,
    pub diagnostics: Seq<DiagnosticView>,
    pub discarded_chunks: nat,
}

impl View for ReadOutcome {
    type V = ReadView;

    open spec fn view(&self) -> ReadView {
        ReadView {
            region: self.region@,
            diagnostics: diagnostic::diagnostic_views(self.diagnostics@),
            discarded_chunks: self.discarded_chunks as nat,
        }
    }
}

impl ReadView {
    /// The same with the slot `index` set to `chunk`.
    pub open spec fn with_chunk(self, index: int, chunk: ChunkView) -> ReadView {
        ReadView {
            region: RegionView {
                chunks: self.region.chunks.update(index, Some(chunk)),
                ..self.region
            },
            ..self
        }
    }

    /// The same with one more diagnostic.
    pub open spec fn noting(self, diagnostic: DiagnosticView) -> ReadView {
        ReadView { diagnostics: self.diagnostics.push(diagnostic), ..self }
    }

    /// The same with a warning about the file `path`.
    pub open spec fn warned(
        self,
        path: PathView,
        code: DiagnosticCode,
        message: Seq<char>,
    ) -> ReadView {
        self.noting(
            diagnostic::warning_view(code, message).at_path(path).in_region(
                self.region.region_x,
                self.region.region_z,
            ),
        )
    }

    /// The same with a warning about a slot of the file `path`.
    pub open spec fn warned_at(
        self,
        path: PathView,
        code: DiagnosticCode,
        message: Seq<char>,
        index: usize,
    ) -> ReadView {
        self.noting(
            diagnostic::warning_view(code, message).at_path(path).in_region(
                self.region.region_x,
                self.region.region_z,
            ).at_chunk(index),
        )
    }

    /// The same after a chunk section was read into the slot `index`: its chunk is
    /// kept, or a warning stands for it.
    pub open spec fn with_section(
        self,
        path: PathView,
        index: usize,
        outcome: Result<ChunkView, ChunkFault>,
    ) -> ReadView {
        match outcome {
            Ok(chunk) => self.with_chunk(index as int, chunk),
            Err(fault) => self.warned_at(
                path,
                DiagnosticCode::CorruptChunk,
                "chunk is corrupted and was skipped: "@ + error::chunk_error_text(
                    fault.kind,
                    fault.detail,
                ),
                index,
            ).discarding(),
        }
    }

    /// The same with one more chunk given up.
    pub open spec fn discarding(self) -> ReadView {
        ReadView { discarded_chunks: self.discarded_chunks + 1, ..self }
    }
}

/// What is read before anything is read.
pub open spec fn nothing_read(region_x: i32, region_z: i32) -> ReadView {
    ReadView {
        region: model::empty_region(region_x, region_z),
        diagnostics: seq![],
        discarded_chunks: 0,
    }
}

/// What is read of a file that holds exactly `region`.
pub open spec fn all_read(region: RegionView) -> ReadView {
    ReadView { region, diagnostics: seq![], discarded_chunks: 0 }
}

/// Whether each chunk that was given up is warned of, and nothing is told but warnings.
pub open spec fn discards_warned(read: ReadView) -> bool {
    &&& diagnostic::only_warnings(read.diagnostics)
    &&& read.discarded_chunks <= read.diagnostics.len()
}

/// What is read stays so with one more diagnostic that is a warning.
pub proof fn lemma_warned_stays(read: ReadView, diagnostic: DiagnosticView)
    requires
        discards_warned(read),
        diagnostic.level == DiagnosticLevel::Warning,
    ensures
        discards_warned(read.noting(diagnostic)),
        discards_warned(read.noting(diagnostic).discarding()),
{
    let after = read.noting(diagnostic).diagnostics;
    assert forall|i: int| 0 <= i < after.len() implies (#[trigger] after[i]).level
        == DiagnosticLevel::Warning by {
        if i < read.diagnostics.len() {
            assert(after[i] == read.diagnostics[i]);
        }
    }
}

/// The result of reading a region file, taken by its view.
pub open spec fn read_result(result: Result<ReadOutcome, RegionError>) -> Result<
    ReadView,
    RegionFault,
> {
    match result {
        Ok(outcome) => Ok(outcome@),
        Err(error) => Err(error@),
    }
}

impl ReadOutcome {
    /// Whether the region has a slot for each of its chunks.
    pub open spec fn well_formed(&self) -> bool {
        self.region.well_formed()
    }

    /// Nothing read yet of the region at `(region_x, region_z)`.
    pub fn new(region_x: i32, region_z: i32) -> (outcome: ReadOutcome)
        ensures
            outcome.well_formed(),
            outcome@ == nothing_read(region_x, region_z),
    {
        let outcome = ReadOutcome {
            region: Region::new(region_x, region_z),
            diagnostics: Vec::new(),
            discarded_chunks: 0,
        };
        assert(outcome@.diagnostics =~= seq![]);
        outcome
    }

    /// Adds a diagnostic.
    pub fn note(&mut self, diagnostic: Diagnostic)
        requires
            old(self).well_formed(),
        ensures
            final(self).well_formed(),
            final(self)@ == old(self)@.noting(diagnostic@),
    {
        self.diagnostics.push(diagnostic);
        assert(self@.diagnostics =~= old(self)@.diagnostics.push(diagnostic@));
    }

    /// Adds a warning about the file `path`.
    pub fn warn(&mut self, path: &SavePath, code: DiagnosticCode, message: String)
        requires
            old(self).well_formed(),
        ensures
            final(self).well_formed(),
            final(self)@ == old(self)@.warned(path@, code, message@),
    {
        let region_x = self.region.region_x;
        let region_z = self.region.region_z;
        self.note(
            Diagnostic::warning(code, message).with_path(path).with_region_coords(
                region_x,
                region_z,
            ),
        );
    }

    /// Adds a warning about the slot `index` of the file `path`.
    pub fn warn_at(
        &mut self,
        path: &SavePath,
        code: DiagnosticCode,
        message: String,
        index: usize,
    )
        requires
            old(self).well_formed(),
        ensures
            final(self).well_formed(),
            final(self)@ == old(self)@.warned_at(path@, code, message@, index),
    {
        let region_x = self.region.region_x;
        let region_z = self.region.region_z;
        self.note(
            Diagnostic::warning(code, message).with_path(path).with_region_coords(
                region_x,
                region_z,
            ).with_chunk_index(index),
        );
    }

    /// Keeps the chunk that was read from the section of the slot `index`, or warns
    /// of it and counts it as given up.
    pub fn keep_section(
        &mut self,
        path: &SavePath,
        index: usize,
        result: Result<ChunkData, ChunkError>,
    )
        requires
            old(self).well_formed(),
            old(self)@.discarded_chunks < usize::MAX,
            index < model::REGION_CHUNK_COUNT,
        ensures
            final(self).well_formed(),
            final(self)@ == old(self)@.with_section(path@, index, chunk_result(result)),
    {
        match result {
            Ok(chunk) => {
                self.keep(index, chunk);
            },
            Err(error) => {
                let mut message = "chunk is corrupted and was skipped: ".to_owned();
                message.append(error.message().as_str());
                self.warn_at(path, DiagnosticCode::CorruptChunk, message, index);
                self.discard();
            },
        }
    }

    /// Counts a chunk that was given up.
    pub fn discard(&mut self)
        requires
            old(self).well_formed(),
            old(self)@.discarded_chunks < usize::MAX,
        ensures
            final(self).well_formed(),
            final(self)@ == old(self)@.discarding(),
    {
        self.discarded_chunks = self.discarded_chunks + 1;
    }

    /// Keeps `chunk` in the slot `index`.
    pub fn keep(&mut self, index: usize, chunk: ChunkData)
        requires
            old(self).well_formed(),
            index < model::REGION_CHUNK_COUNT,
        ensures
            final(self).well_formed(),
            final(self)@ == old(self)@.with_chunk(index as int, chunk@),
    {
        let _ = self.region.set_chunk(index, chunk);
    }
}

/// A file that stands beside a region file and holds one of its chunks.
#[derive(Debug)]
pub struct SidecarFile {
    pub file_name: String,
    pub bytes: Vec<u8>,
}

/// What a sidecar file is.
#[verifier::ext_equal]
pub struct SidecarView {
    pub file_name: Seq<char>,
    pub bytes: Seq<u8>,
}

impl View for SidecarFile {
    type V = SidecarView;

    open spec fn view(&self) -> SidecarView {
        SidecarView { file_name: self.file_name@, bytes: self.bytes@ }
    }
}

/// The lengths of a piece of data that was compressed on its own.
#[derive(Clone, Copy, Debug, PartialEq, Eq, Structural)]
pub struct EncodedUnit {
    pub raw_len: usize,
    pub compressed_len: usize,
}

/// The files that a region is written to, and the pieces that were compressed for
/// them.
#[derive(Debug)]
pub struct EncodedRegion {
    pub main_file_bytes: Vec<u8>,
    pub sidecar_files: Vec<SidecarFile>,
    pub diagnostics: Vec<Diagnostic>,
    pub units: Vec<EncodedUnit>,
}

/// The files that a region is written to.
#[verifier::ext_equal]
pub struct EncodedView {
    pub main_file_bytes: Seq<u8>,
    pub sidecar_files: Seq<SidecarView>,
    pub diagnostics: Seq<DiagnosticView>,
    pub units: Seq<EncodedUnit>,
}

/// What each of a list of sidecar files is.
pub open spec fn sidecar_views(files: Seq<SidecarFile>) -> Seq<SidecarView> {
    Seq::new(files.len(), |i: int| files[i]@)
}

impl View for EncodedRegion {
    type V = EncodedView;

    open spec fn view(&self) -> EncodedView {
        EncodedView {
            main_file_bytes: self.main_file_bytes@,
            sidecar_files: sidecar_views(self.sidecar_files@),
            diagnostics: diagnostic::diagnostic_views(self.diagnostics@),
            units: self.units@,
        }
    }
}

/// A region that is written to one file, without a diagnostic.
pub open spec fn single_file(bytes: Seq<u8>, units: Seq<EncodedUnit>) -> EncodedView {
    EncodedView { main_file_bytes: bytes, sidecar_files: seq![], diagnostics: seq![], units }
}

/// The result of writing a region, taken by its view.
pub open spec fn encode_result(result: Result<EncodedRegion, RegionError>) -> Result<
    EncodedView,
    RegionFault,
> {
    match result {
        Ok(encoded) => Ok(encoded@),
        Err(error) => Err(error@),
    }
}

impl EncodedRegion {
    /// A region that is written to one file, without a diagnostic.
    pub fn single(main_file_bytes: Vec<u8>, units: Vec<EncodedUnit>) -> (encoded: EncodedRegion)
        ensures
            encoded@ == single_file(main_file_bytes@, units@),
    {
        let encoded = EncodedRegion {
            main_file_bytes,
            sidecar_files: Vec::new(),
            diagnostics: Vec::new(),
            units,
        };
        assert(encoded@ =~= single_file(main_file_bytes@, units@));
        encoded
    }
}

/// What is known of the format of a source file before it is read.
#[derive(Clone, Copy, Debug, PartialEq, Eq, Structural, Hash)]
pub enum SourceFormatHint {
    Mca,
    Linear,
    /// Either blinear version: the header of the file tells which.
    BlinearFamily,
    BlinearV2,
    BlinearV3,
}

/// The name of what is known of a format.
pub open spec fn hint_text(hint: SourceFormatHint) -> Seq<char> {
    match hint {
        SourceFormatHint::Mca => "mca"@,
        SourceFormatHint::Linear => "linear"@,
        SourceFormatHint::BlinearFamily => "blinear"@,
        SourceFormatHint::BlinearV2 => "blinear_v2"@,
        SourceFormatHint::BlinearV3 => "blinear_v3"@,
    }
}

impl SourceFormatHint {
    /// The name of what is known of the format.
    pub fn name(self) -> (name: &'static str)
        ensures
            name@ == hint_text(self),
    {
        match self {
            SourceFormatHint::Mca => "mca",
            SourceFormatHint::Linear => "linear",
            SourceFormatHint::BlinearFamily => "blinear",
            SourceFormatHint::BlinearV2 => "blinear_v2",
            SourceFormatHint::BlinearV3 => "blinear_v3",
        }
    }
}

/// A format with its version, as it is found in a file.
#[derive(Clone, Copy, Debug, PartialEq, Eq, Structural, Hash)]
pub enum RegionStorageFormat {
    Mca,
    LinearV1,
    LinearV2,
    BlinearV2,
    BlinearV3,
}

/// The name of a format with its version.
pub open spec fn storage_text(format: RegionStorageFormat) -> Seq<char> {
    match format {
        RegionStorageFormat::Mca => "mca"@,
        RegionStorageFormat::LinearV1 => "linear_v1"@,
        RegionStorageFormat::LinearV2 => "linear_v2"@,
        RegionStorageFormat::BlinearV2 => "blinear_v2"@,
        RegionStorageFormat::BlinearV3 => "blinear_v3"@,
    }
}

/// The format that a file is read as.
pub open spec fn family_of(format: RegionStorageFormat) -> RegionFormat {
    match format {
        RegionStorageFormat::Mca => RegionFormat::Mca,
        RegionStorageFormat::LinearV1 => RegionFormat::Linear,
        RegionStorageFormat::LinearV2 => RegionFormat::Linear,
        RegionStorageFormat::BlinearV2 => RegionFormat::BlinearV2,
        RegionStorageFormat::BlinearV3 => RegionFormat::BlinearV3,
    }
}

impl RegionStorageFormat {
    /// The name of the format with its version.
    pub fn name(self) -> (name: &'static str)
        ensures
            name@ == storage_text(self),
    {
        match self {
            RegionStorageFormat::Mca => "mca",
            RegionStorageFormat::LinearV1 => "linear_v1",
            RegionStorageFormat::LinearV2 => "linear_v2",
            RegionStorageFormat::BlinearV2 => "blinear_v2",
            RegionStorageFormat::BlinearV3 => "blinear_v3",
        }
    }

    /// The format that a file is read as.
    pub fn family(self) -> (format: RegionFormat)
        ensures
            format == family_of(self),
    {
        match self {
            RegionStorageFormat::Mca => RegionFormat::Mca,
            RegionStorageFormat::LinearV1 => RegionFormat::Linear,
            RegionStorageFormat::LinearV2 => RegionFormat::Linear,
            RegionStorageFormat::BlinearV2 => RegionFormat::BlinearV2,
            RegionStorageFormat::BlinearV3 => RegionFormat::BlinearV3,
        }
    }
}

/// The length of what tells the version of a linear or blinear file.
pub const VERSION_HEADER_SIZE: usize = 9;

/// The version of a blinear file that starts with `header`.
pub open spec fn detected_blinear(header: Seq<u8>) -> Result<RegionFormat, RegionErrorKind> {
    if header.len() < VERSION_HEADER_SIZE {
        Err(RegionErrorKind::BlinearHeaderMissing)
    } else if bytes::i64_at(header, 0) != BLINEAR_SUPERBLOCK {
        Err(RegionErrorKind::UnknownSuperblock)
    } else if header[8] == 2 {
        Ok(RegionFormat::BlinearV2)
    } else if header[8] == 3 {
        Ok(RegionFormat::BlinearV3)
    } else {
        Err(RegionErrorKind::UnknownVersion(header[8]))
    }
}

/// The format of the file `path` that starts with `header`.
pub open spec fn detected_format(path: PathView, header: Seq<u8>) -> Result<
    RegionFormat,
    RegionErrorKind,
> {
    match guessed_format(path) {
        Some(RegionFormat::Blinear) => detected_blinear(header),
        Some(format) => Ok(format),
        None => Err(RegionErrorKind::UnsupportedExtension),
    }
}

/// The format with its version of the file `path` that starts with `header`.
pub open spec fn detected_storage(path: PathView, header: Seq<u8>) -> Result<
    RegionStorageFormat,
    RegionErrorKind,
> {
    match detected_format(path, header) {
        Err(kind) => Err(kind),
        Ok(RegionFormat::Mca) => Ok(RegionStorageFormat::Mca),
        Ok(RegionFormat::Linear) => if header.len() < VERSION_HEADER_SIZE {
            Err(RegionErrorKind::LinearTooSmall)
        } else if bytes::u64_at(header, 0) != LINEAR_SUPERBLOCK {
            Err(RegionErrorKind::LinearSuperblock)
        } else if header[8] == 1 {
            Ok(RegionStorageFormat::LinearV1)
        } else if header[8] == 2 {
            Ok(RegionStorageFormat::LinearV2)
        } else {
            Err(RegionErrorKind::LinearVersion(header[8]))
        },
        Ok(RegionFormat::BlinearV2) => Ok(RegionStorageFormat::BlinearV2),
        Ok(_) => Ok(RegionStorageFormat::BlinearV3),
    }
}

/// The version of a blinear file that starts with `header`.
pub fn detect_blinear_format(header: &[u8]) -> (result: Result<RegionFormat, RegionError>)
    ensures
        match result {
            Ok(format) => detected_blinear(header@) == Ok::<RegionFormat, RegionErrorKind>(format),
            Err(error) => detected_blinear(header@) == Err::<RegionFormat, RegionErrorKind>(
                error.kind,
            ) && error@ == error::region_fault(error.kind),
        },
{
    if header.len() < VERSION_HEADER_SIZE {
        return Err(RegionError::new(RegionErrorKind::BlinearHeaderMissing));
    }
    if read_i64(header, 0) != BLINEAR_SUPERBLOCK {
        return Err(RegionError::new(RegionErrorKind::UnknownSuperblock));
    }
    match header[8] {
        2 => Ok(RegionFormat::BlinearV2),
        3 => Ok(RegionFormat::BlinearV3),
        version => Err(RegionError::new(RegionErrorKind::UnknownVersion(version))),
    }
}

/// The format of the file `path` that starts with `header`.
pub fn detect_format(path: &SavePath, header: &[u8]) -> (result: Result<RegionFormat, RegionError>)
    ensures
        match result {
            Ok(format) => detected_format(path@, header@) == Ok::<RegionFormat, RegionErrorKind>(
                format,
            ),
            Err(error) => detected_format(path@, header@) == Err::<RegionFormat, RegionErrorKind>(
                error.kind,
            ) && error@ == error::region_fault(error.kind),
        },
{
    match guess_format_from_path(path) {
        Ok(RegionFormat::Blinear) => detect_blinear_format(header),
        Ok(format) => Ok(format),
        Err(error) => Err(error),
    }
}

/// The format with its version of the file `path` that starts with `header`.
pub fn detect_storage_format(path: &SavePath, header: &[u8]) -> (result: Result<
    RegionStorageFormat,
    RegionError,
>)
    ensures
        match result {
            Ok(format) => detected_storage(path@, header@) == Ok::<
                RegionStorageFormat,
                RegionErrorKind,
            >(format),
            Err(error) => detected_storage(path@, header@) == Err::<
                RegionStorageFormat,
                RegionErrorKind,
            >(error.kind) && error@ == error::region_fault(error.kind),
        },
{
    let format = match detect_format(path, header) {
        Ok(format) => format,
        Err(error) => {
            return Err(error);
        },
    };
    match format {
        RegionFormat::Mca => Ok(RegionStorageFormat::Mca),
        RegionFormat::BlinearV2 => Ok(RegionStorageFormat::BlinearV2),
        RegionFormat::Linear => {
            if header.len() < VERSION_HEADER_SIZE {
                return Err(RegionError::new(RegionErrorKind::LinearTooSmall));
            }
            if read_u64(header, 0) != LINEAR_SUPERBLOCK {
                return Err(RegionError::new(RegionErrorKind::LinearSuperblock));
            }
            match header[8] {
                1 => Ok(RegionStorageFormat::LinearV1),
                2 => Ok(RegionStorageFormat::LinearV2),
                version => Err(RegionError::new(RegionErrorKind::LinearVersion(version))),
            }
        },
        _ => Ok(RegionStorageFormat::BlinearV3),
    }
}

/// Whether one of the chunks of an mca file with the content `bytes` stands in a file
/// of its own.
pub fn region_uses_external_chunks(bytes: &[u8]) -> (result: Result<bool, RegionError>)
    ensures
        match result {
            Ok(uses) => bytes@.len() >= mca::MCA_HEADER_SIZE && uses == mca::uses_external(bytes@),
            Err(error) => bytes@.len() < mca::MCA_HEADER_SIZE && error@ == error::region_fault(
                RegionErrorKind::McaTooSmall,
            ),
        },
{
    mca::region_uses_external_chunks(bytes)
}

/// The size of the file `path` with the content `bytes` together with the chunk files
/// that it refers to, whose sizes are `sidecar_sizes` as far as they exist.
pub open spec fn storage_total(
    path: PathView,
    format: RegionStorageFormat,
    bytes: Seq<u8>,
    sidecar_sizes: Seq<Option<u64>>,
) -> Result<nat, RegionErrorKind> {
    if format != RegionStorageFormat::Mca {
        Ok(bytes.len())
    } else if bytes.len() < mca::MCA_HEADER_SIZE {
        Err(RegionErrorKind::McaTooSmall)
    } else {
        match path_coords(path) {
            Err(kind) => Err(kind),
            Ok(_) => Ok(bytes.len() + mca::known_total(sidecar_sizes)),
        }
    }
}

/// The size of the file `path` with the content `bytes` together with the chunk files
/// that it refers to, whose sizes are `sidecar_sizes` as far as they exist.
pub fn region_storage_size(
    path: &SavePath,
    format: RegionStorageFormat,
    bytes: &[u8],
    sidecar_sizes: &Vec<Option<u64>>,
) -> (result: Result<u64, RegionError>)
    requires
        bytes@.len() + mca::known_total(sidecar_sizes@) <= u64::MAX,
    ensures
        match result {
            Ok(size) => storage_total(path@, format, bytes@, sidecar_sizes@) == Ok::<
                nat,
                RegionErrorKind,
            >(size as nat),
            Err(error) => storage_total(path@, format, bytes@, sidecar_sizes@) == Err::<
                nat,
                RegionErrorKind,
            >(error.kind) && error@ == error::region_fault(error.kind),
        },
{
    match format {
        RegionStorageFormat::Mca => mca::storage_size(path, bytes, sidecar_sizes),
        _ => Ok(bytes.len() as u64),
    }
}

/// What reading the file `path` with the content `bytes` as `format` gives, where
/// `externals` are the chunk files beside it.
pub open spec fn read_outcome(
    path: PathView,
    bytes: Seq<u8>,
    externals: Seq<ExternalChunk>,
    format: RegionFormat,
) -> Result<ReadView, RegionFault> {
    match format {
        RegionFormat::Mca => mca::read_outcome(path, bytes, externals),
        RegionFormat::Linear => linear::read_outcome(path, bytes),
        RegionFormat::BlinearV2 => blinear_v2::read_outcome(path, bytes),
        RegionFormat::BlinearV3 => blinear_v3::read_outcome(path, bytes),
        RegionFormat::Blinear => match detected_format(path, bytes) {
            Err(kind) => Err(error::region_fault(kind)),
            Ok(RegionFormat::Mca) => mca::read_outcome(path, bytes, externals),
            Ok(RegionFormat::Linear) => linear::read_outcome(path, bytes),
            Ok(RegionFormat::BlinearV2) => blinear_v2::read_outcome(path, bytes),
            Ok(_) => blinear_v3::read_outcome(path, bytes),
        },
    }
}

/// A chunk that cannot be read is given up with a warning, and a region with such chunks
/// is read with warnings alone: nothing is given up silently.
pub proof fn law_discards_are_warned(
    path: PathView,
    bytes: Seq<u8>,
    externals: Seq<ExternalChunk>,
    format: RegionFormat,
)
    ensures
        match read_outcome(path, bytes, externals, format) {
            Ok(read) => {
                &&& diagnostic::warnings_in(read.diagnostics) == read.diagnostics.len()
                &&& read.discarded_chunks <= diagnostic::warnings_in(read.diagnostics)
            },
            Err(_) => true,
        },
{
    mca::lemma_discards_warned(path, bytes, externals);
    blinear_v2::lemma_discards_warned(path, bytes);
    blinear_v3::lemma_discards_warned(path, bytes);
    if let Ok(read) = read_outcome(path, bytes, externals, format) {
        assert(discards_warned(read));
        diagnostic::lemma_only_warnings(read.diagnostics);
    }
}

/// Reads the file `path` with the content `bytes` as `format`, where `externals` are
/// the chunk files beside it.
pub fn read_region(
    path: &SavePath,
    bytes: &[u8],
    externals: &Vec<ExternalChunk>,
    format: RegionFormat,
) -> (result: Result<ReadOutcome, RegionError>)
    ensures
        read_result(result) == read_outcome(path@, bytes@, externals@, format),
        result matches Ok(outcome) ==> outcome.well_formed(),
{
    let format = match format {
        RegionFormat::Blinear => match detect_format(path, bytes) {
            Ok(format) => format,
            Err(error) => {
                return Err(error);
            },
        },
        _ => format,
    };
    match format {
        RegionFormat::Mca => mca::read_region_bytes(path, bytes, externals),
        RegionFormat::Linear => linear::read_region_bytes(path, bytes),
        RegionFormat::BlinearV2 => blinear_v2::read_region_bytes(path, bytes),
        _ => blinear_v3::read_region_bytes(path, bytes),
    }
}

/// A region that was read, and the format that it was read as.
#[derive(Debug)]
pub struct DecodedRegion {
    pub format: RegionFormat,
    pub outcome: ReadOutcome,
}

/// The format that a file with the content `bytes` is read as.
pub open spec fn hinted_format(hint: SourceFormatHint, bytes: Seq<u8>) -> Result<
    RegionFormat,
    RegionErrorKind,
> {
    match hint {
        SourceFormatHint::Mca => Ok(RegionFormat::Mca),
        SourceFormatHint::Linear => Ok(RegionFormat::Linear),
        SourceFormatHint::BlinearFamily => detected_blinear(bytes),
        SourceFormatHint::BlinearV2 => Ok(RegionFormat::BlinearV2),
        SourceFormatHint::BlinearV3 => Ok(RegionFormat::BlinearV3),
    }
}

/// What decoding the file `path` with the content `bytes` gives.
pub open spec fn decoded_region(
    path: PathView,
    bytes: Seq<u8>,
    externals: Seq<ExternalChunk>,
    hint: SourceFormatHint,
) -> Result<(RegionFormat, ReadView), RegionFault> {
    match hinted_format(hint, bytes) {
        Err(kind) => Err(error::region_fault(kind)),
        Ok(format) => match read_outcome(path, bytes, externals, format) {
            Err(fault) => Err(fault),
            Ok(read) => Ok((format, read)),
        },
    }
}

/// The result of decoding a region, taken by its view.
pub open spec fn decode_result(result: Result<DecodedRegion, RegionError>) -> Result<
    (RegionFormat, ReadView),
    RegionFault,
> {
    match result {
        Ok(decoded) => Ok((decoded.format, decoded.outcome@)),
        Err(error) => Err(error@),
    }
}

/// Decodes the file `path` with the content `bytes`, of whose format `hint` is known,
/// where `externals` are the chunk files beside it.
pub fn decode_region(
    path: &SavePath,
    bytes: &[u8],
    externals: &Vec<ExternalChunk>,
    hint: SourceFormatHint,
) -> (result: Result<DecodedRegion, RegionError>)
    ensures
        decode_result(result) == decoded_region(path@, bytes@, externals@, hint),
        result matches Ok(decoded) ==> decoded.outcome.well_formed(),
{
    let format = match hint {
        SourceFormatHint::Mca => RegionFormat::Mca,
        SourceFormatHint::Linear => RegionFormat::Linear,
        SourceFormatHint::BlinearV2 => RegionFormat::BlinearV2,
        SourceFormatHint::BlinearV3 => RegionFormat::BlinearV3,
        SourceFormatHint::BlinearFamily => match detect_blinear_format(bytes) {
            Ok(format) => format,
            Err(error) => {
                return Err(error);
            },
        },
    };
    match read_region(path, bytes, externals, format) {
        Ok(outcome) => Ok(DecodedRegion { format, outcome }),
        Err(error) => Err(error),
    }
}

/// The files that `region` is written to as `format`.
pub open spec fn encoded_region(
    region: RegionView,
    format: RegionFormat,
    level: i32,
    profiled: bool,
) -> Result<EncodedView, RegionFault> {
    match format {
        RegionFormat::Mca => mca::encoded_region(region, level),
        RegionFormat::Linear => linear::encoded_region(region, level),
        RegionFormat::Blinear => Err(error::region_fault(RegionErrorKind::GenericTarget)),
        RegionFormat::BlinearV2 => blinear_v2::encoded_region(region, level, profiled),
        RegionFormat::BlinearV3 => blinear_v3::encoded_region(region, level),
    }
}

/// `region` with the timestamps of its chunks as `format` stores them.
pub open spec fn stored_region(region: RegionView, format: RegionFormat) -> RegionView {
    match format {
        RegionFormat::Mca => seconds_region(region),
        RegionFormat::Linear => seconds_region(region),
        _ => millis_region(region),
    }
}

/// Whether `format` can store each chunk of `slots`: mca and linear take an empty
/// chunk for a missing one.
pub open spec fn storable(slots: Seq<Option<ChunkView>>, format: RegionFormat) -> bool {
    format == RegionFormat::Mca || format == RegionFormat::Linear ==> no_empty_chunk(slots)
}

/// Whether the files of `encoded`, with the region file at `path` and the chunk files
/// beside it, are those of `region` in `format`.
pub open spec fn stored_at(
    path: PathView,
    externals: Seq<ExternalChunk>,
    region: RegionView,
    format: RegionFormat,
    encoded: EncodedView,
) -> bool {
    &&& names_region(path, region)
    &&& format == RegionFormat::Mca ==> mca::holds_sidecars(
        externals,
        region,
        encoded.sidecar_files,
    )
}

/// Storing a region in any format keeps which chunks there are and what they hold.
pub proof fn law_storing_keeps_payloads(region: RegionView, format: RegionFormat, i: int)
    requires
        0 <= i < region.chunks.len(),
    ensures
        stored_region(region, format).chunks.len() == region.chunks.len(),
        match region.chunks[i] {
            Some(chunk) => stored_region(region, format).chunks[i] matches Some(stored)
                && stored.raw_nbt == chunk.raw_nbt,
            None => stored_region(region, format).chunks[i] is None,
        },
{
}

/// Whether `timestamp` is in the unit that `format` stores: seconds for mca and
/// linear, milliseconds for blinear.
pub open spec fn in_unit_of(timestamp: i64, format: RegionFormat) -> bool {
    match format {
        RegionFormat::Mca => 0 <= timestamp <= u32::MAX,
        RegionFormat::Linear => 0 <= timestamp <= u32::MAX,
        _ => timestamp <= 0 || timestamp > u32::MAX,
    }
}

/// A region whose timestamps are in the unit of a format is stored in it as it is.
pub proof fn law_stored_as_it_is(region: RegionView, format: RegionFormat)
    requires
        forall|i: int|
            0 <= i < region.chunks.len() ==> match #[trigger] region.chunks[i] {
                Some(chunk) => in_unit_of(chunk.timestamp, format),
                None => true,
            },
    ensures
        stored_region(region, format) == region,
{
    let stored = stored_region(region, format);
    assert forall|i: int| 0 <= i < region.chunks.len() implies stored.chunks[i]
        == #[trigger] region.chunks[i] by {}
    assert(stored.chunks =~= region.chunks);
}

/// Writes `region` as `format` at the compression level `compression_level`.
pub fn encode_region(region: &Region, format: RegionFormat, compression_level: i32) -> (result: Result<
    EncodedRegion,
    RegionError,
>)
    requires
        region.well_formed(),
        format == RegionFormat::Mca ==> 0 <= compression_level <= 10,
    ensures
        encode_result(result) == encoded_region(region@, format, compression_level, false),
        result matches Ok(encoded) ==> storable(region@.chunks, format) ==> forall|
            path: PathView,
            externals: Seq<ExternalChunk>,
        |
            stored_at(path, externals, region@, format, encoded@) ==> #[trigger] read_outcome(
                path,
                encoded.main_file_bytes@,
                externals,
                format,
            ) == Ok::<ReadView, RegionFault>(all_read(stored_region(region@, format))),
        result matches Ok(encoded) ==> storable(region@.chunks, format) ==> forall|
            source: SourceView,
            file_size: Option<u64>,
            files: InspectedFiles,
        |
            inspection::written_files(source, files, region@, format, encoded@)
                ==> inspection::tells_region(
                #[trigger] info::entry_of(source, file_size, Ok(files)),
                source,
                region@,
                format,
            ),
{
    let result = encode_region_profiled(region, format, compression_level, false);
    proof {
        if let Ok(encoded) = &result {
            if storable(region@.chunks, format) {
                assert forall|source: SourceView, file_size: Option<u64>, files: InspectedFiles|
                    inspection::written_files(
                        source,
                        files,
                        region@,
                        format,
                        encoded@,
                    ) implies inspection::tells_region(
                    #[trigger] info::entry_of(source, file_size, Ok(files)),
                    source,
                    region@,
                    format,
                ) by {
                    detection::law_region_file_name_tells_format(
                        source.source_file,
                        format,
                        region@.region_x,
                        region@.region_z,
                    );
                    inspection::law_written_region_is_inspected(
                        region@,
                        format,
                        compression_level,
                        false,
                        encoded@,
                        source,
                        file_size,
                        files,
                    );
                }
            }
        }
    }
    result
}

/// Writes `region` as `format` at the compression level `compression_level`; with
/// `profiled`, each piece that is compressed on its own is counted.
pub fn encode_region_profiled(
    region: &Region,
    format: RegionFormat,
    compression_level: i32,
    profiled: bool,
) -> (result: Result<EncodedRegion, RegionError>)
    requires
        region.well_formed(),
        format == RegionFormat::Mca ==> 0 <= compression_level <= 10,
    ensures
        encode_result(result) == encoded_region(region@, format, compression_level, profiled),
        result matches Ok(encoded) ==> storable(region@.chunks, format) ==> forall|
            path: PathView,
            externals: Seq<ExternalChunk>,
        |
            stored_at(path, externals, region@, format, encoded@) ==> #[trigger] read_outcome(
                path,
                encoded.main_file_bytes@,
                externals,
                format,
            ) == Ok::<ReadView, RegionFault>(all_read(stored_region(region@, format))),
{
    match format {
        RegionFormat::Mca => mca::encode_region(region, compression_level),
        RegionFormat::Linear => linear::encode_region(region, compression_level),
        RegionFormat::Blinear => Err(RegionError::new(RegionErrorKind::GenericTarget)),
        RegionFormat::BlinearV2 => blinear_v2::encode_region_to_writer_profiled(
            region,
            compression_level,
            profiled,
        ),
        RegionFormat::BlinearV3 => blinear_v3::encode_region(region, compression_level),
    }
}

} // verus!
