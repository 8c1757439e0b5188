//! What the name and the first bytes of a region file tell of its format.

use vstd::prelude::*;
use vstd::string::*;

use crate::bytes;
use crate::codec;
use crate::error::{RegionErrorKind, RegionFault};
use crate::formats::mca::ExternalChunk;
use crate::formats::{
    self, blinear_v2, blinear_v3, linear, mca, sections, slots, EncodedView, RegionFormat,
    RegionStorageFormat, SourceFormatHint, BLINEAR_SUPERBLOCK, LINEAR_SUPERBLOCK,
};
use crate::model::{self, ChunkView, RegionView};
use crate::path::{self, PathView};
use crate::text;

verus! {

/// The last dot of a text stands before what holds no dot.
pub proof fn lemma_last_dot(stem: Seq<char>, rest: Seq<char>)
    requires
        !rest.contains('.'),
    ensures
        path::last_dot(stem + seq!['.'] + rest) == stem.len(),
    decreases rest.len(),
{
    let s = stem + seq!['.'] + rest;
    if rest.len() > 0 {
        assert(rest.contains(rest.last()));
        assert forall|c: char| rest.drop_last().contains(c) implies rest.contains(c) by {
            let i = choose|i: int| 0 <= i < rest.drop_last().len() && rest.drop_last()[i] == c;
            assert(rest[i] == c);
        }
        lemma_last_dot(stem, rest.drop_last());
        assert(s.drop_last() =~= stem + seq!['.'] + rest.drop_last());
    } else {
        assert(s.last() == '.');
    }
}

/// The last dot of a text is one, and behind it there is none.
proof fn lemma_last_dot_is_last(s: Seq<char>)
    ensures
        -1 <= path::last_dot(s) < s.len(),
        path::last_dot(s) >= 0 ==> s[path::last_dot(s)] == '.',
        !s.skip(path::last_dot(s) + 1).contains('.'),
    decreases s.len(),
{
    if s.len() > 0 && s.last() != '.' {
        let before = s.drop_last();
        lemma_last_dot_is_last(before);
        let rest = s.skip(path::last_dot(s) + 1);
        if rest.contains('.') {
            let i = choose|i: int| 0 <= i < rest.len() && rest[i] == '.';
            let short = before.skip(path::last_dot(s) + 1);
            assert(rest[i] == s[path::last_dot(s) + 1 + i]);
            assert(short[i] == '.');
            assert(short.contains('.'));
        }
    }
}

/// The extension of a file is what its name has behind the last dot, where something
/// stands before that dot.
pub proof fn law_extension_follows_the_last_dot(path: PathView, extension: Seq<char>)
    ensures
        path.extension() == Some(extension) <==> {
            &&& path.file_name() matches Some(name)
            &&& name.len() > extension.len() + 1
            &&& name.skip(name.len() - extension.len()) == extension
            &&& name[name.len() - extension.len() - 1] == '.'
            &&& !extension.contains('.')
        },
{
    if let Some(name) = path.file_name() {
        lemma_last_dot_is_last(name);
        let at = name.len() - extension.len() - 1;
        if name.len() > extension.len() + 1 && name.skip(at + 1) == extension && name[at] == '.'
            && !extension.contains('.') {
            assert(name =~= name.take(at) + seq!['.'] + extension) by {
                assert(name =~= name.take(at) + seq![name[at]] + name.skip(at + 1));
            }
            lemma_last_dot(name.take(at), extension);
        }
    }
}

/// The name of a region file tells its format by its extension.
pub proof fn law_region_file_name_tells_format(
    path: PathView,
    format: RegionFormat,
    region_x: i32,
    region_z: i32,
)
    requires
        path.file_name() == Some(formats::region_file_name_text(format, region_x, region_z)),
    ensures
        formats::path_coords(path) == Ok::<(i32, i32), RegionErrorKind>((region_x, region_z)),
        match format {
            RegionFormat::Mca => {
                &&& path.extension() == Some("mca"@)
                &&& formats::guessed_format(path) == Some(RegionFormat::Mca)
            },
            RegionFormat::Linear => {
                &&& path.extension() == Some("linear"@)
                &&& formats::guessed_format(path) == Some(RegionFormat::Linear)
            },
            _ => {
                &&& path.extension() == Some("b_linear"@)
                &&& formats::guessed_format(path) == Some(RegionFormat::Blinear)
            },
        },
        formats::region_file_like(path, true),
{
    let name = formats::region_file_name_text(format, region_x, region_z);
    let rest = formats::extension_text(format);
    let stem = "r."@ + text::signed_decimal(region_x as int) + "."@ + text::signed_decimal(
        region_z as int,
    );
    formats::law_region_file_name_tells_coords(format, region_x, region_z);
    reveal_strlit("r.");
    reveal_strlit(".");
    reveal_strlit("mca");
    reveal_strlit("linear");
    reveal_strlit("b_linear");
    assert("."@ =~= seq!['.']);
    assert(name =~= stem + seq!['.'] + rest);
    assert(!rest.contains('.'));
    lemma_last_dot(stem, rest);
    assert(name.skip(stem.len() as int + 1) =~= rest);
    assert("mca"@.len() == 3 && "linear"@.len() == 6 && "b_linear"@.len() == 8);
}

/// A file with the extension of linear or blinear starts with the superblock of the one
/// or the other and the number of its version, by which it is told; one with the
/// extension of mca is told by that alone.
pub proof fn law_version_is_told_by_number(path: PathView, header: Seq<u8>)
    requires
        header.len() >= 9,
    ensures
        ({
            let storage = formats::detected_storage(path, header);
            let blinear = path.extension() == Some("b_linear"@) && bytes::i64_at(header, 0)
                == -0x2008_1225_0269;
            let linear = path.extension() == Some("linear"@) && bytes::u64_at(header, 0)
                == 0xc3ff_1318_3cca_9d9a;
            &&& (storage matches Ok(RegionStorageFormat::Mca)) <==> path.extension() == Some("mca"@)
            &&& (storage matches Ok(RegionStorageFormat::LinearV1)) <==> linear && header[8] == 1
            &&& (storage matches Ok(RegionStorageFormat::LinearV2)) <==> linear && header[8] == 2
            &&& (storage matches Ok(RegionStorageFormat::BlinearV2)) <==> blinear && header[8] == 2
            &&& (storage matches Ok(RegionStorageFormat::BlinearV3)) <==> blinear && header[8] == 3
        }),
{
    reveal_strlit("mca");
    reveal_strlit("linear");
    reveal_strlit("b_linear");
    assert("mca"@.len() == 3 && "linear"@.len() == 6 && "b_linear"@.len() == 8);
}

/// The format that each version belongs to.
pub open spec fn belongs_to(storage: RegionStorageFormat, format: RegionFormat) -> bool {
    match format {
        RegionFormat::Mca => storage is Mca,
        RegionFormat::Linear => storage is LinearV1 || storage is LinearV2,
        RegionFormat::Blinear => storage is BlinearV2 || storage is BlinearV3,
        RegionFormat::BlinearV2 => storage is BlinearV2,
        RegionFormat::BlinearV3 => storage is BlinearV3,
    }
}

/// Whether `file` starts with the eight bytes `superblock` and the number `version`.
spec fn starts_with(file: Seq<u8>, superblock: Seq<u8>, version: u8) -> bool {
    &&& file.len() >= 9
    &&& file.subrange(0, 8) == superblock
    &&& file[8] == version
}

/// What a file starts with does not depend on what follows.
proof fn lemma_starts_with(start: Seq<u8>, rest: Seq<u8>, superblock: Seq<u8>, version: u8)
    requires
        superblock.len() == 8,
        start == superblock + seq![version] || starts_with(start, superblock, version),
    ensures
        starts_with(start + rest, superblock, version),
{
    assert((start + rest).subrange(0, 8) =~= superblock) by {
        if starts_with(start, superblock, version) {
            assert((start + rest).subrange(0, 8) =~= start.subrange(0, 8));
        }
    }
}

/// How a linear file starts.
proof fn lemma_linear_starts(newest: u32, chunk_count: u16, level: i32, frame: Seq<u8>)
    ensures
        starts_with(
            linear::framed_bytes(newest, chunk_count, level, frame),
            bytes::be_u64(LINEAR_SUPERBLOCK),
            1,
        ),
{
    let head = bytes::be_u64(LINEAR_SUPERBLOCK);
    let a = head + seq![1u8];
    let b = a + bytes::be_u64(newest as u64);
    let c = b + seq![level as u8];
    let d = c + bytes::be_u16(chunk_count);
    let e = d + bytes::be_u32(frame.len() as u32);
    let f = e + bytes::be_u64(0);
    let g = f + frame;
    lemma_starts_with(a, bytes::be_u64(newest as u64), head, 1);
    lemma_starts_with(b, seq![level as u8], head, 1);
    lemma_starts_with(c, bytes::be_u16(chunk_count), head, 1);
    lemma_starts_with(d, bytes::be_u32(frame.len() as u32), head, 1);
    lemma_starts_with(e, bytes::be_u64(0), head, 1);
    lemma_starts_with(f, frame, head, 1);
    lemma_starts_with(g, head, head, 1);
}

/// How a blinear file of version 2 starts.
proof fn lemma_version_two_starts(slots: Seq<Option<ChunkView>>, level: i32, frame: Seq<u8>)
    ensures
        starts_with(
            blinear_v2::header_bytes(slots, level) + frame,
            bytes::be_i64(BLINEAR_SUPERBLOCK),
            2,
        ),
{
    let head = bytes::be_i64(BLINEAR_SUPERBLOCK);
    let newest = bytes::be_i64(
        model::newest_of(model::occupied(formats::millis_slots(slots))),
    );
    lemma_starts_with(head + seq![2u8], newest, head, 2);
    lemma_starts_with(head + seq![2u8] + newest, seq![level as u8], head, 2);
    lemma_starts_with(blinear_v2::header_bytes(slots, level), frame, head, 2);
}

/// How a blinear file of version 3 starts.
proof fn lemma_version_three_starts(level: i32, buckets: blinear_v3::BucketsView)
    ensures
        starts_with(
            blinear_v3::file_bytes(level, buckets),
            bytes::be_i64(BLINEAR_SUPERBLOCK),
            3,
        ),
{
    let head = bytes::be_i64(BLINEAR_SUPERBLOCK);
    let seed = bytes::be_u32(formats::BLINEAR_HASH_SEED);
    let a = head + seq![3u8, level as u8];
    assert(a =~= head + seq![3u8] + seq![level as u8]);
    lemma_starts_with(head + seq![3u8], seq![level as u8], head, 3);
    lemma_starts_with(a, seed, head, 3);
    lemma_starts_with(a + seed, blinear_v3::offsets_bytes(buckets.offsets), head, 3);
    lemma_starts_with(
        a + seed + blinear_v3::offsets_bytes(buckets.offsets),
        buckets.data,
        head,
        3,
    );
}

/// A written region file with the name of its region is told to be of the format that it
/// was written in, by its name alone or by its first bytes.
pub proof fn law_written_file_is_detected(
    region: RegionView,
    format: RegionFormat,
    level: i32,
    profiled: bool,
    encoded: EncodedView,
    path: PathView,
)
    requires
        formats::encoded_region(region, format, level, profiled) == Ok::<EncodedView, RegionFault>(
            encoded,
        ),
        path.file_name() == Some(
            formats::region_file_name_text(format, region.region_x, region.region_z),
        ),
    ensures
        ({
            let detected = formats::detected_storage(path, encoded.main_file_bytes);
            match format {
                RegionFormat::Mca => detected == Ok::<RegionStorageFormat, RegionErrorKind>(
                    RegionStorageFormat::Mca,
                ),
                RegionFormat::Linear => detected == Ok::<RegionStorageFormat, RegionErrorKind>(
                    RegionStorageFormat::LinearV1,
                ),
                RegionFormat::BlinearV2 => detected == Ok::<RegionStorageFormat, RegionErrorKind>(
                    RegionStorageFormat::BlinearV2,
                ),
                RegionFormat::BlinearV3 => detected == Ok::<RegionStorageFormat, RegionErrorKind>(
                    RegionStorageFormat::BlinearV3,
                ),
                RegionFormat::Blinear => false,
            }
        }),
        formats::detected_format(path, encoded.main_file_bytes) == Ok::<
            RegionFormat,
            RegionErrorKind,
        >(format),
        format == RegionFormat::BlinearV2 || format == RegionFormat::BlinearV3 ==> {
            &&& formats::detected_blinear(encoded.main_file_bytes) == Ok::<
                RegionFormat,
                RegionErrorKind,
            >(format)
            &&& formats::hinted_format(
                SourceFormatHint::BlinearFamily,
                encoded.main_file_bytes,
            ) == Ok::<RegionFormat, RegionErrorKind>(format)
        },
{
    law_region_file_name_tells_format(path, format, region.region_x, region.region_z);
    let file = encoded.main_file_bytes;
    match format {
        RegionFormat::Linear => {
            let raw = linear::raw_bytes(region.chunks);
            lemma_linear_starts(
                linear::newest_seconds(region.chunks),
                model::occupied(region.chunks).len() as u16,
                level,
                codec::zstd_bulk_compressed(raw, level)->Ok_0,
            );
            bytes::lemma_u64_at_be_u64(file, 0, LINEAR_SUPERBLOCK);
        },
        RegionFormat::BlinearV2 => {
            let raw = slots::slots_bytes(region.chunks);
            let frame = if profiled {
                codec::zstd_bulk_compressed(raw, level)->Ok_0
            } else {
                codec::zstd_stream_compressed(raw, level)->Ok_0
            };
            lemma_version_two_starts(region.chunks, level, frame);
            bytes::lemma_i64_at_be_i64(file, 0, BLINEAR_SUPERBLOCK);
        },
        RegionFormat::BlinearV3 => {
            lemma_version_three_starts(
                level,
                blinear_v3::buckets_written(region.chunks, level, 16)->Ok_0,
            );
            bytes::lemma_i64_at_be_i64(file, 0, BLINEAR_SUPERBLOCK);
        },
        _ => {},
    }
}

/// What a file is told to be is what it can be read as: a file that is read as one of the
/// versioned formats and has the extension of that format is told to be of that format,
/// and is read as no other.
pub proof fn law_readable_file_is_detected(
    path: PathView,
    bytes: Seq<u8>,
    externals: Seq<ExternalChunk>,
    format: RegionFormat,
)
    requires
        path.extension() == Some(formats::extension_text(format)),
        formats::read_outcome(path, bytes, externals, format) is Ok,
    ensures
        formats::detected_storage(path, bytes) matches Ok(storage) && belongs_to(storage, format)
            && formats::family_of(storage) == (if format == RegionFormat::Blinear {
            formats::family_of(storage)
        } else {
            format
        }) && formats::read_outcome(path, bytes, externals, format) == formats::read_outcome(
            path,
            bytes,
            externals,
            formats::family_of(storage),
        ),
        format == RegionFormat::BlinearV2 ==> formats::read_outcome(
            path,
            bytes,
            externals,
            RegionFormat::BlinearV3,
        ) is Err,
        format == RegionFormat::BlinearV3 ==> formats::read_outcome(
            path,
            bytes,
            externals,
            RegionFormat::BlinearV2,
        ) is Err,
{
    reveal_strlit("mca");
    reveal_strlit("linear");
    reveal_strlit("b_linear");
    assert("mca"@.len() == 3 && "linear"@.len() == 6 && "b_linear"@.len() == 8);
}

/// Each version is of the format that its name starts with, and names differ.
pub proof fn law_version_belongs_to_its_format(
    storage: RegionStorageFormat,
    other: RegionStorageFormat,
)
    ensures
        belongs_to(storage, formats::family_of(storage)),
        formats::family_of(storage) != RegionFormat::Blinear,
        formats::storage_text(storage) == match storage {
            RegionStorageFormat::Mca => "mca"@,
            RegionStorageFormat::LinearV1 => formats::format_text(RegionFormat::Linear) + "_v1"@,
            RegionStorageFormat::LinearV2 => formats::format_text(RegionFormat::Linear) + "_v2"@,
            RegionStorageFormat::BlinearV2 => formats::format_text(RegionFormat::Blinear) + "_v2"@,
            RegionStorageFormat::BlinearV3 => formats::format_text(RegionFormat::Blinear) + "_v3"@,
        },
        storage != other ==> formats::storage_text(storage) != formats::storage_text(other),
{
    reveal_strlit("mca");
    reveal_strlit("linear");
    reveal_strlit("blinear");
    reveal_strlit("linear_v1");
    reveal_strlit("linear_v2");
    reveal_strlit("blinear_v2");
    reveal_strlit("blinear_v3");
    reveal_strlit("_v1");
    reveal_strlit("_v2");
    reveal_strlit("_v3");
    assert("linear_v1"@ =~= "linear"@ + "_v1"@);
    assert("linear_v2"@ =~= "linear"@ + "_v2"@);
    assert("blinear_v2"@ =~= "blinear"@ + "_v2"@);
    assert("blinear_v3"@ =~= "blinear"@ + "_v3"@);
    assert("linear_v1"@[8] != "linear_v2"@[8]);
    assert("blinear_v2"@[9] != "blinear_v3"@[9]);
}

/// Whether a name is made of the two texts `a` and `b` between dots.
pub open spec fn named_as(name: Seq<char>, a: Seq<char>, b: Seq<char>, rest: Seq<char>) -> bool {
    &&& name == seq!['r', '.'] + a + seq!['.'] + b + seq!['.'] + rest
    &&& !a.contains('.')
    &&& !b.contains('.')
}

/// The next dot is the first from where it is looked for.
proof fn lemma_next_dot(s: Seq<char>, from: int)
    requires
        0 <= from <= s.len(),
    ensures
        from <= formats::next_dot(s, from) <= s.len(),
        formats::next_dot(s, from) < s.len() ==> s[formats::next_dot(s, from)] == '.',
        forall|i: int| from <= i < formats::next_dot(s, from) ==> s[i] != '.',
    decreases s.len() - from,
{
    if from < s.len() && s[from] != '.' {
        lemma_next_dot(s, from + 1);
    }
}

/// The next dot is at a dot before which there is none.
proof fn lemma_next_dot_at(s: Seq<char>, from: int, at: int)
    requires
        0 <= from <= at < s.len(),
        s[at] == '.',
        forall|i: int| from <= i < at ==> s[i] != '.',
    ensures
        formats::next_dot(s, from) == at,
    decreases at - from,
{
    if from < at {
        lemma_next_dot_at(s, from + 1, at);
    }
}

proof fn lemma_named_as(name: Seq<char>, a: Seq<char>, b: Seq<char>, rest: Seq<char>)
    requires
        named_as(name, a, b, rest),
    ensures
        formats::coords_in(name) == match (text::i32_in(a), text::i32_in(b)) {
            (None, _) => Err::<(i32, i32), RegionErrorKind>(RegionErrorKind::InvalidRegionX),
            (_, None) => Err::<(i32, i32), RegionErrorKind>(RegionErrorKind::InvalidRegionZ),
            (Some(x), Some(z)) => Ok::<(i32, i32), RegionErrorKind>((x, z)),
        },
{
    let second = 2int + a.len();
    let third = second + 1 + b.len();
    assert(name[0] == 'r' && name[1] == '.' && name[second] == '.' && name[third] == '.');
    assert forall|i: int| 2 <= i < second implies name[i] != '.' by {
        assert(name[i] == a[i - 2]);
        assert(a.contains(a[i - 2]));
    }
    assert forall|i: int| second + 1 <= i < third implies name[i] != '.' by {
        assert(name[i] == b[i - second - 1]);
        assert(b.contains(b[i - second - 1]));
    }
    lemma_next_dot_at(name, 0, 1);
    lemma_next_dot_at(name, 2, second);
    lemma_next_dot_at(name, second + 1, third);
    assert(name.take(1) =~= seq!['r']);
    assert(name.subrange(2, second) =~= a);
    assert(name.subrange(second + 1, third) =~= b);
}

/// A name tells the place of a region if and only if it is an `r` and two numbers, each
/// between dots, whatever follows them.
pub proof fn law_coords_stand_between_dots(name: Seq<char>, x: i32, z: i32)
    ensures
        formats::coords_in(name) == Ok::<(i32, i32), RegionErrorKind>((x, z)) <==> exists|
            a: Seq<char>,
            b: Seq<char>,
            rest: Seq<char>,
        | #[trigger]
            named_as(name, a, b, rest) && text::i32_in(a) == Some(x) && text::i32_in(b) == Some(z),
        formats::coords_in(name) == Err::<(i32, i32), RegionErrorKind>(
            RegionErrorKind::FileNameShape,
        ) <==> forall|a: Seq<char>, b: Seq<char>, rest: Seq<char>|
            !#[trigger] named_as(name, a, b, rest),
{
    let first = formats::next_dot(name, 0);
    lemma_next_dot(name, 0);
    if formats::coords_in(name) != Err::<(i32, i32), RegionErrorKind>(
        RegionErrorKind::FileNameShape,
    ) {
        let second = formats::next_dot(name, first + 1);
        let third = formats::next_dot(name, second + 1);
        if first < name.len() {
            lemma_next_dot(name, first + 1);
            if second < name.len() {
                lemma_next_dot(name, second + 1);
            }
        }
        assert(name.take(first)[0] == 'r');
        assert(name.take(first).len() == 1);
        assert(first == 1);
        let a = name.subrange(2, second);
        let b = name.subrange(second + 1, third);
        let rest = name.skip(third + 1);
        assert(name =~= seq!['r', '.'] + a + seq!['.'] + b + seq!['.'] + rest);
        assert(!a.contains('.')) by {
            if a.contains('.') {
                let i = choose|i: int| 0 <= i < a.len() && a[i] == '.';
                assert(name[2 + i] == '.');
            }
        }
        assert(!b.contains('.')) by {
            if b.contains('.') {
                let i = choose|i: int| 0 <= i < b.len() && b[i] == '.';
                assert(name[second + 1 + i] == '.');
            }
        }
        assert(named_as(name, a, b, rest));
        lemma_named_as(name, a, b, rest);
    }
    assert forall|a: Seq<char>, b: Seq<char>, rest: Seq<char>| #[trigger]
        named_as(name, a, b, rest) implies formats::coords_in(name) == match (
        text::i32_in(a),
        text::i32_in(b),
    ) {
        (None, _) => Err::<(i32, i32), RegionErrorKind>(RegionErrorKind::InvalidRegionX),
        (_, None) => Err::<(i32, i32), RegionErrorKind>(RegionErrorKind::InvalidRegionZ),
        (Some(x), Some(z)) => Ok::<(i32, i32), RegionErrorKind>((x, z)),
    } by {
        lemma_named_as(name, a, b, rest);
    }
}

/// A file of either blinear version is read as the version that its header tells.
pub proof fn law_header_tells_how_to_read(
    path: PathView,
    bytes: Seq<u8>,
    externals: Seq<ExternalChunk>,
)
    requires
        path.extension() == Some("b_linear"@),
        bytes.len() >= 9,
        bytes::i64_at(bytes, 0) == -0x2008_1225_0269,
    ensures
        bytes[8] == 2 ==> {
            &&& formats::read_outcome(path, bytes, externals, RegionFormat::Blinear)
                == formats::read_outcome(path, bytes, externals, RegionFormat::BlinearV2)
            &&& formats::decoded_region(
                path,
                bytes,
                externals,
                SourceFormatHint::BlinearFamily,
            ) == formats::decoded_region(path, bytes, externals, SourceFormatHint::BlinearV2)
        },
        bytes[8] == 3 ==> {
            &&& formats::read_outcome(path, bytes, externals, RegionFormat::Blinear)
                == formats::read_outcome(path, bytes, externals, RegionFormat::BlinearV3)
            &&& formats::decoded_region(
                path,
                bytes,
                externals,
                SourceFormatHint::BlinearFamily,
            ) == formats::decoded_region(path, bytes, externals, SourceFormatHint::BlinearV3)
        },
{
    reveal_strlit("mca");
    reveal_strlit("linear");
    reveal_strlit("b_linear");
    assert("mca"@.len() == 3 && "linear"@.len() == 6 && "b_linear"@.len() == 8);
}

/// Reading a file as one of the formats is reading it as that format does, and as no other.
pub proof fn law_reading_goes_by_format(
    path: PathView,
    bytes: Seq<u8>,
    externals: Seq<ExternalChunk>,
)
    ensures
        formats::read_outcome(path, bytes, externals, RegionFormat::Mca) is Ok <==> bytes.len()
            >= 8192 && formats::path_coords(path) is Ok,
        formats::read_outcome(path, bytes, externals, RegionFormat::Linear) is Ok ==> bytes.len()
            >= 40 && bytes::u64_at(bytes, 0) == 0xc3ff_1318_3cca_9d9a,
        formats::read_outcome(path, bytes, externals, RegionFormat::Linear)
            == linear::read_outcome(path, bytes),
        formats::read_outcome(path, bytes, externals, RegionFormat::BlinearV2)
            == blinear_v2::read_outcome(path, bytes),
        formats::read_outcome(path, bytes, externals, RegionFormat::BlinearV3) is Ok <==> {
            &&& bytes.len() >= 142
            &&& formats::path_coords(path) is Ok
            &&& bytes::i64_at(bytes, 0) == -0x2008_1225_0269
            &&& bytes[8] == 3
        },
        formats::read_outcome(path, bytes, externals, RegionFormat::BlinearV3)
            == blinear_v3::read_outcome(path, bytes),
        formats::read_outcome(path, bytes, externals, RegionFormat::Mca) == mca::read_outcome(
            path,
            bytes,
            externals,
        ),
{
}

/// A file that is not read is refused for what is wrong with it: its length, its name, its
/// superblock, its version, or what it holds.
pub proof fn law_refusal_tells_the_reason(
    path: PathView,
    bytes: Seq<u8>,
    externals: Seq<ExternalChunk>,
)
    ensures
        mca::read_outcome(path, bytes, externals) matches Err(fault) ==> match fault.kind {
            RegionErrorKind::McaTooSmall => bytes.len() < 8192,
            kind => formats::path_coords(path) == Err::<(i32, i32), RegionErrorKind>(kind),
        },
        linear::read_outcome(path, bytes) matches Err(fault) ==> match fault.kind {
            RegionErrorKind::LinearTooSmall => bytes.len() < 40,
            RegionErrorKind::LinearSuperblock => bytes::u64_at(bytes, 0) != 0xc3ff_1318_3cca_9d9a,
            RegionErrorKind::LinearVersion(version) => version == bytes[8] && version != 1
                && version != 2,
            RegionErrorKind::LinearLength => 40 + bytes::u32_at(bytes, 20) != bytes.len(),
            RegionErrorKind::LinearFooter => bytes::u64_at(bytes, bytes.len() - 8)
                != 0xc3ff_1318_3cca_9d9a,
            RegionErrorKind::Decompression => codec::zstd_stream_decoded(
                bytes.subrange(32, bytes.len() - 8),
            ) == Err::<Seq<u8>, Seq<char>>(fault.detail),
            RegionErrorKind::LinearTable => codec::zstd_stream_decoded(
                bytes.subrange(32, bytes.len() - 8),
            ) matches Ok(data) && data.len() < 8192,
            RegionErrorKind::LinearChunkCount(told, found) => told == bytes::u16_at(bytes, 18)
                && told != found,
            RegionErrorKind::LinearOverflow => true,
            RegionErrorKind::LinearPayload => true,
            kind => formats::path_coords(path) == Err::<(i32, i32), RegionErrorKind>(kind),
        },
        blinear_v2::read_outcome(path, bytes) matches Err(fault) ==> match fault.kind {
            RegionErrorKind::BlinearV2TooSmall => bytes.len() < 18,
            RegionErrorKind::BlinearV2Superblock => bytes::i64_at(bytes, 0) != -0x2008_1225_0269,
            RegionErrorKind::BlinearV2Version(version) => version == bytes[8] && version != 2,
            RegionErrorKind::Decompression => codec::zstd_stream_decoded(bytes.skip(18)) == Err::<
                Seq<u8>,
                Seq<char>,
            >(fault.detail),
            RegionErrorKind::BlinearV2Ended(_) => codec::zstd_stream_decoded(bytes.skip(18)) is Ok,
            RegionErrorKind::BlinearV2NegativeSection(_) => codec::zstd_stream_decoded(
                bytes.skip(18),
            ) is Ok,
            RegionErrorKind::BlinearV2Trailing => codec::zstd_stream_decoded(bytes.skip(18)) is Ok,
            kind => formats::path_coords(path) == Err::<(i32, i32), RegionErrorKind>(kind),
        },
        blinear_v3::read_outcome(path, bytes) matches Err(fault) ==> match fault.kind {
            RegionErrorKind::BlinearV3TooSmall => bytes.len() < 142,
            RegionErrorKind::BlinearV3Superblock => bytes::i64_at(bytes, 0) != -0x2008_1225_0269,
            RegionErrorKind::BlinearV3Version(version) => version == bytes[8] && version != 3,
            kind => formats::path_coords(path) == Err::<(i32, i32), RegionErrorKind>(kind),
        },
{
    if let Ok((region_x, region_z)) = formats::path_coords(path) {
        if let Ok(data) = codec::zstd_stream_decoded(bytes.skip(18)) {
            let (list, rest) = sections::law_every_list_splits(data, 1024);
            sections::law_payload_is_read_slot_by_slot(path, list, rest, region_x, region_z);
        }
    }
    if let Err(fault) = linear::read_outcome(path, bytes) {
        if let RegionErrorKind::LinearChunkCount(_, found) = fault.kind {
            let data = codec::zstd_stream_decoded(bytes.subrange(32, bytes.len() - 8))->Ok_0;
            lemma_count_bounded(data, 1024);
        }
    }
}

proof fn lemma_count_bounded(data: Seq<u8>, n: int)
    requires
        0 <= n,
    ensures
        linear::table_count(data, n) <= n,
    decreases n,
{
    if n > 0 {
        lemma_count_bounded(data, n - 1);
    }
}

/// A file that ends before its version is told to be mca or nothing, and one without the
/// extension of a format is told to be nothing.
pub proof fn law_short_file_is_not_detected(path: PathView, header: Seq<u8>)
    ensures
        header.len() < 9 ==> (formats::detected_storage(path, header) is Ok <==> path.extension()
            == Some("mca"@)),
        path.extension() != Some("mca"@) && path.extension() != Some("linear"@)
            && path.extension() != Some("b_linear"@) ==> formats::detected_storage(path, header)
            == Err::<RegionStorageFormat, RegionErrorKind>(RegionErrorKind::UnsupportedExtension),
        path.extension() == Some("mca"@) ==> formats::detected_storage(path, header) == Ok::<
            RegionStorageFormat,
            RegionErrorKind,
        >(RegionStorageFormat::Mca),
{
    reveal_strlit("mca");
    reveal_strlit("linear");
    reveal_strlit("b_linear");
    assert("mca"@.len() == 3 && "linear"@.len() == 6 && "b_linear"@.len() == 8);
}

} // verus!
