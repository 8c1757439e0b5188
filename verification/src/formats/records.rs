//! What the tables of an mca file tell of chunks that cannot be read or stand elsewhere.

use vstd::prelude::*;

use crate::bytes;
use crate::diagnostic::{DiagnosticCode, DiagnosticLevel, DiagnosticView, LocationView};
use crate::error::{ChunkErrorKind, RegionErrorKind};
use crate::formats::mca::{self, ExternalChunk};
use crate::formats::sections::warned_of;
use crate::formats::{self, ReadView, RegionStorageFormat};
use crate::model;
use crate::path::PathView;
use crate::text;

verus! {

/// What a chunk is given up for: a location that names no sector or no number of them, one
/// that reaches behind the end of the file, or else what its record holds.
pub open spec fn reason_of(bytes: Seq<u8>, i: int) -> DiagnosticCode {
    let location = bytes::u32_at(bytes, 4 * i) as int;
    if location / 256 == 0 || location % 256 == 0 {
        DiagnosticCode::InvalidMetadata
    } else if (location / 256 + location % 256) * 4096 > bytes.len() {
        DiagnosticCode::SkippedData
    } else {
        DiagnosticCode::CorruptChunk
    }
}

/// Whether what is told afterwards is what was told before and perhaps one thing more.
spec fn tells_more(before: Seq<DiagnosticView>, after: Seq<DiagnosticView>) -> bool {
    after == before || (after.len() == before.len() + 1 && after.drop_last() == before)
}

proof fn lemma_warned_stays(
    before: Seq<DiagnosticView>,
    after: Seq<DiagnosticView>,
    path: PathView,
    region_x: i32,
    region_z: i32,
    code: DiagnosticCode,
    i: int,
)
    requires
        tells_more(before, after),
        warned_of(before, path, region_x, region_z, code, i),
    ensures
        warned_of(after, path, region_x, region_z, code, i),
{
    let j = choose|j: int|
        0 <= j < before.len() && {
            &&& (#[trigger] before[j]).level == DiagnosticLevel::Warning
            &&& before[j].code == code
            &&& before[j].location == LocationView {
                path: Some(path),
                region_coords: Some((region_x, region_z)),
                chunk_index: Some(i as usize),
            }
        };
    if after != before {
        assert(after.drop_last()[j] == after[j]);
    }
    assert(after[j] == before[j]);
}

/// One slot more keeps the place of the region and tells at most one thing more.
proof fn lemma_slot_tells(
    path: PathView,
    bytes: Seq<u8>,
    externals: Seq<ExternalChunk>,
    index: usize,
    read: ReadView,
)
    requires
        index < 1024,
        read.region.chunks.len() == 1024,
        read.region.chunks[index as int] is None,
    ensures
        ({
            let after = mca::slot_read(path, bytes, externals, index, read);
            &&& after.region.region_x == read.region.region_x
            &&& after.region.region_z == read.region.region_z
            &&& after.region.chunks.len() == 1024
            &&& tells_more(read.diagnostics, after.diagnostics)
            &&& forall|k: int|
                0 <= k < 1024 && k != index ==> #[trigger] after.region.chunks[k]
                    == read.region.chunks[k]
            &&& bytes::u32_at(bytes, 4 * index as int) != 0 && after.region.chunks[index as int]
                is None ==> warned_of(
                after.diagnostics,
                path,
                read.region.region_x,
                read.region.region_z,
                reason_of(bytes, index as int),
                index as int,
            )
        }),
{
    let after = mca::slot_read(path, bytes, externals, index, read);
    if after.diagnostics.len() > read.diagnostics.len() {
        assert(after.diagnostics.drop_last() =~= read.diagnostics);
        let last = after.diagnostics.last();
        assert(last.location == LocationView {
            path: Some(path),
            region_coords: Some((read.region.region_x, read.region.region_z)),
            chunk_index: Some(index),
        });
        assert(last == after.diagnostics[after.diagnostics.len() - 1]);
    }
}

proof fn lemma_slots_tell(
    path: PathView,
    bytes: Seq<u8>,
    externals: Seq<ExternalChunk>,
    n: nat,
    region_x: i32,
    region_z: i32,
)
    requires
        n <= 1024,
    ensures
        ({
            let read = mca::slots_read(
                path,
                bytes,
                externals,
                n,
                formats::nothing_read(region_x, region_z),
            );
            &&& read.region.region_x == region_x
            &&& read.region.region_z == region_z
            &&& read.region.chunks.len() == 1024
            &&& forall|i: int| n <= i < 1024 ==> #[trigger] read.region.chunks[i] is None
            &&& forall|i: int|
                0 <= i < n && bytes::u32_at(bytes, 4 * i) != 0 && #[trigger] read.region.chunks[i]
                    is None ==> warned_of(
                    read.diagnostics,
                    path,
                    region_x,
                    region_z,
                    reason_of(bytes, i),
                    i,
                )
        }),
    decreases n,
{
    if n > 0 {
        let nothing = formats::nothing_read(region_x, region_z);
        let last = n - 1;
        lemma_slots_tell(path, bytes, externals, last as nat, region_x, region_z);
        let before = mca::slots_read(path, bytes, externals, last as nat, nothing);
        let after = mca::slots_read(path, bytes, externals, n, nothing);
        lemma_slot_tells(path, bytes, externals, last as usize, before);
        assert forall|i: int|
            0 <= i < n && bytes::u32_at(bytes, 4 * i) != 0 && #[trigger] after.region.chunks[i]
                is None implies warned_of(
            after.diagnostics,
            path,
            region_x,
            region_z,
            reason_of(bytes, i),
            i,
        ) by {
            if i < last {
                assert(before.region.chunks[i] is None);
                lemma_warned_stays(
                    before.diagnostics,
                    after.diagnostics,
                    path,
                    region_x,
                    region_z,
                    reason_of(bytes, i),
                    i,
                );
            }
        }
    }
}

/// Each slot with a location whose chunk is not read is warned of, with the reason.
pub proof fn law_unread_chunk_is_warned_of(
    path: PathView,
    bytes: Seq<u8>,
    externals: Seq<ExternalChunk>,
    i: int,
)
    requires
        0 <= i < 1024,
        bytes::u32_at(bytes, 4 * i) != 0,
    ensures
        mca::read_outcome(path, bytes, externals) matches Ok(read) ==> read.region.chunks[i] is Some
            || warned_of(
            read.diagnostics,
            path,
            read.region.region_x,
            read.region.region_z,
            reason_of(bytes, i),
            i,
        ),
{
    if let Ok((region_x, region_z)) = formats::path_coords(path) {
        lemma_slots_tell(path, bytes, externals, 1024, region_x, region_z);
    }
}

/// Whether the record of the chunk `i` says that the chunk stands in a file of its own: its
/// type has the highest bit.
pub open spec fn says_elsewhere(bytes: Seq<u8>, i: int) -> bool {
    let location = bytes::u32_at(bytes, 4 * i) as int;
    let start = location / 256 * 4096;
    &&& location / 256 > 0
    &&& location % 256 > 0
    &&& start + 5 <= bytes.len()
    &&& bytes[start + 4] >= 128
}

/// The chunk files of an mca file are those of the chunks whose records say so, in the
/// order of their slots, and it uses such files where there is one.
pub proof fn law_chunk_files_are_those_told(bytes: Seq<u8>)
    ensures
        ({
            let slots = mca::external_slots(bytes, 1024);
            &&& forall|i: int| #[trigger]
                slots.contains(i) <==> 0 <= i < 1024 && says_elsewhere(bytes, i)
            &&& forall|j: int, k: int|
                0 <= j < k < slots.len() ==> #[trigger] slots[j] < #[trigger] slots[k]
            &&& mca::uses_external(bytes) <==> slots.len() > 0
        }),
{
    lemma_external_slots(bytes, 1024);
    let slots = mca::external_slots(bytes, 1024);
    if mca::uses_external(bytes) {
        let i = choose|i: int| 0 <= i < 1024 && #[trigger] mca::is_external(bytes, i);
        assert(slots.contains(i));
    }
    if slots.len() > 0 {
        assert(slots.contains(slots[0]));
        assert(mca::is_external(bytes, slots[0]));
    }
}

proof fn lemma_external_slots(bytes: Seq<u8>, n: int)
    requires
        0 <= n <= 1024,
    ensures
        ({
            let slots = mca::external_slots(bytes, n);
            &&& forall|i: int| #[trigger]
                slots.contains(i) <==> 0 <= i < n && says_elsewhere(bytes, i)
            &&& forall|j: int, k: int|
                0 <= j < k < slots.len() ==> #[trigger] slots[j] < #[trigger] slots[k]
        }),
    decreases n,
{
    let slots = mca::external_slots(bytes, n);
    if n > 0 {
        lemma_external_slots(bytes, n - 1);
        let before = mca::external_slots(bytes, n - 1);
        assert forall|i: int| before.contains(i) implies 0 <= i < n - 1 by {}
        assert forall|i: int| #[trigger] slots.contains(i) <==> 0 <= i < n && says_elsewhere(
            bytes,
            i,
        ) by {
            if before.contains(i) {
                let k = choose|k: int| 0 <= k < before.len() && before[k] == i;
                assert(slots[k] == i);
            }
            if slots.contains(i) {
                let k = choose|k: int| 0 <= k < slots.len() && slots[k] == i;
                if k < before.len() {
                    assert(before[k] == i);
                    assert(before.contains(i));
                }
            }
            if says_elsewhere(bytes, n - 1) {
                assert(slots[slots.len() - 1] == n - 1);
            }
        }
        assert forall|j: int, k: int| 0 <= j < k < slots.len() implies #[trigger] slots[j]
            < #[trigger] slots[k] by {
            assert(slots[j] == before[j]);
            assert(before.contains(before[j]));
            if k < before.len() {
                assert(slots[k] == before[k]);
            }
        }
    }
}

/// A region takes the size of its file, and an mca region that of its chunk files too, as
/// far as they exist.
pub proof fn law_size_counts_chunk_files(
    path: PathView,
    format: RegionStorageFormat,
    bytes: Seq<u8>,
    sizes: Seq<Option<u64>>,
    more: Option<u64>,
)
    ensures
        format != RegionStorageFormat::Mca ==> formats::storage_total(path, format, bytes, sizes)
            == Ok::<nat, RegionErrorKind>(bytes.len()),
        formats::storage_total(path, RegionStorageFormat::Mca, bytes, sizes) is Ok <==> bytes.len()
            >= 8192 && formats::path_coords(path) is Ok,
        formats::storage_total(path, RegionStorageFormat::Mca, bytes, seq![]) matches Ok(total)
            ==> total == bytes.len(),
        formats::storage_total(path, RegionStorageFormat::Mca, bytes, sizes) matches Ok(total)
            ==> formats::storage_total(path, RegionStorageFormat::Mca, bytes, sizes.push(more))
            == Ok::<nat, RegionErrorKind>(
            total + match more {
                Some(size) => size as nat,
                None => 0,
            },
        ),
{
    assert(sizes.push(more).drop_last() =~= sizes);
}

/// A record that is not read is refused for what is wrong with it: its length, its type, or
/// what it holds, or that its file is not at hand.
pub proof fn law_record_refusal_tells_the_reason(
    bytes: Seq<u8>,
    externals: Seq<ExternalChunk>,
    region_x: i32,
    region_z: i32,
    i: int,
)
    ensures
        ({
            let location = bytes::u32_at(bytes, 4 * i) as int;
            let start = location / 256 * 4096;
            let end = start + location % 256 * 4096;
            let length = bytes::u32_at(bytes, start) as int;
            let kind = bytes[start + 4];
            mca::chunk_payload(bytes, externals, region_x, region_z, i) matches Err(fault)
                ==> match fault.kind {
                ChunkErrorKind::ExternalUnreadable => kind >= 128 && !(exists|data: Seq<u8>| #[trigger]
                    mca::file_at_hand(externals, i, data)),
                ChunkErrorKind::LengthTooShort => kind < 128 && length == 0,
                ChunkErrorKind::ExceedsAllocation => kind < 128 && start + 4 + length > end,
                ChunkErrorKind::UnsupportedCompression(told) => told == kind as int % 128 && told
                    != 1 && told != 2,
                ChunkErrorKind::DecompressionFailed => kind as int % 128 == 1 || kind as int % 128
                    == 2,
                _ => false,
            }
        }),
{
    assert forall|data: Seq<u8>| #[trigger] mca::file_at_hand(externals, i, data) implies
        mca::external_of(externals, i) == Some(Ok::<Seq<u8>, Seq<char>>(data)) by {
        mca::lemma_external_at_hand(externals, i, data);
    }
}

/// Each slot with a location is a chunk that is read or counted as given up, with one
/// warning.
pub proof fn law_every_location_is_accounted_for(
    path: PathView,
    bytes: Seq<u8>,
    externals: Seq<ExternalChunk>,
)
    ensures
        mca::read_outcome(path, bytes, externals) matches Ok(read) ==> {
            &&& model::occupied(read.region.chunks).len() + read.discarded_chunks == Seq::new(
                1024,
                |i: int| bytes::u32_at(bytes, 4 * i),
            ).filter(|location: u32| location != 0).len()
            &&& read.diagnostics.len() == read.discarded_chunks
        },
{
    mca::law_every_chunk_is_accounted_for(path, bytes, externals);
    lemma_used_slots(bytes, 1024);
}

proof fn lemma_used_slots(bytes: Seq<u8>, n: int)
    requires
        0 <= n,
    ensures
        mca::used_slots(bytes, n) == Seq::new(
            n as nat,
            |i: int| bytes::u32_at(bytes, 4 * i),
        ).filter(|location: u32| location != 0).len(),
    decreases n,
{
    reveal(Seq::filter);
    let all = Seq::new(n as nat, |i: int| bytes::u32_at(bytes, 4 * i));
    if n > 0 {
        lemma_used_slots(bytes, n - 1);
        assert(all.drop_last() =~= Seq::new(
            (n - 1) as nat,
            |i: int| bytes::u32_at(bytes, 4 * i),
        ));
        let last = all.last() as int;
        assert(last == bytes::u32_at(bytes, 4 * (n - 1)));
        assert(last == 0 <==> last / 256 == 0 && last % 256 == 0);
    }
}

/// The warning about a slot names the slot and the file.
pub proof fn law_slot_warning_names_the_slot(
    path: PathView,
    bytes: Seq<u8>,
    externals: Seq<ExternalChunk>,
    index: usize,
    read: ReadView,
)
    ensures
        ({
            let after = mca::slot_read(path, bytes, externals, index, read);
            after.diagnostics.len() > read.diagnostics.len() ==> ("chunk slot "@ + text::decimal(
                index as nat,
            ) + " in "@ + path.text()).is_prefix_of(after.diagnostics.last().message)
        }),
{
    let after = mca::slot_read(path, bytes, externals, index, read);
    let head = "chunk slot "@ + text::decimal(index as nat) + " in "@ + path.text();
    if after.diagnostics.len() > read.diagnostics.len() {
        let message = after.diagnostics.last().message;
        assert(head =~= message.subrange(0, head.len() as int));
    }
}

} // verus!
