//! What lists of chunk sections are read as: the buckets of a blinear file of version 3
//! and the payload of one of version 2.

use vstd::prelude::*;

use crate::bytes;
use crate::codec;
use crate::diagnostic::{DiagnosticCode, DiagnosticLevel, DiagnosticView, LocationView};
use crate::error::{ChunkErrorKind, ChunkFault, RegionErrorKind, RegionFault};
use crate::formats::slots::{self, SlotReading};
use crate::formats::{self, blinear_v2, blinear_v3, ReadView, BLINEAR_HASH_SEED};
use crate::model::{self, ChunkView};
use crate::path::PathView;

verus! {

/// The list of slots that hold `sections`, each behind its length; an empty section
/// stands for an empty slot.
pub open spec fn listed(sections: Seq<Seq<u8>>) -> Seq<u8>
    decreases sections.len(),
{
    if sections.len() == 0 {
        seq![]
    } else {
        listed(sections.drop_last()) + bytes::be_u32(sections.last().len() as u32)
            + sections.last()
    }
}

/// Whether the length of each section can be written.
pub open spec fn lengths_fit(sections: Seq<Seq<u8>>) -> bool {
    forall|k: int| 0 <= k < sections.len() ==> (#[trigger] sections[k]).len() <= i32::MAX
}

/// Whether no slot stands at the start of `rest`: it ends inside a length, tells of a
/// negative length, or ends inside a section.
pub open spec fn breaks_off(rest: Seq<u8>) -> bool {
    ||| rest.len() < 4
    ||| bytes::i32_at(rest, 0) < 0
    ||| bytes::i32_at(rest, 0) > rest.len() - 4
}

/// Whether a slot with that section holds a chunk that cannot be kept.
pub open spec fn is_faulty(section: Seq<u8>, hash_seed: u32) -> bool {
    section.len() > 0 && formats::section_outcome(section, hash_seed) is Err
}

/// The number of slots that are not empty.
pub open spec fn filled(sections: Seq<Seq<u8>>) -> nat {
    sections.filter(|section: Seq<u8>| section.len() > 0).len()
}

/// The number of slots whose chunk cannot be kept.
pub open spec fn faulty(sections: Seq<Seq<u8>>, hash_seed: u32) -> nat {
    sections.filter(|section: Seq<u8>| is_faulty(section, hash_seed)).len()
}

/// Whether `slot` is what a slot with that section is read as: the chunk of a section
/// that checks out, and nothing otherwise.
pub open spec fn slot_of_section(
    section: Seq<u8>,
    hash_seed: u32,
    slot: Option<ChunkView>,
) -> bool {
    match slot {
        Some(chunk) => section.len() > 0 && formats::section_outcome(section, hash_seed) == Ok::<
            ChunkView,
            ChunkFault,
        >(chunk),
        None => section.len() == 0 || formats::section_outcome(section, hash_seed) is Err,
    }
}

/// Whether one of `diagnostics` is a warning of that code about the slot `index` of the
/// region at `(region_x, region_z)` in the file `path`.
pub open spec fn warned_of(
    diagnostics: Seq<DiagnosticView>,
    path: PathView,
    region_x: i32,
    region_z: i32,
    code: DiagnosticCode,
    index: int,
) -> bool {
    exists|j: int|
        0 <= j < diagnostics.len() && {
            &&& (#[trigger] diagnostics[j]).level == DiagnosticLevel::Warning
            &&& diagnostics[j].code == code
            &&& diagnostics[j].location == LocationView {
                path: Some(path),
                region_coords: Some((region_x, region_z)),
                chunk_index: Some(index as usize),
            }
        }
}

/// A section holds the chunk whose length, timestamp, hash and data it consists of, and
/// none where the length or the hash is another.
pub proof fn law_section_is_checked(section: Seq<u8>, hash_seed: u32, chunk: ChunkView)
    ensures
        formats::section_outcome(section, hash_seed) == Ok::<ChunkView, ChunkFault>(chunk) <==> {
            &&& section.len() == 16 + chunk.raw_nbt.len()
            &&& section.skip(16) == chunk.raw_nbt
            &&& bytes::i32_at(section, 0) == chunk.raw_nbt.len()
            &&& bytes::i64_at(section, 4) == chunk.timestamp
            &&& bytes::u32_at(section, 12) == codec::xxh32_of(chunk.raw_nbt, hash_seed)
        },
{
    if section.len() >= 16 {
        assert(section.skip(16).len() == section.len() - 16);
    }
}

/// One more slot at the end of a list.
proof fn lemma_counts(sections: Seq<Seq<u8>>, n: int, hash_seed: u32)
    requires
        0 <= n < sections.len(),
    ensures
        filled(sections.take(n + 1)) == filled(sections.take(n)) + if sections[n].len() > 0 {
            1nat
        } else {
            0
        },
        faulty(sections.take(n + 1), hash_seed) == faulty(sections.take(n), hash_seed)
            + if is_faulty(sections[n], hash_seed) {
            1nat
        } else {
            0
        },
{
    reveal(Seq::filter);
    assert(sections.take(n + 1).drop_last() =~= sections.take(n));
}

/// The list of the first sections starts the list of them all.
proof fn lemma_listed_prefix(sections: Seq<Seq<u8>>, n: int)
    requires
        0 <= n <= sections.len(),
    ensures
        listed(sections.take(n)).len() <= listed(sections).len(),
        listed(sections).take(listed(sections.take(n)).len() as int) == listed(sections.take(n)),
    decreases sections.len(),
{
    let part = listed(sections.take(n));
    if n < sections.len() {
        let before = listed(sections.drop_last());
        assert(sections.drop_last().take(n) =~= sections.take(n));
        lemma_listed_prefix(sections.drop_last(), n);
        assert(listed(sections).take(part.len() as int) =~= before.take(part.len() as int));
    } else {
        assert(sections.take(n) =~= sections);
        assert(listed(sections).take(part.len() as int) =~= part);
    }
}

/// Each slot of a list stands behind those before it.
proof fn lemma_listed_slot(sections: Seq<Seq<u8>>, rest: Seq<u8>, k: int)
    requires
        0 <= k < sections.len(),
        sections[k].len() <= i32::MAX,
    ensures
        ({
            let data = listed(sections) + rest;
            let at = listed(sections.take(k)).len() as int;
            let length = sections[k].len();
            &&& slots::slot_at(data, at) == if length == 0 {
                SlotReading::Empty
            } else {
                SlotReading::Section(length as usize)
            }
            &&& slots::section_at(data, at, length as usize) == sections[k]
            &&& listed(sections.take(k + 1)).len() == at + 4 + length
        }),
{
    let data = listed(sections) + rest;
    let first = listed(sections.take(k));
    let upto = listed(sections.take(k + 1));
    let at = first.len() as int;
    let length = sections[k].len();
    assert(sections.take(k + 1).drop_last() =~= sections.take(k));
    assert(upto == first + bytes::be_u32(length as u32) + sections[k]);
    lemma_listed_prefix(sections, k + 1);
    let whole = listed(sections).take(upto.len() as int);
    assert forall|i: int| 0 <= i < upto.len() implies data[i] == upto[i] by {
        assert(whole[i] == upto[i]);
    }
    assert(data.subrange(at, at + 4) =~= bytes::be_u32(length as u32));
    bytes::lemma_u32_at_be_u32(data, at, length as u32);
    assert(data.subrange(at + 4, at + 4 + length) =~= sections[k]);
}

/// Behind the last slot of a list stands what follows it.
proof fn lemma_listed_end(sections: Seq<Seq<u8>>, rest: Seq<u8>)
    ensures
        ({
            let reading = slots::slot_at(listed(sections) + rest, listed(sections).len() as int);
            breaks_off(rest) <==> (reading is Ended || reading is Negative || reading is Overrun)
        }),
{
    let data = listed(sections) + rest;
    let at = listed(sections).len() as int;
    if rest.len() >= 4 {
        assert(data[at] == rest[0] && data[at + 1] == rest[1] && data[at + 2] == rest[2] && data[at
            + 3] == rest[3]);
    }
}

/// Four bytes are those of the number that is read from them.
#[verifier::rlimit(40)]
proof fn lemma_four_bytes(a: u8, b: u8, c: u8, d: u8)
    ensures
        ({
            let x = a * 0x100_0000 + b * 0x1_0000 + c * 256 + d;
            &&& x <= u32::MAX
            &&& x / 0x100_0000 == a
            &&& x / 0x1_0000 % 256 == b
            &&& x / 256 % 256 == c
            &&& x % 256 == d
        }),
{
}

proof fn lemma_length_bytes(rest: Seq<u8>)
    requires
        rest.len() >= 4,
    ensures
        rest.take(4) == bytes::be_u32(bytes::u32_at(rest, 0)),
{
    lemma_four_bytes(rest[0], rest[1], rest[2], rest[3]);
    assert(rest.take(4) =~= bytes::be_u32(bytes::u32_at(rest, 0)));
}

/// Any bytes are a list of slots, up to `n` of them, and what follows it.
pub proof fn law_every_list_splits(data: Seq<u8>, n: nat) -> (split: (Seq<Seq<u8>>, Seq<u8>))
    ensures
        data == listed(split.0) + split.1,
        lengths_fit(split.0),
        split.0.len() == n || split.0.len() < n && breaks_off(split.1),
    decreases n,
{
    if n == 0 {
        assert(data =~= listed(seq![]) + data);
        (seq![], data)
    } else {
        let (sections, rest) = law_every_list_splits(data, (n - 1) as nat);
        if sections.len() < n - 1 || breaks_off(rest) {
            (sections, rest)
        } else {
            let length = bytes::i32_at(rest, 0) as int;
            let section = rest.subrange(4, 4 + length);
            let all = sections.push(section);
            let after = rest.skip(4 + length);
            assert(all.drop_last() =~= sections);
            lemma_length_bytes(rest);
            assert(rest =~= rest.take(4) + section + after);
            assert(rest == bytes::be_u32(length as u32) + section + after);
            assert(data =~= listed(all) + after);
            assert forall|k: int| 0 <= k < all.len() implies (#[trigger] all[k]).len()
                <= i32::MAX by {
                if k < sections.len() {
                    assert(all[k] == sections[k]);
                }
            }
            (all, after)
        }
    }
}

/// Whether `after` is `before` with the slots of `sections` read from the slot `base` on.
pub open spec fn slots_taken(
    path: PathView,
    base: int,
    sections: Seq<Seq<u8>>,
    hash_seed: u32,
    before: ReadView,
    after: ReadView,
) -> bool {
    let lost = faulty(sections, hash_seed);
    &&& after.region.region_x == before.region.region_x
    &&& after.region.region_z == before.region.region_z
    &&& after.region.chunks.len() == before.region.chunks.len()
    &&& forall|k: int|
        0 <= k < sections.len() ==> slot_of_section(
            #[trigger] sections[k],
            hash_seed,
            after.region.chunks[base + k],
        )
    &&& forall|i: int|
        0 <= i < base || base + sections.len() <= i < before.region.chunks.len()
            ==> #[trigger] after.region.chunks[i] == before.region.chunks[i]
    &&& before.diagnostics.is_prefix_of(after.diagnostics)
    &&& after.discarded_chunks == before.discarded_chunks + lost
    &&& model::occupied(after.region.chunks).len() + lost == model::occupied(
        before.region.chunks,
    ).len() + filled(sections)
    &&& forall|k: int|
        0 <= k < sections.len() && is_faulty(#[trigger] sections[k], hash_seed) ==> warned_of(
            after.diagnostics,
            path,
            before.region.region_x,
            before.region.region_z,
            DiagnosticCode::CorruptChunk,
            base + k,
        )
}

/// A warning stays one among more diagnostics.
proof fn lemma_warned_of_more(
    diagnostics: Seq<DiagnosticView>,
    more: DiagnosticView,
    path: PathView,
    region_x: i32,
    region_z: i32,
    code: DiagnosticCode,
    index: int,
)
    requires
        warned_of(diagnostics, path, region_x, region_z, code, index),
    ensures
        warned_of(diagnostics.push(more), path, region_x, region_z, code, index),
{
    let j = choose|j: int|
        0 <= j < diagnostics.len() && {
            &&& (#[trigger] diagnostics[j]).level == DiagnosticLevel::Warning
            &&& diagnostics[j].code == code
            &&& diagnostics[j].location == LocationView {
                path: Some(path),
                region_coords: Some((region_x, region_z)),
                chunk_index: Some(index as usize),
            }
        };
    assert(diagnostics.push(more)[j] == diagnostics[j]);
}

/// What starts a list starts it with one thing more.
proof fn lemma_prefix_grows(
    before: Seq<DiagnosticView>,
    middle: Seq<DiagnosticView>,
    more: DiagnosticView,
)
    requires
        before.is_prefix_of(middle),
    ensures
        before.is_prefix_of(middle.push(more)),
{
    assert(before =~= middle.push(more).subrange(0, before.len() as int));
}

/// A warning stays one among those that it starts.
proof fn lemma_warned_of_longer(
    before: Seq<DiagnosticView>,
    after: Seq<DiagnosticView>,
    path: PathView,
    region_x: i32,
    region_z: i32,
    code: DiagnosticCode,
    index: int,
)
    requires
        before.is_prefix_of(after),
        warned_of(before, path, region_x, region_z, code, index),
    ensures
        warned_of(after, path, region_x, region_z, code, index),
{
    let j = choose|j: int|
        0 <= j < before.len() && {
            &&& (#[trigger] before[j]).level == DiagnosticLevel::Warning
            &&& before[j].code == code
            &&& before[j].location == LocationView {
                path: Some(path),
                region_coords: Some((region_x, region_z)),
                chunk_index: Some(index as usize),
            }
        };
    assert(after.subrange(0, before.len() as int)[j] == after[j]);
    assert(after[j] == before[j]);
}

/// One more section after the others.
proof fn lemma_section_taken(
    path: PathView,
    base: int,
    sections: Seq<Seq<u8>>,
    n: int,
    hash_seed: u32,
    before: ReadView,
    middle: ReadView,
)
    requires
        0 <= n < sections.len(),
        0 <= base,
        base + n < before.region.chunks.len() <= 1024,
        before.region.chunks[base + n] is None,
        slots_taken(path, base, sections.take(n), hash_seed, before, middle),
        sections[n].len() > 0,
    ensures
        slots_taken(
            path,
            base,
            sections.take(n + 1),
            hash_seed,
            before,
            middle.with_section(
                path,
                (base + n) as usize,
                formats::section_outcome(sections[n], hash_seed),
            ),
        ),
        middle.with_section(
            path,
            (base + n) as usize,
            formats::section_outcome(sections[n], hash_seed),
        ).diagnostics.len() == middle.diagnostics.len() + if is_faulty(sections[n], hash_seed) {
            1int
        } else {
            0
        },
{
    let index = (base + n) as usize;
    let part = sections.take(n);
    let all = sections.take(n + 1);
    let outcome = formats::section_outcome(sections[n], hash_seed);
    let after = middle.with_section(path, index, outcome);
    lemma_counts(sections, n, hash_seed);
    assert(middle.region.chunks[base + n] == before.region.chunks[base + n]);
    if let Ok(chunk) = outcome {
        model::lemma_occupied_update(middle.region.chunks, base + n, chunk);
    } else {
        lemma_prefix_grows(before.diagnostics, middle.diagnostics, after.diagnostics.last());
        assert(after.diagnostics.last().location == LocationView {
            path: Some(path),
            region_coords: Some((before.region.region_x, before.region.region_z)),
            chunk_index: Some(index),
        });
    }
    assert forall|k: int| 0 <= k < all.len() implies slot_of_section(
        #[trigger] all[k],
        hash_seed,
        after.region.chunks[base + k],
    ) by {
        if k < n {
            assert(part[k] == all[k]);
        }
    }
    assert forall|k: int|
        0 <= k < all.len() && is_faulty(#[trigger] all[k], hash_seed) implies warned_of(
        after.diagnostics,
        path,
        before.region.region_x,
        before.region.region_z,
        DiagnosticCode::CorruptChunk,
        base + k,
    ) by {
        if k < n {
            assert(part[k] == all[k]);
            if outcome is Err {
                lemma_warned_of_more(
                    middle.diagnostics,
                    after.diagnostics.last(),
                    path,
                    before.region.region_x,
                    before.region.region_z,
                    DiagnosticCode::CorruptChunk,
                    base + k,
                );
            }
        }
    }
    assert forall|i: int|
        0 <= i < base || base + all.len() <= i
            < before.region.chunks.len() implies #[trigger] after.region.chunks[i]
        == before.region.chunks[i] by {
        assert(middle.region.chunks[i] == before.region.chunks[i]);
    }
}

/// One more empty slot after the others.
proof fn lemma_empty_taken(
    path: PathView,
    base: int,
    sections: Seq<Seq<u8>>,
    n: int,
    hash_seed: u32,
    before: ReadView,
    middle: ReadView,
)
    requires
        0 <= n < sections.len(),
        0 <= base,
        base + n < before.region.chunks.len() <= 1024,
        before.region.chunks[base + n] is None,
        slots_taken(path, base, sections.take(n), hash_seed, before, middle),
        sections[n].len() == 0,
    ensures
        slots_taken(path, base, sections.take(n + 1), hash_seed, before, middle),
{
    let part = sections.take(n);
    let all = sections.take(n + 1);
    lemma_counts(sections, n, hash_seed);
    assert(middle.region.chunks[base + n] == before.region.chunks[base + n]);
    assert forall|k: int| 0 <= k < all.len() implies slot_of_section(
        #[trigger] all[k],
        hash_seed,
        middle.region.chunks[base + k],
    ) by {
        if k < n {
            assert(part[k] == all[k]);
        }
    }
    assert forall|k: int|
        0 <= k < all.len() && is_faulty(#[trigger] all[k], hash_seed) implies warned_of(
        middle.diagnostics,
        path,
        before.region.region_x,
        before.region.region_z,
        DiagnosticCode::CorruptChunk,
        base + k,
    ) by {
        if k < n {
            assert(part[k] == all[k]);
        }
    }
}

/// What was read does not change where no slot is read.
proof fn lemma_none_taken(
    path: PathView,
    base: int,
    sections: Seq<Seq<u8>>,
    hash_seed: u32,
    before: ReadView,
)
    ensures
        slots_taken(path, base, sections.take(0), hash_seed, before, before),
{
    reveal(Seq::filter);
    assert(before.diagnostics =~= before.diagnostics.subrange(
        0,
        before.diagnostics.len() as int,
    ));
}

/// One more warning takes nothing from what was read.
proof fn lemma_taken_and_warned(
    path: PathView,
    base: int,
    sections: Seq<Seq<u8>>,
    hash_seed: u32,
    before: ReadView,
    middle: ReadView,
    more: DiagnosticView,
)
    requires
        slots_taken(path, base, sections, hash_seed, before, middle),
    ensures
        slots_taken(path, base, sections, hash_seed, before, middle.noting(more)),
{
    let after = middle.noting(more);
    lemma_prefix_grows(before.diagnostics, middle.diagnostics, more);
    assert forall|k: int|
        0 <= k < sections.len() && is_faulty(#[trigger] sections[k], hash_seed) implies warned_of(
        after.diagnostics,
        path,
        before.region.region_x,
        before.region.region_z,
        DiagnosticCode::CorruptChunk,
        base + k,
    ) by {
        lemma_warned_of_more(
            middle.diagnostics,
            more,
            path,
            before.region.region_x,
            before.region.region_z,
            DiagnosticCode::CorruptChunk,
            base + k,
        );
    }
}

/// Whether the slots from `base` on, `count` of them, are empty.
pub open spec fn vacant(slots: Seq<Option<ChunkView>>, base: int, count: int) -> bool {
    &&& 0 <= base
    &&& base + count <= slots.len() <= 1024
    &&& forall|i: int| base <= i < base + count ==> #[trigger] slots[i] is None
}

/// The first slots of a bucket that lists `sections` are read as they are.
proof fn lemma_bucket_listed(
    path: PathView,
    hash_seed: u32,
    bucket: usize,
    sections: Seq<Seq<u8>>,
    rest: Seq<u8>,
    n: nat,
    before: ReadView,
)
    requires
        bucket < 16,
        n <= sections.len() <= 64,
        lengths_fit(sections),
        vacant(before.region.chunks, 64 * bucket, 64),
    ensures
        ({
            let scan = blinear_v3::scan_slots(
                path,
                hash_seed,
                bucket,
                listed(sections) + rest,
                n,
                before,
            );
            &&& !scan.stopped
            &&& scan.offset == listed(sections.take(n as int)).len()
            &&& slots_taken(
                path,
                64 * bucket,
                sections.take(n as int),
                hash_seed,
                before,
                scan.read,
            )
            &&& scan.read.diagnostics.len() == before.diagnostics.len() + faulty(
                sections.take(n as int),
                hash_seed,
            )
        }),
    decreases n,
{
    let base = 64 * bucket;
    let data = listed(sections) + rest;
    if n == 0 {
        lemma_none_taken(path, base, sections, hash_seed, before);
        reveal(Seq::filter);
    } else {
        let k = n - 1;
        lemma_bucket_listed(path, hash_seed, bucket, sections, rest, k as nat, before);
        let middle = blinear_v3::scan_slots(path, hash_seed, bucket, data, k as nat, before).read;
        lemma_listed_slot(sections, rest, k);
        lemma_counts(sections, k, hash_seed);
        assert(before.region.chunks[base + k] is None);
        if sections[k].len() > 0 {
            lemma_section_taken(path, base, sections, k, hash_seed, before, middle);
        } else {
            lemma_empty_taken(path, base, sections, k, hash_seed, before, middle);
        }
    }
}

/// A bucket that broke off is not read further.
proof fn lemma_bucket_stopped(
    path: PathView,
    hash_seed: u32,
    bucket: usize,
    data: Seq<u8>,
    n: nat,
    m: nat,
    before: ReadView,
)
    requires
        n <= m,
        blinear_v3::scan_slots(path, hash_seed, bucket, data, n, before).stopped,
    ensures
        blinear_v3::scan_slots(path, hash_seed, bucket, data, m, before) == blinear_v3::scan_slots(
            path,
            hash_seed,
            bucket,
            data,
            n,
            before,
        ),
    decreases m,
{
    if n < m {
        lemma_bucket_stopped(path, hash_seed, bucket, data, n, (m - 1) as nat, before);
    }
}

/// Each slot of a bucket is read as its section says, whatever the sections in the other
/// slots are: a section that checks out is read into its place, and any other is given
/// up with one warning. Where the list breaks off, or goes on behind its last slot, one
/// more warning says so.
pub proof fn law_bucket_is_read_slot_by_slot(
    path: PathView,
    hash_seed: u32,
    bucket: usize,
    sections: Seq<Seq<u8>>,
    rest: Seq<u8>,
    before: ReadView,
)
    requires
        bucket < 16,
        sections.len() <= 64,
        sections.len() < 64 ==> breaks_off(rest),
        lengths_fit(sections),
        vacant(before.region.chunks, 64 * bucket, 64),
    ensures
        ({
            let after = blinear_v3::bucket_data_read(
                path,
                hash_seed,
                bucket,
                listed(sections) + rest,
                before,
            );
            &&& slots_taken(path, 64 * bucket, sections, hash_seed, before, after)
            &&& after.diagnostics.len() == before.diagnostics.len() + faulty(sections, hash_seed)
                + if sections.len() < 64 || rest.len() > 0 {
                1nat
            } else {
                0
            }
        }),
{
    let data = listed(sections) + rest;
    let n = sections.len();
    let at = listed(sections).len() as int;
    assert(sections.take(n as int) =~= sections);
    lemma_bucket_listed(path, hash_seed, bucket, sections, rest, n, before);
    let scan = blinear_v3::scan_slots(path, hash_seed, bucket, data, n, before);
    let after = blinear_v3::bucket_data_read(path, hash_seed, bucket, data, before);
    if n < 64 {
        lemma_listed_end(sections, rest);
        let next = blinear_v3::scan_slots(path, hash_seed, bucket, data, n + 1, before);
        assert(next.stopped);
        lemma_bucket_stopped(path, hash_seed, bucket, data, n + 1, 64, before);
        assert(after == scan.read.noting(after.diagnostics.last()));
    }
    if after != scan.read {
        assert(after == scan.read.noting(after.diagnostics.last()));
        lemma_taken_and_warned(
            path,
            64 * bucket,
            sections,
            hash_seed,
            before,
            scan.read,
            after.diagnostics.last(),
        );
    }
}

/// Whether the bucket `bucket` of a file of version 3 holds `data`: the offset table says
/// where its lengths stand, and the compressed data behind them lies within the file.
pub open spec fn bucket_holds(bytes: Seq<u8>, bucket: int, data: Seq<u8>) -> bool {
    let at = bytes::u64_at(bytes, 14 + 8 * bucket) as int;
    let original = bytes::i32_at(bytes, at) as int;
    let compressed = bytes::i32_at(bytes, at + 4) as int;
    &&& 142 <= at
    &&& at + 8 <= bytes.len()
    &&& original > 0
    &&& compressed > 0
    &&& at + 8 + compressed <= bytes.len()
    &&& codec::zstd_bulk_decoded(
        bytes.subrange(at + 8, at + 8 + compressed),
        original as usize,
    ) matches Ok(content)
    &&& content == data
}

/// Whether the bucket `bucket` of a file of version 3 lists `sections` and then `rest`, or
/// holds nothing that can be read.
pub open spec fn bucket_lists(
    bytes: Seq<u8>,
    bucket: int,
    sections: Seq<Seq<u8>>,
    rest: Seq<u8>,
) -> bool {
    &&& lengths_fit(sections)
    &&& sections.len() == 64 || sections.len() < 64 && breaks_off(rest)
    &&& bucket_holds(bytes, bucket, listed(sections) + rest) || sections.len() == 0
        && forall|data: Seq<u8>| !#[trigger] bucket_holds(bytes, bucket, data)
}

/// The sections of several lists, one list after the other.
pub open spec fn joined(lists: Seq<Seq<Seq<u8>>>) -> Seq<Seq<u8>>
    decreases lists.len(),
{
    if lists.len() == 0 {
        seq![]
    } else {
        joined(lists.drop_last()) + lists.last()
    }
}

/// The slots of two lists are counted one list after the other.
proof fn lemma_counts_join(first: Seq<Seq<u8>>, second: Seq<Seq<u8>>, hash_seed: u32)
    ensures
        filled(first + second) == filled(first) + filled(second),
        faulty(first + second, hash_seed) == faulty(first, hash_seed) + faulty(second, hash_seed),
{
    Seq::filter_distributes_over_add(first, second, |section: Seq<u8>| section.len() > 0);
    Seq::filter_distributes_over_add(
        first,
        second,
        |section: Seq<u8>| is_faulty(section, hash_seed),
    );
}

/// Whether the first `n` buckets were read as their lists say, and the others not yet.
spec fn buckets_taken(
    path: PathView,
    lists: Seq<Seq<Seq<u8>>>,
    n: int,
    hash_seed: u32,
    region_x: i32,
    region_z: i32,
    read: ReadView,
) -> bool {
    &&& read.region.region_x == region_x
    &&& read.region.region_z == region_z
    &&& read.region.chunks.len() == 1024
    &&& forall|b: int, k: int|
        #![trigger lists[b][k]]
        0 <= b < n && 0 <= k < lists[b].len() ==> slot_of_section(
            lists[b][k],
            hash_seed,
            read.region.chunks[64 * b + k],
        )
    &&& forall|b: int, k: int|
        #![trigger lists[b][k]]
        0 <= b < n && 0 <= k < lists[b].len() && is_faulty(lists[b][k], hash_seed) ==> warned_of(
            read.diagnostics,
            path,
            region_x,
            region_z,
            DiagnosticCode::CorruptChunk,
            64 * b + k,
        )
    &&& forall|i: int|
        0 <= i < 1024 && (i >= 64 * n || i % 64 >= lists[i / 64].len())
            ==> #[trigger] read.region.chunks[i] is None
    &&& read.discarded_chunks == faulty(joined(lists.take(n)), hash_seed)
    &&& model::occupied(read.region.chunks).len() + read.discarded_chunks == filled(
        joined(lists.take(n)),
    )
}

#[verifier::rlimit(60)]
proof fn lemma_buckets_listed(
    path: PathView,
    hash_seed: u32,
    bytes: Seq<u8>,
    lists: Seq<Seq<Seq<u8>>>,
    rests: Seq<Seq<u8>>,
    n: nat,
    region_x: i32,
    region_z: i32,
)
    requires
        n <= 16,
        lists.len() == 16,
        rests.len() == 16,
        forall|b: int|
            0 <= b < 16 ==> bucket_lists(bytes, b, #[trigger] lists[b], rests[b]),
    ensures
        buckets_taken(
            path,
            lists,
            n as int,
            hash_seed,
            region_x,
            region_z,
            blinear_v3::buckets_read(
                path,
                hash_seed,
                bytes,
                n,
                formats::nothing_read(region_x, region_z),
            ),
        ),
    decreases n,
{
    let start = formats::nothing_read(region_x, region_z);
    let after = blinear_v3::buckets_read(path, hash_seed, bytes, n, start);
    if n == 0 {
        model::lemma_occupied_empty(start.region.chunks);
        assert(lists.take(0) =~= seq![]);
        reveal(Seq::filter);
        assert(joined(lists.take(0)) =~= seq![]);
    } else {
        let b = n - 1;
        lemma_buckets_listed(
            path,
            hash_seed,
            bytes,
            lists,
            rests,
            b as nat,
            region_x,
            region_z,
        );
        let before = blinear_v3::buckets_read(path, hash_seed, bytes, b as nat, start);
        let sections = lists[b];
        let data = listed(sections) + rests[b];
        assert(lists.take(n as int).drop_last() =~= lists.take(b));
        assert(joined(lists.take(n as int)) == joined(lists.take(b)) + sections);
        lemma_counts_join(joined(lists.take(b)), sections, hash_seed);
        assert(bucket_lists(bytes, b, lists[b], rests[b]));
        assert forall|i: int| 64 * b <= i < 64 * b + 64 implies (
        #[trigger] before.region.chunks[i]) is None by {}
        if bucket_holds(bytes, b, data) {
            law_bucket_is_read_slot_by_slot(
                path,
                hash_seed,
                b as usize,
                sections,
                rests[b],
                before,
            );
        } else {
            let at = bytes::u64_at(bytes, 14 + 8 * b) as int;
            let original = bytes::i32_at(bytes, at);
            let compressed = bytes::i32_at(bytes, at + 4);
            let decoded = codec::zstd_bulk_decoded(
                bytes.subrange(at + 8, at + 8 + compressed),
                original as usize,
            );
            if let Ok(content) = decoded {
                assert(!bucket_holds(bytes, b, content));
            }
            assert(after.region == before.region);
            assert(after.discarded_chunks == before.discarded_chunks);
            reveal(Seq::filter);
            let told = before.diagnostics;
            assert(told =~= told.subrange(0, told.len() as int));
            if after.diagnostics != told {
                assert(after == before.noting(after.diagnostics.last()));
                lemma_prefix_grows(told, told, after.diagnostics.last());
            }
        }
        assert(before.diagnostics.is_prefix_of(after.diagnostics));
        assert forall|c: int, k: int|
            #![trigger lists[c][k]]
            0 <= c < n && 0 <= k < lists[c].len() && is_faulty(
                lists[c][k],
                hash_seed,
            ) implies warned_of(
            after.diagnostics,
            path,
            region_x,
            region_z,
            DiagnosticCode::CorruptChunk,
            64 * c + k,
        ) by {
            if c < b {
                lemma_warned_of_longer(
                    before.diagnostics,
                    after.diagnostics,
                    path,
                    region_x,
                    region_z,
                    DiagnosticCode::CorruptChunk,
                    64 * c + k,
                );
            } else {
                assert(sections[k] == lists[c][k]);
            }
        }
        assert forall|c: int, k: int|
            #![trigger lists[c][k]]
            0 <= c < n && 0 <= k < lists[c].len() implies slot_of_section(
            lists[c][k],
            hash_seed,
            after.region.chunks[64 * c + k],
        ) by {
            assert(bucket_lists(bytes, c, lists[c], rests[c]));
            if c < b {
                assert(after.region.chunks[64 * c + k] == before.region.chunks[64 * c + k]);
            } else {
                assert(sections[k] == lists[c][k]);
            }
        }
        assert forall|i: int|
            0 <= i < 1024 && (i >= 64 * n || i % 64 >= lists[i / 64].len()) implies (
        #[trigger] after.region.chunks[i]) is None by {
            assert(after.region.chunks[i] == before.region.chunks[i]) by {
                if 64 * b <= i < 64 * b + 64 {
                    assert(i / 64 == b);
                }
            }
            assert(before.region.chunks[i] is None);
        }
    }
}

/// A blinear file of version 3 that is named after a region is read slot by slot. What
/// each of its buckets lists is read into the 64 slots of the bucket: a section that
/// checks out as its chunk, any other as nothing with a warning, whatever stands in the
/// other slots and buckets. Each slot that is not empty is a chunk or counted as given up.
pub proof fn law_version_three_is_read_slot_by_slot(
    path: PathView,
    bytes: Seq<u8>,
    lists: Seq<Seq<Seq<u8>>>,
    rests: Seq<Seq<u8>>,
    b: int,
    k: int,
)
    requires
        lists.len() == 16,
        rests.len() == 16,
        forall|c: int|
            0 <= c < 16 ==> bucket_lists(bytes, c, #[trigger] lists[c], rests[c]),
        0 <= b < 16,
        0 <= k < 64,
    ensures
        blinear_v3::read_outcome(path, bytes) is Ok <==> {
            &&& bytes.len() >= 142
            &&& formats::path_coords(path) is Ok
            &&& bytes::i64_at(bytes, 0) == -0x2008_1225_0269
            &&& bytes[8] == 3
        },
        blinear_v3::read_outcome(path, bytes) matches Ok(read) ==> {
            let hash_seed = bytes::u32_at(bytes, 10);
            &&& formats::path_coords(path) == Ok::<(i32, i32), RegionErrorKind>(
                (read.region.region_x, read.region.region_z),
            )
            &&& read.region.chunks.len() == 1024
            &&& if k < lists[b].len() {
                slot_of_section(lists[b][k], hash_seed, read.region.chunks[64 * b + k])
            } else {
                read.region.chunks[64 * b + k] is None
            }
            &&& k < lists[b].len() && is_faulty(lists[b][k], hash_seed) ==> warned_of(
                read.diagnostics,
                path,
                read.region.region_x,
                read.region.region_z,
                DiagnosticCode::CorruptChunk,
                64 * b + k,
            )
            &&& read.discarded_chunks == faulty(joined(lists), hash_seed)
            &&& model::occupied(read.region.chunks).len() + read.discarded_chunks == filled(
                joined(lists),
            )
        },
{
    if let Ok((region_x, region_z)) = formats::path_coords(path) {
        lemma_buckets_listed(
            path,
            bytes::u32_at(bytes, 10),
            bytes,
            lists,
            rests,
            16,
            region_x,
            region_z,
        );
        assert(lists.take(16) =~= lists);
        let i = 64 * b + k;
        assert(i / 64 == b && i % 64 == k);
        if let Ok(read) = blinear_v3::read_outcome(path, bytes) {
            if k < lists[b].len() {
                assert(slot_of_section(
                    lists[b][k],
                    bytes::u32_at(bytes, 10),
                    read.region.chunks[64 * b + k],
                ));
            } else {
                assert(read.region.chunks[i] is None);
            }
        }
    }
}

/// The first slots of a payload that lists `sections` are read as they are.
proof fn lemma_payload_listed(
    path: PathView,
    sections: Seq<Seq<u8>>,
    rest: Seq<u8>,
    n: nat,
    before: ReadView,
)
    requires
        n <= sections.len() <= 1024,
        lengths_fit(sections),
        vacant(before.region.chunks, 0, 1024),
    ensures
        blinear_v2::scan_slots(path, listed(sections) + rest, n, before) is Ok,
        ({
            let scan = blinear_v2::scan_slots(path, listed(sections) + rest, n, before)->Ok_0;
            &&& !scan.stopped
            &&& scan.offset == listed(sections.take(n as int)).len()
            &&& slots_taken(
                path,
                0,
                sections.take(n as int),
                BLINEAR_HASH_SEED,
                before,
                scan.read,
            )
            &&& scan.read.diagnostics.len() == before.diagnostics.len() + faulty(
                sections.take(n as int),
                BLINEAR_HASH_SEED,
            )
        }),
    decreases n,
{
    let data = listed(sections) + rest;
    if n == 0 {
        lemma_none_taken(path, 0, sections, BLINEAR_HASH_SEED, before);
        reveal(Seq::filter);
    } else {
        let k = n - 1;
        lemma_payload_listed(path, sections, rest, k as nat, before);
        let middle = blinear_v2::scan_slots(path, data, k as nat, before)->Ok_0.read;
        lemma_listed_slot(sections, rest, k);
        lemma_counts(sections, k, BLINEAR_HASH_SEED);
        assert(before.region.chunks[0 + k] is None);
        if sections[k].len() > 0 {
            lemma_section_taken(path, 0, sections, k, BLINEAR_HASH_SEED, before, middle);
        } else {
            lemma_empty_taken(path, 0, sections, k, BLINEAR_HASH_SEED, before, middle);
        }
    }
}

/// A payload that broke off is not read further.
proof fn lemma_payload_stopped(path: PathView, data: Seq<u8>, n: nat, m: nat, before: ReadView)
    requires
        n <= m,
        blinear_v2::scan_slots(path, data, n, before) matches Ok(scan) ==> scan.stopped,
    ensures
        blinear_v2::scan_slots(path, data, m, before) == blinear_v2::scan_slots(
            path,
            data,
            n,
            before,
        ),
    decreases m,
{
    if n < m {
        lemma_payload_stopped(path, data, n, (m - 1) as nat, before);
    }
}

/// What is read where the payload of a file of version 2 lists `sections` and then `rest`:
/// the sections, each into its own slot, whatever the others are. After 1024 slots
/// nothing may follow. A list that breaks off is an error of the slot where it does,
/// except that a last length alone is a chunk that is given up with a warning.
pub proof fn law_payload_is_read_slot_by_slot(
    path: PathView,
    sections: Seq<Seq<u8>>,
    rest: Seq<u8>,
    region_x: i32,
    region_z: i32,
)
    requires
        sections.len() <= 1024,
        sections.len() < 1024 ==> breaks_off(rest),
        lengths_fit(sections),
    ensures
        ({
            let nothing = formats::nothing_read(region_x, region_z);
            let n = sections.len();
            match blinear_v2::payload_read(path, listed(sections) + rest, nothing) {
                Ok(read) => if n == 1024 {
                    &&& rest.len() == 0
                    &&& slots_taken(path, 0, sections, 0x0721, nothing, read)
                    &&& read.diagnostics.len() == read.discarded_chunks
                } else {
                    &&& rest.len() == 4
                    &&& bytes::i32_at(rest, 0) > 0
                    &&& read.discarded_chunks > 0
                    &&& slots_taken(
                        path,
                        0,
                        sections,
                        0x0721,
                        nothing,
                        (ReadView {
                            discarded_chunks: (read.discarded_chunks - 1) as nat,
                            ..read
                        }),
                    )
                    &&& read.diagnostics.len() == read.discarded_chunks
                    &&& warned_of(
                        read.diagnostics,
                        path,
                        region_x,
                        region_z,
                        DiagnosticCode::SkippedData,
                        n as int,
                    )
                },
                Err(fault) => {
                    &&& fault.detail == Seq::<char>::empty()
                    &&& if n == 1024 {
                        rest.len() > 0 && fault.kind == RegionErrorKind::BlinearV2Trailing
                    } else if rest.len() < 4 {
                        fault.kind == RegionErrorKind::BlinearV2Ended(n as usize)
                    } else if bytes::i32_at(rest, 0) < 0 {
                        fault.kind == RegionErrorKind::BlinearV2NegativeSection(n as usize)
                    } else {
                        rest.len() > 4 && fault.kind == RegionErrorKind::BlinearV2Trailing
                    }
                },
            }
        }),
{
    let nothing = formats::nothing_read(region_x, region_z);
    let data = listed(sections) + rest;
    let n = sections.len();
    let at = listed(sections).len() as int;
    assert(sections.take(n as int) =~= sections);
    lemma_payload_listed(path, sections, rest, n, nothing);
    let scan = blinear_v2::scan_slots(path, data, n, nothing)->Ok_0;
    if n < 1024 {
        lemma_listed_end(sections, rest);
        if rest.len() >= 4 {
            assert(data[at] == rest[0] && data[at + 1] == rest[1] && data[at + 2] == rest[2]
                && data[at + 3] == rest[3]);
        }
        lemma_payload_stopped(path, data, n + 1, 1024, nothing);
        if let Ok(read) = blinear_v2::payload_read(path, data, nothing) {
            let last = read.diagnostics.last();
            assert(read == scan.read.noting(last).discarding());
            lemma_taken_and_warned(
                path,
                0,
                sections,
                BLINEAR_HASH_SEED,
                nothing,
                scan.read,
                last,
            );
            assert((ReadView { discarded_chunks: (read.discarded_chunks - 1) as nat, ..read })
                == scan.read.noting(last));
        }
    }
}

/// A blinear file of version 2 that is named after a region is read as its payload says,
/// which stands compressed behind a header of 18 bytes.
pub proof fn law_version_two_is_read_by_its_payload(path: PathView, bytes: Seq<u8>)
    ensures
        match blinear_v2::read_outcome(path, bytes) {
            Ok(read) => {
                &&& bytes.len() >= 18
                &&& bytes::i64_at(bytes, 0) == -0x2008_1225_0269
                &&& bytes[8] == 2
                &&& formats::path_coords(path) == Ok::<(i32, i32), RegionErrorKind>(
                    (read.region.region_x, read.region.region_z),
                )
                &&& codec::zstd_stream_decoded(bytes.skip(18)) matches Ok(data)
                &&& blinear_v2::payload_read(
                    path,
                    data,
                    formats::nothing_read(read.region.region_x, read.region.region_z),
                ) == Ok::<ReadView, RegionFault>(read)
            },
            Err(fault) => {
                ||| bytes.len() < 18
                ||| formats::path_coords(path) is Err
                ||| bytes::i64_at(bytes, 0) != -0x2008_1225_0269
                ||| bytes[8] != 2
                ||| codec::zstd_stream_decoded(bytes.skip(18)) is Err
                ||| blinear_v2::payload_read(
                    path,
                    codec::zstd_stream_decoded(bytes.skip(18))->Ok_0,
                    formats::nothing_read(
                        formats::path_coords(path)->Ok_0.0,
                        formats::path_coords(path)->Ok_0.1,
                    ),
                ) == Err::<ReadView, RegionFault>(fault)
            },
        },
{
    if let Ok((region_x, region_z)) = formats::path_coords(path) {
        if let Ok(data) = codec::zstd_stream_decoded(bytes.skip(18)) {
            let (sections, rest) = law_every_list_splits(data, 1024);
            law_payload_is_read_slot_by_slot(path, sections, rest, region_x, region_z);
        }
    }
}

/// A bucket without a place is passed over in silence. One with a place that holds nothing
/// that can be read is passed over with one warning, and any other is read as what it holds.
pub proof fn law_unreadable_bucket_is_warned_of(
    path: PathView,
    hash_seed: u32,
    bytes: Seq<u8>,
    bucket: usize,
    before: ReadView,
    data: Seq<u8>,
)
    requires
        bucket < 16,
    ensures
        ({
            let at = bytes::u64_at(bytes, 14 + 8 * bucket as int);
            let after = blinear_v3::bucket_read(path, hash_seed, bytes, bucket, at, before);
            &&& at == 0 ==> after == before
            &&& bucket_holds(bytes, bucket as int, data) ==> after == blinear_v3::bucket_data_read(
                path,
                hash_seed,
                bucket,
                data,
                before,
            )
            &&& at != 0 && (forall|content: Seq<u8>|
                !#[trigger] bucket_holds(bytes, bucket as int, content)) ==> {
                &&& after.region == before.region
                &&& after.discarded_chunks == before.discarded_chunks
                &&& after.diagnostics.len() == before.diagnostics.len() + 1
                &&& after.diagnostics.drop_last() == before.diagnostics
                &&& after.diagnostics.last().level == DiagnosticLevel::Warning
                &&& after.diagnostics.last().location == (LocationView {
                    path: Some(path),
                    region_coords: Some((before.region.region_x, before.region.region_z)),
                    chunk_index: None,
                })
            }
        }),
{
    let at = bytes::u64_at(bytes, 14 + 8 * bucket as int);
    let after = blinear_v3::bucket_read(path, hash_seed, bytes, bucket, at, before);
    let original = bytes::i32_at(bytes, at as int);
    let compressed = bytes::i32_at(bytes, at + 4);
    let decoded = codec::zstd_bulk_decoded(
        bytes.subrange(at + 8, at + 8 + compressed),
        original as usize,
    );
    if at != 0 && (forall|content: Seq<u8>|
        !#[trigger] bucket_holds(bytes, bucket as int, content)) {
        if let Ok(content) = decoded {
            assert(!bucket_holds(bytes, bucket as int, content));
        }
        assert(after == before.noting(after.diagnostics.last()));
        assert(after.diagnostics.drop_last() =~= before.diagnostics);
    }
}

/// A section that is not read is refused for what is wrong with it: it is too short for a
/// header, or its length or its hash is not the one that it tells.
pub proof fn law_section_refusal_tells_the_reason(section: Seq<u8>, hash_seed: u32)
    requires
        section.len() <= usize::MAX,
    ensures
        formats::section_outcome(section, hash_seed) matches Err(fault) ==> match fault.kind {
            ChunkErrorKind::SectionTooShort => section.len() < 16,
            ChunkErrorKind::NegativeLength => section.len() >= 16 && bytes::i32_at(section, 0) < 0,
            ChunkErrorKind::LengthMismatch(told, found) => {
                &&& section.len() >= 16
                &&& told == bytes::i32_at(section, 0)
                &&& found == section.len() - 16
                &&& told != found
            },
            ChunkErrorKind::HashMismatch(told, found) => {
                &&& section.len() >= 16
                &&& bytes::i32_at(section, 0) == section.len() - 16
                &&& told == bytes::u32_at(section, 12)
                &&& found == codec::xxh32_of(section.skip(16), hash_seed)
                &&& told != found
            },
            _ => false,
        },
{
}

} // verus!
