//! What region files hold, without converting them.

use vstd::prelude::*;
use vstd::string::*;

use crate::diagnostic::{self, Diagnostic, DiagnosticView};
use crate::discovery::{
    self, InputDiscovery, InputKind, InputView, RegionFileGroup, RegionSource, SourceView,
};
use crate::error::{self, RegionErrorKind};
use crate::formats::mca::{self, ExternalChunk};
use crate::formats::{
    self, detect_storage_format, guess_format_from_path, read_region, region_storage_size,
    RegionFormat, RegionStorageFormat,
};
use crate::model;
use crate::path::{self, PathView, SavePath};
use crate::sort;

verus! {

#[derive(Clone, Copy, Debug, PartialEq, Eq, Structural)]
pub struct FormatCount {
    pub format: RegionStorageFormat,
    pub count: usize,
}

/// What was found in the files of a group.
#[derive(Clone, Copy, Debug, PartialEq, Eq, Structural)]
pub struct GroupInfo {
    pub group: RegionFileGroup,
    pub region_files: usize,
    pub readable_regions: usize,
    pub failed_regions: usize,
}

/// What was found in a region file.
#[derive(Clone, Debug)]
pub struct RegionInfoEntry {
    pub input_index: usize,
    pub source_file: SavePath,
    pub file_group: RegionFileGroup,
    pub storage_format: Option<RegionStorageFormat>,
    pub size_bytes: Option<u64>,
    pub region_x: Option<i32>,
    pub region_z: Option<i32>,
    pub chunk_count: usize,
    pub discarded_chunks: usize,
    pub warnings: Vec<String>,
    pub error: Option<String>,
}

/// What was found in a region file.
#[verifier::ext_equal]
pub struct EntryView {
    pub input_index: usize,
    pub source_file: PathView,
    pub file_group: RegionFileGroup,
    pub storage_format: Option<RegionStorageFormat>,
    pub size_bytes: Option<u64>,
    pub region_x: Option<i32>,
    pub region_z: Option<i32>,
    pub chunk_count: nat,
    pub discarded_chunks: nat,
    pub warnings: Seq<Seq<char>>,
    pub error: Option<Seq<char>>,
}

/// What each of a list of texts says.
pub open spec fn texts(strings: Seq<String>) -> Seq<Seq<char>> {
    Seq::new(strings.len(), |i: int| strings[i]@)
}

impl View for RegionInfoEntry {
    type V = EntryView;

    open spec fn view(&self) -> EntryView {
        EntryView {
            input_index: self.input_index,
            source_file: self.source_file@,
            file_group: self.file_group,
            storage_format: self.storage_format,
            size_bytes: self.size_bytes,
            region_x: self.region_x,
            region_z: self.region_z,
            chunk_count: self.chunk_count as nat,
            discarded_chunks: self.discarded_chunks as nat,
            warnings: texts(self.warnings@),
            error: match self.error {
                Some(text) => Some(text@),
                None => None,
            },
        }
    }
}

/// The files of a source: the region file, the chunk files that it refers to, and
/// their sizes as far as they exist.
#[derive(Debug)]
pub struct InspectedFiles {
    pub bytes: Vec<u8>,
    pub externals: Vec<ExternalChunk>,
    pub sidecar_sizes: Vec<Option<u64>>,
}

/// The entry of a source that cannot be read.
pub open spec fn failed_entry(
    source: SourceView,
    storage_format: Option<RegionStorageFormat>,
    size_bytes: Option<u64>,
    message: Seq<char>,
) -> EntryView {
    EntryView {
        input_index: source.input_index,
        source_file: source.source_file,
        file_group: source.file_group,
        storage_format,
        size_bytes,
        region_x: None,
        region_z: None,
        chunk_count: 0,
        discarded_chunks: 0,
        warnings: seq![],
        error: Some(message),
    }
}

/// The messages of some diagnostics.
pub open spec fn messages_of(diagnostics: Seq<DiagnosticView>) -> Seq<Seq<char>> {
    Seq::new(diagnostics.len(), |i: int| diagnostics[i].message)
}

/// The entry of a source whose files are at hand.
pub open spec fn read_entry(
    source: SourceView,
    file_size: Option<u64>,
    files: InspectedFiles,
) -> EntryView {
    let path = source.source_file;
    match formats::detected_storage(path, files.bytes@) {
        Err(kind) => failed_entry(
            source,
            None,
            file_size,
            error::region_error_text(kind, seq![], path),
        ),
        Ok(storage) => match formats::storage_total(
            path,
            storage,
            files.bytes@,
            files.sidecar_sizes@,
        ) {
            Err(kind) => failed_entry(
                source,
                Some(storage),
                file_size,
                error::region_error_text(kind, seq![], path),
            ),
            Ok(size) => match formats::read_outcome(
                path,
                files.bytes@,
                files.externals@,
                formats::family_of(storage),
            ) {
                Err(fault) => failed_entry(
                    source,
                    Some(storage),
                    Some(size as u64),
                    error::region_error_text(fault.kind, fault.detail, path),
                ),
                Ok(read) => EntryView {
                    input_index: source.input_index,
                    source_file: path,
                    file_group: source.file_group,
                    storage_format: Some(storage),
                    size_bytes: Some(size as u64),
                    region_x: Some(read.region.region_x),
                    region_z: Some(read.region.region_z),
                    chunk_count: model::occupied(read.region.chunks).len(),
                    discarded_chunks: read.discarded_chunks,
                    warnings: messages_of(read.diagnostics),
                    error: None,
                },
            },
        },
    }
}

/// The entry of a source, whose files are at hand or not.
pub open spec fn entry_of(
    source: SourceView,
    file_size: Option<u64>,
    files: Result<InspectedFiles, String>,
) -> EntryView {
    match files {
        Ok(files) => read_entry(source, file_size, files),
        Err(text) => match formats::guessed_format(source.source_file) {
            None => failed_entry(
                source,
                None,
                file_size,
                error::region_error_text(
                    RegionErrorKind::UnsupportedExtension,
                    seq![],
                    source.source_file,
                ),
            ),
            Some(RegionFormat::Mca) => failed_entry(
                source,
                Some(RegionStorageFormat::Mca),
                file_size,
                text@,
            ),
            Some(_) => failed_entry(source, None, file_size, text@),
        },
    }
}

fn failed(
    source: &RegionSource,
    storage_format: Option<RegionStorageFormat>,
    size_bytes: Option<u64>,
    message: String,
) -> (entry: RegionInfoEntry)
    ensures
        entry@ == failed_entry(source@, storage_format, size_bytes, message@),
{
    let entry = RegionInfoEntry {
        input_index: source.input_index,
        source_file: source.source_file.copy(),
        file_group: source.file_group,
        storage_format,
        size_bytes,
        region_x: None,
        region_z: None,
        chunk_count: 0,
        discarded_chunks: 0,
        warnings: Vec::new(),
        error: Some(message),
    };
    assert(entry@.warnings =~= seq![]);
    entry
}

fn messages(diagnostics: &Vec<Diagnostic>) -> (list: Vec<String>)
    ensures
        texts(list@) == messages_of(diagnostic::diagnostic_views(diagnostics@)),
{
    let mut list: Vec<String> = Vec::new();
    let mut i: usize = 0;
    while i < diagnostics.len()
        invariant
            i <= diagnostics.len(),
            list@.len() == i,
            forall|k: int| 0 <= k < i ==> (#[trigger] list@[k])@ == diagnostics@[k].message@,
        decreases diagnostics.len() - i,
    {
        list.push(diagnostics[i].message.clone());
        i = i + 1;
    }
    assert(texts(list@) =~= messages_of(diagnostic::diagnostic_views(diagnostics@)));
    list
}

/// Inspects `source`, whose region file has that size if it has one, and whose files
/// are at hand, or it is known why they are not.
pub fn inspect_source(
    source: &RegionSource,
    file_size: Option<u64>,
    files: Result<InspectedFiles, String>,
) -> (entry: RegionInfoEntry)
    requires
        files matches Ok(files) ==> files.bytes@.len() + mca::known_total(files.sidecar_sizes@)
            <= u64::MAX,
    ensures
        entry@ == entry_of(source@, file_size, files),
{
    let path = &source.source_file;
    let files = match files {
        Ok(files) => files,
        Err(text) => {
            return match guess_format_from_path(path) {
                Err(error) => failed(source, None, file_size, error.message(path)),
                Ok(RegionFormat::Mca) => failed(
                    source,
                    Some(RegionStorageFormat::Mca),
                    file_size,
                    text,
                ),
                Ok(_) => failed(source, None, file_size, text),
            };
        },
    };
    let storage_format = match detect_storage_format(path, files.bytes.as_slice()) {
        Ok(format) => format,
        Err(error) => {
            return failed(source, None, file_size, error.message(path));
        },
    };
    let size = match region_storage_size(
        path,
        storage_format,
        files.bytes.as_slice(),
        &files.sidecar_sizes,
    ) {
        Ok(size) => size,
        Err(error) => {
            return failed(source, Some(storage_format), file_size, error.message(path));
        },
    };
    match read_region(
        path,
        files.bytes.as_slice(),
        &files.externals,
        storage_format.family(),
    ) {
        Err(error) => failed(source, Some(storage_format), Some(size), error.message(path)),
        Ok(read) => {
            RegionInfoEntry {
                input_index: source.input_index,
                source_file: path.copy(),
                file_group: source.file_group,
                storage_format: Some(storage_format),
                size_bytes: Some(size),
                region_x: Some(read.region.region_x),
                region_z: Some(read.region.region_z),
                chunk_count: read.region.chunk_count(),
                discarded_chunks: read.discarded_chunks,
                warnings: messages(&read.diagnostics),
                error: None,
            }
        },
    }
}

/// Whether an entry is of the input `input`, or of any where there is none.
pub open spec fn counts_for(entry: EntryView, input: Option<usize>) -> bool {
    match input {
        Some(index) => entry.input_index == index,
        None => true,
    }
}

/// The sum over `entries` of what `amount` tells of each that counts for `input`.
pub open spec fn total_of(
    entries: Seq<EntryView>,
    input: Option<usize>,
    amount: spec_fn(EntryView) -> nat,
) -> nat
    decreases entries.len(),
{
    if entries.len() == 0 {
        0
    } else {
        total_of(entries.drop_last(), input, amount) + if counts_for(entries.last(), input) {
            amount(entries.last())
        } else {
            0
        }
    }
}

/// One for each entry.
pub open spec fn one() -> spec_fn(EntryView) -> nat {
    |entry: EntryView| 1
}

/// One for each entry that could be read.
pub open spec fn readable() -> spec_fn(EntryView) -> nat {
    |entry: EntryView|
        if entry.error is None {
            1
        } else {
            0
        }
}

/// One for each entry that could not be read.
pub open spec fn unreadable() -> spec_fn(EntryView) -> nat {
    |entry: EntryView|
        if entry.error is Some {
            1
        } else {
            0
        }
}

/// The size of each entry, as far as it is known.
pub open spec fn size() -> spec_fn(EntryView) -> nat {
    |entry: EntryView|
        match entry.size_bytes {
            Some(bytes) => bytes as nat,
            None => 0,
        }
}

/// The chunks of each entry.
pub open spec fn chunks() -> spec_fn(EntryView) -> nat {
    |entry: EntryView| entry.chunk_count
}

/// The chunks of each entry that were given up.
pub open spec fn discarded() -> spec_fn(EntryView) -> nat {
    |entry: EntryView| entry.discarded_chunks
}

/// The warnings of each entry.
pub open spec fn warned() -> spec_fn(EntryView) -> nat {
    |entry: EntryView| entry.warnings.len()
}

/// One for each entry in `format`.
pub open spec fn stored_as(format: RegionStorageFormat) -> spec_fn(EntryView) -> nat {
    |entry: EntryView|
        if entry.storage_format == Some(format) {
            1
        } else {
            0
        }
}

/// What `amount` tells of each entry in `group`.
pub open spec fn within(group: RegionFileGroup, amount: spec_fn(EntryView) -> nat) -> spec_fn(
    EntryView,
) -> nat {
    |entry: EntryView|
        if entry.file_group == group {
            amount(entry)
        } else {
            0
        }
}

/// A part of the entries comes to no more than all of them, and one input to no more
/// than all of them.
proof fn lemma_total_bounds(
    entries: Seq<EntryView>,
    input: Option<usize>,
    amount: spec_fn(EntryView) -> nat,
    n: int,
)
    requires
        0 <= n <= entries.len(),
    ensures
        total_of(entries.take(n), input, amount) <= total_of(entries, None, amount),
    decreases entries.len(),
{
    if n < entries.len() {
        assert(entries.drop_last().take(n) =~= entries.take(n));
        lemma_total_bounds(entries.drop_last(), input, amount, n);
    } else {
        assert(entries.take(n) =~= entries);
        if entries.len() > 0 {
            lemma_total_bounds(entries.drop_last(), input, amount, n - 1);
            assert(entries.drop_last().take(n - 1) =~= entries.drop_last());
        }
    }
}

/// No more entries are counted than there are.
proof fn lemma_count_bounded(
    entries: Seq<EntryView>,
    input: Option<usize>,
    amount: spec_fn(EntryView) -> nat,
)
    requires
        forall|entry: EntryView| #[trigger] amount(entry) <= 1,
    ensures
        total_of(entries, input, amount) <= entries.len(),
    decreases entries.len(),
{
    if entries.len() > 0 {
        lemma_count_bounded(entries.drop_last(), input, amount);
        assert(amount(entries.last()) <= 1);
    }
}

/// Each entry could be read or could not.
pub proof fn law_readable_and_failed_add_up(entries: Seq<EntryView>, input: Option<usize>)
    ensures
        total_of(entries, input, readable()) + total_of(entries, input, unreadable()) == total_of(
            entries,
            input,
            one(),
        ),
    decreases entries.len(),
{
    if entries.len() > 0 {
        law_readable_and_failed_add_up(entries.drop_last(), input);
    }
}

/// Whether the sums over `entries` stay within their types.
pub open spec fn sums_fit(entries: Seq<EntryView>) -> bool {
    &&& total_of(entries, None, size()) <= u64::MAX
    &&& total_of(entries, None, chunks()) <= usize::MAX
    &&& total_of(entries, None, discarded()) <= usize::MAX
    &&& total_of(entries, None, warned()) <= usize::MAX
}

/// Whether the sums over `entries` stay within their types.
pub fn can_summarize(entries: &Vec<RegionInfoEntry>) -> (fits: bool)
    ensures
        fits == sums_fit(sort::views(entries@)),
{
    let ghost all = sort::views(entries@);
    let mut size_sum: u64 = 0;
    let mut chunk_sum: usize = 0;
    let mut discarded_sum: usize = 0;
    let mut warning_sum: usize = 0;
    let mut i: usize = 0;
    while i < entries.len()
        invariant
            i <= entries.len(),
            all == sort::views(entries@),
            size_sum == total_of(all.take(i as int), None, size()),
            chunk_sum == total_of(all.take(i as int), None, chunks()),
            discarded_sum == total_of(all.take(i as int), None, discarded()),
            warning_sum == total_of(all.take(i as int), None, warned()),
        decreases entries.len() - i,
    {
        let entry = &entries[i];
        assert(all.take(i + 1).drop_last() =~= all.take(i as int));
        assert(all[i as int] == entry@);
        proof {
            lemma_total_bounds(all, None, size(), i + 1);
            lemma_total_bounds(all, None, chunks(), i + 1);
            lemma_total_bounds(all, None, discarded(), i + 1);
            lemma_total_bounds(all, None, warned(), i + 1);
        }
        let bytes = match entry.size_bytes {
            Some(bytes) => bytes,
            None => 0,
        };
        assert(entry@.warnings.len() == entry.warnings.len());
        if bytes > u64::MAX - size_sum || entry.chunk_count > usize::MAX - chunk_sum
            || entry.discarded_chunks > usize::MAX - discarded_sum || entry.warnings.len()
            > usize::MAX - warning_sum {
            return false;
        }
        size_sum = size_sum + bytes;
        chunk_sum = chunk_sum + entry.chunk_count;
        discarded_sum = discarded_sum + entry.discarded_chunks;
        warning_sum = warning_sum + entry.warnings.len();
        i = i + 1;
    }
    assert(all.take(i as int) =~= all);
    true
}

/// What was found in the files of an input, or of all.
#[derive(Clone, Copy, Debug, PartialEq, Eq, Structural)]
pub struct InfoTotals {
    pub region_files: usize,
    pub readable_regions: usize,
    pub failed_regions: usize,
    pub total_size_bytes: u64,
    pub chunk_count: usize,
    pub discarded_chunks: usize,
    pub warnings: usize,
}

/// What was found in `entries` that count for `input`.
pub open spec fn totals_of(entries: Seq<EntryView>, input: Option<usize>) -> InfoTotals {
    InfoTotals {
        region_files: total_of(entries, input, one()) as usize,
        readable_regions: total_of(entries, input, readable()) as usize,
        failed_regions: total_of(entries, input, unreadable()) as usize,
        total_size_bytes: total_of(entries, input, size()) as u64,
        chunk_count: total_of(entries, input, chunks()) as usize,
        discarded_chunks: total_of(entries, input, discarded()) as usize,
        warnings: total_of(entries, input, warned()) as usize,
    }
}

fn entry_counts(entry: &RegionInfoEntry, input: Option<usize>) -> (counts: bool)
    ensures
        counts == counts_for(entry@, input),
{
    match input {
        Some(index) => entry.input_index == index,
        None => true,
    }
}

/// Adds up what was found in `entries` that count for `input`.
#[verifier::rlimit(40)]
pub fn add_up(entries: &Vec<RegionInfoEntry>, input: Option<usize>) -> (totals: InfoTotals)
    requires
        sums_fit(sort::views(entries@)),
    ensures
        totals == totals_of(sort::views(entries@), input),
{
    let ghost all = sort::views(entries@);
    let mut totals = InfoTotals {
        region_files: 0,
        readable_regions: 0,
        failed_regions: 0,
        total_size_bytes: 0,
        chunk_count: 0,
        discarded_chunks: 0,
        warnings: 0,
    };
    let mut i: usize = 0;
    while i < entries.len()
        invariant
            i <= entries.len(),
            all == sort::views(entries@),
            sums_fit(all),
            totals == totals_of(all.take(i as int), input),
            totals.region_files == total_of(all.take(i as int), input, one()),
            totals.readable_regions == total_of(all.take(i as int), input, readable()),
            totals.failed_regions == total_of(all.take(i as int), input, unreadable()),
            totals.total_size_bytes == total_of(all.take(i as int), input, size()),
            totals.chunk_count == total_of(all.take(i as int), input, chunks()),
            totals.discarded_chunks == total_of(all.take(i as int), input, discarded()),
            totals.warnings == total_of(all.take(i as int), input, warned()),
        decreases entries.len() - i,
    {
        let entry = &entries[i];
        let ghost next = all.take(i + 1);
        assert(next.drop_last() =~= all.take(i as int));
        assert(next.last() == entry@);
        proof {
            lemma_total_bounds(all, input, size(), i + 1);
            lemma_total_bounds(all, input, chunks(), i + 1);
            lemma_total_bounds(all, input, discarded(), i + 1);
            lemma_total_bounds(all, input, warned(), i + 1);
            lemma_count_bounded(next, input, one());
            lemma_count_bounded(next, input, readable());
            lemma_count_bounded(next, input, unreadable());
        }
        if entry_counts(entry, input) {
            assert(entry@.warnings.len() == entry.warnings.len());
            totals.region_files = totals.region_files + 1;
            totals.total_size_bytes = totals.total_size_bytes + match entry.size_bytes {
                Some(bytes) => bytes,
                None => 0,
            };
            totals.chunk_count = totals.chunk_count + entry.chunk_count;
            totals.discarded_chunks = totals.discarded_chunks + entry.discarded_chunks;
            totals.warnings = totals.warnings + entry.warnings.len();
            if entry.error.is_some() {
                totals.failed_regions = totals.failed_regions + 1;
            } else {
                totals.readable_regions = totals.readable_regions + 1;
            }
        }
        i = i + 1;
    }
    assert(all.take(i as int) =~= all);
    totals
}

/// The formats in the order of their names.
pub open spec fn named_formats() -> Seq<RegionStorageFormat> {
    seq![
        RegionStorageFormat::BlinearV2,
        RegionStorageFormat::BlinearV3,
        RegionStorageFormat::LinearV1,
        RegionStorageFormat::LinearV2,
        RegionStorageFormat::Mca,
    ]
}

/// The formats are shown in the order of their names.
pub proof fn law_formats_are_by_name(i: int)
    requires
        0 <= i < 4,
    ensures
        path::chars_le(
            formats::storage_text(named_formats()[i]),
            formats::storage_text(named_formats()[i + 1]),
        ),
        formats::storage_text(named_formats()[i]) != formats::storage_text(named_formats()[i + 1]),
{
    reveal_strlit("blinear_v2");
    reveal_strlit("blinear_v3");
    reveal_strlit("linear_v1");
    reveal_strlit("linear_v2");
    reveal_strlit("mca");
    let a = formats::storage_text(named_formats()[i]);
    let b = formats::storage_text(named_formats()[i + 1]);
    reveal_with_fuel(path::chars_le, 11);
    assert(i == 0 ==> a[9] == '2' && b[9] == '3');
    assert(i == 2 ==> a[8] == '1' && b[8] == '2');
}

/// How many entries that count for `input` are in each of `formats` in which one is.
pub open spec fn formats_of(
    entries: Seq<EntryView>,
    input: Option<usize>,
    list: Seq<RegionStorageFormat>,
) -> Seq<FormatCount>
    decreases list.len(),
{
    if list.len() == 0 {
        seq![]
    } else {
        let before = formats_of(entries, input, list.drop_last());
        let count = total_of(entries, input, stored_as(list.last()));
        if count > 0 {
            before.push(FormatCount { format: list.last(), count: count as usize })
        } else {
            before
        }
    }
}

fn count_format(
    entries: &Vec<RegionInfoEntry>,
    input: Option<usize>,
    format: RegionStorageFormat,
) -> (count: usize)
    ensures
        count == total_of(sort::views(entries@), input, stored_as(format)),
{
    let ghost all = sort::views(entries@);
    let mut count: usize = 0;
    let mut i: usize = 0;
    while i < entries.len()
        invariant
            i <= entries.len(),
            all == sort::views(entries@),
            count <= i,
            count == total_of(all.take(i as int), input, stored_as(format)),
        decreases entries.len() - i,
    {
        assert(all.take(i + 1).drop_last() =~= all.take(i as int));
        assert(all.take(i + 1).last() == entries@[i as int]@);
        if entry_counts(&entries[i], input) {
            if let Some(stored) = entries[i].storage_format {
                if stored == format {
                    count = count + 1;
                }
            }
        }
        i = i + 1;
    }
    assert(all.take(i as int) =~= all);
    count
}

/// How many entries that count for `input` are in each format in which one is, by the
/// name of the format.
pub fn format_breakdown(entries: &Vec<RegionInfoEntry>, input: Option<usize>) -> (counts: Vec<
    FormatCount,
>)
    ensures
        counts@ == formats_of(sort::views(entries@), input, named_formats()),
{
    let list = [
        RegionStorageFormat::BlinearV2,
        RegionStorageFormat::BlinearV3,
        RegionStorageFormat::LinearV1,
        RegionStorageFormat::LinearV2,
        RegionStorageFormat::Mca,
    ];
    assert(list@ =~= named_formats());
    let mut counts: Vec<FormatCount> = Vec::new();
    let mut i: usize = 0;
    while i < 5
        invariant
            i <= 5,
            list@ == named_formats(),
            counts@ == formats_of(sort::views(entries@), input, list@.take(i as int)),
        decreases 5 - i,
    {
        assert(list@.take(i + 1).drop_last() =~= list@.take(i as int));
        let count = count_format(entries, input, list[i]);
        if count > 0 {
            counts.push(FormatCount { format: list[i], count });
        }
        i = i + 1;
    }
    assert(list@.take(i as int) =~= named_formats());
    counts
}

/// What was found in the entries that count for `input`, for each of `groups` in which
/// one is.
pub open spec fn groups_of(
    entries: Seq<EntryView>,
    input: Option<usize>,
    groups: Seq<RegionFileGroup>,
) -> Seq<GroupInfo>
    decreases groups.len(),
{
    if groups.len() == 0 {
        seq![]
    } else {
        let before = groups_of(entries, input, groups.drop_last());
        let group = groups.last();
        let files = total_of(entries, input, within(group, one()));
        if files > 0 {
            before.push(
                GroupInfo {
                    group,
                    region_files: files as usize,
                    readable_regions: total_of(
                        entries,
                        input,
                        within(group, readable()),
                    ) as usize,
                    failed_regions: total_of(
                        entries,
                        input,
                        within(group, unreadable()),
                    ) as usize,
                },
            )
        } else {
            before
        }
    }
}

fn count_group(
    entries: &Vec<RegionInfoEntry>,
    input: Option<usize>,
    group: RegionFileGroup,
) -> (info: GroupInfo)
    ensures
        info.group == group,
        info.region_files == total_of(sort::views(entries@), input, within(group, one())),
        info.readable_regions == total_of(sort::views(entries@), input, within(group, readable())),
        info.failed_regions == total_of(sort::views(entries@), input, within(group, unreadable())),
{
    let ghost all = sort::views(entries@);
    let mut info = GroupInfo { group, region_files: 0, readable_regions: 0, failed_regions: 0 };
    let mut i: usize = 0;
    while i < entries.len()
        invariant
            i <= entries.len(),
            all == sort::views(entries@),
            info.group == group,
            info.region_files <= i,
            info.readable_regions <= i,
            info.failed_regions <= i,
            info.region_files == total_of(all.take(i as int), input, within(group, one())),
            info.readable_regions == total_of(
                all.take(i as int),
                input,
                within(group, readable()),
            ),
            info.failed_regions == total_of(
                all.take(i as int),
                input,
                within(group, unreadable()),
            ),
        decreases entries.len() - i,
    {
        assert(all.take(i + 1).drop_last() =~= all.take(i as int));
        assert(all.take(i + 1).last() == entries@[i as int]@);
        if entry_counts(&entries[i], input) && entries[i].file_group == group {
            info.region_files = info.region_files + 1;
            if entries[i].error.is_some() {
                info.failed_regions = info.failed_regions + 1;
            } else {
                info.readable_regions = info.readable_regions + 1;
            }
        }
        i = i + 1;
    }
    assert(all.take(i as int) =~= all);
    info
}

/// What was found in the entries that count for `input`, for each group in which one
/// is.
pub fn group_breakdown(entries: &Vec<RegionInfoEntry>, input: Option<usize>) -> (infos: Vec<
    GroupInfo,
>)
    ensures
        infos@ == groups_of(sort::views(entries@), input, discovery::ordered_groups()),
{
    let groups = RegionFileGroup::ordered();
    let mut infos: Vec<GroupInfo> = Vec::new();
    let mut i: usize = 0;
    while i < 3
        invariant
            i <= 3,
            groups@ == discovery::ordered_groups(),
            infos@ == groups_of(sort::views(entries@), input, groups@.take(i as int)),
        decreases 3 - i,
    {
        assert(groups@.take(i + 1).drop_last() =~= groups@.take(i as int));
        let info = count_group(entries, input, groups[i]);
        if info.region_files > 0 {
            infos.push(info);
        }
        i = i + 1;
    }
    assert(groups@.take(i as int) =~= groups@);
    infos
}

/// What was found at an input.
#[derive(Clone, Debug)]
pub struct InputInfo {
    pub input_path: SavePath,
    pub input_kind: InputKind,
    pub region_files: usize,
    pub readable_regions: usize,
    pub failed_regions: usize,
    pub total_size_bytes: u64,
    pub chunk_count: usize,
    pub discarded_chunks: usize,
    pub warnings: usize,
    pub format_breakdown: Vec<FormatCount>,
    pub group_breakdown: Vec<GroupInfo>,
}

/// What was found at an input.
#[verifier::ext_equal]
pub struct InputInfoView {
    pub input_path: PathView,
    pub input_kind: InputKind,
    pub totals: InfoTotals,
    pub format_breakdown: Seq<FormatCount>,
    pub group_breakdown: Seq<GroupInfo>,
}

impl View for InputInfo {
    type V = InputInfoView;

    open spec fn view(&self) -> InputInfoView {
        InputInfoView {
            input_path: self.input_path@,
            input_kind: self.input_kind,
            totals: InfoTotals {
                region_files: self.region_files,
                readable_regions: self.readable_regions,
                failed_regions: self.failed_regions,
                total_size_bytes: self.total_size_bytes,
                chunk_count: self.chunk_count,
                discarded_chunks: self.discarded_chunks,
                warnings: self.warnings,
            },
            format_breakdown: self.format_breakdown@,
            group_breakdown: self.group_breakdown@,
        }
    }
}

/// What was found at the input `index`.
pub open spec fn input_info(input: InputView, entries: Seq<EntryView>, index: usize) -> InputInfoView {
    InputInfoView {
        input_path: input.input_path,
        input_kind: input.input_kind,
        totals: totals_of(entries, Some(index)),
        format_breakdown: formats_of(entries, Some(index), named_formats()),
        group_breakdown: groups_of(entries, Some(index), discovery::ordered_groups()),
    }
}

fn build_input_info(input: &InputDiscovery, entries: &Vec<RegionInfoEntry>, index: usize) -> (info:
    InputInfo)
    requires
        sums_fit(sort::views(entries@)),
    ensures
        info@ == input_info(input@, sort::views(entries@), index),
{
    let totals = add_up(entries, Some(index));
    InputInfo {
        input_path: input.input_path.copy(),
        input_kind: input.input_kind,
        region_files: totals.region_files,
        readable_regions: totals.readable_regions,
        failed_regions: totals.failed_regions,
        total_size_bytes: totals.total_size_bytes,
        chunk_count: totals.chunk_count,
        discarded_chunks: totals.discarded_chunks,
        warnings: totals.warnings,
        format_breakdown: format_breakdown(entries, Some(index)),
        group_breakdown: group_breakdown(entries, Some(index)),
    }
}

/// What was found at all inputs.
#[derive(Clone, Debug)]
pub struct InfoSummary {
    pub thread_count: usize,
    pub inputs: Vec<InputInfo>,
    pub entries: Vec<RegionInfoEntry>,
    pub total_region_files: usize,
    pub readable_regions: usize,
    pub failed_regions: usize,
    pub total_size_bytes: u64,
    pub chunk_count: usize,
    pub discarded_chunks: usize,
    pub warnings: usize,
    pub elapsed: u64,
}

/// What was found at all inputs together.
pub open spec fn summary_totals(summary: InfoSummary) -> InfoTotals {
    InfoTotals {
        region_files: summary.total_region_files,
        readable_regions: summary.readable_regions,
        failed_regions: summary.failed_regions,
        total_size_bytes: summary.total_size_bytes,
        chunk_count: summary.chunk_count,
        discarded_chunks: summary.discarded_chunks,
        warnings: summary.warnings,
    }
}

/// An entry that belongs to none of the inputs.
#[derive(Clone, Copy, Debug, PartialEq, Eq, Structural)]
pub struct UnknownInput;

impl UnknownInput {
    /// The message of the error.
    pub fn message(self) -> (text: &'static str)
        ensures
            text@ == "discovered info entry points at an unknown input"@,
    {
        "discovered info entry points at an unknown input"
    }
}

/// Whether each entry belongs to one of `inputs` inputs.
pub open spec fn inputs_known(entries: Seq<EntryView>, inputs: nat) -> bool {
    forall|i: int| 0 <= i < entries.len() ==> (#[trigger] entries[i]).input_index < inputs
}

/// Sums up what was found at `inputs`, for each region file of which there is an entry.
pub fn summarize(
    inputs: &Vec<InputDiscovery>,
    entries: Vec<RegionInfoEntry>,
    thread_count: usize,
    elapsed: u64,
) -> (result: Result<InfoSummary, UnknownInput>)
    requires
        sums_fit(sort::views(entries@)),
    ensures
        match result {
            Ok(summary) => {
                &&& inputs_known(sort::views(entries@), inputs@.len())
                &&& summary.thread_count == thread_count
                &&& summary.elapsed == elapsed
                &&& summary.entries == entries
                &&& summary_totals(summary) == totals_of(sort::views(entries@), None)
                &&& summary.inputs@.len() == inputs@.len()
                &&& forall|i: int|
                    0 <= i < inputs@.len() ==> (#[trigger] summary.inputs@[i])@ == input_info(
                        inputs@[i]@,
                        sort::views(entries@),
                        i as usize,
                    )
            },
            Err(_) => !inputs_known(sort::views(entries@), inputs@.len()),
        },
{
    let ghost all = sort::views(entries@);
    let mut i: usize = 0;
    while i < entries.len()
        invariant
            i <= entries.len(),
            all == sort::views(entries@),
            forall|k: int| 0 <= k < i ==> (#[trigger] all[k]).input_index < inputs@.len(),
        decreases entries.len() - i,
    {
        assert(all[i as int] == entries@[i as int]@);
        if entries[i].input_index >= inputs.len() {
            return Err(UnknownInput);
        }
        i = i + 1;
    }
    let mut infos: Vec<InputInfo> = Vec::new();
    i = 0;
    while i < inputs.len()
        invariant
            i <= inputs.len(),
            all == sort::views(entries@),
            sums_fit(all),
            infos@.len() == i,
            forall|k: int|
                0 <= k < i ==> (#[trigger] infos@[k])@ == input_info(
                    inputs@[k]@,
                    all,
                    k as usize,
                ),
        decreases inputs.len() - i,
    {
        infos.push(build_input_info(&inputs[i], &entries, i));
        i = i + 1;
    }
    let totals = add_up(&entries, None);
    Ok(
        InfoSummary {
            thread_count,
            inputs: infos,
            entries,
            total_region_files: totals.region_files,
            readable_regions: totals.readable_regions,
            failed_regions: totals.failed_regions,
            total_size_bytes: totals.total_size_bytes,
            chunk_count: totals.chunk_count,
            discarded_chunks: totals.discarded_chunks,
            warnings: totals.warnings,
            elapsed,
        },
    )
}

} // verus!
