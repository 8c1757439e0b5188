//! What inspecting a region file tells of the region that was written to it.

use vstd::prelude::*;

use crate::discovery::{self, InputView, RegionFileGroup, SourceView};
use crate::error::{RegionErrorKind, RegionFault};
use crate::formats::{
    self, detection, mca, EncodedView, ReadView, RegionFormat, RegionStorageFormat,
};
use crate::info::{self, EntryView, GroupInfo, InspectedFiles};
use crate::model::{self, ChunkView, RegionView};

verus! {

/// The number of chunks depends on which slots hold one alone.
pub proof fn lemma_occupied_alike(a: Seq<Option<ChunkView>>, b: Seq<Option<ChunkView>>)
    requires
        a.len() == b.len(),
        forall|i: int| 0 <= i < a.len() ==> (#[trigger] a[i] is Some <==> b[i] is Some),
    ensures
        model::occupied(a).len() == model::occupied(b).len(),
    decreases a.len(),
{
    if a.len() > 0 {
        assert(a[a.len() - 1] is Some <==> b[a.len() - 1] is Some);
        assert forall|i: int| 0 <= i < a.len() - 1 implies (#[trigger] a.drop_last()[i] is Some
            <==> b.drop_last()[i] is Some) by {
            assert(a[i] is Some <==> b[i] is Some);
        }
        lemma_occupied_alike(a.drop_last(), b.drop_last());
    }
}

/// Whether the files at hand are those that `region` was written to as `format`, with the
/// name of the region.
pub open spec fn written_files(
    source: SourceView,
    files: InspectedFiles,
    region: RegionView,
    format: RegionFormat,
    encoded: EncodedView,
) -> bool {
    &&& source.source_file.file_name() == Some(
        formats::region_file_name_text(format, region.region_x, region.region_z),
    )
    &&& files.bytes@ == encoded.main_file_bytes
    &&& format == RegionFormat::Mca ==> mca::holds_sidecars(
        files.externals@,
        region,
        encoded.sidecar_files,
    )
}

/// Whether an entry tells of `region` in `format`: of exactly that format, without an
/// error or a warning, with the place of the region and the number of its chunks.
pub open spec fn tells_region(
    entry: EntryView,
    source: SourceView,
    region: RegionView,
    format: RegionFormat,
) -> bool {
    &&& entry.input_index == source.input_index
    &&& entry.source_file == source.source_file
    &&& entry.file_group == source.file_group
    &&& entry.storage_format matches Some(storage)
    &&& detection::belongs_to(storage, format)
    &&& formats::family_of(storage) == format
    &&& entry.error is None
    &&& entry.region_x == Some(region.region_x)
    &&& entry.region_z == Some(region.region_z)
    &&& entry.chunk_count == model::occupied(region.chunks).len()
    &&& entry.discarded_chunks == 0
    &&& entry.warnings.len() == 0
}

/// A written region that reads back is inspected as a region of exactly the format that
/// it was written in, with all of its chunks.
pub proof fn law_written_region_is_inspected(
    region: RegionView,
    format: RegionFormat,
    level: i32,
    profiled: bool,
    encoded: EncodedView,
    source: SourceView,
    file_size: Option<u64>,
    files: InspectedFiles,
)
    requires
        formats::encoded_region(region, format, level, profiled) == Ok::<EncodedView, RegionFault>(
            encoded,
        ),
        written_files(source, files, region, format, encoded),
        formats::read_outcome(source.source_file, files.bytes@, files.externals@, format) == Ok::<
            ReadView,
            RegionFault,
        >(formats::all_read(formats::stored_region(region, format))),
    ensures
        tells_region(info::entry_of(source, file_size, Ok(files)), source, region, format),
        format != RegionFormat::Mca && files.bytes@.len() <= u64::MAX ==> info::entry_of(
            source,
            file_size,
            Ok(files),
        ).size_bytes == Some(files.bytes@.len() as u64),
        format == RegionFormat::Mca && files.bytes@.len() + mca::known_total(
            files.sidecar_sizes@,
        ) <= u64::MAX ==> info::entry_of(source, file_size, Ok(files)).size_bytes == Some(
            (files.bytes@.len() + mca::known_total(files.sidecar_sizes@)) as u64,
        ),
{
    let path = source.source_file;
    let stored = formats::stored_region(region, format);
    detection::law_written_file_is_detected(region, format, level, profiled, encoded, path);
    detection::law_region_file_name_tells_format(path, format, region.region_x, region.region_z);
    assert forall|i: int| 0 <= i < stored.chunks.len() implies (#[trigger] stored.chunks[i] is Some
        <==> region.chunks[i] is Some) by {
        formats::law_storing_keeps_payloads(region, format, i);
    }
    lemma_occupied_alike(stored.chunks, region.chunks);
    if format == RegionFormat::Mca {
        assert(files.bytes@.len() >= 8192);
    }
}

/// A file that cannot be told, sized or read is an entry with an error, and one that can
/// is an entry with what was read: an entry has an error if and only if nothing is told
/// of its region.
pub proof fn law_entry_tells_or_fails(
    source: SourceView,
    file_size: Option<u64>,
    files: Result<InspectedFiles, String>,
)
    ensures
        ({
            let entry = info::entry_of(source, file_size, files);
            &&& entry.input_index == source.input_index
            &&& entry.source_file == source.source_file
            &&& entry.file_group == source.file_group
            &&& match entry.error {
                Some(_) => {
                    &&& entry.region_x is None
                    &&& entry.region_z is None
                    &&& entry.chunk_count == 0
                    &&& entry.discarded_chunks == 0
                    &&& entry.warnings.len() == 0
                },
                None => {
                    &&& files matches Ok(found)
                    &&& entry.storage_format matches Some(storage)
                    &&& formats::detected_storage(source.source_file, found.bytes@) == Ok::<
                        RegionStorageFormat,
                        RegionErrorKind,
                    >(storage)
                    &&& formats::read_outcome(
                        source.source_file,
                        found.bytes@,
                        found.externals@,
                        formats::family_of(storage),
                    ) matches Ok(read)
                    &&& entry.region_x == Some(read.region.region_x)
                    &&& entry.region_z == Some(read.region.region_z)
                    &&& entry.chunk_count == model::occupied(read.region.chunks).len()
                    &&& entry.discarded_chunks == read.discarded_chunks
                    &&& entry.warnings.len() == read.diagnostics.len()
                    &&& forall|i: int|
                        0 <= i < read.diagnostics.len() ==> #[trigger] entry.warnings[i]
                            == read.diagnostics[i].message
                },
            }
        }),
        files is Err ==> info::entry_of(source, file_size, files).error is Some
            && info::entry_of(source, file_size, files).size_bytes == file_size,
{
}

/// The entries of an input, or all of them.
pub open spec fn entries_of(entries: Seq<EntryView>, input: Option<usize>) -> Seq<EntryView> {
    entries.filter(|entry: EntryView| input is None || input == Some(entry.input_index))
}

/// The sum of what `amount` tells of each entry.
pub open spec fn sum_over(entries: Seq<EntryView>, amount: spec_fn(EntryView) -> nat) -> nat
    decreases entries.len(),
{
    if entries.len() == 0 {
        0
    } else {
        sum_over(entries.drop_last(), amount) + amount(entries.last())
    }
}

/// A total is the sum over the entries of the input.
proof fn lemma_total_is_sum(
    entries: Seq<EntryView>,
    input: Option<usize>,
    amount: spec_fn(EntryView) -> nat,
)
    ensures
        info::total_of(entries, input, amount) == sum_over(entries_of(entries, input), amount),
    decreases entries.len(),
{
    reveal(Seq::filter);
    if entries.len() > 0 {
        lemma_total_is_sum(entries.drop_last(), input, amount);
        let before = entries_of(entries.drop_last(), input);
        assert(before.push(entries.last()).drop_last() =~= before);
    }
}

/// The sum over a part of the entries is no more than that over all of them.
proof fn lemma_total_of_input(
    entries: Seq<EntryView>,
    input: Option<usize>,
    amount: spec_fn(EntryView) -> nat,
)
    ensures
        info::total_of(entries, input, amount) <= info::total_of(entries, None, amount),
    decreases entries.len(),
{
    if entries.len() > 0 {
        lemma_total_of_input(entries.drop_last(), input, amount);
    }
}

/// One for each entry that `pred` holds of is how many there are.
proof fn lemma_sum_counts(
    entries: Seq<EntryView>,
    amount: spec_fn(EntryView) -> nat,
    pred: spec_fn(EntryView) -> bool,
)
    requires
        forall|entry: EntryView| #[trigger]
            amount(entry) == if pred(entry) {
                1nat
            } else {
                0
            },
    ensures
        sum_over(entries, amount) == entries.filter(pred).len(),
        sum_over(entries, amount) <= entries.len(),
    decreases entries.len(),
{
    reveal(Seq::filter);
    if entries.len() > 0 {
        lemma_sum_counts(entries.drop_last(), amount, pred);
        assert(amount(entries.last()) == if pred(entries.last()) {
            1nat
        } else {
            0
        });
    }
}

/// There are no more entries of an input than entries.
proof fn lemma_entries_bounded(entries: Seq<EntryView>, input: Option<usize>)
    ensures
        entries_of(entries, input).len() <= entries.len(),
{
    entries.lemma_filter_len(
        |entry: EntryView| input is None || input == Some(entry.input_index),
    );
}

/// The totals of an input are the number of its entries, of those that could be read and of
/// those that could not, and the sums of their sizes, chunks and warnings.
pub proof fn law_totals_are_sums(entries: Seq<EntryView>, input: Option<usize>)
    requires
        info::sums_fit(entries),
        entries.len() <= usize::MAX,
    ensures
        ({
            let totals = info::totals_of(entries, input);
            let list = entries_of(entries, input);
            &&& totals.region_files == list.len()
            &&& totals.readable_regions == list.filter(
                |entry: EntryView| entry.error is None,
            ).len()
            &&& totals.failed_regions == list.filter(|entry: EntryView| entry.error is Some).len()
            &&& totals.total_size_bytes == sum_over(
                list,
                |entry: EntryView|
                    match entry.size_bytes {
                        Some(size) => size as nat,
                        None => 0,
                    },
            )
            &&& totals.chunk_count == sum_over(list, |entry: EntryView| entry.chunk_count)
            &&& totals.discarded_chunks == sum_over(
                list,
                |entry: EntryView| entry.discarded_chunks,
            )
            &&& totals.warnings == sum_over(list, |entry: EntryView| entry.warnings.len())
        }),
{
    let list = entries_of(entries, input);
    lemma_entries_bounded(entries, input);
    lemma_total_is_sum(entries, input, info::one());
    lemma_total_is_sum(entries, input, info::readable());
    lemma_total_is_sum(entries, input, info::unreadable());
    lemma_sum_counts(list, info::one(), |entry: EntryView| true);
    lemma_all_kept(list);
    lemma_sum_counts(list, info::readable(), |entry: EntryView| entry.error is None);
    lemma_sum_counts(list, info::unreadable(), |entry: EntryView| entry.error is Some);
    let size = |entry: EntryView|
        match entry.size_bytes {
            Some(size) => size as nat,
            None => 0,
        };
    let chunks = |entry: EntryView| entry.chunk_count;
    let discarded = |entry: EntryView| entry.discarded_chunks;
    let warned = |entry: EntryView| entry.warnings.len();
    lemma_total_is_sum(entries, input, info::size());
    lemma_total_is_sum(entries, input, info::chunks());
    lemma_total_is_sum(entries, input, info::discarded());
    lemma_total_is_sum(entries, input, info::warned());
    lemma_total_of_input(entries, input, info::size());
    lemma_total_of_input(entries, input, info::chunks());
    lemma_total_of_input(entries, input, info::discarded());
    lemma_total_of_input(entries, input, info::warned());
    lemma_same_sum(list, info::size(), size);
    lemma_same_sum(list, info::chunks(), chunks);
    lemma_same_sum(list, info::discarded(), discarded);
    lemma_same_sum(list, info::warned(), warned);
}

proof fn lemma_all_kept(entries: Seq<EntryView>)
    ensures
        entries.filter(|entry: EntryView| true).len() == entries.len(),
    decreases entries.len(),
{
    reveal(Seq::filter);
    if entries.len() > 0 {
        lemma_all_kept(entries.drop_last());
    }
}

proof fn lemma_same_sum(
    entries: Seq<EntryView>,
    a: spec_fn(EntryView) -> nat,
    b: spec_fn(EntryView) -> nat,
)
    requires
        forall|entry: EntryView| #[trigger] a(entry) == b(entry),
    ensures
        sum_over(entries, a) == sum_over(entries, b),
    decreases entries.len(),
{
    if entries.len() > 0 {
        lemma_same_sum(entries.drop_last(), a, b);
        assert(a(entries.last()) == b(entries.last()));
    }
}

/// The number of entries of an input in a format.
pub open spec fn stored_count(
    entries: Seq<EntryView>,
    input: Option<usize>,
    format: RegionStorageFormat,
) -> nat {
    entries_of(entries, input).filter(
        |entry: EntryView| entry.storage_format == Some(format),
    ).len()
}

proof fn lemma_stored_count(
    entries: Seq<EntryView>,
    input: Option<usize>,
    format: RegionStorageFormat,
)
    ensures
        info::total_of(entries, input, info::stored_as(format)) == stored_count(
            entries,
            input,
            format,
        ),
        stored_count(entries, input, format) <= entries.len(),
{
    lemma_entries_bounded(entries, input);
    lemma_total_is_sum(entries, input, info::stored_as(format));
    lemma_sum_counts(
        entries_of(entries, input),
        info::stored_as(format),
        |entry: EntryView| entry.storage_format == Some(format),
    );
}

/// The formats in which an input has files are shown, each once, with their number, and no
/// others.
pub proof fn law_each_format_is_counted(
    entries: Seq<EntryView>,
    input: Option<usize>,
    list: Seq<RegionStorageFormat>,
    format: RegionStorageFormat,
)
    requires
        list.no_duplicates(),
        entries.len() <= usize::MAX,
    ensures
        ({
            let shown = info::formats_of(entries, input, list);
            &&& list.contains(format) && stored_count(entries, input, format) > 0 <==> exists|i: int|
                0 <= i < shown.len() && (#[trigger] shown[i]).format == format
            &&& forall|i: int|
                0 <= i < shown.len() && (#[trigger] shown[i]).format == format ==> shown[i].count
                    == stored_count(entries, input, format)
        }),
    decreases list.len(),
{
    let shown = info::formats_of(entries, input, list);
    if list.len() > 0 {
        let before = list.drop_last();
        let early = info::formats_of(entries, input, before);
        let last = list.last();
        lemma_stored_count(entries, input, last);
        law_each_format_is_counted(entries, input, before, format);
        assert(list.contains(format) <==> before.contains(format) || format == last) by {
            if before.contains(format) {
                let k = choose|k: int| 0 <= k < before.len() && before[k] == format;
                assert(list[k] == format);
            }
            if list.contains(format) && format != last {
                let k = choose|k: int| 0 <= k < list.len() && list[k] == format;
                assert(before[k] == format);
            }
            if format == last {
                assert(list[list.len() - 1] == format);
            }
        }
        assert forall|k: int| 0 <= k < early.len() implies shown[k] == early[k] by {}
        if exists|i: int| 0 <= i < early.len() && (#[trigger] early[i]).format == format {
            let i = choose|i: int| 0 <= i < early.len() && (#[trigger] early[i]).format == format;
            assert(shown[i].format == format);
        }
        if format == last && stored_count(entries, input, last) > 0 {
            assert(shown[early.len() as int].format == format);
        }
        if exists|i: int| 0 <= i < shown.len() && (#[trigger] shown[i]).format == format {
            let i = choose|i: int| 0 <= i < shown.len() && (#[trigger] shown[i]).format == format;
            if i < early.len() {
                assert(early[i].format == format);
            }
        }
        assert forall|i: int|
            0 <= i < shown.len() && (#[trigger] shown[i]).format == format implies shown[i].count
            == stored_count(entries, input, format) by {
            if i < early.len() {
                assert(shown[i] == early[i]);
            }
        }
    }
}

/// Every format can be shown.
pub proof fn law_every_format_is_named(format: RegionStorageFormat)
    ensures
        info::named_formats().contains(format),
        info::named_formats().no_duplicates(),
{
    let all = info::named_formats();
    assert(all[0] == RegionStorageFormat::BlinearV2);
    assert(all[1] == RegionStorageFormat::BlinearV3);
    assert(all[2] == RegionStorageFormat::LinearV1);
    assert(all[3] == RegionStorageFormat::LinearV2);
    assert(all[4] == RegionStorageFormat::Mca);
}

/// Whether a group is shown with the number of its files, of those that could be read and
/// of those that could not.
pub open spec fn counts_group(shown: GroupInfo, list: Seq<EntryView>) -> bool {
    &&& shown.region_files == list.filter(
        |entry: EntryView| entry.file_group == shown.group,
    ).len()
    &&& shown.readable_regions == list.filter(
        |entry: EntryView| entry.file_group == shown.group && entry.error is None,
    ).len()
    &&& shown.failed_regions == list.filter(
        |entry: EntryView| entry.file_group == shown.group && entry.error is Some,
    ).len()
}

/// The groups in which an input has files are shown in their order, with the numbers of
/// their files, and no others.
pub proof fn law_each_group_is_counted(
    entries: Seq<EntryView>,
    input: Option<usize>,
    groups: Seq<RegionFileGroup>,
)
    requires
        entries.len() <= usize::MAX,
    ensures
        ({
            let shown = info::groups_of(entries, input, groups);
            let list = entries_of(entries, input);
            &&& forall|i: int|
                0 <= i < shown.len() ==> counts_group(#[trigger] shown[i], list)
                    && shown[i].region_files > 0
            &&& shown.map_values(|group: GroupInfo| group.group) == groups.filter(
                |group: RegionFileGroup|
                    list.filter(|entry: EntryView| entry.file_group == group).len() > 0,
            )
        }),
    decreases groups.len(),
{
    reveal(Seq::filter);
    let shown = info::groups_of(entries, input, groups);
    let list = entries_of(entries, input);
    let name = |group: GroupInfo| group.group;
    let pred = |group: RegionFileGroup|
        list.filter(|entry: EntryView| entry.file_group == group).len() > 0;
    if groups.len() > 0 {
        let last = groups.last();
        let early = info::groups_of(entries, input, groups.drop_last());
        law_each_group_is_counted(entries, input, groups.drop_last());
        let files = info::within(last, info::one());
        let read = info::within(last, info::readable());
        let unread = info::within(last, info::unreadable());
        lemma_entries_bounded(entries, input);
        lemma_total_is_sum(entries, input, files);
        lemma_total_is_sum(entries, input, read);
        lemma_total_is_sum(entries, input, unread);
        lemma_sum_counts(list, files, |entry: EntryView| entry.file_group == last);
        lemma_sum_counts(
            list,
            read,
            |entry: EntryView| entry.file_group == last && entry.error is None,
        );
        lemma_sum_counts(
            list,
            unread,
            |entry: EntryView| entry.file_group == last && entry.error is Some,
        );
        assert forall|i: int| 0 <= i < shown.len() implies counts_group(#[trigger] shown[i], list)
            && shown[i].region_files > 0 by {
            if i < early.len() {
                assert(shown[i] == early[i]);
            }
        }
        assert(shown.map_values(name) =~= groups.filter(pred));
    } else {
        assert(shown.map_values(name) =~= groups.filter(pred));
    }
}

/// The totals of the inputs add up to those of all of them.
pub open spec fn sum_over_inputs(
    entries: Seq<EntryView>,
    n: nat,
    amount: spec_fn(EntryView) -> nat,
) -> nat
    decreases n,
{
    if n == 0 {
        0
    } else {
        sum_over_inputs(entries, (n - 1) as nat, amount) + sum_over(
            entries_of(entries, Some((n - 1) as usize)),
            amount,
        )
    }
}

/// Each entry counts for one input: what the inputs come to one by one adds up to what all
/// entries come to.
pub proof fn law_inputs_add_up(
    entries: Seq<EntryView>,
    inputs: nat,
    amount: spec_fn(EntryView) -> nat,
)
    requires
        inputs <= usize::MAX,
        forall|i: int| 0 <= i < entries.len() ==> (#[trigger] entries[i]).input_index < inputs,
    ensures
        sum_over_inputs(entries, inputs, amount) == info::total_of(entries, None, amount),
    decreases entries.len(),
{
    if entries.len() > 0 {
        let before = entries.drop_last();
        assert forall|i: int| 0 <= i < before.len() implies (#[trigger] before[i]).input_index
            < inputs by {
            assert(before[i] == entries[i]);
        }
        law_inputs_add_up(before, inputs, amount);
        assert(entries[entries.len() - 1].input_index < inputs);
        lemma_one_entry_more(entries, inputs, amount);
    } else {
        lemma_no_entries(entries, inputs, amount);
    }
}

proof fn lemma_no_entries(entries: Seq<EntryView>, n: nat, amount: spec_fn(EntryView) -> nat)
    requires
        entries.len() == 0,
    ensures
        sum_over_inputs(entries, n, amount) == 0,
    decreases n,
{
    reveal(Seq::filter);
    if n > 0 {
        lemma_no_entries(entries, (n - 1) as nat, amount);
    }
}

proof fn lemma_one_entry_more(entries: Seq<EntryView>, n: nat, amount: spec_fn(EntryView) -> nat)
    requires
        entries.len() > 0,
        n <= usize::MAX,
    ensures
        sum_over_inputs(entries, n, amount) == sum_over_inputs(entries.drop_last(), n, amount)
            + if entries.last().input_index < n {
            amount(entries.last())
        } else {
            0
        },
    decreases n,
{
    reveal(Seq::filter);
    if n > 0 {
        lemma_one_entry_more(entries, (n - 1) as nat, amount);
        let input = Some((n - 1) as usize);
        let before = entries_of(entries.drop_last(), input);
        assert(before.push(entries.last()).drop_last() =~= before);
    }
}

/// A file is inspected without an error if and only if it is at hand, its format can be
/// told, its size can be told, and it can be read as that format. What could be told of it
/// is told though it cannot be read.
pub proof fn law_readable_file_is_inspected(
    source: SourceView,
    file_size: Option<u64>,
    files: InspectedFiles,
)
    ensures
        ({
            let entry = info::entry_of(source, file_size, Ok(files));
            match formats::detected_storage(source.source_file, files.bytes@) {
                Err(_) => entry.error is Some && entry.storage_format is None && entry.size_bytes
                    == file_size,
                Ok(storage) => {
                    &&& entry.storage_format == Some(storage)
                    &&& entry.error is None <==> formats::read_outcome(
                        source.source_file,
                        files.bytes@,
                        files.externals@,
                        formats::family_of(storage),
                    ) is Ok
                    &&& storage != RegionStorageFormat::Mca && files.bytes@.len() <= u64::MAX
                        ==> entry.size_bytes == Some(files.bytes@.len() as u64)
                },
            }
        }),
{
}

/// What was found at an input is that of its entries alone: those of other inputs do not
/// count.
pub proof fn law_input_counts_its_own_entries(
    input: InputView,
    entries: Seq<EntryView>,
    others: Seq<EntryView>,
    index: usize,
)
    requires
        entries_of(entries, Some(index)) == entries_of(others, Some(index)),
    ensures
        info::input_info(input, entries, index) == info::input_info(input, others, index),
        info::input_info(input, entries, index).input_path == input.input_path,
        info::input_info(input, entries, index).input_kind == input.input_kind,
        info::input_info(input, entries, index).totals == info::totals_of(entries, Some(index)),
        info::input_info(input, entries, index).format_breakdown == info::formats_of(
            entries,
            Some(index),
            info::named_formats(),
        ),
{
    let one = Some(index);
    assert forall|amount: spec_fn(EntryView) -> nat| #[trigger]
        info::total_of(entries, one, amount) == info::total_of(others, one, amount) by {
        lemma_total_is_sum(entries, one, amount);
        lemma_total_is_sum(others, one, amount);
    }
    lemma_same_formats(entries, others, one, info::named_formats());
    lemma_same_groups(entries, others, one, discovery::ordered_groups());
}

proof fn lemma_same_formats(
    entries: Seq<EntryView>,
    others: Seq<EntryView>,
    input: Option<usize>,
    list: Seq<RegionStorageFormat>,
)
    requires
        forall|amount: spec_fn(EntryView) -> nat| #[trigger]
            info::total_of(entries, input, amount) == info::total_of(others, input, amount),
    ensures
        info::formats_of(entries, input, list) == info::formats_of(others, input, list),
    decreases list.len(),
{
    if list.len() > 0 {
        lemma_same_formats(entries, others, input, list.drop_last());
        let amount = info::stored_as(list.last());
        assert(info::total_of(entries, input, amount) == info::total_of(others, input, amount));
    }
}

proof fn lemma_same_groups(
    entries: Seq<EntryView>,
    others: Seq<EntryView>,
    input: Option<usize>,
    groups: Seq<RegionFileGroup>,
)
    requires
        forall|amount: spec_fn(EntryView) -> nat| #[trigger]
            info::total_of(entries, input, amount) == info::total_of(others, input, amount),
    ensures
        info::groups_of(entries, input, groups) == info::groups_of(others, input, groups),
    decreases groups.len(),
{
    if groups.len() > 0 {
        let last = groups.last();
        lemma_same_groups(entries, others, input, groups.drop_last());
        let files = info::within(last, info::one());
        let read = info::within(last, info::readable());
        let unread = info::within(last, info::unreadable());
        assert(info::total_of(entries, input, files) == info::total_of(others, input, files));
        assert(info::total_of(entries, input, read) == info::total_of(others, input, read));
        assert(info::total_of(entries, input, unread) == info::total_of(others, input, unread));
    }
}

} // verus!
