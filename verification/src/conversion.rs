//! What a conversion keeps, and what is reported of it.

use vstd::prelude::*;
use vstd::string::*;

use crate::convert::{
    self, ChunkRate, JobEnd, JobProfile, JobStage, JobTimes, ProfileView, ProfiledJobView,
    ReportStats, ReportView, SourceFiles, StageView, StepView,
    SummaryAccumulator, WriteOutcome,
};
use crate::diagnostic::{self, DiagnosticCode, DiagnosticLevel, DiagnosticView, LocationView};
use crate::discovery::{self, InputView, JobView, RegionFileGroup};
use crate::error::{self, RegionErrorKind, RegionFault};
use crate::formats::{self, EncodedUnit, EncodedView, ReadView, RegionFormat, SourceFormatHint};
use crate::inspection;
use crate::model::{self, RegionView};
use crate::path::PathView;

verus! {

/// The format that is known before a source is read is the one with the same name, and
/// none is known where the header of the file is to tell it.
pub proof fn law_known_format_has_the_same_name(hint: SourceFormatHint, bytes: Seq<u8>)
    ensures
        match convert::known_format(hint) {
            Some(format) => {
                &&& formats::format_text(format) == formats::hint_text(hint)
                &&& format != RegionFormat::Blinear
            },
            None => {
                &&& formats::hint_text(hint) == "blinear"@
                &&& formats::hinted_format(hint, bytes) == formats::detected_blinear(bytes)
            },
        },
        formats::hint_text(hint) == match hint {
            SourceFormatHint::Mca => "mca"@,
            SourceFormatHint::Linear => "linear"@,
            SourceFormatHint::BlinearFamily => "blinear"@,
            SourceFormatHint::BlinearV2 => "blinear_v2"@,
            SourceFormatHint::BlinearV3 => "blinear_v3"@,
        },
{
}

/// A job is decoded as the format that is known of its source, or that its header tells,
/// and gives what reading it as that format gives. A source that cannot be read fails the
/// job with a message that names it.
pub proof fn law_job_is_decoded_as_its_format(
    source: PathView,
    hint: SourceFormatHint,
    files: SourceFiles,
    text: String,
)
    ensures
        match convert::job_decoded(source, hint, Ok(files)) {
            Ok((format, read)) => {
                &&& formats::read_outcome(source, files.bytes@, files.externals@, format) == Ok::<
                    ReadView,
                    RegionFault,
                >(read)
                &&& match convert::known_format(hint) {
                    Some(known) => format == known,
                    None => formats::detected_blinear(files.bytes@) == Ok::<
                        RegionFormat,
                        RegionErrorKind,
                    >(format),
                }
            },
            Err(message) => {
                &&& ("failed to decode "@ + source.text() + ": "@).is_prefix_of(message)
                &&& match convert::known_format(hint) {
                    Some(known) => formats::read_outcome(
                        source,
                        files.bytes@,
                        files.externals@,
                        known,
                    ) is Err,
                    None => match formats::detected_blinear(files.bytes@) {
                        Ok(format) => formats::read_outcome(
                            source,
                            files.bytes@,
                            files.externals@,
                            format,
                        ) is Err,
                        Err(_) => true,
                    },
                }
            },
        },
        convert::job_decoded(source, hint, Err::<SourceFiles, String>(text)) == Err::<
            (RegionFormat, ReadView),
            Seq<char>,
        >("failed to decode "@ + source.text() + ": "@ + text@),
{
    let head = "failed to decode "@ + source.text() + ": "@;
    if let Err(message) = convert::job_decoded(source, hint, Ok(files)) {
        assert(head =~= message.subrange(0, head.len() as int));
    }
}

/// The seconds of a timestamp: itself, where it is a number of seconds, the whole seconds
/// in it, where it is a greater number, as far as they can be stored, and none before
/// the beginning of time.
pub proof fn law_timestamp_in_seconds(timestamp: i64)
    ensures
        0 <= timestamp <= 0xffff_ffff ==> formats::seconds_of(timestamp) == timestamp,
        timestamp < 0 ==> formats::seconds_of(timestamp) == 0,
        timestamp > 0xffff_ffff ==> {
            let seconds = formats::seconds_of(timestamp) as int;
            &&& seconds * 1000 <= timestamp
            &&& timestamp < (seconds + 1) * 1000 || seconds == 0xffff_ffff
        },
{
}

/// The milliseconds of a timestamp: a thousand for each second, where it is a number of
/// seconds, and itself where it is not.
pub proof fn law_timestamp_in_milliseconds(timestamp: i64)
    ensures
        0 <= timestamp <= 0xffff_ffff ==> formats::millis_of(timestamp) == timestamp * 1000,
        timestamp < 0 || timestamp > 0xffff_ffff ==> formats::millis_of(timestamp) == timestamp,
{
}

/// Storing a region in a format keeps its place, and of each chunk its slot and its data;
/// its timestamp is stored in seconds by mca and linear, in milliseconds by blinear.
pub proof fn law_storing_keeps_the_region(region: RegionView, format: RegionFormat, i: int)
    requires
        0 <= i < region.chunks.len(),
    ensures
        ({
            let stored = formats::stored_region(region, format);
            &&& stored.region_x == region.region_x
            &&& stored.region_z == region.region_z
            &&& stored.chunks.len() == region.chunks.len()
            &&& model::occupied(stored.chunks).len() == model::occupied(region.chunks).len()
            &&& match region.chunks[i] {
                None => stored.chunks[i] is None,
                Some(chunk) => {
                    &&& stored.chunks[i] matches Some(kept)
                    &&& kept.raw_nbt == chunk.raw_nbt
                    &&& kept.timestamp == match format {
                        RegionFormat::Mca | RegionFormat::Linear => formats::seconds_of(
                            chunk.timestamp,
                        ) as i64,
                        _ => formats::millis_of(chunk.timestamp),
                    }
                },
            }
        }),
{
    let stored = formats::stored_region(region, format);
    assert forall|k: int| 0 <= k < stored.chunks.len() implies (#[trigger] stored.chunks[k] is Some
        <==> region.chunks[k] is Some) by {}
    inspection::lemma_occupied_alike(stored.chunks, region.chunks);
}

/// A conversion keeps every chunk: a region that is read from one format and written as
/// another holds the same chunks in the same slots with the same data.
pub proof fn law_conversion_keeps_every_chunk(
    region: RegionView,
    from: RegionFormat,
    to: RegionFormat,
    i: int,
)
    requires
        0 <= i < region.chunks.len(),
    ensures
        ({
            let read = formats::stored_region(region, from);
            let written = formats::stored_region(read, to);
            &&& written.region_x == region.region_x
            &&& written.region_z == region.region_z
            &&& written.chunks.len() == region.chunks.len()
            &&& model::occupied(written.chunks).len() == model::occupied(region.chunks).len()
            &&& match region.chunks[i] {
                None => written.chunks[i] is None,
                Some(chunk) => written.chunks[i] matches Some(kept) && kept.raw_nbt
                    == chunk.raw_nbt,
            }
        }),
{
    let read = formats::stored_region(region, from);
    law_storing_keeps_the_region(region, from, i);
    law_storing_keeps_the_region(read, to, i);
}

/// A job fails with an error that tells its message, about the source where it could not
/// be read or encoded, and about the destination where it could not be written; the
/// refusal to overwrite a file that is not safe to replace has a code of its own.
pub proof fn law_failure_is_an_error(
    stage: JobStage,
    source: PathView,
    destination: PathView,
    message: Seq<char>,
)
    ensures
        ({
            let failure = convert::failure_diagnostic(stage, source, destination, message);
            &&& failure.level == DiagnosticLevel::Error
            &&& failure.message == message
            &&& failure.location == (LocationView {
                path: Some(
                    if stage == JobStage::Write {
                        destination
                    } else {
                        source
                    },
                ),
                region_coords: None,
                chunk_index: None,
            })
            &&& failure.code == DiagnosticCode::CorruptRegion <==> stage == JobStage::Decode
            &&& failure.code == DiagnosticCode::InvalidMetadata <==> stage == JobStage::Encode
            &&& failure.code == DiagnosticCode::OutputSafety <==> stage == JobStage::Write
                && exists|before: Seq<char>, after: Seq<char>|
                message == #[trigger] (before
                    + "replacing the sidecars plus header atomically is not currently safe"@
                    + after)
            &&& failure.code == DiagnosticCode::Io || stage != JobStage::Write || failure.code
                == DiagnosticCode::OutputSafety
        }),
{
    let mark = "replacing the sidecars plus header atomically is not currently safe"@;
    if crate::text::contains_text(message, mark) {
        let at = choose|at: int|
            0 <= at <= message.len() - mark.len() && #[trigger] message.subrange(
                at,
                at + mark.len(),
            ) == mark;
        assert(message =~= message.take(at) + mark + message.skip(at + mark.len()));
    }
    if exists|before: Seq<char>, after: Seq<char>| message == #[trigger] (before + mark + after) {
        let (before, after) = choose|before: Seq<char>, after: Seq<char>|
            message == #[trigger] (before + mark + after);
        let at = before.len() as int;
        assert(message.subrange(at, at + mark.len()) =~= mark);
    }
}

/// The report of a job names its files and formats. A written region is reported with the
/// number of chunks that its file reads back to, and with what was warned of on the way;
/// one that was not written with an error.
pub proof fn law_report_tells_what_was_written(
    job: JobView,
    target: RegionFormat,
    format: RegionFormat,
    read: ReadView,
    written: WriteOutcome,
    times: JobTimes,
    profiled: bool,
)
    ensures
        ({
            let report = convert::written_report(
                job,
                target,
                format,
                read,
                written,
                times,
                profiled,
            );
            &&& report.source_file == job.source_file
            &&& report.destination_file == job.destination_file
            &&& report.source_format == Some(format)
            &&& report.target_format == target
            &&& report.discarded_chunks == read.discarded_chunks
            &&& report.profile.estimated_size_bytes == job.estimated_size_bytes
            &&& report.profile.total == times.total
            &&& report.profile.wait_memory == times.wait_memory
            &&& report.profile.wait_decode_io == times.wait_decode_io
            &&& report.profile.decode == times.decode
            &&& report.profile.wait_write_io == times.wait_write_io
            &&& match (written, report.outcome) {
                (Ok(encoded), Ok(chunks)) => {
                    &&& report.profile.encode_write == times.encode_write
                    &&& encoded.units@.len() <= usize::MAX ==> report.profile.encoded_units
                        == if profiled {
                        encoded.units@.len()
                    } else {
                        0
                    }
                    &&& chunks == model::occupied(
                        formats::stored_region(read.region, target).chunks,
                    ).len()
                    &&& report.diagnostics == read.diagnostics + diagnostic::diagnostic_views(
                        encoded.diagnostics@,
                    )
                },
                (Err(text), Err(failure)) => {
                    &&& report.profile.encode_write == 0
                    &&& report.profile.encoded_units == 0
                    &&& failure.level == DiagnosticLevel::Error
                    &&& failure.location.path == Some(job.destination_file)
                    &&& failure.message == "failed to encode and write "@ + job.source_file.text()
                        + " as "@ + formats::format_text(target) + ": "@ + text@
                    &&& report.diagnostics == read.diagnostics
                },
                _ => false,
            }
        }),
{
    if let Ok(encoded) = &written {
        law_units_are_added_up(encoded.units@);
    }
    let stored = formats::stored_region(read.region, target);
    assert forall|k: int| 0 <= k < stored.chunks.len() implies (#[trigger] stored.chunks[k] is Some
        <==> read.region.chunks[k] is Some) by {}
    inspection::lemma_occupied_alike(stored.chunks, read.region.chunks);
}

/// The report of a job whose source could not be read is an error about the source, with
/// nothing read.
pub proof fn law_unread_source_is_an_error(
    job: JobView,
    target: RegionFormat,
    message: Seq<char>,
    times: JobTimes,
    profiled: bool,
)
    ensures
        ({
            let report = convert::decode_failure_report(job, target, message, times, profiled);
            &&& report.source_file == job.source_file
            &&& report.destination_file == job.destination_file
            &&& report.source_format == convert::known_format(job.source_format)
            &&& report.target_format == target
            &&& report.discarded_chunks == 0
            &&& report.diagnostics.len() == 0
            &&& report.profile.estimated_size_bytes == job.estimated_size_bytes
            &&& report.profile.total == times.total
            &&& report.profile.wait_memory == times.wait_memory
            &&& report.profile.wait_decode_io == times.wait_decode_io
            &&& report.profile.decode == 0
            &&& report.profile.wait_write_io == 0
            &&& report.profile.encode_write == 0
            &&& report.outcome matches Err(failure)
            &&& failure.level == DiagnosticLevel::Error
            &&& failure.code == DiagnosticCode::CorruptRegion
            &&& failure.message == message
            &&& failure.location.path == Some(job.source_file)
        }),
{
}

/// The jobs of one group of an input.
pub open spec fn group_jobs(
    jobs: Seq<JobView>,
    input_index: int,
    group: RegionFileGroup,
) -> Seq<JobView> {
    jobs.filter(|job: JobView| job.input_index == input_index && job.file_group == group)
}

/// A stage holds the jobs of its group and its input, all of them, in their order.
pub proof fn law_stage_is_its_jobs(
    jobs: Seq<JobView>,
    input_index: usize,
    group: RegionFileGroup,
)
    ensures
        convert::stage_of(jobs, input_index, group) == group_jobs(jobs, input_index as int, group),
    decreases jobs.len(),
{
    reveal(Seq::filter);
    if jobs.len() > 0 {
        law_stage_is_its_jobs(jobs.drop_last(), input_index, group);
    } else {
        assert(convert::stage_of(jobs, input_index, group) =~= group_jobs(
            jobs,
            input_index as int,
            group,
        ));
    }
}

/// Where a step stands in a run: by its input, and within an input the region files, then
/// the entities, then the points of interest, and at last that it is done.
pub open spec fn place_of(step: StepView) -> (int, int) {
    match step {
        StepView::InputDone(index) => (index as int, 3),
        StepView::Stage(stage) => (
            stage.input_index as int,
            match stage.file_group {
                RegionFileGroup::Regions => 0,
                RegionFileGroup::Entities => 1,
                RegionFileGroup::Poi => 2,
            },
        ),
    }
}

/// Whether one place comes before another.
pub open spec fn comes_before(a: (int, int), b: (int, int)) -> bool {
    a.0 < b.0 || (a.0 == b.0 && a.1 < b.1)
}

/// Whether a step is that an input is done, or the jobs of a group of one.
pub open spec fn is_step(step: StepView, jobs: Seq<JobView>, inputs: Seq<InputView>) -> bool {
    match step {
        StepView::InputDone(_) => true,
        StepView::Stage(stage) => {
            let input = inputs[stage.input_index as int];
            &&& stage.input_path == input.input_path
            &&& stage.input_kind == input.input_kind
            &&& stage.jobs == group_jobs(jobs, stage.input_index as int, stage.file_group)
            &&& stage.jobs.len() > 0
        },
    }
}

/// The stage of one group of an input.
pub open spec fn stage_at(
    jobs: Seq<JobView>,
    inputs: Seq<InputView>,
    i: int,
    group: RegionFileGroup,
) -> StepView {
    StepView::Stage(
        StageView {
            input_index: i as usize,
            input_path: inputs[i].input_path,
            input_kind: inputs[i].input_kind,
            file_group: group,
            jobs: group_jobs(jobs, i, group),
        },
    )
}

/// The stage of one group of an input, where it has jobs.
spec fn stage_if_any(
    jobs: Seq<JobView>,
    inputs: Seq<InputView>,
    i: int,
    group: RegionFileGroup,
) -> Seq<StepView> {
    if group_jobs(jobs, i, group).len() > 0 {
        seq![stage_at(jobs, inputs, i, group)]
    } else {
        seq![]
    }
}

/// The stages of an input one by one.
proof fn lemma_stages(jobs: Seq<JobView>, inputs: Seq<InputView>, i: int)
    requires
        0 <= i <= usize::MAX,
    ensures
        convert::stage_steps(
            convert::stages_of(jobs, i as usize, inputs[i], discovery::ordered_groups()),
        ) == stage_if_any(jobs, inputs, i, RegionFileGroup::Regions) + stage_if_any(
            jobs,
            inputs,
            i,
            RegionFileGroup::Entities,
        ) + stage_if_any(jobs, inputs, i, RegionFileGroup::Poi),
{
    let index = i as usize;
    let all = discovery::ordered_groups();
    let two = seq![RegionFileGroup::Regions, RegionFileGroup::Entities];
    let one = seq![RegionFileGroup::Regions];
    let none = Seq::<RegionFileGroup>::empty();
    assert(all.drop_last() =~= two);
    assert(two.drop_last() =~= one);
    assert(one.drop_last() =~= none);
    law_stage_is_its_jobs(jobs, index, RegionFileGroup::Regions);
    law_stage_is_its_jobs(jobs, index, RegionFileGroup::Entities);
    law_stage_is_its_jobs(jobs, index, RegionFileGroup::Poi);
    let a = convert::stages_of(jobs, index, inputs[i], none);
    let b = convert::stages_of(jobs, index, inputs[i], one);
    let c = convert::stages_of(jobs, index, inputs[i], two);
    let d = convert::stages_of(jobs, index, inputs[i], all);
    let first = stage_if_any(jobs, inputs, i, RegionFileGroup::Regions);
    let second = stage_if_any(jobs, inputs, i, RegionFileGroup::Entities);
    let third = stage_if_any(jobs, inputs, i, RegionFileGroup::Poi);
    assert(convert::stage_steps(b) =~= first);
    assert(convert::stage_steps(c) =~= first + second);
    assert(convert::stage_steps(d) =~= first + second + third);
}

/// A run goes through the inputs in order, and through the groups of an input in order,
/// and then tells that the input is done. Each stage runs all the jobs of its group, and
/// each group with jobs has a stage.
#[verifier::rlimit(40)]
pub proof fn law_steps_are_in_order(jobs: Seq<JobView>, inputs: Seq<InputView>, n: nat)
    requires
        n <= inputs.len() <= usize::MAX,
    ensures
        ({
            let steps = convert::steps_of(jobs, inputs, n);
            &&& forall|a: int, b: int|
                0 <= a < b < steps.len() ==> comes_before(
                    place_of(#[trigger] steps[a]),
                    place_of(#[trigger] steps[b]),
                )
            &&& forall|a: int|
                0 <= a < steps.len() ==> place_of(#[trigger] steps[a]).0 < n && is_step(
                    steps[a],
                    jobs,
                    inputs,
                )
            &&& forall|i: int|
                0 <= i < n ==> #[trigger] steps.contains(StepView::InputDone(i as usize))
            &&& forall|i: int, group: RegionFileGroup|
                0 <= i < n && (#[trigger] group_jobs(jobs, i, group)).len() > 0 ==> steps.contains(
                    stage_at(jobs, inputs, i, group),
                )
        }),
    decreases n,
{
    if n > 0 {
        let last = n - 1;
        law_steps_are_in_order(jobs, inputs, last as nat);
        lemma_stages(jobs, inputs, last);
        let before = convert::steps_of(jobs, inputs, last as nat);
        let first = stage_if_any(jobs, inputs, last, RegionFileGroup::Regions);
        let second = stage_if_any(jobs, inputs, last, RegionFileGroup::Entities);
        let third = stage_if_any(jobs, inputs, last, RegionFileGroup::Poi);
        let done = StepView::InputDone(last as usize);
        let steps = convert::steps_of(jobs, inputs, n);
        let new = (first + second + third).push(done);
        assert(steps =~= before + new);
        assert forall|a: int| 0 <= a < new.len() implies place_of(#[trigger] new[a]).0 == last
            && is_step(new[a], jobs, inputs) by {}
        assert forall|a: int, b: int| 0 <= a < b < new.len() implies comes_before(
            place_of(#[trigger] new[a]),
            place_of(#[trigger] new[b]),
        ) by {}
        assert forall|a: int| 0 <= a < steps.len() implies #[trigger] steps[a] == if a
            < before.len() {
            before[a]
        } else {
            new[a - before.len()]
        } by {}
        assert forall|a: int, b: int| 0 <= a < b < steps.len() implies comes_before(
            place_of(#[trigger] steps[a]),
            place_of(#[trigger] steps[b]),
        ) by {
            if b < before.len() {
                assert(comes_before(place_of(before[a]), place_of(before[b])));
            } else if a < before.len() {
                assert(place_of(before[a]).0 < last);
                assert(place_of(new[b - before.len()]).0 == last);
            } else {
                assert(comes_before(
                    place_of(new[a - before.len()]),
                    place_of(new[b - before.len()]),
                ));
            }
        }
        assert forall|step: StepView|
            before.contains(step) || new.contains(step) implies #[trigger] steps.contains(step) by {
            if before.contains(step) {
                let a = choose|a: int| 0 <= a < before.len() && before[a] == step;
                assert(steps[a] == step);
            } else {
                let a = choose|a: int| 0 <= a < new.len() && new[a] == step;
                assert(steps[before.len() + a] == step);
            }
        }
        assert(new[new.len() - 1] == done);
        assert forall|i: int| 0 <= i < n implies #[trigger] steps.contains(
            StepView::InputDone(i as usize),
        ) by {
            if i < last {
                assert(before.contains(StepView::InputDone(i as usize)));
            } else {
                assert(new.contains(done));
            }
        }
        assert forall|i: int, group: RegionFileGroup|
            0 <= i < n && (#[trigger] group_jobs(jobs, i, group)).len()
                > 0 implies steps.contains(stage_at(jobs, inputs, i, group)) by {
            let step = stage_at(jobs, inputs, i, group);
            if i < last {
                assert(before.contains(step));
            } else {
                match group {
                    RegionFileGroup::Regions => {
                        assert(new[0] == step);
                    },
                    RegionFileGroup::Entities => {
                        assert(new[first.len() as int] == step);
                    },
                    RegionFileGroup::Poi => {
                        assert(new[(first + second).len() as int] == step);
                    },
                }
                assert(new.contains(step));
            }
        }
    }
}

/// The sum of what `amount` tells of each report.
pub open spec fn sum_over(reports: Seq<ReportView>, amount: spec_fn(ReportView) -> nat) -> nat
    decreases reports.len(),
{
    if reports.len() == 0 {
        0
    } else {
        sum_over(reports.drop_last(), amount) + amount(reports.last())
    }
}

/// The totals of a run are the number of reports of success and of failure, and the sums of
/// the chunks that were written, of those that were given up, and of the warnings.
pub proof fn law_totals_are_sums(reports: Seq<ReportView>)
    requires
        convert::countable(reports),
        forall|i: int|
            0 <= i < reports.len() ==> {
                &&& (#[trigger] reports[i]).diagnostics.len() <= usize::MAX
                &&& reports[i].discarded_chunks <= usize::MAX
                &&& reports[i].outcome matches Ok(chunks) ==> chunks <= usize::MAX
            },
    ensures
        ({
            let totals = convert::totals_of(reports);
            &&& totals.successful_jobs == reports.filter(
                |report: ReportView| report.outcome is Ok,
            ).len()
            &&& totals.failed_jobs == reports.filter(
                |report: ReportView| report.outcome is Err,
            ).len()
            &&& totals.chunks_written == sum_over(
                reports,
                |report: ReportView|
                    match report.outcome {
                        Ok(chunks) => chunks,
                        Err(_) => 0,
                    },
            )
            &&& totals.discarded_chunks == sum_over(
                reports,
                |report: ReportView| report.discarded_chunks,
            )
            &&& totals.warnings == sum_over(
                reports,
                |report: ReportView|
                    report.diagnostics.filter(
                        |d: DiagnosticView| d.level == DiagnosticLevel::Warning,
                    ).len(),
            )
        }),
    decreases reports.len(),
{
    reveal(Seq::filter);
    if reports.len() > 0 {
        let before = reports.drop_last();
        let last = reports.last();
        assert forall|i: int| 0 <= i < before.len() implies {
            &&& (#[trigger] before[i]).diagnostics.len() <= usize::MAX
            &&& before[i].discarded_chunks <= usize::MAX
            &&& before[i].outcome matches Ok(chunks) ==> chunks <= usize::MAX
        } by {
            assert(before[i] == reports[i]);
        }
        law_totals_are_sums(before);
        assert(reports[reports.len() - 1] == last);
        law_warnings_are_counted(last.diagnostics);
        diagnostic::lemma_warnings_bounded(last.diagnostics);
    }
}

/// The warnings among some diagnostics are counted.
pub proof fn law_warnings_are_counted(diagnostics: Seq<DiagnosticView>)
    ensures
        diagnostic::warnings_in(diagnostics) == diagnostics.filter(
            |d: DiagnosticView| d.level == DiagnosticLevel::Warning,
        ).len(),
    decreases diagnostics.len(),
{
    reveal(Seq::filter);
    if diagnostics.len() > 0 {
        law_warnings_are_counted(diagnostics.drop_last());
    }
}

/// The samples of the recent rate that are kept are the last ones, from the first that is
/// no more than half a minute old; one sample alone is kept whatever its age.
pub proof fn law_old_samples_are_dropped(samples: Seq<(u64, usize)>, elapsed: u64)
    ensures
        ({
            let kept = convert::kept_samples(samples, elapsed);
            let dropped = samples.len() - kept.len();
            &&& 0 <= dropped
            &&& kept == samples.skip(dropped)
            &&& samples.len() < 2 ==> dropped == 0
            &&& forall|i: int|
                0 <= i < dropped ==> (#[trigger] samples[i]).0 + 30_000_000_000 < elapsed
            &&& samples.len() >= 2 && kept.len() > 0 ==> kept[0].0 + 30_000_000_000 >= elapsed
        }),
{
    lemma_recent_samples(samples, elapsed);
    assert(samples.skip(0) =~= samples);
}

proof fn lemma_recent_samples(samples: Seq<(u64, usize)>, elapsed: u64)
    ensures
        ({
            let kept = convert::recent_samples(samples, elapsed);
            let dropped = samples.len() - kept.len();
            &&& 0 <= dropped
            &&& kept == samples.skip(dropped)
            &&& forall|i: int|
                0 <= i < dropped ==> (#[trigger] samples[i]).0 + 30_000_000_000 < elapsed
            &&& kept.len() > 0 ==> kept[0].0 + 30_000_000_000 >= elapsed
        }),
    decreases samples.len(),
{
    let kept = convert::recent_samples(samples, elapsed);
    if samples.len() == 0 || samples[0].0 + 30_000_000_000 >= elapsed {
        assert(samples.skip(0) =~= samples);
    } else {
        let rest = samples.skip(1);
        lemma_recent_samples(rest, elapsed);
        let dropped = samples.len() - kept.len();
        assert(kept =~= samples.skip(dropped));
        assert forall|i: int| 0 <= i < dropped implies (#[trigger] samples[i]).0 + 30_000_000_000
            < elapsed by {
            if i > 0 {
                assert(rest[i - 1] == samples[i]);
            }
        }
    }
}

/// The recent rate is that of the kept samples since the first of them, over a
/// millisecond at least, or that of the whole run where fewer than two are kept.
pub proof fn law_recent_rate(samples: Seq<(u64, usize)>, total: usize, elapsed: u64)
    ensures
        ({
            let kept = convert::kept_samples(samples, elapsed);
            let rate = convert::rate_of(samples, total, elapsed);
            if kept.len() < 2 {
                rate == ChunkRate { chunks: total, nanos: elapsed }
            } else {
                &&& rate.nanos >= 1_000_000
                &&& rate.nanos > 1_000_000 ==> kept[0].0 + rate.nanos == elapsed
                &&& kept[0].0 + 1_000_000 < elapsed ==> kept[0].0 + rate.nanos == elapsed
                &&& convert::samples_total(kept) <= usize::MAX ==> rate.chunks
                    == convert::samples_total(kept)
                &&& rate.nanos <= 30_000_000_000
            }
        }),
{
    law_old_samples_are_dropped(samples, elapsed);
}

/// The sum of the lengths of some pieces.
pub open spec fn lengths_sum(units: Seq<EncodedUnit>, raw: bool) -> nat
    decreases units.len(),
{
    if units.len() == 0 {
        0
    } else {
        lengths_sum(units.drop_last(), raw) + if raw {
            units.last().raw_len as nat
        } else {
            units.last().compressed_len as nat
        }
    }
}

/// Each piece that was compressed is counted, and their lengths are added up, as far as
/// the sum can be told.
pub proof fn law_units_are_added_up(units: Seq<EncodedUnit>)
    ensures
        ({
            let (count, raw, compressed) = convert::unit_totals(units);
            &&& count == units.len()
            &&& raw == if lengths_sum(units, true) <= u64::MAX {
                lengths_sum(units, true)
            } else {
                u64::MAX as nat
            }
            &&& compressed == if lengths_sum(units, false) <= u64::MAX {
                lengths_sum(units, false)
            } else {
                u64::MAX as nat
            }
        }),
    decreases units.len(),
{
    if units.len() > 0 {
        law_units_are_added_up(units.drop_last());
    }
}

/// The profile of a job tells what it waited for and took as far as it came, and the parts
/// of the encoding where they were measured: those add up to the whole, or to more where
/// they overlap.
pub proof fn law_profile_tells_the_times(
    size: u64,
    times: JobTimes,
    units: Seq<EncodedUnit>,
    profiled: bool,
    end: JobEnd,
)
    ensures
        ({
            let profile = convert::profile_of(size, times, units, profiled, end);
            let parts = times.encode_compress + times.encode_file_write + times.output_commit;
            &&& profile.estimated_size_bytes == size
            &&& profile.wait_memory == times.wait_memory
            &&& profile.wait_decode_io == times.wait_decode_io
            &&& profile.total == times.total
            &&& if end == JobEnd::DecodeFailed {
                profile.wait_write_io == 0 && profile.decode == 0
            } else {
                profile.wait_write_io == times.wait_write_io && profile.decode == times.decode
            }
            &&& profile.encode_write == if end == JobEnd::Finished {
                times.encode_write
            } else {
                0
            }
            &&& if end == JobEnd::Finished && profiled {
                &&& profile.encode_compress == times.encode_compress
                &&& profile.encode_file_write == times.encode_file_write
                &&& profile.output_commit == times.output_commit
                &&& profile.encode_other_cpu == if parts < times.encode_write {
                    times.encode_write - parts
                } else {
                    0
                }
                &&& units.len() <= usize::MAX ==> profile.encoded_units == units.len()
                &&& profile.raw_payload_bytes == convert::unit_totals(units).1
                &&& profile.compressed_payload_bytes == convert::unit_totals(units).2
            } else {
                &&& profile.encode_compress == 0
                &&& profile.encode_file_write == 0
                &&& profile.output_commit == 0
                &&& profile.encode_other_cpu == 0
                &&& profile.encoded_units == 0
                &&& profile.raw_payload_bytes == 0
                &&& profile.compressed_payload_bytes == 0
            }
        }),
{
    law_units_are_added_up(units);
}

/// A snapshot tells the totals, and that as many jobs are done as succeeded or failed.
pub proof fn law_snapshot_tells_the_totals(
    total_jobs: usize,
    totals: ReportStats,
    rate: ChunkRate,
    elapsed: u64,
)
    requires
        totals.successful_jobs + totals.failed_jobs <= usize::MAX,
    ensures
        ({
            let snapshot = convert::snapshot_of(total_jobs, totals, rate, elapsed);
            &&& snapshot.total_jobs == total_jobs
            &&& snapshot.completed_jobs == snapshot.successful_jobs + snapshot.failed_jobs
            &&& snapshot.successful_jobs == totals.successful_jobs
            &&& snapshot.failed_jobs == totals.failed_jobs
            &&& snapshot.successful_chunks == totals.chunks_written
            &&& snapshot.discarded_chunks == totals.discarded_chunks
            &&& snapshot.warnings == totals.warnings
            &&& snapshot.recent_chunk_rate == rate
            &&& snapshot.elapsed == elapsed
        }),
{
}

/// What a run has taken grows by what each job has taken.
pub proof fn law_profile_grows_by_each_job(
    summary: ProfileView,
    source: PathView,
    profile: JobProfile,
)
    ensures
        ({
            let after = convert::profile_added(summary, source, profile);
            &&& after.memory_budget_bytes == summary.memory_budget_bytes
            &&& after.estimated_input_bytes - summary.estimated_input_bytes
                == profile.estimated_size_bytes
            &&& after.wait_memory - summary.wait_memory == profile.wait_memory
            &&& after.wait_decode_io - summary.wait_decode_io == profile.wait_decode_io
            &&& after.wait_write_io - summary.wait_write_io == profile.wait_write_io
            &&& after.decode - summary.decode == profile.decode
            &&& after.encode_compress - summary.encode_compress == profile.encode_compress
            &&& after.encode_other_cpu - summary.encode_other_cpu == profile.encode_other_cpu
            &&& after.encode_file_write - summary.encode_file_write == profile.encode_file_write
            &&& after.output_commit - summary.output_commit == profile.output_commit
            &&& after.encode_write - summary.encode_write == profile.encode_write
            &&& after.total_job_time - summary.total_job_time == profile.total
            &&& after.encoded_units - summary.encoded_units == profile.encoded_units
            &&& after.raw_payload_bytes - summary.raw_payload_bytes == profile.raw_payload_bytes
            &&& after.compressed_payload_bytes - summary.compressed_payload_bytes
                == profile.compressed_payload_bytes
        }),
{
}

/// Of the jobs of a run the five that took longest to write are kept: a job that takes no
/// longer than five others is not, and any other is, with its source and its times.
pub proof fn law_five_slowest_jobs_are_kept(
    jobs: Seq<ProfiledJobView>,
    job: ProfiledJobView,
)
    requires
        convert::by_slowness(jobs),
    ensures
        ({
            let kept = convert::foremost(convert::ranked(jobs, job));
            &&& kept.len() == if jobs.len() < 5 {
                jobs.len() + 1
            } else {
                5
            }
            &&& convert::by_slowness(kept)
            &&& jobs.len() < 5 || jobs[4].profile.encode_write < job.profile.encode_write
                ==> kept.contains(job)
            &&& jobs.len() >= 5 && jobs[4].profile.encode_write >= job.profile.encode_write ==> kept
                == jobs.take(5)
        }),
{
    let ranked = convert::ranked(jobs, job);
    let kept = convert::foremost(ranked);
    convert::law_slowest_jobs_are_kept(jobs, job);
    let at = convert::lemma_rank(jobs, job);
    assert(ranked.len() == jobs.len() + 1);
    assert(ranked[at] == job);
    if jobs.len() < 5 || jobs[4].profile.encode_write < job.profile.encode_write {
        if jobs.len() >= 5 && at > 4 {
            assert(jobs[4].profile.encode_write >= jobs[at - 1].profile.encode_write);
        }
        assert(kept[at] == job);
    } else {
        if at < 5 {
            assert(jobs[4].profile.encode_write < job.profile.encode_write);
        }
        assert(kept =~= jobs.take(5));
    }
}

/// A job is encoded as its region is, and where that cannot be, the message says why.
pub proof fn law_job_is_encoded_as_its_region(
    region: RegionView,
    destination: PathView,
    target: RegionFormat,
    level: i32,
    profiled: bool,
)
    ensures
        match convert::job_encoded(region, destination, target, level, profiled) {
            Ok(encoded) => formats::encoded_region(region, target, level, profiled) == Ok::<
                EncodedView,
                RegionFault,
            >(encoded),
            Err(message) => {
                &&& formats::encoded_region(region, target, level, profiled) matches Err(fault)
                &&& message == error::region_error_text(fault.kind, fault.detail, destination)
            },
        },
{
}

/// The chunks of the samples are added up.
pub proof fn law_samples_are_added_up(samples: Seq<(u64, usize)>, more: (u64, usize))
    ensures
        convert::samples_total(seq![]) == 0,
        convert::samples_total(samples.push(more)) == convert::samples_total(samples) + more.1,
{
    assert(samples.push(more).drop_last() =~= samples);
}

/// A slow job is kept with its source and its times but for those that it waited.
pub proof fn law_slow_job_keeps_its_times(
    summary: ProfileView,
    source: PathView,
    profile: JobProfile,
)
    requires
        convert::by_slowness(summary.slowest_jobs),
        summary.slowest_jobs.len() < 5,
    ensures
        ({
            let kept = convert::profile_added(summary, source, profile).slowest_jobs;
            exists|i: int|
                0 <= i < kept.len() && is_kept_as(#[trigger] kept[i], source, profile)
        }),
{
    let job = ProfiledJobView { source_file: source, profile: convert::kept_profile(profile) };
    law_five_slowest_jobs_are_kept(summary.slowest_jobs, job);
    let kept = convert::profile_added(summary, source, profile).slowest_jobs;
    let i = choose|i: int| 0 <= i < kept.len() && kept[i] == job;
    assert(is_kept_as(kept[i], source, profile));
}

/// Whether a job is kept with that source and those times.
pub open spec fn is_kept_as(
    job: ProfiledJobView,
    source: PathView,
    profile: JobProfile,
) -> bool {
    &&& job.source_file == source
    &&& job.profile.estimated_size_bytes == profile.estimated_size_bytes
    &&& job.profile.decode == profile.decode
    &&& job.profile.encode_compress == profile.encode_compress
    &&& job.profile.encode_file_write == profile.encode_file_write
    &&& job.profile.output_commit == profile.output_commit
    &&& job.profile.encode_write == profile.encode_write
    &&& job.profile.total == profile.total
    &&& job.profile.encoded_units == profile.encoded_units
    &&& job.profile.raw_payload_bytes == profile.raw_payload_bytes
    &&& job.profile.compressed_payload_bytes == profile.compressed_payload_bytes
}

/// What a report adds is counted wherever the sums can be told, and a profile likewise.
pub proof fn law_what_fits_is_counted(
    a: ReportStats,
    b: ReportStats,
    summary: ProfileView,
    source: PathView,
    profile: JobProfile,
)
    ensures
        a.successful_jobs + b.successful_jobs + a.failed_jobs + b.failed_jobs <= usize::MAX
            && a.chunks_written + b.chunks_written <= usize::MAX && a.discarded_chunks
            + b.discarded_chunks <= usize::MAX && a.warnings + b.warnings <= usize::MAX
            ==> convert::stats_fit(a, b),
        convert::stats_fit(a, b) ==> {
            let sum = convert::stats_sum(a, b);
            &&& sum.successful_jobs == a.successful_jobs + b.successful_jobs
            &&& sum.failed_jobs == a.failed_jobs + b.failed_jobs
            &&& sum.chunks_written == a.chunks_written + b.chunks_written
            &&& sum.discarded_chunks == a.discarded_chunks + b.discarded_chunks
            &&& sum.warnings == a.warnings + b.warnings
        },
        ({
            let after = convert::profile_added(summary, source, profile);
            after.estimated_input_bytes <= u64::MAX && after.wait_memory <= u128::MAX
                && after.wait_decode_io <= u128::MAX && after.wait_write_io <= u128::MAX
                && after.decode <= u128::MAX && after.encode_compress <= u128::MAX
                && after.encode_other_cpu <= u128::MAX && after.encode_file_write <= u128::MAX
                && after.output_commit <= u128::MAX && after.encode_write <= u128::MAX
                && after.total_job_time <= u128::MAX && after.encoded_units <= usize::MAX
                && after.raw_payload_bytes <= u64::MAX && after.compressed_payload_bytes <= u64::MAX
                <==> convert::profile_fits(summary, profile)
        }),
{
}

/// A run can count a report wherever the sums can be told.
pub proof fn law_run_takes_what_fits(run: SummaryAccumulator, report: ReportView)
    ensures
        run.can_take(report) <==> {
            &&& convert::stats_fit(run.progress.totals, convert::stats_of(report))
            &&& match run.profile {
                Some(summary) => convert::profile_fits(summary@, report.profile),
                None => true,
            }
        },
        ({
            let stats = convert::stats_of(report);
            &&& stats.successful_jobs + stats.failed_jobs == 1
            &&& stats.successful_jobs == 1 <==> report.outcome is Ok
            &&& report.outcome is Err ==> stats.chunks_written == 0
            &&& report.outcome matches Ok(chunks) ==> chunks <= usize::MAX ==> stats.chunks_written
                == chunks
        }),
{
}

} // verus!
