//! A conversion run: its stages, what becomes of each job, and what the run comes to.
//!
//! Times are counted in nanoseconds.

use std::collections::VecDeque;

use vstd::prelude::*;
use vstd::string::*;

use crate::diagnostic::{self, warning_count, Diagnostic, DiagnosticCode, DiagnosticView};
use crate::discovery::{
    self, InputDiscovery, InputKind, Job, JobView, RegionFileGroup,
};
use crate::error;
use crate::formats::mca::ExternalChunk;
use crate::formats::{
    self, decode_region, encode_region_profiled, DecodedRegion, EncodedRegion, EncodedUnit,
    ReadView, RegionFormat, SourceFormatHint,
};
use crate::model::{self, Region};
use crate::path::{PathView, SavePath};
use crate::sort;
use crate::text;
use crate::writer;

verus! {

/// Which part of a job is under way.
#[derive(Clone, Copy, Debug, PartialEq, Eq, Structural)]
pub enum JobStage {
    Decode,
    Encode,
    Write,
}

/// What a job has taken, and what it has compressed.
#[derive(Clone, Copy, Debug, PartialEq, Eq, Structural)]
pub struct JobProfile {
    pub estimated_size_bytes: u64,
    pub wait_memory: u64,
    pub wait_decode_io: u64,
    pub wait_write_io: u64,
    pub decode: u64,
    pub encode_compress: u64,
    pub encode_other_cpu: u64,
    pub encode_file_write: u64,
    pub output_commit: u64,
    pub encode_write: u64,
    pub total: u64,
    pub encoded_units: usize,
    pub raw_payload_bytes: u64,
    pub compressed_payload_bytes: u64,
}

#[derive(Debug)]
pub struct JobSuccess {
    pub source_file: SavePath,
    pub destination_file: SavePath,
    pub source_format: Option<RegionFormat>,
    pub target_format: RegionFormat,
    pub chunk_count: usize,
    pub discarded_chunks: usize,
    pub diagnostics: Vec<Diagnostic>,
    pub profile: JobProfile,
}

#[derive(Debug)]
pub struct JobFailure {
    pub source_file: SavePath,
    pub destination_file: SavePath,
    pub source_format: Option<RegionFormat>,
    pub target_format: RegionFormat,
    pub discarded_chunks: usize,
    pub diagnostics: Vec<Diagnostic>,
    pub error: Diagnostic,
    pub profile: JobProfile,
}

/// What became of a job.
#[derive(Debug)]
pub enum JobReport {
    Success(JobSuccess),
    Failure(JobFailure),
}

/// What a report says.
#[verifier::ext_equal]
pub struct ReportView {
    pub source_file: PathView,
    pub destination_file: PathView,
    pub source_format: Option<RegionFormat>,
    pub target_format: RegionFormat,
    /// The number of chunks written, or what went wrong.
    pub outcome: Result<nat, DiagnosticView>,
    pub discarded_chunks: nat,
    pub diagnostics: Seq<DiagnosticView>,
    pub profile: JobProfile,
}

impl View for JobReport {
    type V = ReportView;

    open spec fn view(&self) -> ReportView {
        match self {
            JobReport::Success(report) => ReportView {
                source_file: report.source_file@,
                destination_file: report.destination_file@,
                source_format: report.source_format,
                target_format: report.target_format,
                outcome: Ok(report.chunk_count as nat),
                discarded_chunks: report.discarded_chunks as nat,
                diagnostics: diagnostic::diagnostic_views(report.diagnostics@),
                profile: report.profile,
            },
            JobReport::Failure(report) => ReportView {
                source_file: report.source_file@,
                destination_file: report.destination_file@,
                source_format: report.source_format,
                target_format: report.target_format,
                outcome: Err(report.error@),
                discarded_chunks: report.discarded_chunks as nat,
                diagnostics: diagnostic::diagnostic_views(report.diagnostics@),
                profile: report.profile,
            },
        }
    }
}

/// The format that is known before a source is read.
pub open spec fn known_format(hint: SourceFormatHint) -> Option<RegionFormat> {
    match hint {
        SourceFormatHint::Mca => Some(RegionFormat::Mca),
        SourceFormatHint::Linear => Some(RegionFormat::Linear),
        SourceFormatHint::BlinearFamily => None,
        SourceFormatHint::BlinearV2 => Some(RegionFormat::BlinearV2),
        SourceFormatHint::BlinearV3 => Some(RegionFormat::BlinearV3),
    }
}

/// The format that is known before a source is read.
pub fn hinted_region_format(hint: SourceFormatHint) -> (format: Option<RegionFormat>)
    ensures
        format == known_format(hint),
{
    match hint {
        SourceFormatHint::Mca => Some(RegionFormat::Mca),
        SourceFormatHint::Linear => Some(RegionFormat::Linear),
        SourceFormatHint::BlinearFamily => None,
        SourceFormatHint::BlinearV2 => Some(RegionFormat::BlinearV2),
        SourceFormatHint::BlinearV3 => Some(RegionFormat::BlinearV3),
    }
}

/// Where a format is known before a source is read, the source is read as that.
pub proof fn law_known_format_is_used(hint: SourceFormatHint, bytes: Seq<u8>)
    requires
        known_format(hint) is Some,
    ensures
        formats::hinted_format(hint, bytes) == Ok::<RegionFormat, error::RegionErrorKind>(
            known_format(hint)->0,
        ),
{
}

/// What marks the message of a refusal to overwrite a file.
pub open spec fn safety_mark() -> Seq<char> {
    "replacing the sidecars plus header atomically is not currently safe"@
}

/// The diagnostic of a job that failed in the given stage with that message.
pub open spec fn failure_diagnostic(
    stage: JobStage,
    source: PathView,
    destination: PathView,
    message: Seq<char>,
) -> DiagnosticView {
    match stage {
        JobStage::Decode => diagnostic::error_view(
            DiagnosticCode::CorruptRegion,
            message,
        ).at_path(source),
        JobStage::Encode => diagnostic::error_view(
            DiagnosticCode::InvalidMetadata,
            message,
        ).at_path(source),
        JobStage::Write => diagnostic::error_view(
            if text::contains_text(message, safety_mark()) {
                DiagnosticCode::OutputSafety
            } else {
                DiagnosticCode::Io
            },
            message,
        ).at_path(destination),
    }
}

/// A text holds what it ends with.
proof fn lemma_contained(before: Seq<char>, part: Seq<char>)
    ensures
        text::contains_text(before + part, part),
{
    let at = before.len() as int;
    assert((before + part).subrange(at, at + part.len()) =~= part);
}

/// A job that would overwrite a file with chunk files of its own fails with an error
/// about the safety of the output.
pub proof fn law_refusal_is_about_safety(
    source: PathView,
    destination: PathView,
    target: RegionFormat,
)
    ensures
        failure_diagnostic(
            JobStage::Write,
            source,
            destination,
            write_failure_text(source, target, writer::refusal_text(destination)),
        ).code == DiagnosticCode::OutputSafety,
{
    let reason =
        " because it already uses external .mcc chunks and replacing the sidecars plus header atomically is not currently safe"@;
    let start = " because it already uses external .mcc chunks and "@;
    reveal_strlit(
        " because it already uses external .mcc chunks and replacing the sidecars plus header atomically is not currently safe",
    );
    reveal_strlit(" because it already uses external .mcc chunks and ");
    reveal_strlit("replacing the sidecars plus header atomically is not currently safe");
    assert(reason =~= start + safety_mark());
    let head = "failed to encode and write "@ + source.text() + " as "@ + formats::format_text(
        target,
    ) + ": "@;
    let before = head + ("refusing to overwrite "@ + destination.text()) + start;
    assert(write_failure_text(source, target, writer::refusal_text(destination)) =~= before
        + safety_mark());
    lemma_contained(before, safety_mark());
}

/// The diagnostic of a job that failed in `stage` with `message`.
pub fn build_failure_diagnostic(
    stage: JobStage,
    source_file: &SavePath,
    destination_file: &SavePath,
    message: String,
) -> (result: Diagnostic)
    ensures
        result@ == failure_diagnostic(stage, source_file@, destination_file@, message@),
{
    match stage {
        JobStage::Decode => Diagnostic::error(DiagnosticCode::CorruptRegion, message).with_path(
            source_file,
        ),
        JobStage::Encode => Diagnostic::error(DiagnosticCode::InvalidMetadata, message).with_path(
            source_file,
        ),
        JobStage::Write => {
            let unsafe_overwrite = text::contains(
                message.as_str(),
                "replacing the sidecars plus header atomically is not currently safe",
            );
            let code = if unsafe_overwrite {
                DiagnosticCode::OutputSafety
            } else {
                DiagnosticCode::Io
            };
            Diagnostic::error(code, message).with_path(destination_file)
        },
    }
}

/// The files of a source: the region file, and the chunk files beside it.
#[derive(Debug)]
pub struct SourceFiles {
    pub bytes: Vec<u8>,
    pub externals: Vec<ExternalChunk>,
}

/// What decoding a job gives: the region, or the message of the error. The files of
/// the source are at hand, or it is known why they are not.
pub open spec fn job_decoded(
    source: PathView,
    hint: SourceFormatHint,
    files: Result<SourceFiles, String>,
) -> Result<(RegionFormat, ReadView), Seq<char>> {
    let head = "failed to decode "@ + source.text() + ": "@;
    match files {
        Err(text) => Err(head + text@),
        Ok(files) => match formats::decoded_region(
            source,
            files.bytes@,
            files.externals@,
            hint,
        ) {
            Err(fault) => Err(head + error::region_error_text(fault.kind, fault.detail, source)),
            Ok(decoded) => Ok(decoded),
        },
    }
}

/// Decodes the source of `job`.
pub fn decode_job(job: &Job, files: Result<SourceFiles, String>) -> (result: Result<
    DecodedRegion,
    String,
>)
    ensures
        match result {
            Ok(decoded) => {
                &&& job_decoded(job.source_file@, job.source_format, files) == Ok::<
                    (RegionFormat, ReadView),
                    Seq<char>,
                >((decoded.format, decoded.outcome@))
                &&& decoded.outcome.well_formed()
            },
            Err(message) => job_decoded(job.source_file@, job.source_format, files) == Err::<
                (RegionFormat, ReadView),
                Seq<char>,
            >(message@),
        },
{
    let mut message = "failed to decode ".to_owned();
    message.append(job.source_file.text().as_str());
    message.append(": ");
    match files {
        Err(text) => {
            message.append(text.as_str());
            Err(message)
        },
        Ok(files) => match decode_region(
            &job.source_file,
            files.bytes.as_slice(),
            &files.externals,
            job.source_format,
        ) {
            Ok(decoded) => Ok(decoded),
            Err(error) => {
                message.append(error.message(&job.source_file).as_str());
                Err(message)
            },
        },
    }
}

/// What encoding a region gives: its files, or the message of the error.
pub open spec fn job_encoded(
    region: model::RegionView,
    destination: PathView,
    target: RegionFormat,
    level: i32,
    profiled: bool,
) -> Result<formats::EncodedView, Seq<char>> {
    match formats::encoded_region(region, target, level, profiled) {
        Ok(encoded) => Ok(encoded),
        Err(fault) => Err(error::region_error_text(fault.kind, fault.detail, destination)),
    }
}

/// Encodes the region of a job for the file `destination`.
pub fn encode_job(
    region: &Region,
    destination: &SavePath,
    target_format: RegionFormat,
    compression_level: i32,
    profiled: bool,
) -> (result: Result<EncodedRegion, String>)
    requires
        region.well_formed(),
        target_format == RegionFormat::Mca ==> 0 <= compression_level <= 10,
    ensures
        match result {
            Ok(encoded) => job_encoded(
                region@,
                destination@,
                target_format,
                compression_level,
                profiled,
            ) == Ok::<formats::EncodedView, Seq<char>>(encoded@),
            Err(message) => job_encoded(
                region@,
                destination@,
                target_format,
                compression_level,
                profiled,
            ) == Err::<formats::EncodedView, Seq<char>>(message@),
        },
        result matches Ok(encoded) ==> formats::storable(region@.chunks, target_format)
            ==> forall|path: PathView, externals: Seq<ExternalChunk>|
            formats::stored_at(path, externals, region@, target_format, encoded@)
                ==> #[trigger] formats::read_outcome(
                path,
                encoded.main_file_bytes@,
                externals,
                target_format,
            ) == Ok::<ReadView, error::RegionFault>(
                formats::all_read(formats::stored_region(region@, target_format)),
            ),
{
    match encode_region_profiled(region, target_format, compression_level, profiled) {
        Ok(encoded) => Ok(encoded),
        Err(error) => Err(error.message(destination)),
    }
}

/// What was measured of a job.
#[derive(Clone, Copy, Debug, PartialEq, Eq, Structural)]
pub struct JobTimes {
    pub wait_memory: u64,
    pub wait_decode_io: u64,
    pub decode: u64,
    pub wait_write_io: u64,
    pub encode_compress: u64,
    pub encode_file_write: u64,
    pub output_commit: u64,
    pub encode_write: u64,
    pub total: u64,
}

/// The sum of two numbers, or the greatest number where it is greater.
pub open spec fn capped_sum(a: u64, b: u64) -> u64 {
    if a + b > u64::MAX {
        u64::MAX
    } else {
        (a + b) as u64
    }
}

/// The number of pieces that were compressed, and their lengths before and after.
pub open spec fn unit_totals(units: Seq<EncodedUnit>) -> (nat, u64, u64)
    decreases units.len(),
{
    if units.len() == 0 {
        (0, 0, 0)
    } else {
        let (count, raw, compressed) = unit_totals(units.drop_last());
        (
            count + 1,
            capped_sum(raw, units.last().raw_len as u64),
            capped_sum(compressed, units.last().compressed_len as u64),
        )
    }
}

/// How far a job came.
#[derive(Clone, Copy, Debug, PartialEq, Eq, Structural)]
pub enum JobEnd {
    DecodeFailed,
    WriteFailed,
    Finished,
}

/// The profile of a job that came so far: what it did not come to is not counted.
pub open spec fn profile_of(
    size: u64,
    times: JobTimes,
    units: Seq<EncodedUnit>,
    profiled: bool,
    end: JobEnd,
) -> JobProfile {
    let (count, raw, compressed) = unit_totals(units);
    let decoded = end != JobEnd::DecodeFailed;
    let detailed = end == JobEnd::Finished && profiled;
    let accounted = capped_sum(
        capped_sum(times.encode_compress, times.encode_file_write),
        times.output_commit,
    );
    JobProfile {
        estimated_size_bytes: size,
        wait_memory: times.wait_memory,
        wait_decode_io: times.wait_decode_io,
        wait_write_io: if decoded {
            times.wait_write_io
        } else {
            0
        },
        decode: if decoded {
            times.decode
        } else {
            0
        },
        encode_compress: if detailed {
            times.encode_compress
        } else {
            0
        },
        encode_other_cpu: if detailed && times.encode_write > accounted {
            (times.encode_write - accounted) as u64
        } else {
            0
        },
        encode_file_write: if detailed {
            times.encode_file_write
        } else {
            0
        },
        output_commit: if detailed {
            times.output_commit
        } else {
            0
        },
        encode_write: if end == JobEnd::Finished {
            times.encode_write
        } else {
            0
        },
        total: times.total,
        encoded_units: if detailed {
            count as usize
        } else {
            0
        },
        raw_payload_bytes: if detailed {
            raw
        } else {
            0
        },
        compressed_payload_bytes: if detailed {
            compressed
        } else {
            0
        },
    }
}

/// The profile of a job that came so far.
pub fn job_profile(
    estimated_size_bytes: u64,
    times: JobTimes,
    units: &Vec<EncodedUnit>,
    profile_enabled: bool,
    end: JobEnd,
) -> (profile: JobProfile)
    ensures
        profile == profile_of(estimated_size_bytes, times, units@, profile_enabled, end),
{
    let mut raw: u64 = 0;
    let mut compressed: u64 = 0;
    let mut i: usize = 0;
    while i < units.len()
        invariant
            i <= units.len(),
            unit_totals(units@.take(i as int)) == (i as nat, raw, compressed),
        decreases units.len() - i,
    {
        assert(units@.take(i + 1).drop_last() =~= units@.take(i as int));
        raw = raw.saturating_add(units[i].raw_len as u64);
        compressed = compressed.saturating_add(units[i].compressed_len as u64);
        i = i + 1;
    }
    assert(units@.take(i as int) =~= units@);
    let decoded = end != JobEnd::DecodeFailed;
    let finished = end == JobEnd::Finished;
    let mut profile = JobProfile {
        estimated_size_bytes,
        wait_memory: times.wait_memory,
        wait_decode_io: times.wait_decode_io,
        wait_write_io: 0,
        decode: 0,
        encode_compress: 0,
        encode_other_cpu: 0,
        encode_file_write: 0,
        output_commit: 0,
        encode_write: 0,
        total: times.total,
        encoded_units: 0,
        raw_payload_bytes: 0,
        compressed_payload_bytes: 0,
    };
    if decoded {
        profile.wait_write_io = times.wait_write_io;
        profile.decode = times.decode;
    }
    if finished {
        profile.encode_write = times.encode_write;
    }
    if finished && profile_enabled {
        let accounted = times.encode_compress.saturating_add(
            times.encode_file_write,
        ).saturating_add(times.output_commit);
        profile.encode_compress = times.encode_compress;
        profile.encode_file_write = times.encode_file_write;
        profile.output_commit = times.output_commit;
        profile.encode_other_cpu = times.encode_write.saturating_sub(accounted);
        profile.encoded_units = units.len();
        profile.raw_payload_bytes = raw;
        profile.compressed_payload_bytes = compressed;
    }
    profile
}

/// What the writing of a region came to: what was written, or the message of the
/// error.
pub type WriteOutcome = Result<EncodedRegion, String>;

/// The message of a job whose region could not be written.
pub open spec fn write_failure_text(source: PathView, target: RegionFormat, text: Seq<char>) -> Seq<
    char,
> {
    "failed to encode and write "@ + source.text() + " as "@ + formats::format_text(target) + ": "@
        + text
}

/// The report of a job whose source could not be decoded.
pub open spec fn decode_failure_report(
    job: JobView,
    target: RegionFormat,
    message: Seq<char>,
    times: JobTimes,
    profiled: bool,
) -> ReportView {
    ReportView {
        source_file: job.source_file,
        destination_file: job.destination_file,
        source_format: known_format(job.source_format),
        target_format: target,
        outcome: Err(
            failure_diagnostic(JobStage::Decode, job.source_file, job.destination_file, message),
        ),
        discarded_chunks: 0,
        diagnostics: seq![],
        profile: profile_of(
            job.estimated_size_bytes,
            times,
            seq![],
            profiled,
            JobEnd::DecodeFailed,
        ),
    }
}

/// The report of a job whose source was decoded.
pub open spec fn written_report(
    job: JobView,
    target: RegionFormat,
    format: RegionFormat,
    read: ReadView,
    written: WriteOutcome,
    times: JobTimes,
    profiled: bool,
) -> ReportView {
    ReportView {
        source_file: job.source_file,
        destination_file: job.destination_file,
        source_format: Some(format),
        target_format: target,
        outcome: match written {
            Ok(_) => Ok(model::occupied(read.region.chunks).len()),
            Err(text) => Err(
                failure_diagnostic(
                    JobStage::Write,
                    job.source_file,
                    job.destination_file,
                    write_failure_text(job.source_file, target, text@),
                ),
            ),
        },
        discarded_chunks: read.discarded_chunks,
        diagnostics: match written {
            Ok(encoded) => read.diagnostics + encoded@.diagnostics,
            Err(_) => read.diagnostics,
        },
        profile: profile_of(
            job.estimated_size_bytes,
            times,
            match written {
                Ok(encoded) => encoded.units@,
                Err(_) => seq![],
            },
            profiled,
            match written {
                Ok(_) => JobEnd::Finished,
                Err(_) => JobEnd::WriteFailed,
            },
        ),
    }
}

/// Reports that the source of `job` could not be decoded.
pub fn report_decode_failure(
    job: Job,
    target_format: RegionFormat,
    message: String,
    times: JobTimes,
    profile_enabled: bool,
) -> (report: JobReport)
    ensures
        report@ == decode_failure_report(
            job@,
            target_format,
            message@,
            times,
            profile_enabled,
        ),
{
    let units: Vec<EncodedUnit> = Vec::new();
    let profile = job_profile(
        job.estimated_size_bytes,
        times,
        &units,
        profile_enabled,
        JobEnd::DecodeFailed,
    );
    let error = build_failure_diagnostic(
        JobStage::Decode,
        &job.source_file,
        &job.destination_file,
        message,
    );
    let diagnostics: Vec<Diagnostic> = Vec::new();
    assert(units@ =~= seq![]);
    assert(diagnostic::diagnostic_views(diagnostics@) =~= seq![]);
    JobReport::Failure(
        JobFailure {
            source_file: job.source_file,
            destination_file: job.destination_file,
            source_format: hinted_region_format(job.source_format),
            target_format,
            discarded_chunks: 0,
            diagnostics,
            error,
            profile,
        },
    )
}

/// Reports what became of `job`, whose source was decoded to `decoded` and which was
/// then written with the result `written`.
pub fn report_written(
    job: Job,
    target_format: RegionFormat,
    decoded: DecodedRegion,
    written: WriteOutcome,
    times: JobTimes,
    profile_enabled: bool,
) -> (report: JobReport)
    ensures
        report@ == written_report(
            job@,
            target_format,
            decoded.format,
            decoded.outcome@,
            written,
            times,
            profile_enabled,
        ),
{
    let format = decoded.format;
    let chunk_count = decoded.outcome.region.chunk_count();
    let discarded_chunks = decoded.outcome.discarded_chunks;
    let mut diagnostics = decoded.outcome.diagnostics;
    let ghost read = decoded.outcome@.diagnostics;
    match written {
        Ok(encoded) => {
            let ghost wrote = encoded@.diagnostics;
            let profile = job_profile(
                job.estimated_size_bytes,
                times,
                &encoded.units,
                profile_enabled,
                JobEnd::Finished,
            );
            let mut more = encoded.diagnostics;
            diagnostics.append(&mut more);
            assert(diagnostic::diagnostic_views(diagnostics@) =~= read + wrote);
            JobReport::Success(
                JobSuccess {
                    source_file: job.source_file,
                    destination_file: job.destination_file,
                    source_format: Some(format),
                    target_format,
                    chunk_count,
                    discarded_chunks,
                    diagnostics,
                    profile,
                },
            )
        },
        Err(text) => {
            let units: Vec<EncodedUnit> = Vec::new();
            assert(units@ =~= seq![]);
            let profile = job_profile(
                job.estimated_size_bytes,
                times,
                &units,
                profile_enabled,
                JobEnd::WriteFailed,
            );
            let mut message = "failed to encode and write ".to_owned();
            message.append(job.source_file.text().as_str());
            message.append(" as ");
            message.append(target_format.name());
            message.append(": ");
            message.append(text.as_str());
            let error = build_failure_diagnostic(
                JobStage::Write,
                &job.source_file,
                &job.destination_file,
                message,
            );
            JobReport::Failure(
                JobFailure {
                    source_file: job.source_file,
                    destination_file: job.destination_file,
                    source_format: Some(format),
                    target_format,
                    discarded_chunks,
                    diagnostics,
                    error,
                    profile,
                },
            )
        },
    }
}

/// The jobs of one group of an input, in their order.
pub open spec fn stage_of(jobs: Seq<JobView>, input_index: usize, group: RegionFileGroup) -> Seq<
    JobView,
>
    decreases jobs.len(),
{
    if jobs.len() == 0 {
        seq![]
    } else {
        let before = stage_of(jobs.drop_last(), input_index, group);
        let job = jobs.last();
        if job.input_index == input_index && job.file_group == group {
            before.push(job)
        } else {
            before
        }
    }
}

/// A stage holds the jobs of its group and its input, and no others.
pub proof fn law_stage_holds_its_jobs(
    jobs: Seq<JobView>,
    input_index: usize,
    group: RegionFileGroup,
)
    ensures
        forall|i: int|
            0 <= i < jobs.len() && (#[trigger] jobs[i]).input_index == input_index
                && jobs[i].file_group == group ==> stage_of(jobs, input_index, group).contains(
                jobs[i],
            ),
        forall|k: int|
            0 <= k < stage_of(jobs, input_index, group).len() ==> {
                let job = #[trigger] stage_of(jobs, input_index, group)[k];
                job.input_index == input_index && job.file_group == group && jobs.contains(job)
            },
    decreases jobs.len(),
{
    if jobs.len() > 0 {
        let before = jobs.drop_last();
        let earlier = stage_of(before, input_index, group);
        let stage = stage_of(jobs, input_index, group);
        law_stage_holds_its_jobs(before, input_index, group);
        assert forall|i: int|
            0 <= i < jobs.len() && (#[trigger] jobs[i]).input_index == input_index
                && jobs[i].file_group == group implies stage.contains(jobs[i]) by {
            if i < before.len() {
                assert(before[i] == jobs[i]);
                assert(earlier.contains(before[i]));
                let k = choose|k: int| 0 <= k < earlier.len() && earlier[k] == before[i];
                assert(stage[k] == earlier[k]);
            } else {
                assert(stage[stage.len() - 1] == jobs[i]);
            }
        }
        assert forall|k: int| 0 <= k < stage.len() implies {
            let job = #[trigger] stage[k];
            job.input_index == input_index && job.file_group == group && jobs.contains(job)
        } by {
            if k < earlier.len() {
                assert(stage[k] == earlier[k]);
                let i = choose|i: int| 0 <= i < before.len() && before[i] == earlier[k];
                assert(jobs[i] == earlier[k]);
            } else {
                assert(jobs[jobs.len() - 1] == stage[k]);
            }
        }
    }
}

/// The jobs of an input in all groups together.
pub open spec fn input_jobs(jobs: Seq<JobView>, input_index: usize) -> nat
    decreases jobs.len(),
{
    if jobs.len() == 0 {
        0
    } else {
        input_jobs(jobs.drop_last(), input_index) + if jobs.last().input_index == input_index {
            1nat
        } else {
            0
        }
    }
}

/// Each job of an input is in one of its stages.
pub proof fn law_stages_add_up(jobs: Seq<JobView>, input_index: usize)
    ensures
        stage_of(jobs, input_index, RegionFileGroup::Regions).len() + stage_of(
            jobs,
            input_index,
            RegionFileGroup::Entities,
        ).len() + stage_of(jobs, input_index, RegionFileGroup::Poi).len() == input_jobs(
            jobs,
            input_index,
        ),
    decreases jobs.len(),
{
    if jobs.len() > 0 {
        law_stages_add_up(jobs.drop_last(), input_index);
    }
}

fn copy_job(job: &Job) -> (copy: Job)
    ensures
        copy@ == job@,
{
    Job {
        input_index: job.input_index,
        file_group: job.file_group,
        source_file: job.source_file.copy(),
        source_format: job.source_format,
        destination_file: job.destination_file.copy(),
        estimated_size_bytes: job.estimated_size_bytes,
    }
}

/// The jobs of one group of an input, in their order.
pub fn stage_jobs(jobs: &Vec<Job>, input_index: usize, group: RegionFileGroup) -> (stage: Vec<Job>)
    ensures
        sort::views(stage@) == stage_of(sort::views(jobs@), input_index, group),
{
    let ghost all = sort::views(jobs@);
    let mut stage: Vec<Job> = Vec::new();
    let mut i: usize = 0;
    assert(sort::views(stage@) =~= stage_of(all.take(0), input_index, group));
    while i < jobs.len()
        invariant
            i <= jobs.len(),
            all == sort::views(jobs@),
            sort::views(stage@) == stage_of(all.take(i as int), input_index, group),
        decreases jobs.len() - i,
    {
        let ghost before = sort::views(stage@);
        assert(all.take(i + 1).drop_last() =~= all.take(i as int));
        assert(all[i as int] == jobs@[i as int]@);
        if jobs[i].input_index == input_index && jobs[i].file_group == group {
            stage.push(copy_job(&jobs[i]));
            assert(sort::views(stage@) =~= before.push(all[i as int]));
        }
        i = i + 1;
    }
    assert(all.take(i as int) =~= all);
    stage
}

/// A part of a run: the jobs of one group of an input.
#[derive(Clone, Debug)]
pub struct RunStage {
    pub input_index: usize,
    pub input_path: SavePath,
    pub input_kind: InputKind,
    pub file_group: RegionFileGroup,
    pub total_jobs: usize,
}

/// A stage, and its jobs.
#[derive(Debug)]
pub struct StagePlan {
    pub stage: RunStage,
    pub jobs: Vec<Job>,
}

/// What a stage is, and its jobs.
#[verifier::ext_equal]
pub struct StageView {
    pub input_index: usize,
    pub input_path: PathView,
    pub input_kind: InputKind,
    pub file_group: RegionFileGroup,
    pub jobs: Seq<JobView>,
}

impl View for StagePlan {
    type V = StageView;

    open spec fn view(&self) -> StageView {
        StageView {
            input_index: self.stage.input_index,
            input_path: self.stage.input_path@,
            input_kind: self.stage.input_kind,
            file_group: self.stage.file_group,
            jobs: sort::views(self.jobs@),
        }
    }
}

/// The stages of an input, for those of `groups` that have jobs, in their order.
pub open spec fn stages_of(
    jobs: Seq<JobView>,
    input_index: usize,
    input: discovery::InputView,
    groups: Seq<RegionFileGroup>,
) -> Seq<StageView>
    decreases groups.len(),
{
    if groups.len() == 0 {
        seq![]
    } else {
        let before = stages_of(jobs, input_index, input, groups.drop_last());
        let stage = stage_of(jobs, input_index, groups.last());
        if stage.len() == 0 {
            before
        } else {
            before.push(
                StageView {
                    input_index,
                    input_path: input.input_path,
                    input_kind: input.input_kind,
                    file_group: groups.last(),
                    jobs: stage,
                },
            )
        }
    }
}

/// What a run does next: the jobs of a stage, or to tell that an input is done.
#[derive(Debug)]
pub enum RunStep {
    Stage(StagePlan),
    InputDone(usize),
}

/// What a step of a run is.
pub enum StepView {
    Stage(StageView),
    InputDone(usize),
}

impl View for RunStep {
    type V = StepView;

    open spec fn view(&self) -> StepView {
        match self {
            RunStep::Stage(plan) => StepView::Stage(plan@),
            RunStep::InputDone(index) => StepView::InputDone(*index),
        }
    }
}

/// What each of a list of steps is.
pub open spec fn step_views(steps: Seq<RunStep>) -> Seq<StepView> {
    Seq::new(steps.len(), |i: int| steps[i]@)
}

/// The steps that run `stages`.
pub open spec fn stage_steps(stages: Seq<StageView>) -> Seq<StepView> {
    Seq::new(stages.len(), |i: int| StepView::Stage(stages[i]))
}

/// The steps of a run for the first `n` inputs: for each input in order, its region
/// files, then its entities, then its points of interest, as far as there are jobs for
/// them, and then that it is done.
pub open spec fn steps_of(jobs: Seq<JobView>, inputs: Seq<discovery::InputView>, n: nat) -> Seq<
    StepView,
>
    decreases n,
{
    if n == 0 {
        seq![]
    } else {
        let index = (n - 1) as usize;
        (steps_of(jobs, inputs, (n - 1) as nat) + stage_steps(
            stages_of(jobs, index, inputs[n - 1], discovery::ordered_groups()),
        )).push(StepView::InputDone(index))
    }
}

/// The number of jobs that `steps` run.
pub open spec fn jobs_run(steps: Seq<StepView>) -> nat
    decreases steps.len(),
{
    if steps.len() == 0 {
        0
    } else {
        jobs_run(steps.drop_last()) + match steps.last() {
            StepView::Stage(stage) => stage.jobs.len(),
            StepView::InputDone(_) => 0,
        }
    }
}

/// The number of `jobs` of the first `n` inputs.
pub open spec fn jobs_below(jobs: Seq<JobView>, n: nat) -> nat
    decreases n,
{
    if n == 0 {
        0
    } else {
        jobs_below(jobs, (n - 1) as nat) + input_jobs(jobs, (n - 1) as usize)
    }
}

proof fn lemma_jobs_run_add_up(first: Seq<StepView>, second: Seq<StepView>)
    ensures
        jobs_run(first + second) == jobs_run(first) + jobs_run(second),
    decreases second.len(),
{
    if second.len() == 0 {
        assert(first + second =~= first);
    } else {
        lemma_jobs_run_add_up(first, second.drop_last());
        assert((first + second).drop_last() =~= first + second.drop_last());
    }
}

/// The stages of an input run its jobs.
proof fn lemma_input_runs(
    jobs: Seq<JobView>,
    input_index: usize,
    input: discovery::InputView,
    groups: Seq<RegionFileGroup>,
)
    ensures
        jobs_run(stage_steps(stages_of(jobs, input_index, input, groups))) == groups_jobs(
            jobs,
            input_index,
            groups,
        ),
    decreases groups.len(),
{
    let steps = stage_steps(stages_of(jobs, input_index, input, groups));
    if groups.len() > 0 {
        lemma_input_runs(jobs, input_index, input, groups.drop_last());
        let before = stage_steps(stages_of(jobs, input_index, input, groups.drop_last()));
        if stage_of(jobs, input_index, groups.last()).len() == 0 {
            assert(steps =~= before);
        } else {
            assert(steps.drop_last() =~= before);
        }
    } else {
        assert(steps =~= seq![]);
    }
}

/// The jobs of an input in each of `groups` together.
spec fn groups_jobs(jobs: Seq<JobView>, input_index: usize, groups: Seq<RegionFileGroup>) -> nat
    decreases groups.len(),
{
    if groups.len() == 0 {
        0
    } else {
        groups_jobs(jobs, input_index, groups.drop_last()) + stage_of(
            jobs,
            input_index,
            groups.last(),
        ).len()
    }
}

/// A job of one of the first inputs is a job of one of them alone.
proof fn lemma_jobs_below(jobs: Seq<JobView>, n: nat)
    requires
        n <= usize::MAX + 1,
    ensures
        jobs.len() == 0 ==> jobs_below(jobs, n) == 0,
        jobs.len() > 0 ==> jobs_below(jobs, n) == jobs_below(jobs.drop_last(), n) + if jobs.last().input_index
            < n {
            1nat
        } else {
            0
        },
    decreases n,
{
    if n > 0 {
        lemma_jobs_below(jobs, (n - 1) as nat);
    }
}

/// A run of all inputs runs each job once, where each job is one of an input.
pub proof fn law_every_job_runs_once(jobs: Seq<JobView>, inputs: Seq<discovery::InputView>)
    requires
        inputs.len() <= usize::MAX,
        forall|i: int| 0 <= i < jobs.len() ==> (#[trigger] jobs[i]).input_index < inputs.len(),
    ensures
        jobs_run(steps_of(jobs, inputs, inputs.len())) == jobs.len(),
{
    lemma_steps_run(jobs, inputs, inputs.len());
    lemma_all_below(jobs, inputs.len());
}

proof fn lemma_steps_run(jobs: Seq<JobView>, inputs: Seq<discovery::InputView>, n: nat)
    ensures
        jobs_run(steps_of(jobs, inputs, n)) == jobs_below(jobs, n),
    decreases n,
{
    if n > 0 {
        let index = (n - 1) as usize;
        let before = steps_of(jobs, inputs, (n - 1) as nat);
        let groups = discovery::ordered_groups();
        let stages = stage_steps(stages_of(jobs, index, inputs[n - 1], groups));
        lemma_steps_run(jobs, inputs, (n - 1) as nat);
        lemma_jobs_run_add_up(before, stages);
        lemma_input_runs(jobs, index, inputs[n - 1], groups);
        law_stages_add_up(jobs, index);
        assert(groups.drop_last() =~= seq![RegionFileGroup::Regions, RegionFileGroup::Entities]);
        assert(groups.drop_last().drop_last() =~= seq![RegionFileGroup::Regions]);
        assert(groups.drop_last().drop_last().drop_last() =~= seq![]);
        reveal_with_fuel(groups_jobs, 4);
        assert(steps_of(jobs, inputs, n).drop_last() =~= before + stages);
    }
}

proof fn lemma_all_below(jobs: Seq<JobView>, n: nat)
    requires
        n <= usize::MAX,
        forall|i: int| 0 <= i < jobs.len() ==> (#[trigger] jobs[i]).input_index < n,
    ensures
        jobs_below(jobs, n) == jobs.len(),
    decreases jobs.len(),
{
    lemma_jobs_below(jobs, n);
    if jobs.len() > 0 {
        let before = jobs.drop_last();
        assert forall|i: int| 0 <= i < before.len() implies (#[trigger] before[i]).input_index
            < n by {
            assert(before[i] == jobs[i]);
        }
        assert(jobs[jobs.len() - 1] == jobs.last());
        lemma_all_below(before, n);
    }
}

fn push_stages(steps: &mut Vec<RunStep>, jobs: &Vec<Job>, input_index: usize, input: &InputDiscovery)
    ensures
        step_views(final(steps)@) == step_views(old(steps)@) + stage_steps(
            stages_of(sort::views(jobs@), input_index, input@, discovery::ordered_groups()),
        ),
        totals_told(old(steps)@) ==> totals_told(final(steps)@),
{
    let ghost all = sort::views(jobs@);
    let ghost start = step_views(steps@);
    let groups = RegionFileGroup::ordered();
    let mut i: usize = 0;
    assert(stage_steps(stages_of(all, input_index, input@, groups@.take(0))) =~= seq![]);
    assert(start + seq![] =~= start);
    while i < 3
        invariant
            i <= 3,
            all == sort::views(jobs@),
            groups@ == discovery::ordered_groups(),
            step_views(steps@) == start + stage_steps(
                stages_of(all, input_index, input@, groups@.take(i as int)),
            ),
            totals_told(old(steps)@) ==> totals_told(steps@),
        decreases 3 - i,
    {
        let ghost before = steps@;
        let ghost earlier = stages_of(all, input_index, input@, groups@.take(i as int));
        let ghost stages = stages_of(all, input_index, input@, groups@.take(i + 1));
        assert(groups@.take(i + 1).drop_last() =~= groups@.take(i as int));
        let file_group = groups[i];
        let stage = stage_jobs(jobs, input_index, file_group);
        assert(sort::views(stage@).len() == stage.len());
        if stage.len() > 0 {
            let plan = StagePlan {
                stage: RunStage {
                    input_index,
                    input_path: input.input_path.copy(),
                    input_kind: input.input_kind,
                    file_group,
                    total_jobs: stage.len(),
                },
                jobs: stage,
            };
            let ghost view = plan@;
            assert(stages == earlier.push(view));
            steps.push(RunStep::Stage(plan));
            assert(step_views(steps@) =~= step_views(before).push(StepView::Stage(view)));
            assert(stage_steps(stages) =~= stage_steps(earlier).push(StepView::Stage(view)));
        } else {
            assert(stages == earlier);
        }
        i = i + 1;
    }
    assert(groups@.take(i as int) =~= groups@);
}

/// Whether each stage of `steps` tells how many jobs it has.
pub open spec fn totals_told(steps: Seq<RunStep>) -> bool {
    forall|k: int|
        0 <= k < steps.len() ==> match #[trigger] steps[k] {
            RunStep::Stage(plan) => plan.stage.total_jobs == plan.jobs@.len(),
            RunStep::InputDone(_) => true,
        }
}

/// The steps of a run of `jobs`: for each of `inputs` in order, its region files, then
/// its entities, then its points of interest, as far as there are jobs for them, and then
/// that it is done.
pub fn run_steps(jobs: &Vec<Job>, inputs: &Vec<InputDiscovery>) -> (steps: Vec<RunStep>)
    ensures
        step_views(steps@) == steps_of(
            sort::views(jobs@),
            sort::views(inputs@),
            inputs@.len(),
        ),
        totals_told(steps@),
{
    let ghost all = sort::views(jobs@);
    let ghost list = sort::views(inputs@);
    let mut steps: Vec<RunStep> = Vec::new();
    let mut i: usize = 0;
    assert(step_views(steps@) =~= seq![]);
    while i < inputs.len()
        invariant
            i <= inputs.len(),
            all == sort::views(jobs@),
            list == sort::views(inputs@),
            step_views(steps@) == steps_of(all, list, i as nat),
            totals_told(steps@),
        decreases inputs.len() - i,
    {
        assert(list[i as int] == inputs@[i as int]@);
        push_stages(&mut steps, jobs, i, &inputs[i]);
        let ghost before = step_views(steps@);
        steps.push(RunStep::InputDone(i));
        assert(step_views(steps@) =~= before.push(StepView::InputDone(i)));
        i = i + 1;
    }
    steps
}

/// What a report adds to the totals of a run.
#[derive(Clone, Copy, Debug, PartialEq, Eq, Structural)]
pub struct ReportStats {
    pub successful_jobs: usize,
    pub failed_jobs: usize,
    pub chunks_written: usize,
    pub discarded_chunks: usize,
    pub warnings: usize,
}

/// Nothing added.
pub open spec fn no_stats() -> ReportStats {
    ReportStats {
        successful_jobs: 0,
        failed_jobs: 0,
        chunks_written: 0,
        discarded_chunks: 0,
        warnings: 0,
    }
}

/// What a report adds.
pub open spec fn stats_of(report: ReportView) -> ReportStats {
    ReportStats {
        successful_jobs: if report.outcome is Ok {
            1
        } else {
            0
        },
        failed_jobs: if report.outcome is Ok {
            0
        } else {
            1
        },
        chunks_written: match report.outcome {
            Ok(chunks) => chunks as usize,
            Err(_) => 0,
        },
        discarded_chunks: report.discarded_chunks as usize,
        warnings: diagnostic::warnings_in(report.diagnostics) as usize,
    }
}

/// Whether two totals can be added.
pub open spec fn stats_fit(a: ReportStats, b: ReportStats) -> bool {
    &&& a.successful_jobs + b.successful_jobs + a.failed_jobs + b.failed_jobs <= usize::MAX
    &&& a.chunks_written + b.chunks_written <= usize::MAX
    &&& a.discarded_chunks + b.discarded_chunks <= usize::MAX
    &&& a.warnings + b.warnings <= usize::MAX
}

/// The sum of two totals.
pub open spec fn stats_sum(a: ReportStats, b: ReportStats) -> ReportStats {
    ReportStats {
        successful_jobs: (a.successful_jobs + b.successful_jobs) as usize,
        failed_jobs: (a.failed_jobs + b.failed_jobs) as usize,
        chunks_written: (a.chunks_written + b.chunks_written) as usize,
        discarded_chunks: (a.discarded_chunks + b.discarded_chunks) as usize,
        warnings: (a.warnings + b.warnings) as usize,
    }
}

/// What `report` adds to the totals of a run.
pub fn report_stats(report: &JobReport) -> (stats: ReportStats)
    ensures
        stats == stats_of(report@),
        stats.successful_jobs + stats.failed_jobs == 1,
{
    match report {
        JobReport::Success(report) => ReportStats {
            successful_jobs: 1,
            failed_jobs: 0,
            chunks_written: report.chunk_count,
            discarded_chunks: report.discarded_chunks,
            warnings: warning_count(report.diagnostics.as_slice()),
        },
        JobReport::Failure(report) => ReportStats {
            successful_jobs: 0,
            failed_jobs: 1,
            chunks_written: 0,
            discarded_chunks: report.discarded_chunks,
            warnings: warning_count(report.diagnostics.as_slice()),
        },
    }
}

impl ReportStats {
    /// Nothing added.
    pub fn none() -> (stats: ReportStats)
        ensures
            stats == no_stats(),
    {
        ReportStats {
            successful_jobs: 0,
            failed_jobs: 0,
            chunks_written: 0,
            discarded_chunks: 0,
            warnings: 0,
        }
    }

    /// Whether `more` can be added.
    pub fn accepts(self, more: ReportStats) -> (fits: bool)
        ensures
            fits == stats_fit(self, more),
    {
        more.successful_jobs <= usize::MAX - self.successful_jobs && more.failed_jobs
            <= usize::MAX - self.failed_jobs && self.failed_jobs + more.failed_jobs
            <= usize::MAX - (self.successful_jobs + more.successful_jobs) && more.chunks_written
            <= usize::MAX - self.chunks_written && more.discarded_chunks <= usize::MAX
            - self.discarded_chunks && more.warnings <= usize::MAX - self.warnings
    }

    /// The sum with `more`.
    pub fn plus(self, more: ReportStats) -> (sum: ReportStats)
        requires
            stats_fit(self, more),
        ensures
            sum == stats_sum(self, more),
    {
        ReportStats {
            successful_jobs: self.successful_jobs + more.successful_jobs,
            failed_jobs: self.failed_jobs + more.failed_jobs,
            chunks_written: self.chunks_written + more.chunks_written,
            discarded_chunks: self.discarded_chunks + more.discarded_chunks,
            warnings: self.warnings + more.warnings,
        }
    }
}

/// Totals do not depend on the order in which jobs finish.
pub proof fn law_totals_do_not_depend_on_order(total: ReportStats, a: ReportStats, b: ReportStats)
    requires
        stats_fit(total, a),
        stats_fit(stats_sum(total, a), b),
        stats_fit(total, b),
        stats_fit(stats_sum(total, b), a),
    ensures
        stats_sum(stats_sum(total, a), b) == stats_sum(stats_sum(total, b), a),
{
}

/// The totals of a run after `reports`, in the order in which they came.
pub open spec fn totals_of(reports: Seq<ReportView>) -> ReportStats
    decreases reports.len(),
{
    if reports.len() == 0 {
        no_stats()
    } else {
        stats_sum(totals_of(reports.drop_last()), stats_of(reports.last()))
    }
}

/// Whether what each of `reports` adds can be counted when it comes.
pub open spec fn countable(reports: Seq<ReportView>) -> bool
    decreases reports.len(),
{
    reports.len() > 0 ==> {
        &&& countable(reports.drop_last())
        &&& stats_fit(totals_of(reports.drop_last()), stats_of(reports.last()))
    }
}

/// Whether a report tells of a failure or of a warning.
pub open spec fn tells_of_issue(report: ReportView) -> bool {
    report.outcome is Err || diagnostic::warnings_in(report.diagnostics) > 0
}

/// Each job that was reported on is counted as a success or as a failure.
pub proof fn law_every_report_is_counted(reports: Seq<ReportView>)
    requires
        countable(reports),
    ensures
        totals_of(reports).successful_jobs + totals_of(reports).failed_jobs == reports.len(),
    decreases reports.len(),
{
    if reports.len() > 0 {
        law_every_report_is_counted(reports.drop_last());
    }
}

/// The totals of a run show an issue exactly where a job failed or gave a warning.
pub proof fn law_issues_are_told(reports: Seq<ReportView>)
    requires
        countable(reports),
        forall|i: int|
            0 <= i < reports.len() ==> (#[trigger] reports[i]).diagnostics.len() <= usize::MAX,
    ensures
        (totals_of(reports).failed_jobs > 0 || totals_of(reports).warnings > 0) == (exists|i: int|
            0 <= i < reports.len() && tells_of_issue(#[trigger] reports[i])),
    decreases reports.len(),
{
    if reports.len() > 0 {
        let before = reports.drop_last();
        let last = reports.last();
        assert forall|i: int| 0 <= i < before.len() implies (
        #[trigger] before[i]).diagnostics.len() <= usize::MAX by {
            assert(before[i] == reports[i]);
        }
        law_issues_are_told(before);
        assert(reports[reports.len() - 1] == last);
        diagnostic::lemma_warnings_bounded(last.diagnostics);
        if exists|i: int| 0 <= i < before.len() && tells_of_issue(#[trigger] before[i]) {
            let i = choose|i: int| 0 <= i < before.len() && tells_of_issue(#[trigger] before[i]);
            assert(tells_of_issue(reports[i]));
        }
        if exists|i: int| 0 <= i < reports.len() && tells_of_issue(#[trigger] reports[i]) {
            let i = choose|i: int| 0 <= i < reports.len() && tells_of_issue(#[trigger] reports[i]);
            if i < before.len() {
                assert(tells_of_issue(before[i]));
            }
        }
    }
}

/// How many chunks were written in some time.
#[derive(Clone, Copy, Debug, PartialEq, Eq, Structural)]
pub struct ChunkRate {
    pub chunks: usize,
    pub nanos: u64,
}

/// The time over which the recent rate is taken: half a minute.
pub const RATE_WINDOW: u64 = 30_000_000_000;

/// The least time over which the recent rate is taken: a millisecond.
pub const MIN_RATE_WINDOW: u64 = 1_000_000;

/// The time from `since` to `now`, or 0 where it has not come yet.
pub open spec fn time_since(now: u64, since: u64) -> u64 {
    if now > since {
        (now - since) as u64
    } else {
        0
    }
}

/// The samples without the first ones, those that are too old at the time `elapsed`.
pub open spec fn recent_samples(samples: Seq<(u64, usize)>, elapsed: u64) -> Seq<(u64, usize)>
    decreases samples.len(),
{
    if samples.len() == 0 || time_since(elapsed, samples[0].0) <= RATE_WINDOW {
        samples
    } else {
        recent_samples(samples.skip(1), elapsed)
    }
}

/// The chunks of all samples together.
pub open spec fn samples_total(samples: Seq<(u64, usize)>) -> nat
    decreases samples.len(),
{
    if samples.len() == 0 {
        0
    } else {
        samples_total(samples.drop_last()) + samples.last().1 as nat
    }
}

/// The samples that are kept at the time `elapsed`.
pub open spec fn kept_samples(samples: Seq<(u64, usize)>, elapsed: u64) -> Seq<(u64, usize)> {
    if samples.len() < 2 {
        samples
    } else {
        recent_samples(samples, elapsed)
    }
}

/// The recent rate at the time `elapsed`: that of the kept samples, or that of the
/// whole time where there are fewer than two.
pub open spec fn rate_of(samples: Seq<(u64, usize)>, total: usize, elapsed: u64) -> ChunkRate {
    let kept = kept_samples(samples, elapsed);
    if kept.len() < 2 {
        ChunkRate { chunks: total, nanos: elapsed }
    } else {
        let window = time_since(elapsed, kept[0].0);
        ChunkRate {
            chunks: samples_total(kept) as usize,
            nanos: if window < MIN_RATE_WINDOW {
                MIN_RATE_WINDOW
            } else {
                window
            },
        }
    }
}

proof fn lemma_total_without_first(samples: Seq<(u64, usize)>)
    requires
        samples.len() > 0,
    ensures
        samples_total(samples) == samples[0].1 + samples_total(samples.skip(1)),
    decreases samples.len(),
{
    if samples.len() > 1 {
        lemma_total_without_first(samples.drop_last());
        assert(samples.skip(1).drop_last() =~= samples.drop_last().skip(1));
    } else {
        assert(samples.skip(1) =~= seq![]);
        assert(samples.drop_last() =~= seq![]);
        assert(samples_total(samples.skip(1)) == 0);
        assert(samples_total(samples.drop_last()) == 0);
    }
}

/// The chunks of some samples, where they are no more than `total`.
fn sum_samples(samples: &VecDeque<(u64, usize)>, total: usize) -> (sum: usize)
    requires
        samples_total(samples@) <= total,
    ensures
        sum == samples_total(samples@),
{
    let mut sum: usize = 0;
    let mut i: usize = samples.len();
    let ghost rest = samples@.skip(i as int);
    assert(rest =~= seq![]);
    assert(samples_total(samples@.skip(i as int)) == 0);
    while i > 0
        invariant
            i <= samples@.len(),
            sum == samples_total(samples@.skip(i as int)),
            samples_total(samples@) <= total,
        decreases i,
    {
        proof {
            lemma_total_without_first(samples@.skip(i - 1));
            assert(samples@.skip(i - 1).skip(1) =~= samples@.skip(i as int));
            lemma_total_of_rest(samples@, i - 1);
        }
        i = i - 1;
        sum = sum + samples[i].1;
    }
    assert(samples@.skip(0) =~= samples@);
    sum
}

proof fn lemma_total_of_rest(samples: Seq<(u64, usize)>, n: int)
    requires
        0 <= n <= samples.len(),
    ensures
        samples_total(samples.skip(n)) <= samples_total(samples),
    decreases n,
{
    if n > 0 {
        lemma_total_without_first(samples);
        lemma_total_of_rest(samples.skip(1), n - 1);
        assert(samples.skip(1).skip(n - 1) =~= samples.skip(n));
    } else {
        assert(samples.skip(0) =~= samples);
    }
}

/// The recent rate at the time `elapsed`; samples that are too old are dropped.
pub fn recent_chunk_rate(
    samples: &mut VecDeque<(u64, usize)>,
    total_chunks_written: usize,
    elapsed: u64,
) -> (rate: ChunkRate)
    requires
        samples_total(old(samples)@) <= total_chunks_written,
    ensures
        rate == rate_of(old(samples)@, total_chunks_written, elapsed),
        final(samples)@ == kept_samples(old(samples)@, elapsed),
        samples_total(final(samples)@) <= total_chunks_written,
{
    let ghost start = samples@;
    if samples.len() < 2 {
        return ChunkRate { chunks: total_chunks_written, nanos: elapsed };
    }
    let mut old_one = elapsed.saturating_sub(samples[0].0) > RATE_WINDOW;
    while old_one
        invariant
            recent_samples(start, elapsed) == recent_samples(samples@, elapsed),
            samples_total(samples@) <= total_chunks_written,
            old_one == (samples@.len() > 0 && time_since(elapsed, samples@[0].0) > RATE_WINDOW),
        decreases samples@.len(),
    {
        proof {
            lemma_total_without_first(samples@);
            assert(samples@.skip(1) =~= samples@.subrange(1, samples@.len() as int));
        }
        let _ = samples.pop_front();
        old_one = samples.len() > 0 && elapsed.saturating_sub(samples[0].0) > RATE_WINDOW;
    }
    if samples.len() < 2 {
        return ChunkRate { chunks: total_chunks_written, nanos: elapsed };
    }
    let window = elapsed.saturating_sub(samples[0].0);
    let chunks = sum_samples(samples, total_chunks_written);
    ChunkRate {
        chunks,
        nanos: if window < MIN_RATE_WINDOW {
            MIN_RATE_WINDOW
        } else {
            window
        },
    }
}

/// How far a run or a stage has come.
#[derive(Clone, Copy, Debug, PartialEq, Eq, Structural)]
pub struct ProgressSnapshot {
    pub total_jobs: usize,
    pub completed_jobs: usize,
    pub successful_jobs: usize,
    pub failed_jobs: usize,
    pub successful_chunks: usize,
    pub discarded_chunks: usize,
    pub warnings: usize,
    pub recent_chunk_rate: ChunkRate,
    pub elapsed: u64,
}

/// The snapshot with those totals.
pub open spec fn snapshot_of(
    total_jobs: usize,
    totals: ReportStats,
    rate: ChunkRate,
    elapsed: u64,
) -> ProgressSnapshot {
    ProgressSnapshot {
        total_jobs,
        completed_jobs: (totals.successful_jobs + totals.failed_jobs) as usize,
        successful_jobs: totals.successful_jobs,
        failed_jobs: totals.failed_jobs,
        successful_chunks: totals.chunks_written,
        discarded_chunks: totals.discarded_chunks,
        warnings: totals.warnings,
        recent_chunk_rate: rate,
        elapsed,
    }
}

fn take_snapshot(
    total_jobs: usize,
    totals: ReportStats,
    recent_chunk_rate: ChunkRate,
    elapsed: u64,
) -> (snapshot: ProgressSnapshot)
    requires
        totals.successful_jobs + totals.failed_jobs <= usize::MAX,
    ensures
        snapshot == snapshot_of(total_jobs, totals, recent_chunk_rate, elapsed),
{
    ProgressSnapshot {
        total_jobs,
        completed_jobs: totals.successful_jobs + totals.failed_jobs,
        successful_jobs: totals.successful_jobs,
        failed_jobs: totals.failed_jobs,
        successful_chunks: totals.chunks_written,
        discarded_chunks: totals.discarded_chunks,
        warnings: totals.warnings,
        recent_chunk_rate,
        elapsed,
    }
}

impl ProgressSnapshot {
    /// The jobs that are left and those that are done, where the time that is left can
    /// be estimated from them.
    pub fn remaining_jobs(&self) -> (jobs: Option<(usize, usize)>)
        ensures
            jobs == if self.completed_jobs == 0 || self.completed_jobs >= self.total_jobs
                || self.elapsed == 0 {
                None::<(usize, usize)>
            } else {
                Some(((self.total_jobs - self.completed_jobs) as usize, self.completed_jobs))
            },
    {
        if self.completed_jobs == 0 || self.completed_jobs >= self.total_jobs || self.elapsed == 0 {
            None
        } else {
            Some((self.total_jobs - self.completed_jobs, self.completed_jobs))
        }
    }
}

/// How far a stage has come.
#[derive(Debug)]
pub struct StageProgressAccumulator {
    pub total_jobs: usize,
    pub totals: ReportStats,
    pub recent_samples: VecDeque<(u64, usize)>,
    pub snapshot: ProgressSnapshot,
}

impl StageProgressAccumulator {
    /// Whether the samples are of chunks that are counted.
    pub open spec fn well_formed(&self) -> bool {
        samples_total(self.recent_samples@) <= self.totals.chunks_written
    }

    /// A stage of `total_jobs` jobs, none of which is done.
    pub fn new(total_jobs: usize) -> (stage: StageProgressAccumulator)
        ensures
            stage.well_formed(),
            stage.total_jobs == total_jobs,
            stage.totals == no_stats(),
            stage.recent_samples@ == Seq::<(u64, usize)>::empty(),
            stage.snapshot == snapshot_of(
                total_jobs,
                no_stats(),
                ChunkRate { chunks: 0, nanos: 0 },
                0,
            ),
    {
        let totals = ReportStats::none();
        StageProgressAccumulator {
            total_jobs,
            totals,
            recent_samples: VecDeque::new(),
            snapshot: take_snapshot(total_jobs, totals, ChunkRate { chunks: 0, nanos: 0 }, 0),
        }
    }

    /// Whether what `report` adds can be counted.
    pub fn accepts(&self, report: &JobReport) -> (fits: bool)
        ensures
            fits == stats_fit(self.totals, stats_of(report@)),
    {
        self.totals.accepts(report_stats(report))
    }

    /// Counts what `report` adds, which came at the time `elapsed`.
    pub fn apply(&mut self, report: &JobReport, elapsed: u64)
        requires
            old(self).well_formed(),
            stats_fit(old(self).totals, stats_of(report@)),
        ensures
            final(self).well_formed(),
            final(self).total_jobs == old(self).total_jobs,
            final(self).totals == stats_sum(old(self).totals, stats_of(report@)),
            ({
                let stats = stats_of(report@);
                let samples = old(self).recent_samples@.push((elapsed, stats.chunks_written));
                let totals = stats_sum(old(self).totals, stats);
                &&& final(self).recent_samples@ == kept_samples(samples, elapsed)
                &&& final(self).snapshot == snapshot_of(
                    old(self).total_jobs,
                    totals,
                    rate_of(samples, totals.chunks_written, elapsed),
                    elapsed,
                )
            }),
    {
        let stats = report_stats(report);
        let ghost before = self.recent_samples@;
        self.totals = self.totals.plus(stats);
        self.recent_samples.push_back((elapsed, stats.chunks_written));
        assert(self.recent_samples@.drop_last() =~= before);
        let rate = recent_chunk_rate(
            &mut self.recent_samples,
            self.totals.chunks_written,
            elapsed,
        );
        self.snapshot = take_snapshot(self.total_jobs, self.totals, rate, elapsed);
    }
}

#[derive(Clone, Debug)]
pub struct RunInputSummary {
    pub input_index: usize,
    pub input_path: SavePath,
    pub input_kind: InputKind,
    pub total_jobs: usize,
    pub successful_jobs: usize,
    pub failed_jobs: usize,
    pub total_chunks_written: usize,
    pub total_discarded_chunks: usize,
    pub total_warnings: usize,
    pub elapsed: u64,
}

/// What the jobs of an input have come to.
#[derive(Clone, Copy, Debug, PartialEq, Eq, Structural)]
pub struct InputRunAccumulator {
    pub total_jobs: usize,
    pub totals: ReportStats,
}

impl InputRunAccumulator {
    /// Nothing done yet for `input`.
    pub fn new(input: &InputDiscovery) -> (accumulator: InputRunAccumulator)
        ensures
            accumulator == (InputRunAccumulator {
                total_jobs: input.discovered_jobs,
                totals: no_stats(),
            }),
    {
        InputRunAccumulator { total_jobs: input.discovered_jobs, totals: ReportStats::none() }
    }

    /// Whether what `report` adds can be counted.
    pub fn accepts(&self, report: &JobReport) -> (fits: bool)
        ensures
            fits == stats_fit(self.totals, stats_of(report@)),
    {
        self.totals.accepts(report_stats(report))
    }

    /// Counts what `report` adds.
    pub fn apply(&mut self, report: &JobReport)
        requires
            stats_fit(old(self).totals, stats_of(report@)),
        ensures
            *final(self) == (InputRunAccumulator {
                totals: stats_sum(old(self).totals, stats_of(report@)),
                ..*old(self)
            }),
    {
        self.totals = self.totals.plus(report_stats(report));
    }

    /// What the jobs of the input have come to at the time `elapsed`.
    pub fn finish(self, input_index: usize, input: &InputDiscovery, elapsed: u64) -> (summary:
        RunInputSummary)
        ensures
            summary.input_index == input_index,
            summary.input_path@ == input.input_path@,
            summary.input_kind == input.input_kind,
            summary.total_jobs == self.total_jobs,
            summary.successful_jobs == self.totals.successful_jobs,
            summary.failed_jobs == self.totals.failed_jobs,
            summary.total_chunks_written == self.totals.chunks_written,
            summary.total_discarded_chunks == self.totals.discarded_chunks,
            summary.total_warnings == self.totals.warnings,
            summary.elapsed == elapsed,
    {
        RunInputSummary {
            input_index,
            input_path: input.input_path.copy(),
            input_kind: input.input_kind,
            total_jobs: self.total_jobs,
            successful_jobs: self.totals.successful_jobs,
            failed_jobs: self.totals.failed_jobs,
            total_chunks_written: self.totals.chunks_written,
            total_discarded_chunks: self.totals.discarded_chunks,
            total_warnings: self.totals.warnings,
            elapsed,
        }
    }
}

/// A job of a run that was among the slowest to write.
#[derive(Clone, Debug)]
pub struct ProfiledJobSummary {
    pub source_file: SavePath,
    pub estimated_size_bytes: u64,
    pub encoded_units: usize,
    pub raw_payload_bytes: u64,
    pub compressed_payload_bytes: u64,
    pub decode: u64,
    pub encode_compress: u64,
    pub encode_file_write: u64,
    pub output_commit: u64,
    pub encode_write: u64,
    pub total: u64,
}

/// What is known of a slow job.
#[verifier::ext_equal]
pub struct ProfiledJobView {
    pub source_file: PathView,
    pub profile: JobProfile,
}

/// What a profiled job keeps of its profile.
pub open spec fn kept_profile(profile: JobProfile) -> JobProfile {
    JobProfile {
        wait_memory: 0,
        wait_decode_io: 0,
        wait_write_io: 0,
        encode_other_cpu: 0,
        ..profile
    }
}

impl View for ProfiledJobSummary {
    type V = ProfiledJobView;

    open spec fn view(&self) -> ProfiledJobView {
        ProfiledJobView {
            source_file: self.source_file@,
            profile: JobProfile {
                wait_memory: 0,
                wait_decode_io: 0,
                wait_write_io: 0,
                encode_other_cpu: 0,
                estimated_size_bytes: self.estimated_size_bytes,
                encoded_units: self.encoded_units,
                raw_payload_bytes: self.raw_payload_bytes,
                compressed_payload_bytes: self.compressed_payload_bytes,
                decode: self.decode,
                encode_compress: self.encode_compress,
                encode_file_write: self.encode_file_write,
                output_commit: self.output_commit,
                encode_write: self.encode_write,
                total: self.total,
            },
        }
    }
}

/// What the jobs of a run have taken together.
#[derive(Clone, Debug)]
pub struct ProfileSummary {
    pub memory_budget_bytes: u64,
    pub estimated_input_bytes: u64,
    pub wait_memory: u128,
    pub wait_decode_io: u128,
    pub wait_write_io: u128,
    pub decode: u128,
    pub encode_compress: u128,
    pub encode_other_cpu: u128,
    pub encode_file_write: u128,
    pub output_commit: u128,
    pub encode_write: u128,
    pub total_job_time: u128,
    pub encoded_units: usize,
    pub raw_payload_bytes: u64,
    pub compressed_payload_bytes: u64,
    pub slowest_jobs: Vec<ProfiledJobSummary>,
}

/// What the jobs of a run have taken together.
#[verifier::ext_equal]
pub struct ProfileView {
    pub memory_budget_bytes: u64,
    pub estimated_input_bytes: nat,
    pub wait_memory: nat,
    pub wait_decode_io: nat,
    pub wait_write_io: nat,
    pub decode: nat,
    pub encode_compress: nat,
    pub encode_other_cpu: nat,
    pub encode_file_write: nat,
    pub output_commit: nat,
    pub encode_write: nat,
    pub total_job_time: nat,
    pub encoded_units: nat,
    pub raw_payload_bytes: nat,
    pub compressed_payload_bytes: nat,
    pub slowest_jobs: Seq<ProfiledJobView>,
}

impl View for ProfileSummary {
    type V = ProfileView;

    open spec fn view(&self) -> ProfileView {
        ProfileView {
            memory_budget_bytes: self.memory_budget_bytes,
            estimated_input_bytes: self.estimated_input_bytes as nat,
            wait_memory: self.wait_memory as nat,
            wait_decode_io: self.wait_decode_io as nat,
            wait_write_io: self.wait_write_io as nat,
            decode: self.decode as nat,
            encode_compress: self.encode_compress as nat,
            encode_other_cpu: self.encode_other_cpu as nat,
            encode_file_write: self.encode_file_write as nat,
            output_commit: self.output_commit as nat,
            encode_write: self.encode_write as nat,
            total_job_time: self.total_job_time as nat,
            encoded_units: self.encoded_units as nat,
            raw_payload_bytes: self.raw_payload_bytes as nat,
            compressed_payload_bytes: self.compressed_payload_bytes as nat,
            slowest_jobs: sort::views(self.slowest_jobs@),
        }
    }
}

/// Whether `profile` can be added to `summary`.
pub open spec fn profile_fits(summary: ProfileView, profile: JobProfile) -> bool {
    &&& summary.estimated_input_bytes + profile.estimated_size_bytes <= u64::MAX
    &&& summary.wait_memory + profile.wait_memory <= u128::MAX
    &&& summary.wait_decode_io + profile.wait_decode_io <= u128::MAX
    &&& summary.wait_write_io + profile.wait_write_io <= u128::MAX
    &&& summary.decode + profile.decode <= u128::MAX
    &&& summary.encode_compress + profile.encode_compress <= u128::MAX
    &&& summary.encode_other_cpu + profile.encode_other_cpu <= u128::MAX
    &&& summary.encode_file_write + profile.encode_file_write <= u128::MAX
    &&& summary.output_commit + profile.output_commit <= u128::MAX
    &&& summary.encode_write + profile.encode_write <= u128::MAX
    &&& summary.total_job_time + profile.total <= u128::MAX
    &&& summary.encoded_units + profile.encoded_units <= usize::MAX
    &&& summary.raw_payload_bytes + profile.raw_payload_bytes <= u64::MAX
    &&& summary.compressed_payload_bytes + profile.compressed_payload_bytes <= u64::MAX
}

/// The number of slow jobs that are kept.
pub const SLOWEST_JOBS: usize = 5;

/// The list of slow jobs, slowest first, with one more, after those that took as long.
pub open spec fn ranked(jobs: Seq<ProfiledJobView>, job: ProfiledJobView) -> Seq<ProfiledJobView>
    decreases jobs.len(),
{
    if jobs.len() == 0 || jobs.last().profile.encode_write >= job.profile.encode_write {
        jobs.push(job)
    } else {
        ranked(jobs.drop_last(), job).push(jobs.last())
    }
}

/// The first of a list of slow jobs.
pub open spec fn foremost(jobs: Seq<ProfiledJobView>) -> Seq<ProfiledJobView> {
    if jobs.len() > SLOWEST_JOBS {
        jobs.take(SLOWEST_JOBS as int)
    } else {
        jobs
    }
}

/// Whether a list of jobs is by the time that they took to write, slowest first.
pub open spec fn by_slowness(jobs: Seq<ProfiledJobView>) -> bool {
    forall|i: int, j: int|
        0 <= i < j < jobs.len() ==> (#[trigger] jobs[i]).profile.encode_write >= (
        #[trigger] jobs[j]).profile.encode_write
}

/// `summary` with `profile` of the source `source` added.
pub open spec fn profile_added(
    summary: ProfileView,
    source: PathView,
    profile: JobProfile,
) -> ProfileView {
    ProfileView {
        memory_budget_bytes: summary.memory_budget_bytes,
        estimated_input_bytes: summary.estimated_input_bytes + profile.estimated_size_bytes as nat,
        wait_memory: summary.wait_memory + profile.wait_memory as nat,
        wait_decode_io: summary.wait_decode_io + profile.wait_decode_io as nat,
        wait_write_io: summary.wait_write_io + profile.wait_write_io as nat,
        decode: summary.decode + profile.decode as nat,
        encode_compress: summary.encode_compress + profile.encode_compress as nat,
        encode_other_cpu: summary.encode_other_cpu + profile.encode_other_cpu as nat,
        encode_file_write: summary.encode_file_write + profile.encode_file_write as nat,
        output_commit: summary.output_commit + profile.output_commit as nat,
        encode_write: summary.encode_write + profile.encode_write as nat,
        total_job_time: summary.total_job_time + profile.total as nat,
        encoded_units: summary.encoded_units + profile.encoded_units as nat,
        raw_payload_bytes: summary.raw_payload_bytes + profile.raw_payload_bytes as nat,
        compressed_payload_bytes: summary.compressed_payload_bytes + profile.compressed_payload_bytes as nat,
        slowest_jobs: foremost(
            ranked(
                summary.slowest_jobs,
                ProfiledJobView { source_file: source, profile: kept_profile(profile) },
            ),
        ),
    }
}

proof fn lemma_ranked_at(jobs: Seq<ProfiledJobView>, job: ProfiledJobView, at: int)
    requires
        0 <= at <= jobs.len(),
        at > 0 ==> jobs[at - 1].profile.encode_write >= job.profile.encode_write,
        forall|i: int|
            at <= i < jobs.len() ==> (#[trigger] jobs[i]).profile.encode_write
                < job.profile.encode_write,
    ensures
        ranked(jobs, job) == jobs.insert(at, job),
    decreases jobs.len(),
{
    if at < jobs.len() {
        assert(jobs[jobs.len() - 1].profile.encode_write < job.profile.encode_write);
        lemma_ranked_at(jobs.drop_last(), job, at);
        assert(ranked(jobs, job) =~= jobs.insert(at, job));
    } else {
        assert(jobs.insert(at, job) =~= jobs.push(job));
    }
}

/// Where `job` goes in a list of jobs, slowest first.
pub proof fn lemma_rank(jobs: Seq<ProfiledJobView>, job: ProfiledJobView) -> (at: int)
    requires
        by_slowness(jobs),
    ensures
        0 <= at <= jobs.len(),
        at > 0 ==> jobs[at - 1].profile.encode_write >= job.profile.encode_write,
        forall|i: int|
            at <= i < jobs.len() ==> (#[trigger] jobs[i]).profile.encode_write
                < job.profile.encode_write,
        ranked(jobs, job) == jobs.insert(at, job),
    decreases jobs.len(),
{
    if jobs.len() == 0 || jobs.last().profile.encode_write >= job.profile.encode_write {
        lemma_ranked_at(jobs, job, jobs.len() as int);
        jobs.len() as int
    } else {
        let at = lemma_rank(jobs.drop_last(), job);
        if at > 0 {
            assert(jobs.drop_last()[at - 1] == jobs[at - 1]);
        }
        assert forall|i: int| at <= i < jobs.len() implies (
        #[trigger] jobs[i]).profile.encode_write < job.profile.encode_write by {
            if i < jobs.len() - 1 {
                assert(jobs.drop_last()[i] == jobs[i]);
            }
        }
        lemma_ranked_at(jobs, job, at);
        at
    }
}

/// The kept jobs stay in order, slowest first, and a job that was not kept before would
/// not be kept now: what is kept is the same as if all jobs had been.
pub proof fn law_slowest_jobs_are_kept(jobs: Seq<ProfiledJobView>, job: ProfiledJobView)
    requires
        by_slowness(jobs),
    ensures
        by_slowness(ranked(jobs, job)),
        by_slowness(foremost(ranked(jobs, job))),
        foremost(ranked(foremost(jobs), job)) == foremost(ranked(jobs, job)),
{
    let at = lemma_rank(jobs, job);
    let all = ranked(jobs, job);
    assert forall|i: int, j: int| 0 <= i < j < all.len() implies (
    #[trigger] all[i]).profile.encode_write >= (#[trigger] all[j]).profile.encode_write by {
        let a = if i < at {
            i
        } else {
            i - 1
        };
        let b = if j < at {
            j
        } else {
            j - 1
        };
        if i == at {
            assert(all[j] == jobs[b]);
        } else if j == at {
            assert(all[i] == jobs[a]);
            if at > 0 && a < at - 1 {
                assert(jobs[a].profile.encode_write >= jobs[at - 1].profile.encode_write);
            }
        } else {
            assert(all[i] == jobs[a] && all[j] == jobs[b]);
        }
    }
    let kept = foremost(jobs);
    assert(by_slowness(kept));
    let place = lemma_rank(kept, job);
    if jobs.len() > SLOWEST_JOBS {
        if at <= SLOWEST_JOBS {
            if place < at {
                assert(kept[place] == jobs[place]);
                assert(jobs[place].profile.encode_write >= jobs[at - 1].profile.encode_write);
            }
            if at < place {
                assert(kept[place - 1] == jobs[place - 1]);
            }
            assert(place == at);
        } else {
            if place < SLOWEST_JOBS {
                assert(kept[place] == jobs[place]);
                assert(jobs[place].profile.encode_write >= jobs[at - 1].profile.encode_write);
            }
            assert(place == SLOWEST_JOBS);
        }
        assert(foremost(ranked(kept, job)) =~= foremost(all));
    }
}

impl ProfileSummary {
    /// Whether the slow jobs are few and in order.
    pub open spec fn well_formed(&self) -> bool {
        &&& self.slowest_jobs@.len() <= SLOWEST_JOBS
        &&& by_slowness(sort::views(self.slowest_jobs@))
    }

    /// Nothing taken yet, of a run with that much memory set aside.
    pub fn new(memory_budget_bytes: u64) -> (summary: ProfileSummary)
        ensures
            summary.well_formed(),
            summary@ == (ProfileView {
                memory_budget_bytes,
                estimated_input_bytes: 0,
                wait_memory: 0,
                wait_decode_io: 0,
                wait_write_io: 0,
                decode: 0,
                encode_compress: 0,
                encode_other_cpu: 0,
                encode_file_write: 0,
                output_commit: 0,
                encode_write: 0,
                total_job_time: 0,
                encoded_units: 0,
                raw_payload_bytes: 0,
                compressed_payload_bytes: 0,
                slowest_jobs: seq![],
            }),
    {
        let summary = ProfileSummary {
            memory_budget_bytes,
            estimated_input_bytes: 0,
            wait_memory: 0,
            wait_decode_io: 0,
            wait_write_io: 0,
            decode: 0,
            encode_compress: 0,
            encode_other_cpu: 0,
            encode_file_write: 0,
            output_commit: 0,
            encode_write: 0,
            total_job_time: 0,
            encoded_units: 0,
            raw_payload_bytes: 0,
            compressed_payload_bytes: 0,
            slowest_jobs: Vec::new(),
        };
        assert(summary@.slowest_jobs =~= seq![]);
        summary
    }

    /// Whether `profile` can be added.
    pub fn accepts(&self, profile: JobProfile) -> (fits: bool)
        ensures
            fits == profile_fits(self@, profile),
    {
        profile.estimated_size_bytes <= u64::MAX - self.estimated_input_bytes
            && profile.wait_memory as u128 <= u128::MAX - self.wait_memory
            && profile.wait_decode_io as u128 <= u128::MAX - self.wait_decode_io
            && profile.wait_write_io as u128 <= u128::MAX - self.wait_write_io
            && profile.decode as u128 <= u128::MAX - self.decode
            && profile.encode_compress as u128 <= u128::MAX - self.encode_compress
            && profile.encode_other_cpu as u128 <= u128::MAX - self.encode_other_cpu
            && profile.encode_file_write as u128 <= u128::MAX - self.encode_file_write
            && profile.output_commit as u128 <= u128::MAX - self.output_commit
            && profile.encode_write as u128 <= u128::MAX - self.encode_write
            && profile.total as u128 <= u128::MAX - self.total_job_time
            && profile.encoded_units <= usize::MAX - self.encoded_units
            && profile.raw_payload_bytes <= u64::MAX - self.raw_payload_bytes
            && profile.compressed_payload_bytes <= u64::MAX - self.compressed_payload_bytes
    }

    /// Adds `profile` of the source `source_file`.
    pub fn apply_profile(&mut self, source_file: &SavePath, profile: JobProfile)
        requires
            old(self).well_formed(),
            profile_fits(old(self)@, profile),
        ensures
            final(self).well_formed(),
            final(self)@ == profile_added(old(self)@, source_file@, profile),
    {
        let ghost before = self@;
        let job = ProfiledJobSummary {
            source_file: source_file.copy(),
            estimated_size_bytes: profile.estimated_size_bytes,
            encoded_units: profile.encoded_units,
            raw_payload_bytes: profile.raw_payload_bytes,
            compressed_payload_bytes: profile.compressed_payload_bytes,
            decode: profile.decode,
            encode_compress: profile.encode_compress,
            encode_file_write: profile.encode_file_write,
            output_commit: profile.output_commit,
            encode_write: profile.encode_write,
            total: profile.total,
        };
        let ghost view = job@;
        self.estimated_input_bytes = self.estimated_input_bytes + profile.estimated_size_bytes;
        self.wait_memory = self.wait_memory + profile.wait_memory as u128;
        self.wait_decode_io = self.wait_decode_io + profile.wait_decode_io as u128;
        self.wait_write_io = self.wait_write_io + profile.wait_write_io as u128;
        self.decode = self.decode + profile.decode as u128;
        self.encode_compress = self.encode_compress + profile.encode_compress as u128;
        self.encode_other_cpu = self.encode_other_cpu + profile.encode_other_cpu as u128;
        self.encode_file_write = self.encode_file_write + profile.encode_file_write as u128;
        self.output_commit = self.output_commit + profile.output_commit as u128;
        self.encode_write = self.encode_write + profile.encode_write as u128;
        self.total_job_time = self.total_job_time + profile.total as u128;
        self.encoded_units = self.encoded_units + profile.encoded_units;
        self.raw_payload_bytes = self.raw_payload_bytes + profile.raw_payload_bytes;
        self.compressed_payload_bytes = self.compressed_payload_bytes + profile.compressed_payload_bytes;
        let mut at: usize = self.slowest_jobs.len();
        while at > 0 && self.slowest_jobs[at - 1].encode_write < profile.encode_write
            invariant
                at <= self.slowest_jobs@.len(),
                before.slowest_jobs == sort::views(self.slowest_jobs@),
                forall|i: int|
                    at <= i < before.slowest_jobs.len() ==> (
                    #[trigger] before.slowest_jobs[i]).profile.encode_write < profile.encode_write,
            decreases at,
        {
            assert(before.slowest_jobs[at - 1] == self.slowest_jobs@[at - 1]@);
            at = at - 1;
        }
        proof {
            if at > 0 {
                assert(before.slowest_jobs[at - 1] == self.slowest_jobs@[at - 1]@);
            }
            lemma_ranked_at(before.slowest_jobs, view, at as int);
            law_slowest_jobs_are_kept(before.slowest_jobs, view);
        }
        self.slowest_jobs.insert(at, job);
        assert(sort::views(self.slowest_jobs@) =~= ranked(before.slowest_jobs, view));
        let ghost all = sort::views(self.slowest_jobs@);
        if self.slowest_jobs.len() > SLOWEST_JOBS {
            self.slowest_jobs.truncate(SLOWEST_JOBS);
        }
        assert(sort::views(self.slowest_jobs@) =~= foremost(all));
    }
}

/// What a run came to.
#[derive(Debug)]
pub struct RunSummary {
    pub thread_count: usize,
    pub target_format: RegionFormat,
    pub compression_level: i32,
    pub total_jobs: usize,
    pub total_region_directories: usize,
    pub successful_jobs: usize,
    pub failed_jobs: usize,
    pub total_chunks_written: usize,
    pub total_discarded_chunks: usize,
    pub total_warnings: usize,
    pub profile: Option<ProfileSummary>,
    pub elapsed: u64,
}

impl RunSummary {
    /// Whether something went wrong, so that the process ends with a failure.
    pub fn has_issues(&self) -> (issues: bool)
        ensures
            issues == (self.failed_jobs > 0 || self.total_warnings > 0),
    {
        self.failed_jobs > 0 || self.total_warnings > 0
    }
}

/// What the jobs of a run have come to.
#[derive(Debug)]
pub struct SummaryAccumulator {
    pub total_region_directories: usize,
    pub thread_count: usize,
    pub target_format: RegionFormat,
    pub compression_level: i32,
    pub progress: StageProgressAccumulator,
    pub profile: Option<ProfileSummary>,
}

/// What is known of a profile, where one is kept.
pub open spec fn profile_view(profile: Option<ProfileSummary>) -> Option<ProfileView> {
    match profile {
        Some(summary) => Some(summary@),
        None => None,
    }
}

impl SummaryAccumulator {
    /// Whether the samples and the profile are in order.
    pub open spec fn well_formed(&self) -> bool {
        &&& self.progress.well_formed()
        &&& self.profile matches Some(summary) ==> summary.well_formed()
    }

    /// Whether what `report` adds can be counted.
    pub open spec fn can_take(&self, report: ReportView) -> bool {
        &&& stats_fit(self.progress.totals, stats_of(report))
        &&& self.profile matches Some(summary) ==> profile_fits(summary@, report.profile)
    }

    /// Nothing done yet of a run.
    pub fn new(
        total_jobs: usize,
        total_region_directories: usize,
        thread_count: usize,
        target_format: RegionFormat,
        compression_level: i32,
        memory_budget_bytes: u64,
        profile_enabled: bool,
    ) -> (accumulator: SummaryAccumulator)
        ensures
            accumulator.well_formed(),
            accumulator.total_region_directories == total_region_directories,
            accumulator.thread_count == thread_count,
            accumulator.target_format == target_format,
            accumulator.compression_level == compression_level,
            accumulator.progress.total_jobs == total_jobs,
            accumulator.progress.totals == no_stats(),
            accumulator.progress.recent_samples@ == Seq::<(u64, usize)>::empty(),
            accumulator.progress.snapshot == snapshot_of(
                total_jobs,
                no_stats(),
                ChunkRate { chunks: 0, nanos: 0 },
                0,
            ),
            match accumulator.profile {
                Some(summary) => {
                    &&& profile_enabled
                    &&& summary@ == (ProfileView {
                        memory_budget_bytes,
                        estimated_input_bytes: 0,
                        wait_memory: 0,
                        wait_decode_io: 0,
                        wait_write_io: 0,
                        decode: 0,
                        encode_compress: 0,
                        encode_other_cpu: 0,
                        encode_file_write: 0,
                        output_commit: 0,
                        encode_write: 0,
                        total_job_time: 0,
                        encoded_units: 0,
                        raw_payload_bytes: 0,
                        compressed_payload_bytes: 0,
                        slowest_jobs: seq![],
                    })
                },
                None => !profile_enabled,
            },
    {
        SummaryAccumulator {
            total_region_directories,
            thread_count,
            target_format,
            compression_level,
            progress: StageProgressAccumulator::new(total_jobs),
            profile: if profile_enabled {
                Some(ProfileSummary::new(memory_budget_bytes))
            } else {
                None
            },
        }
    }

    /// Whether what `report` adds can be counted.
    pub fn accepts(&self, report: &JobReport) -> (fits: bool)
        ensures
            fits == self.can_take(report@),
    {
        let profile = match report {
            JobReport::Success(report) => report.profile,
            JobReport::Failure(report) => report.profile,
        };
        let profile_fits = match &self.profile {
            Some(summary) => summary.accepts(profile),
            None => true,
        };
        self.progress.accepts(report) && profile_fits
    }

    /// Counts what `report` adds, which came at the time `elapsed`.
    pub fn apply(&mut self, report: &JobReport, elapsed: u64)
        requires
            old(self).well_formed(),
            old(self).can_take(report@),
        ensures
            final(self).well_formed(),
            final(self).total_region_directories == old(self).total_region_directories,
            final(self).thread_count == old(self).thread_count,
            final(self).target_format == old(self).target_format,
            final(self).compression_level == old(self).compression_level,
            final(self).progress.total_jobs == old(self).progress.total_jobs,
            final(self).progress.totals == stats_sum(old(self).progress.totals, stats_of(report@)),
            ({
                let stats = stats_of(report@);
                let samples = old(self).progress.recent_samples@.push(
                    (elapsed, stats.chunks_written),
                );
                let totals = stats_sum(old(self).progress.totals, stats);
                &&& final(self).progress.recent_samples@ == kept_samples(samples, elapsed)
                &&& final(self).progress.snapshot == snapshot_of(
                    old(self).progress.total_jobs,
                    totals,
                    rate_of(samples, totals.chunks_written, elapsed),
                    elapsed,
                )
            }),
            profile_view(final(self).profile) == match profile_view(old(self).profile) {
                Some(summary) => Some(
                    profile_added(summary, report@.source_file, report@.profile),
                ),
                None => None,
            },
    {
        self.progress.apply(report, elapsed);
        if let Some(mut summary) = self.profile.take() {
            match report {
                JobReport::Success(report) => {
                    summary.apply_profile(&report.source_file, report.profile);
                },
                JobReport::Failure(report) => {
                    summary.apply_profile(&report.source_file, report.profile);
                },
            }
            self.profile = Some(summary);
        }
    }

    /// What the run came to at the time `elapsed`.
    pub fn finish(self, elapsed: u64) -> (summary: RunSummary)
        ensures
            summary.thread_count == self.thread_count,
            summary.target_format == self.target_format,
            summary.compression_level == self.compression_level,
            summary.total_jobs == self.progress.total_jobs,
            summary.total_region_directories == self.total_region_directories,
            summary.successful_jobs == self.progress.totals.successful_jobs,
            summary.failed_jobs == self.progress.totals.failed_jobs,
            summary.total_chunks_written == self.progress.totals.chunks_written,
            summary.total_discarded_chunks == self.progress.totals.discarded_chunks,
            summary.total_warnings == self.progress.totals.warnings,
            summary.profile == self.profile,
            summary.elapsed == elapsed,
    {
        let totals = self.progress.totals;
        RunSummary {
            thread_count: self.thread_count,
            target_format: self.target_format,
            compression_level: self.compression_level,
            total_jobs: self.progress.total_jobs,
            total_region_directories: self.total_region_directories,
            successful_jobs: totals.successful_jobs,
            failed_jobs: totals.failed_jobs,
            total_chunks_written: totals.chunks_written,
            total_discarded_chunks: totals.discarded_chunks,
            total_warnings: totals.warnings,
            profile: self.profile,
            elapsed,
        }
    }
}

} // verus!
