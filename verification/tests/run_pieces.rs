use std::collections::VecDeque;

use region_converter::cli::{Cli, CliError, SourceFormatArg, TargetFormatArg};
use region_converter::console::{
    format_duration, format_format_breakdown, format_source_mode, render_info_summary,
    render_plan, render_report, InfoSizes,
};
use region_converter::convert::{
    build_failure_diagnostic, hinted_region_format, job_profile, recent_chunk_rate, ChunkRate,
    InputRunAccumulator, JobEnd, JobFailure, JobProfile, JobReport, JobStage, JobSuccess, JobTimes,
    ProfileSummary, ProgressSnapshot, ReportStats, StageProgressAccumulator, SummaryAccumulator,
};
use region_converter::diagnostic::{warning_count, Diagnostic, DiagnosticCode};
use region_converter::discovery::{
    GroupCounts, InputDiscovery, InputKind, RegionFileGroup,
};
use region_converter::formats::{
    EncodedUnit, RegionFormat, RegionStorageFormat, SourceFormatHint,
};
use region_converter::info::{FormatCount, InfoSummary, InputInfo, RegionInfoEntry};
use region_converter::io_util::{after_rename, prepare_temp_path, ReplaceStep, TempPathError};
use region_converter::path::{PathComponent, SavePath};
use region_converter::pipeline::resolve_thread_count;
use region_converter::planner::RunPlan;
use region_converter::runtime::{MemoryLimiter, RuntimeResources, Semaphore};
use region_converter::text::contains;
use region_converter::writer::{CommitAction, CommitCleanup, CommitProgress};

fn path(text: &str) -> SavePath {
    let mut components = vec![PathComponent::RootDir];
    for part in text.split('/') {
        if !part.is_empty() {
            components.push(PathComponent::Normal(part.to_string()));
        }
    }
    SavePath { separator: '/', components }
}

fn cli() -> Cli {
    Cli {
        inputs: vec![path("/in")],
        output: Some(path("/out")),
        info: false,
        from: SourceFormatArg::Auto,
        to: Some(TargetFormatArg::Mca),
        threads: None,
        compression_level: None,
        profile: false,
    }
}

#[test]
fn command_lines_are_checked() {
    assert_eq!(cli().validate(), Ok(()));
    let mut missing = cli();
    missing.output = None;
    assert_eq!(missing.validate(), Err(CliError::OutputRequired));
    assert_eq!(missing.output_root().unwrap_err(), CliError::NoOutputRoot);
    let mut missing = cli();
    missing.to = None;
    assert_eq!(missing.validate(), Err(CliError::ToRequired));
    assert_eq!(missing.target_format(), Err(CliError::NoTargetFormat));
    assert_eq!(missing.resolved_compression_level(), Err(CliError::NoTargetFormat));

    let mut info = cli();
    info.info = true;
    info.compression_level = Some(3);
    info.from = SourceFormatArg::Mca;
    assert_eq!(info.validate(), Err(CliError::OutputWithInfo));
    info.output = None;
    assert_eq!(info.validate(), Err(CliError::ToWithInfo));
    info.to = None;
    assert_eq!(info.validate(), Err(CliError::LevelWithInfo));
    info.compression_level = None;
    assert_eq!(info.validate(), Err(CliError::FromWithInfo));
    info.from = SourceFormatArg::Auto;
    assert_eq!(info.validate(), Ok(()));
    assert_eq!(
        CliError::FromWithInfo.message(),
        "--from cannot be used together with --info"
    );
}

#[test]
fn threads_and_levels_are_resolved() {
    let mut cli = cli();
    assert_eq!(cli.thread_count(12), Ok(12));
    cli.threads = Some(0);
    assert_eq!(cli.thread_count(12), Err(CliError::ZeroThreads));
    cli.threads = Some(3);
    assert_eq!(cli.thread_count(12), Ok(3));

    assert_eq!(cli.resolved_compression_level(), Ok(6));
    for (to, level, expected) in [
        (TargetFormatArg::Mca, 0, Ok(0)),
        (TargetFormatArg::Mca, 9, Ok(9)),
        (TargetFormatArg::Mca, 10, Err(CliError::McaLevel)),
        (TargetFormatArg::Mca, -1, Err(CliError::McaLevel)),
        (TargetFormatArg::Linear, 0, Err(CliError::ZstdLevel)),
        (TargetFormatArg::BlinearV2, 1, Ok(1)),
        (TargetFormatArg::BlinearV3, 22, Ok(22)),
        (TargetFormatArg::BlinearV3, 23, Err(CliError::ZstdLevel)),
    ] {
        cli.to = Some(to);
        cli.compression_level = Some(level);
        assert_eq!(cli.resolved_compression_level(), expected);
    }
    assert_eq!(cli.forced_source_format(), None);
    assert_eq!(
        SourceFormatArg::BlinearV2.into_source_format_hint(),
        Some(SourceFormatHint::BlinearV2)
    );
    assert_eq!(TargetFormatArg::Linear.into_region_format(), RegionFormat::Linear);
    assert_eq!(resolve_thread_count(64, 1), 1);
    assert_eq!(resolve_thread_count(2, 9), 2);
    assert_eq!(resolve_thread_count(5, 0), 1);
}

#[test]
fn resources_are_taken_and_given_back() {
    let mut resources = RuntimeResources::for_thread_count(2);
    assert_eq!(resources.memory_budget_bytes(), 256 * 1024 * 1024);
    let first = resources.acquire_decode_io().unwrap();
    let second = resources.acquire_write_io().unwrap();
    assert!(resources.acquire_decode_io().is_none());
    resources.release_io(first);
    let third = resources.acquire_decode_io().unwrap();
    resources.release_io(second);
    resources.release_io(third);
    assert_eq!(resources.io.available, 2);

    let small = resources.acquire_memory_for_job(1).unwrap();
    assert_eq!(small.bytes, 32 * 1024 * 1024);
    let large = resources.acquire_memory_for_job(u64::MAX);
    assert!(large.is_none());
    resources.release_memory(small);
    let large = resources.acquire_memory_for_job(u64::MAX).unwrap();
    assert_eq!(large.bytes, 256 * 1024 * 1024);
    assert!(resources.acquire_memory_for_job(0).is_none());
    resources.release_memory(large);
    assert_eq!(resources.memory.available, resources.memory.budget);

    assert_eq!(RuntimeResources::for_thread_count(0).io.total, 1);
    assert_eq!(RuntimeResources::for_thread_count(9).io.total, 4);
    assert_eq!(RuntimeResources::for_thread_count(3).memory_budget_bytes(), 288 * 1024 * 1024);
    assert!(Semaphore::new(1).acquire(2).is_none());
    assert_eq!(MemoryLimiter::new(5).acquire(9).unwrap().bytes, 5);
}

#[test]
fn files_are_put_into_place_one_after_the_other() {
    let mut progress = CommitProgress::new(2);
    assert_eq!(progress.next(), CommitAction::Sidecar(0));
    progress.record(true);
    assert_eq!(progress.next(), CommitAction::Sidecar(1));
    let mut failing = progress;
    progress.record(true);
    assert_eq!(progress.next(), CommitAction::Main);
    let mut main_failing = progress;
    progress.record(true);
    assert_eq!(progress.next(), CommitAction::Finished);

    failing.record(false);
    assert_eq!(
        failing.next(),
        CommitAction::Abandoned(CommitCleanup { discard_main: true, remove_sidecars: 1 })
    );
    main_failing.record(false);
    assert_eq!(
        main_failing.next(),
        CommitAction::Abandoned(CommitCleanup { discard_main: false, remove_sidecars: 2 })
    );
    assert_eq!(after_rename(true, true), ReplaceStep::Done);
    assert_eq!(after_rename(false, true), ReplaceStep::RemoveAndRename);
    assert_eq!(after_rename(false, false), ReplaceStep::Fail);
}

#[test]
fn temporary_files_stand_beside_their_targets() {
    let temp = prepare_temp_path(&path("/out/r.0.0.mca"), 42, 7).unwrap();
    assert_eq!(temp.text(), "/out/.r.0.0.mca.tmp-42-7");
    assert_ne!(prepare_temp_path(&path("/out/r.0.0.mca"), 42, 8).unwrap(), temp);
    assert_eq!(prepare_temp_path(&path("/"), 1, 1).unwrap_err(), TempPathError::NoParent);
    let mut up = path("/out");
    up.components.push(PathComponent::ParentDir);
    let error = prepare_temp_path(&up, 1, 1).unwrap_err();
    assert_eq!(error, TempPathError::NoFileName);
    assert_eq!(error.message(), "output file is missing a file name");
    assert_eq!(TempPathError::NoParent.message(), "output file does not have a parent directory");
}

fn times() -> JobTimes {
    JobTimes {
        wait_memory: 1,
        wait_decode_io: 2,
        decode: 3,
        wait_write_io: 4,
        encode_compress: 5,
        encode_file_write: 6,
        output_commit: 7,
        encode_write: 30,
        total: 40,
    }
}

fn profile(encode_write: u64) -> JobProfile {
    let mut times = times();
    times.encode_write = encode_write;
    let units = vec![
        EncodedUnit { raw_len: 10, compressed_len: 4 },
        EncodedUnit { raw_len: 20, compressed_len: 5 },
    ];
    job_profile(100, times, &units, true, JobEnd::Finished)
}

#[test]
fn profiles_count_what_was_reached() {
    let full = profile(30);
    assert_eq!(full.encode_other_cpu, 12);
    assert_eq!(full.encoded_units, 2);
    assert_eq!(full.raw_payload_bytes, 30);
    assert_eq!(full.compressed_payload_bytes, 9);
    assert_eq!(profile(10).encode_other_cpu, 0);

    let plain = job_profile(100, times(), &Vec::new(), false, JobEnd::Finished);
    assert_eq!(plain.encode_write, 30);
    assert_eq!(plain.encode_compress, 0);
    let unwritten = job_profile(100, times(), &Vec::new(), true, JobEnd::WriteFailed);
    assert_eq!(unwritten.encode_write, 0);
    assert_eq!(unwritten.decode, 3);
    assert_eq!(unwritten.wait_write_io, 4);
    let undecoded = job_profile(100, times(), &Vec::new(), true, JobEnd::DecodeFailed);
    assert_eq!(undecoded.decode, 0);
    assert_eq!(undecoded.wait_decode_io, 2);
}

#[test]
fn the_slowest_jobs_are_kept() {
    let mut summary = ProfileSummary::new(77);
    for (name, time) in [("a", 5), ("b", 9), ("c", 5), ("d", 1), ("e", 7), ("f", 6), ("g", 9)] {
        assert!(summary.accepts(profile(time)));
        summary.apply_profile(&path(name), profile(time));
    }
    let kept: Vec<(String, u64)> = summary
        .slowest_jobs
        .iter()
        .map(|job| (job.source_file.text(), job.encode_write))
        .collect();
    let expected: Vec<(String, u64)> = [("/b", 9), ("/g", 9), ("/e", 7), ("/f", 6), ("/a", 5)]
        .iter()
        .map(|(name, time)| (name.to_string(), *time))
        .collect();
    assert_eq!(kept, expected);
    assert_eq!(summary.estimated_input_bytes, 700);
    assert_eq!(summary.encode_write, 42);
    assert_eq!(summary.memory_budget_bytes, 77);
    let mut huge = profile(1);
    huge.estimated_size_bytes = u64::MAX;
    assert!(!summary.accepts(huge));
}

fn success(chunks: usize, warnings: usize) -> JobReport {
    let diagnostics = (0..warnings)
        .map(|_| Diagnostic::warning(DiagnosticCode::CorruptChunk, "odd".to_string()))
        .collect();
    JobReport::Success(JobSuccess {
        source_file: path("/in/r.0.0.mca"),
        destination_file: path("/out/r.0.0.linear"),
        source_format: Some(RegionFormat::Mca),
        target_format: RegionFormat::Linear,
        chunk_count: chunks,
        discarded_chunks: 2,
        diagnostics,
        profile: profile(1),
    })
}

fn failure() -> JobReport {
    JobReport::Failure(JobFailure {
        source_file: path("/in/r.0.0.mca"),
        destination_file: path("/out/r.0.0.linear"),
        source_format: None,
        target_format: RegionFormat::Linear,
        discarded_chunks: 1,
        diagnostics: vec![Diagnostic::warning(DiagnosticCode::CorruptChunk, "odd".to_string())],
        error: Diagnostic::error(DiagnosticCode::Io, "bad".to_string()),
        profile: profile(1),
    })
}

#[test]
fn stages_and_inputs_add_up() {
    let mut stage = StageProgressAccumulator::new(3);
    assert_eq!(stage.snapshot.completed_jobs, 0);
    assert!(stage.snapshot.remaining_jobs().is_none());
    stage.apply(&success(10, 3), 1_000_000_000);
    assert_eq!(
        stage.snapshot.recent_chunk_rate,
        ChunkRate { chunks: 10, nanos: 1_000_000_000 }
    );
    assert!(stage.accepts(&failure()));
    stage.apply(&failure(), 3_000_000_000);
    assert_eq!(
        stage.snapshot,
        ProgressSnapshot {
            total_jobs: 3,
            completed_jobs: 2,
            successful_jobs: 1,
            failed_jobs: 1,
            successful_chunks: 10,
            discarded_chunks: 3,
            warnings: 4,
            recent_chunk_rate: ChunkRate { chunks: 10, nanos: 2_000_000_000 },
            elapsed: 3_000_000_000,
        }
    );
    assert_eq!(stage.snapshot.remaining_jobs(), Some((1, 2)));

    let input = InputDiscovery {
        input_path: path("/in"),
        input_kind: InputKind::RegionDirectory,
        discovered_jobs: 2,
        region_directories: 1,
        group_counts: GroupCounts { regions: 2, entities: 0, poi: 0 },
    };
    let mut accumulator = InputRunAccumulator::new(&input);
    assert!(accumulator.accepts(&failure()));
    accumulator.apply(&failure());
    accumulator.apply(&success(4, 0));
    let summary = accumulator.finish(5, &input, 99);
    assert_eq!(summary.input_index, 5);
    assert_eq!(summary.total_jobs, 2);
    assert_eq!(summary.successful_jobs, 1);
    assert_eq!(summary.failed_jobs, 1);
    assert_eq!(summary.total_chunks_written, 4);
    assert_eq!(summary.total_discarded_chunks, 3);
    assert_eq!(summary.total_warnings, 1);
    assert_eq!(summary.elapsed, 99);

    let mut full = ReportStats::none();
    full.warnings = usize::MAX;
    let mut one = ReportStats::none();
    one.warnings = 1;
    assert!(!full.accepts(one));
}

#[test]
fn runs_tell_of_their_issues() {
    let run = |reports: Vec<JobReport>| {
        let mut accumulator =
            SummaryAccumulator::new(reports.len(), 1, 2, RegionFormat::Linear, 6, 256, false);
        for report in &reports {
            assert!(accumulator.accepts(report));
            accumulator.apply(report, 7);
        }
        accumulator.finish(9)
    };
    let quiet = run(vec![success(3, 0), success(4, 0)]);
    assert!(!quiet.has_issues());
    assert_eq!((quiet.successful_jobs, quiet.total_chunks_written, quiet.elapsed), (2, 7, 9));
    assert!(quiet.profile.is_none());
    let warned = run(vec![success(3, 0), success(4, 1)]);
    assert!(warned.has_issues());
    assert_eq!((warned.failed_jobs, warned.total_warnings), (0, 1));
    let failed = run(vec![failure(), success(4, 0)]);
    assert!(failed.has_issues());
    assert_eq!(failed.successful_jobs + failed.failed_jobs, 2);
    assert!(!run(Vec::new()).has_issues());
}

#[test]
fn the_recent_rate_forgets_old_samples() {
    let second = 1_000_000_000_u64;
    let mut samples: VecDeque<(u64, usize)> = VecDeque::new();
    samples.push_back((second, 5));
    assert_eq!(
        recent_chunk_rate(&mut samples, 5, second),
        ChunkRate { chunks: 5, nanos: second }
    );
    samples.push_back((20 * second, 7));
    samples.push_back((31 * second, 9));
    assert_eq!(
        recent_chunk_rate(&mut samples, 21, 31 * second),
        ChunkRate { chunks: 21, nanos: 30 * second }
    );
    assert_eq!(
        recent_chunk_rate(&mut samples, 21, 32 * second),
        ChunkRate { chunks: 16, nanos: 12 * second }
    );
    assert_eq!(samples.len(), 2);
    assert_eq!(
        recent_chunk_rate(&mut samples, 21, 51 * second),
        ChunkRate { chunks: 21, nanos: 51 * second }
    );
    assert_eq!(samples.len(), 1);
    let mut close: VecDeque<(u64, usize)> = VecDeque::new();
    close.push_back((10, 1));
    close.push_back((11, 1));
    assert_eq!(
        recent_chunk_rate(&mut close, 2, 11),
        ChunkRate { chunks: 2, nanos: 1_000_000 }
    );
}

#[test]
fn failures_are_classified() {
    let source = path("/in/r.0.0.mca");
    let destination = path("/out/r.0.0.mca");
    let build = |stage, text: &str| {
        build_failure_diagnostic(stage, &source, &destination, text.to_string())
    };
    let decode = build(JobStage::Decode, "x");
    assert_eq!(decode.code, DiagnosticCode::CorruptRegion);
    assert_eq!(decode.location.path, Some(source.clone()));
    assert!(!decode.is_warning());
    assert_eq!(build(JobStage::Encode, "x").code, DiagnosticCode::InvalidMetadata);
    let write = build(JobStage::Write, "disk full");
    assert_eq!(write.code, DiagnosticCode::Io);
    assert_eq!(write.location.path, Some(destination.clone()));
    let refused = build(
        JobStage::Write,
        "because replacing the sidecars plus header atomically is not currently safe",
    );
    assert_eq!(refused.code, DiagnosticCode::OutputSafety);
    assert_eq!(hinted_region_format(SourceFormatHint::BlinearFamily), None);
    assert_eq!(hinted_region_format(SourceFormatHint::Linear), Some(RegionFormat::Linear));
    assert!(contains("abcabd", "abd"));
    assert!(contains("abc", ""));
    assert!(!contains("ab", "abc"));
}

#[test]
fn diagnostics_are_counted_and_placed() {
    let warning = Diagnostic::warning(DiagnosticCode::SkippedData, "w".to_string())
        .with_path(&path("/a"))
        .with_region_coords(1, -2)
        .with_chunk_index(9);
    assert_eq!(warning.location.path, Some(path("/a")));
    assert_eq!(warning.location.region_coords, Some((1, -2)));
    assert_eq!(warning.location.chunk_index, Some(9));
    let error = Diagnostic::error(DiagnosticCode::Io, "e".to_string());
    assert_eq!(warning_count(&[warning.clone(), error, warning]), 2);
}

#[test]
fn reports_are_printed_line_by_line() {
    assert_eq!(
        render_report(&success(1, 2)),
        ["warning [/in/r.0.0.mca -> /out/r.0.0.linear]: odd"; 2]
    );
    assert_eq!(
        render_report(&failure()),
        [
            "warning [/in/r.0.0.mca -> /out/r.0.0.linear]: odd",
            "error [/in/r.0.0.mca -> /out/r.0.0.linear]: bad",
        ]
    );
}

#[test]
fn durations_and_formats_are_shown() {
    assert_eq!(format_duration(0), "00:00");
    assert_eq!(format_duration(3599), "59:59");
    assert_eq!(format_duration(3600), "01:00:00");
    assert_eq!(format_duration(360_061), "100:01:01");
    assert_eq!(format_source_mode(None), "auto");
    assert_eq!(format_source_mode(Some(SourceFormatHint::BlinearFamily)), "blinear");
    assert_eq!(format_format_breakdown(&Vec::new()), "unknown");
    assert_eq!(
        format_format_breakdown(&vec![
            FormatCount { format: RegionStorageFormat::LinearV1, count: 2 },
            FormatCount { format: RegionStorageFormat::Mca, count: 10 },
        ]),
        "linear_v1 x2, mca x10"
    );
}

#[test]
fn plans_are_printed_line_by_line() {
    let mut plan = RunPlan {
        input_paths: vec![path("/a"), path("/b")],
        output_root: path("/out"),
        source_format: None,
        requested_thread_count: 8,
        target_format: RegionFormat::BlinearV3,
        thread_count: 3,
        compression_level: 6,
        total_jobs: 3,
        total_region_directories: 1,
        source_breakdown: Vec::new(),
        input_summaries: Vec::new(),
        profile: false,
    };
    assert_eq!(
        render_plan(&plan),
        [
            "Conversion plan:",
            "  Inputs (2):",
            "  - /a",
            "  - /b",
            "  Output root: /out",
            "  Format: auto -> blinear_v3",
            "  Threads: 3 (capped from 8 to match discovered work)",
            "  Compression level: 6",
            "  Region files: 3",
        ]
    );
    plan.thread_count = 8;
    assert_eq!(render_plan(&plan)[6], "  Threads: 8");
}

#[test]
fn inspections_are_printed_line_by_line() {
    let entry = RegionInfoEntry {
        input_index: 0,
        source_file: path("/r.0.-1.mca"),
        file_group: RegionFileGroup::Regions,
        storage_format: Some(RegionStorageFormat::Mca),
        size_bytes: Some(8192),
        region_x: Some(0),
        region_z: Some(-1),
        chunk_count: 4,
        discarded_chunks: 1,
        warnings: vec!["odd".to_string()],
        error: None,
    };
    let broken = RegionInfoEntry {
        input_index: 1,
        source_file: path("/w/r.0.0.linear"),
        file_group: RegionFileGroup::Regions,
        storage_format: None,
        size_bytes: None,
        region_x: None,
        region_z: None,
        chunk_count: 0,
        discarded_chunks: 0,
        warnings: Vec::new(),
        error: Some("bad".to_string()),
    };
    let single = InputInfo {
        input_path: path("/r.0.-1.mca"),
        input_kind: InputKind::RegionFile,
        region_files: 1,
        readable_regions: 1,
        failed_regions: 0,
        total_size_bytes: 8192,
        chunk_count: 4,
        discarded_chunks: 1,
        warnings: 1,
        format_breakdown: vec![FormatCount { format: RegionStorageFormat::Mca, count: 1 }],
        group_breakdown: Vec::new(),
    };
    let world = InputInfo {
        input_path: path("/w"),
        input_kind: InputKind::RegionDirectory,
        region_files: 1,
        readable_regions: 0,
        failed_regions: 1,
        total_size_bytes: 0,
        chunk_count: 0,
        discarded_chunks: 0,
        warnings: 0,
        format_breakdown: Vec::new(),
        group_breakdown: Vec::new(),
    };
    let summary = InfoSummary {
        thread_count: 2,
        inputs: vec![single, world],
        entries: vec![entry, broken],
        total_region_files: 2,
        readable_regions: 1,
        failed_regions: 1,
        total_size_bytes: 8192,
        chunk_count: 4,
        discarded_chunks: 1,
        warnings: 1,
        elapsed: 61_000_000_000,
    };
    let sizes = InfoSizes {
        inputs: vec!["8.00 KiB".to_string(), "0 B".to_string()],
        entries: vec!["8.00 KiB".to_string(), String::new()],
        total: "8.00 KiB".to_string(),
    };
    assert_eq!(
        render_info_summary(&summary, &sizes, 61),
        [
            "Save info:",
            "  Inputs (2):",
            "  - /r.0.-1.mca [region file]",
            "    Region files: 1",
            "    Readable regions: 1 | Failed regions: 0",
            "    Total size: 8.00 KiB (8192 bytes)",
            "    Chunks ok: 4 | Discarded chunks: 1 | Warnings: 1",
            "    Formats: mca x1",
            "    Format: mca",
            "    Region coords: (0, -1)",
            "    File size: 8.00 KiB (8192 bytes)",
            "  - /w [region directory]",
            "    Region files: 1",
            "    Readable regions: 0 | Failed regions: 1",
            "    Total size: 0 B (0 bytes)",
            "    Chunks ok: 0 | Discarded chunks: 0 | Warnings: 0",
            "    Formats: unknown",
            "Overall:",
            "  Threads used: 2",
            "  Region files: 2",
            "  Readable regions: 1 | Failed regions: 1",
            "  Total size: 8.00 KiB (8192 bytes)",
            "  Chunks ok: 4 | Discarded chunks: 1 | Warnings: 1",
            "  Completed in 01:01",
            "Warnings:",
            "  - [/r.0.-1.mca] odd",
            "Errors:",
            "  - [/w/r.0.0.linear] bad",
        ]
    );
}
