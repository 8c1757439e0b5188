use region_converter::cli::{Cli, CliError, SourceFormatArg, TargetFormatArg};
use region_converter::convert::{
    decode_job, encode_job, report_decode_failure, report_written, run_steps, JobReport, JobTimes,
    RunStep, RunSummary, SourceFiles, SummaryAccumulator,
};
use region_converter::diagnostic::DiagnosticCode;
use region_converter::discovery::{FoundFile, InputKind, InputScan, Job, WalkedDirectory};
use region_converter::formats::mca::ExternalChunk;
use region_converter::formats::{encode_region, RegionFormat};
use region_converter::info::{
    can_summarize, inspect_source, summarize, InfoSummary, InspectedFiles,
};
use region_converter::model::{ChunkData, Region};
use region_converter::path::{PathComponent, SavePath};
use region_converter::planner::{plan_conversion, plan_inspection, ConversionPlan, PlanError};
use region_converter::writer::{refusal_message, refuses_overwrite};

/// The files of a save, by path.
type Disk = Vec<(&'static str, Vec<u8>)>;

fn path(text: &str) -> SavePath {
    let mut components = vec![PathComponent::RootDir];
    for part in text.split('/') {
        if !part.is_empty() {
            components.push(PathComponent::Normal(part.to_string()));
        }
    }
    SavePath { separator: '/', components }
}

fn pseudo_random_bytes(len: usize) -> Vec<u8> {
    let mut state = 0x1234_5678_u32;
    let mut bytes = Vec::with_capacity(len);

    for _ in 0..len {
        state ^= state << 13;
        state ^= state >> 17;
        state ^= state << 5;
        bytes.push((state & 0xff) as u8);
    }

    bytes
}

fn sample_mca_file() -> Vec<u8> {
    let mut region = Region::new(0, 0);
    region
        .set_chunk(0, ChunkData { timestamp: 1, raw_nbt: pseudo_random_bytes(256) })
        .unwrap();
    encode_region(&region, RegionFormat::Mca, 6).unwrap().main_file_bytes
}

fn conversion_cli(inputs: &[&str], from: SourceFormatArg, to: TargetFormatArg) -> Cli {
    Cli {
        inputs: inputs.iter().map(|input| path(input)).collect(),
        output: Some(path("/tmp/output")),
        info: false,
        from,
        to: Some(to),
        threads: Some(1),
        compression_level: None,
        profile: false,
    }
}

fn info_cli(inputs: &[&str]) -> Cli {
    Cli {
        inputs: inputs.iter().map(|input| path(input)).collect(),
        output: None,
        info: true,
        from: SourceFormatArg::Auto,
        to: None,
        threads: Some(1),
        compression_level: None,
        profile: false,
    }
}

fn listing(disk: &Disk, directory: &str) -> Vec<FoundFile> {
    let mut files = Vec::new();
    for (name, bytes) in disk {
        if let Some((parent, _)) = name.rsplit_once('/') {
            if parent == directory {
                files.push(FoundFile { path: path(name), is_file: true, size: bytes.len() as u64 });
            }
        }
    }
    files
}

fn scan(disk: &Disk, input: &str) -> InputScan {
    if let Some((_, bytes)) = disk.iter().find(|(name, _)| *name == input) {
        return InputScan::File(bytes.len() as u64);
    }
    let mut directories = vec![input.to_string()];
    for (name, _) in disk {
        if let Some((parent, _)) = name.rsplit_once('/') {
            if parent.starts_with(input) && !directories.iter().any(|known| known == parent) {
                directories.push(parent.to_string());
            }
        }
    }
    let walked = directories
        .iter()
        .map(|directory| WalkedDirectory {
            path: path(directory),
            listing: Ok(listing(disk, directory)),
        })
        .collect();
    InputScan::Directory(Ok(listing(disk, input)), walked)
}

fn content(disk: &Disk, file: &SavePath) -> Vec<u8> {
    let name = file.text();
    disk.iter().find(|(known, _)| *known == name).unwrap().1.clone()
}

fn plan(disk: &Disk, cli: &Cli) -> ConversionPlan {
    let scans = cli.inputs.iter().map(|input| scan(disk, &input.text())).collect();
    plan_conversion(cli, &scans, &path("/"), 8).unwrap()
}

fn times() -> JobTimes {
    JobTimes {
        wait_memory: 1,
        wait_decode_io: 2,
        decode: 3,
        wait_write_io: 4,
        encode_compress: 5,
        encode_file_write: 6,
        output_commit: 7,
        encode_write: 30,
        total: 40,
    }
}

fn run_job(disk: &Disk, plan: &ConversionPlan, job: Job) -> JobReport {
    let files =
        SourceFiles { bytes: content(disk, &job.source_file), externals: Vec::new() };
    let profiled = plan.run_plan.profile;
    match decode_job(&job, Ok(files)) {
        Err(message) => report_decode_failure(job, plan.target_format, message, times(), profiled),
        Ok(decoded) => {
            let written = encode_job(
                &decoded.outcome.region,
                &job.destination_file,
                plan.target_format,
                plan.compression_level,
                profiled,
            );
            report_written(job, plan.target_format, decoded, written, times(), profiled)
        }
    }
}

fn run(disk: &Disk, cli: &Cli) -> RunSummary {
    let plan = plan(disk, cli);
    let mut accumulator = SummaryAccumulator::new(
        plan.run_plan.total_jobs,
        plan.run_plan.total_region_directories,
        plan.run_plan.thread_count,
        plan.target_format,
        plan.compression_level,
        1 << 28,
        plan.run_plan.profile,
    );
    for step in run_steps(&plan.jobs, &plan.run_plan.input_summaries) {
        if let RunStep::Stage(stage) = step {
            for job in stage.jobs {
                let report = run_job(disk, &plan, job);
                assert!(accumulator.accepts(&report));
                accumulator.apply(&report, 50);
            }
        }
    }
    accumulator.finish(100)
}

fn inspect(disk: &Disk, cli: &Cli) -> InfoSummary {
    let scans = cli.inputs.iter().map(|input| scan(disk, &input.text())).collect();
    let plan = plan_inspection(cli, &scans, &path("/"), 8).unwrap();
    let mut entries = Vec::new();
    for source in &plan.sources {
        let bytes = content(disk, &source.source_file);
        let size = Some(bytes.len() as u64);
        let files =
            InspectedFiles { bytes, externals: Vec::new(), sidecar_sizes: Vec::new() };
        entries.push(inspect_source(source, size, Ok(files)));
    }
    assert!(can_summarize(&entries));
    summarize(&plan.discovery_summary.inputs, entries, plan.thread_count, 5).unwrap()
}

#[test]
fn auto_detection_defers_corrupt_blinear_failures_to_job_execution() {
    let disk: Disk = vec![
        ("/tmp/input/r.-1.-1.mca", sample_mca_file()),
        ("/tmp/input/r.0.0.b_linear", vec![0_u8, 1, 2, 3]),
    ];
    let cli = conversion_cli(&["/tmp/input"], SourceFormatArg::Auto, TargetFormatArg::Linear);
    let summary = run(&disk, &cli);

    assert_eq!(summary.total_jobs, 2);
    assert_eq!(summary.successful_jobs, 1);
    assert_eq!(summary.failed_jobs, 1);
    assert!(summary.has_issues());
}

#[test]
fn worker_threads_are_capped_to_discovered_region_files() {
    let disk: Disk = vec![("/tmp/input/r.-1.-1.mca", sample_mca_file())];
    let mut cli = conversion_cli(&["/tmp/input"], SourceFormatArg::Mca, TargetFormatArg::Linear);
    cli.threads = Some(64);

    let summary = run(&disk, &cli);

    assert_eq!(summary.total_jobs, 1);
    assert_eq!(summary.thread_count, 1);
    assert!(!summary.has_issues());
}

#[test]
fn profile_reports_encoded_payload_details_for_each_target_format() {
    let targets = [
        TargetFormatArg::Mca,
        TargetFormatArg::Linear,
        TargetFormatArg::BlinearV2,
        TargetFormatArg::BlinearV3,
    ];

    for target in targets {
        let mut region = Region::new(0, 0);
        region
            .set_chunk(0, ChunkData { timestamp: 123, raw_nbt: pseudo_random_bytes(8 * 1024) })
            .unwrap();
        region
            .set_chunk(17, ChunkData { timestamp: 456, raw_nbt: pseudo_random_bytes(6 * 1024) })
            .unwrap();
        let file = encode_region(&region, RegionFormat::Mca, 6).unwrap().main_file_bytes;
        let disk: Disk = vec![("/tmp/input/r.0.0.mca", file)];

        let mut cli = conversion_cli(&["/tmp/input"], SourceFormatArg::Mca, target);
        cli.profile = true;

        let summary = run(&disk, &cli);
        assert_eq!(summary.successful_jobs, 1);
        let profile = summary.profile.expect("profile should be captured");

        assert_eq!(profile.slowest_jobs.len(), 1);
        assert!(profile.encoded_units > 0);
        assert!(profile.raw_payload_bytes > 0);
        assert!(profile.compressed_payload_bytes > 0);
        assert_eq!(profile.slowest_jobs[0].encoded_units, profile.encoded_units);
        assert_eq!(profile.slowest_jobs[0].raw_payload_bytes, profile.raw_payload_bytes);
        assert_eq!(
            profile.slowest_jobs[0].compressed_payload_bytes,
            profile.compressed_payload_bytes
        );
    }
}

#[test]
fn mca_overwrite_is_rejected_when_existing_destination_uses_external_sidecars() {
    let mut region = Region::new(0, 0);
    region
        .set_chunk(0, ChunkData { timestamp: 1, raw_nbt: pseudo_random_bytes(1_400_000) })
        .unwrap();
    let encoded = encode_region(&region, RegionFormat::Mca, 6).unwrap();
    assert_eq!(encoded.sidecar_files[0].file_name, "c.0.0.mcc");
    let disk: Disk = vec![("/tmp/input/r.0.0.mca", encoded.main_file_bytes.clone())];

    let mut cli = conversion_cli(&["/tmp/input"], SourceFormatArg::Mca, TargetFormatArg::Mca);
    cli.compression_level = Some(6);
    let plan = plan(&disk, &cli);
    let job = plan.jobs[0].clone();

    let existing = encoded.main_file_bytes.clone();
    assert!(refuses_overwrite(RegionFormat::Mca, true, Some(&existing)).unwrap());
    let externals = vec![ExternalChunk {
        index: 0,
        payload: Ok(encoded.sidecar_files[0].bytes.clone()),
    }];
    let files = SourceFiles { bytes: content(&disk, &job.source_file), externals };
    let decoded = decode_job(&job, Ok(files)).unwrap();
    assert_eq!(decoded.outcome.region, region);
    let refusal = refusal_message(&job.destination_file);
    let report =
        report_written(job, RegionFormat::Mca, decoded, Err(refusal), times(), false);
    match report {
        JobReport::Success(_) => panic!("the overwrite must be refused"),
        JobReport::Failure(failure) => {
            assert_eq!(failure.error.code, DiagnosticCode::OutputSafety);
            assert!(failure.error.message.starts_with(
                "failed to encode and write /tmp/input/r.0.0.mca as mca: refusing to overwrite "
            ));
            assert_eq!(failure.source_format, Some(RegionFormat::Mca));
        }
    }
    assert!(!refuses_overwrite(RegionFormat::Mca, false, Some(&existing)).unwrap());
    assert!(!refuses_overwrite(RegionFormat::Linear, true, Some(&existing)).unwrap());
    assert!(!refuses_overwrite(RegionFormat::Mca, true, None).unwrap());
    assert!(!refuses_overwrite(RegionFormat::Mca, true, Some(&sample_mca_file())).unwrap());
    assert!(refuses_overwrite(RegionFormat::Mca, true, Some(&vec![0; 9])).is_err());
}

#[test]
fn conversion_runs_inputs_and_world_groups_in_sequence() {
    let disk: Disk = vec![
        ("/tmp/a_world/region/r.-1.-1.mca", sample_mca_file()),
        ("/tmp/a_world/entities/r.0.0.mca", sample_mca_file()),
        ("/tmp/b_world/poi/r.1.1.mca", sample_mca_file()),
    ];
    let cli = conversion_cli(
        &["/tmp/a_world", "/tmp/b_world"],
        SourceFormatArg::Mca,
        TargetFormatArg::Linear,
    );
    assert_eq!(run(&disk, &cli).successful_jobs, 3);

    let plan = plan(&disk, &cli);
    let mut events = Vec::new();
    let mut jobs = 0;
    for step in run_steps(&plan.jobs, &plan.run_plan.input_summaries) {
        match step {
            RunStep::Stage(stage) => {
                events.push(format!(
                    "stage {} {}",
                    stage.stage.input_index,
                    stage.stage.file_group.name()
                ));
                assert_eq!(stage.stage.total_jobs, stage.jobs.len());
                jobs += stage.jobs.len();
            }
            RunStep::InputDone(index) => events.push(format!("completed {index}")),
        }
    }
    assert_eq!(jobs, plan.jobs.len());
    assert_eq!(
        events,
        vec![
            "stage 0 regions",
            "stage 0 entities",
            "completed 0",
            "stage 1 poi",
            "completed 1",
        ]
    );
}

#[test]
fn info_mode_reports_single_region_file_details() {
    let disk: Disk = vec![("/tmp/r.-1.-1.mca", sample_mca_file())];
    let summary = inspect(&disk, &info_cli(&["/tmp/r.-1.-1.mca"]));

    assert_eq!(summary.total_region_files, 1);
    assert_eq!(summary.readable_regions, 1);
    assert_eq!(summary.failed_regions, 0);
    assert_eq!(summary.inputs.len(), 1);
    assert_eq!(summary.inputs[0].input_path, path("/tmp/r.-1.-1.mca"));
    assert_eq!(summary.inputs[0].region_files, 1);
    assert!(summary.chunk_count > 0);
    assert_eq!(
        summary.entries[0].storage_format.map(|format| format.name().to_string()),
        Some("mca".to_string())
    );
    assert_eq!(summary.entries[0].region_x, Some(-1));
    assert_eq!(summary.inputs[0].input_kind, InputKind::RegionFile);
}

#[test]
fn info_mode_reports_world_group_readable_counts() {
    let disk: Disk = vec![
        ("/tmp/world/region/r.-1.-1.mca", sample_mca_file()),
        ("/tmp/world/entities/r.0.0.mca", sample_mca_file()),
        ("/tmp/world/poi/r.1.1.mca", sample_mca_file()),
    ];
    let summary = inspect(&disk, &info_cli(&["/tmp/world"]));

    assert_eq!(summary.inputs[0].group_breakdown.len(), 3);
    for group in &summary.inputs[0].group_breakdown {
        assert_eq!(group.region_files, 1);
        assert_eq!(group.readable_regions, 1);
        assert_eq!(group.failed_regions, 0);
    }
}

#[test]
fn info_mode_counts_unreadable_file_sizes_in_totals() {
    let disk: Disk = vec![("/tmp/r.0.0.linear", vec![0_u8, 1, 2, 3])];
    let summary = inspect(&disk, &info_cli(&["/tmp/r.0.0.linear"]));

    assert_eq!(summary.total_region_files, 1);
    assert_eq!(summary.readable_regions, 0);
    assert_eq!(summary.failed_regions, 1);
    assert_eq!(summary.total_size_bytes, 4);
    assert_eq!(summary.inputs[0].total_size_bytes, 4);
    assert_eq!(summary.entries[0].size_bytes, Some(4));
}

#[test]
fn unreadable_files_are_reported_with_the_reason() {
    let disk: Disk = vec![("/tmp/r.0.0.mca", sample_mca_file())];
    let scans = vec![scan(&disk, "/tmp/r.0.0.mca")];
    let plan = plan_inspection(&info_cli(&["/tmp/r.0.0.mca"]), &scans, &path("/"), 1).unwrap();
    let entry = inspect_source(&plan.sources[0], Some(12), Err("denied".to_string()));
    assert_eq!(entry.error, Some("denied".to_string()));
    assert_eq!(entry.storage_format.map(|format| format.name()), Some("mca"));
    assert_eq!(entry.size_bytes, Some(12));
    assert_eq!((entry.region_x, entry.region_z), (None, None));
    let mut stray = inspect_source(&plan.sources[0], None, Err("gone".to_string()));
    stray.input_index = 7;
    let error = summarize(&plan.discovery_summary.inputs, vec![stray], 1, 0).unwrap_err();
    assert_eq!(error.message(), "discovered info entry points at an unknown input");
}

#[test]
fn formats_of_an_input_are_counted_by_name() {
    let region = Region::new(0, 0);
    let file = |format| encode_region(&region, format, 6).unwrap().main_file_bytes;
    let disk: Disk = vec![
        ("/tmp/in/r.0.0.mca", file(RegionFormat::Mca)),
        ("/tmp/in/r.0.1.mca", file(RegionFormat::Mca)),
        ("/tmp/in/r.0.2.linear", file(RegionFormat::Linear)),
        ("/tmp/in/r.0.3.b_linear", file(RegionFormat::BlinearV3)),
        ("/tmp/in/r.0.4.b_linear", vec![0; 20]),
    ];
    let summary = inspect(&disk, &info_cli(&["/tmp/in"]));
    let counts: Vec<(&str, usize)> = summary.inputs[0]
        .format_breakdown
        .iter()
        .map(|entry| (entry.format.name(), entry.count))
        .collect();
    assert_eq!(counts, [("blinear_v3", 1), ("linear_v1", 1), ("mca", 2)]);
    assert_eq!(summary.failed_regions, 1);
    assert_eq!(summary.readable_regions, 4);
}

#[test]
fn decode_failures_are_reported_against_the_source() {
    let disk: Disk = vec![("/tmp/input/r.0.0.b_linear", vec![0; 20])];
    let cli = conversion_cli(&["/tmp/input"], SourceFormatArg::Auto, TargetFormatArg::Linear);
    let plan = plan(&disk, &cli);
    let report = run_job(&disk, &plan, plan.jobs[0].clone());
    match &report {
        JobReport::Success(_) => panic!("the file is corrupt"),
        JobReport::Failure(failure) => {
            assert_eq!(failure.error.code, DiagnosticCode::CorruptRegion);
            assert_eq!(failure.source_format, None);
            assert_eq!(
                failure.error.message,
                "failed to decode /tmp/input/r.0.0.b_linear: \
                 unknown blinear superblock in /tmp/input/r.0.0.b_linear"
            );
            assert_eq!(failure.error.location.path, Some(path("/tmp/input/r.0.0.b_linear")));
            assert_eq!(failure.profile.decode, 0);
            assert_eq!(failure.profile.wait_memory, 1);
            assert_eq!(failure.profile.total, 40);
        }
    }
    let short = SourceFiles { bytes: vec![0, 1, 2, 3], externals: Vec::new() };
    assert_eq!(
        decode_job(&plan.jobs[0], Ok(short)).unwrap_err(),
        "failed to decode /tmp/input/r.0.0.b_linear: failed to read blinear header from \
         /tmp/input/r.0.0.b_linear: failed to fill whole buffer"
    );
    let unread = decode_job(&plan.jobs[0], Err("failed to open it".to_string())).unwrap_err();
    assert_eq!(unread, "failed to decode /tmp/input/r.0.0.b_linear: failed to open it");
}

#[test]
fn plans_follow_the_command_line() {
    let disk: Disk = vec![
        ("/tmp/input/r.-1.-1.mca", sample_mca_file()),
        ("/tmp/input/r.0.0.b_linear", vec![0; 20]),
        ("/tmp/input/r.0.1.b_linear", vec![0; 20]),
    ];
    let mut cli = conversion_cli(&["/tmp/input"], SourceFormatArg::Auto, TargetFormatArg::BlinearV3);
    cli.threads = None;
    let plan = plan(&disk, &cli);
    assert_eq!(plan.run_plan.requested_thread_count, 8);
    assert_eq!(plan.run_plan.thread_count, 3);
    assert_eq!(plan.compression_level, 6);
    assert_eq!(plan.target_format, RegionFormat::BlinearV3);
    assert_eq!(plan.run_plan.source_format, None);
    let breakdown: Vec<(&str, usize)> = plan
        .run_plan
        .source_breakdown
        .iter()
        .map(|entry| (entry.format.name(), entry.job_count))
        .collect();
    assert_eq!(breakdown, [("mca", 1), ("blinear", 2)]);

    cli.output = None;
    let scans = vec![scan(&disk, "/tmp/input")];
    assert!(matches!(
        plan_conversion(&cli, &scans, &path("/"), 8),
        Err(PlanError::Cli(CliError::OutputRequired))
    ));
    let gone = conversion_cli(&["/tmp/gone"], SourceFormatArg::Auto, TargetFormatArg::Mca);
    let error = match plan_conversion(&gone, &vec![InputScan::Missing], &path("/"), 8) {
        Ok(_) => panic!("there is nothing to convert"),
        Err(error) => error,
    };
    assert_eq!(
        error.message(),
        "input path /tmp/gone is neither a supported region file nor a directory"
    );
}
