use region_converter::discovery::{
    build_directory_mounts, directory_mount_base_name, discover_jobs, discover_jobs_with_summary,
    discover_sources_with_summary, mount_name, resolve_source_format, sanitize_component,
    should_skip_recursive_entry, supported_region_files_in_dir, validate_jobs, DiscoveryError,
    FoundFile, GroupCounts, InputDiscovery, InputKind, InputScan, Job, RegionFileGroup,
    WalkedDirectory,
};
use region_converter::formats::{xxhash32, RegionFormat, SourceFormatHint};
use region_converter::path::{normalize_path_for_compare, PathComponent, SavePath};

fn path(text: &str) -> SavePath {
    let mut components = Vec::new();
    if text.starts_with('/') {
        components.push(PathComponent::RootDir);
    }
    for part in text.split('/') {
        if part == ".." {
            components.push(PathComponent::ParentDir);
        } else if part == "." {
            components.push(PathComponent::CurDir);
        } else if !part.is_empty() {
            components.push(PathComponent::Normal(part.to_string()));
        }
    }
    SavePath { separator: '/', components }
}

fn file(text: &str) -> FoundFile {
    FoundFile { path: path(text), is_file: true, size: 100 }
}

fn walked(directory: &str, files: &[&str]) -> WalkedDirectory {
    WalkedDirectory {
        path: path(directory),
        listing: Ok(files.iter().map(|name| file(&format!("{directory}/{name}"))).collect()),
    }
}

fn world(root: &str, directories: Vec<WalkedDirectory>) -> InputScan {
    let mut all = vec![WalkedDirectory { path: path(root), listing: Ok(Vec::new()) }];
    all.extend(directories);
    InputScan::Directory(Ok(Vec::new()), all)
}

fn summary(input: &str) -> InputDiscovery {
    InputDiscovery {
        input_path: path(input),
        input_kind: InputKind::WorldDirectory,
        discovered_jobs: 1,
        region_directories: 1,
        group_counts: GroupCounts { regions: 1, entities: 0, poi: 0 },
    }
}

#[test]
fn directory_mounts_keep_the_folder_name_when_unique() {
    let inputs = vec![path("/tmp/my-world")];
    let summaries = vec![summary("/tmp/my-world")];

    let mounts = build_directory_mounts(&inputs, &summaries, &path("/work"));
    assert!(mounts[&0].starts_with("my-world__"));
}

#[test]
fn directory_mounts_disambiguate_duplicate_folder_names() {
    let inputs = vec![path("/tmp/a/world"), path("/tmp/b/world")];
    let summaries = vec![summary("/tmp/a/world"), summary("/tmp/b/world")];

    let mounts = build_directory_mounts(&inputs, &summaries, &path("/work"));
    assert_ne!(mounts.get(&0), mounts.get(&1));
    assert!(mounts[&0].starts_with("world__"));
    assert!(mounts[&1].starts_with("world__"));
}

#[test]
fn directory_mounts_are_stable_across_separate_invocations() {
    let input_a = path("/tmp/a/world");
    let input_b = path("/tmp/b/world");
    let summary_a = vec![summary("/tmp/a/world")];
    let summary_b = vec![summary("/tmp/b/world")];

    let mounts_a = build_directory_mounts(&vec![input_a], &summary_a, &path("/work"));
    let mounts_b = build_directory_mounts(&vec![input_b], &summary_b, &path("/work"));
    assert_ne!(mounts_a[&0], mounts_b[&0]);
}

#[test]
fn mounts_end_in_the_hash_of_the_whole_path() {
    let hash = xxhash_rust::xxh32::xxh32(b"/work/saves/my world", 0);
    let mounts = build_directory_mounts(
        &vec![path("saves/./my world")],
        &vec![summary("saves/./my world")],
        &path("/work"),
    );
    assert_eq!(mounts[&0], format!("my_world__{hash:08x}"));
}

#[test]
fn region_file_inputs_have_no_mount() {
    let mut single = summary("/tmp/r.0.0.mca");
    single.input_kind = InputKind::RegionFile;
    let mounts =
        build_directory_mounts(&vec![path("/tmp/r.0.0.mca")], &vec![single], &path("/work"));
    assert!(mounts.is_empty());
}

#[test]
fn mount_labels_are_sanitized() {
    assert_eq!(sanitize_component("a b/c-d_e.f"), Some("a_b_c-d_e.f".to_string()));
    assert_eq!(sanitize_component("w\u{f6}rld"), Some("w_rld".to_string()));
    assert_eq!(sanitize_component(""), None);
    assert_eq!(directory_mount_base_name(&path("/")), "input");
    assert_eq!(directory_mount_base_name(&path("/a/..")), "input");
    assert_eq!(directory_mount_base_name(&path("/a/New World")), "New_World");
}

#[test]
fn discovery_skips_preexisting_output_trees() {
    let scan = world(
        "/tmp/x/world",
        vec![
            walked("/tmp/x/world/region", &["r.-1.-1.mca"]),
            walked("/tmp/x/world/out", &[]),
            walked("/tmp/x/world/out/DIM1/region", &["r.9.9.mca"]),
        ],
    );
    let jobs = discover_jobs(
        &vec![path("/tmp/x/world")],
        &vec![scan],
        &path("/tmp/x/world/out"),
        None,
        RegionFormat::Linear,
        &path("/"),
    )
    .unwrap();

    assert_eq!(jobs.len(), 1);
    assert_eq!(jobs[0].source_file.text(), "/tmp/x/world/region/r.-1.-1.mca");
    let destination = jobs[0].destination_file.text();
    assert!(destination.contains("/out/world__"));
    assert!(destination.ends_with("region/r.-1.-1.linear"));
}

#[test]
fn multi_input_mounts_do_not_collide_when_trailing_paths_match() {
    let inputs = vec![path("/tmp/one/a/archive/world"), path("/tmp/two/a/archive/world")];
    let scans = vec![
        world(
            "/tmp/one/a/archive/world",
            vec![walked("/tmp/one/a/archive/world/region", &["r.-1.-1.mca"])],
        ),
        world(
            "/tmp/two/a/archive/world",
            vec![walked("/tmp/two/a/archive/world/region", &["r.-1.-1.mca"])],
        ),
    ];
    let jobs = discover_jobs(
        &inputs,
        &scans,
        &path("/tmp/output"),
        Some(SourceFormatHint::Mca),
        RegionFormat::Linear,
        &path("/"),
    )
    .unwrap();

    assert_eq!(jobs.len(), 2);
    assert_ne!(jobs[0].destination_file.text(), jobs[1].destination_file.text());
}

#[test]
fn directory_mounts_remain_unique_across_separate_runs() {
    let run = |root: &str| {
        discover_jobs(
            &vec![path(root)],
            &vec![world(root, vec![walked(&format!("{root}/region"), &["r.-1.-1.mca"])])],
            &path("/tmp/output"),
            Some(SourceFormatHint::Mca),
            RegionFormat::Linear,
            &path("/"),
        )
        .unwrap()
    };
    let jobs_a = run("/tmp/a/world");
    let jobs_b = run("/tmp/b/world");

    assert_eq!(jobs_a.len(), 1);
    assert_eq!(jobs_b.len(), 1);
    assert_ne!(jobs_a[0].destination_file, jobs_b[0].destination_file);
}

#[test]
fn single_region_file_inputs_write_directly_under_output_root() {
    let input_file = path("/tmp/x/r.-1.-1.mca");
    let jobs = discover_jobs(
        &vec![path("/tmp/x/r.-1.-1.mca")],
        &vec![InputScan::File(8192)],
        &path("/tmp/x/output"),
        Some(SourceFormatHint::Mca),
        RegionFormat::Linear,
        &path("/"),
    )
    .unwrap();

    assert_eq!(jobs.len(), 1);
    assert_eq!(jobs[0].source_file, input_file);
    assert_eq!(jobs[0].destination_file, path("/tmp/x/output/r.-1.-1.linear"));
    assert_eq!(jobs[0].estimated_size_bytes, 8192);
}

#[test]
fn discovery_classifies_world_region_entities_and_poi_groups() {
    let scan = world(
        "/tmp/x/world",
        vec![
            walked("/tmp/x/world/region", &["r.-1.-1.mca"]),
            walked("/tmp/x/world/entities", &["r.0.0.mca"]),
            walked("/tmp/x/world/poi", &["r.1.1.mca"]),
        ],
    );
    let discovery = discover_jobs_with_summary(
        &vec![path("/tmp/x/world")],
        &vec![scan],
        &path("/tmp/x/output"),
        Some(SourceFormatHint::Mca),
        RegionFormat::Linear,
        &path("/"),
    )
    .unwrap();

    assert_eq!(discovery.jobs.len(), 3);
    assert_eq!(discovery.summary.inputs[0].group_counts.regions, 1);
    assert_eq!(discovery.summary.inputs[0].group_counts.entities, 1);
    assert_eq!(discovery.summary.inputs[0].group_counts.poi, 1);
    assert!(discovery.jobs.iter().any(|job| job.file_group == RegionFileGroup::Regions));
    assert!(discovery.jobs.iter().any(|job| job.file_group == RegionFileGroup::Entities));
    assert!(discovery.jobs.iter().any(|job| job.file_group == RegionFileGroup::Poi));
    assert_eq!(discovery.summary.total_region_directories, 3);
}

#[test]
fn direct_entities_directory_input_is_classified_as_entities() {
    let listing = vec![file("/tmp/x/entities/r.-1.-1.mca")];
    let discovery = discover_jobs_with_summary(
        &vec![path("/tmp/x/entities")],
        &vec![InputScan::Directory(Ok(listing), Vec::new())],
        &path("/tmp/x/output"),
        Some(SourceFormatHint::Mca),
        RegionFormat::Linear,
        &path("/"),
    )
    .unwrap();

    assert_eq!(discovery.jobs.len(), 1);
    assert_eq!(discovery.jobs[0].file_group, RegionFileGroup::Entities);
    assert_eq!(discovery.summary.inputs[0].group_counts.entities, 1);
    assert_eq!(discovery.summary.inputs[0].input_kind, InputKind::RegionDirectory);
}

#[test]
fn a_single_region_directory_is_written_directly_under_the_output() {
    let listing = |directory: &str| {
        InputScan::Directory(Ok(vec![file(&format!("{directory}/r.0.0.mca"))]), Vec::new())
    };
    let discover = |inputs: &[&str]| {
        discover_jobs_with_summary(
            &inputs.iter().map(|input| path(input)).collect(),
            &inputs.iter().map(|input| listing(input)).collect(),
            &path("/out"),
            None,
            RegionFormat::Linear,
            &path("/"),
        )
        .unwrap()
        .jobs
    };

    let single = discover(&["/w/region"]);
    assert_eq!(single.len(), 1);
    assert_eq!(single[0].destination_file, path("/out/r.0.0.linear"));

    let inputs = ["/v/region", "/w/region"];
    let both = discover(&inputs);
    assert_eq!(both.len(), 2);
    for (job, input) in both.iter().zip(inputs) {
        let mount = mount_name(&path(input), xxhash32(0, input.as_bytes()));
        assert!(mount.starts_with("region__"));
        assert_eq!(job.destination_file, path(&format!("/out/{mount}/r.0.0.linear")));
    }
    assert_ne!(both[0].destination_file, both[1].destination_file);
}

#[test]
fn jobs_stand_by_source() {
    let listing = vec![
        file("/in/r.1.0.mca"),
        file("/in/r.0.0.mca"),
        file("/in/notes.txt"),
        FoundFile { path: path("/in/r.5.5.mca"), is_file: false, size: 0 },
        file("/in/r.x.0.mca"),
        file("/in/r.0.10.linear"),
    ];
    let found = supported_region_files_in_dir(&listing);
    let names: Vec<String> = found.iter().map(|entry| entry.path.text()).collect();
    assert_eq!(names, ["/in/r.0.0.mca", "/in/r.0.10.linear", "/in/r.1.0.mca"]);
}

#[test]
fn inputs_that_hold_nothing_are_refused() {
    let refused = |scan: InputScan, input: &str| {
        discover_sources_with_summary(&vec![path(input)], &vec![scan], None, None, &path("/"))
            .unwrap_err()
    };
    assert!(matches!(refused(InputScan::Missing, "/gone"), DiscoveryError::NotFound(_)));
    assert_eq!(
        refused(InputScan::Missing, "/gone").message(),
        "input path /gone is neither a supported region file nor a directory"
    );
    assert!(matches!(
        refused(InputScan::File(3), "/in/level.dat"),
        DiscoveryError::NotRegionFile(_)
    ));
    assert_eq!(
        refused(world("/in", Vec::new()), "/in").message(),
        "input /in does not contain any supported region files"
    );
    assert_eq!(
        refused(InputScan::Directory(Err("failed to list /in".to_string()), Vec::new()), "/in")
            .message(),
        "failed to list /in"
    );
    assert!(matches!(
        refused(world("/in", vec![walked("/elsewhere", &["r.0.0.mca"])]), "/in"),
        DiscoveryError::NotBelow(_)
    ));
    let nothing =
        discover_sources_with_summary(&Vec::new(), &Vec::new(), None, None, &path("/")).unwrap_err();
    assert!(matches!(nothing, DiscoveryError::NothingFound));
}

#[test]
fn unreadable_directories_of_the_output_do_not_matter() {
    let blocked = WalkedDirectory {
        path: path("/in/out/locked"),
        listing: Err("failed to list /in/out/locked".to_string()),
    };
    let scan = world("/in", vec![walked("/in/region", &["r.0.0.mca"]), blocked]);
    let jobs = discover_jobs(
        &vec![path("/in")],
        &vec![scan],
        &path("/in/out"),
        None,
        RegionFormat::Mca,
        &path("/"),
    )
    .unwrap();
    assert_eq!(jobs.len(), 1);
}

fn job(source: &str, destination: &str) -> Job {
    Job {
        input_index: 0,
        file_group: RegionFileGroup::Regions,
        source_file: path(source),
        source_format: SourceFormatHint::Mca,
        destination_file: path(destination),
        estimated_size_bytes: 0,
    }
}

#[test]
fn jobs_must_not_collide() {
    assert!(validate_jobs(&vec![job("/a/r.0.0.mca", "/o/1"), job("/b/r.0.0.mca", "/o/2")]).is_ok());
    assert_eq!(
        validate_jobs(&vec![job("/a/r.0.0.mca", "/a/r.0.0.mca")]).unwrap_err().message(),
        "refusing to overwrite the source file in place: /a/r.0.0.mca"
    );
    assert_eq!(
        validate_jobs(&vec![job("/a/r.0.0.mca", "/o/1"), job("/b/r.0.0.mca", "/o/1")])
            .unwrap_err()
            .message(),
        "multiple inputs map to the same output file /o/1"
    );
}

#[test]
fn the_same_file_named_twice_is_refused() {
    let result = discover_jobs(
        &vec![path("/in/r.0.0.mca"), path("/in/r.0.0.mca")],
        &vec![InputScan::File(1), InputScan::File(1)],
        &path("/out"),
        None,
        RegionFormat::Linear,
        &path("/"),
    );
    assert!(matches!(result, Err(DiscoveryError::SameOutput(_))));
}

#[test]
fn source_formats_come_from_the_extension_unless_forced() {
    let resolve = |name: &str, forced| resolve_source_format(&path(name), forced);
    assert_eq!(resolve("/r.0.0.mca", None).unwrap(), SourceFormatHint::Mca);
    assert_eq!(resolve("/r.0.0.linear", None).unwrap(), SourceFormatHint::Linear);
    assert_eq!(resolve("/r.0.0.b_linear", None).unwrap(), SourceFormatHint::BlinearFamily);
    assert_eq!(
        resolve("/r.0.0.mca", Some(SourceFormatHint::BlinearV2)).unwrap(),
        SourceFormatHint::BlinearV2
    );
    assert!(resolve("/r.0.0.zip", None).is_err());
}

#[test]
fn the_output_is_skipped_but_not_the_input_itself() {
    let skip = |candidate: &str, input: &str, output: &str| {
        should_skip_recursive_entry(
            &path(candidate),
            &path(input),
            Some(&path(output)),
            &path("/work"),
        )
    };
    assert!(skip("in/out/region", "in", "/work/in/out"));
    assert!(!skip("in/outer", "in", "/work/in/out"));
    assert!(!skip("/out/in", "/out/in", "/out"));
    assert!(skip("/out/in/region", "/out/in", "/out"));
    assert!(!should_skip_recursive_entry(&path("/a"), &path("/b"), None, &path("/work")));
}

#[test]
fn normalizing_a_path_twice_changes_nothing() {
    let once = normalize_path_for_compare(&path("a/./b/../c"), &path("/work"));
    assert_eq!(once.text(), "/work/a/c");
    let twice = normalize_path_for_compare(&once, &path("/elsewhere"));
    assert_eq!(twice, once);
    assert_eq!(normalize_path_for_compare(&path("/../.."), &path("/work")).text(), "/");
}
