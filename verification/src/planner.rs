//! What a run is going to do.

use vstd::prelude::*;

use crate::cli::{self, Cli, CliError};
use crate::discovery::{
    self, discover_jobs_with_summary, discover_sources_with_summary, DiscoveryError,
    DiscoveryFault, DiscoverySummary, InputDiscovery, InputScan, Job, JobFindings, JobView,
    RegionSource,
};
use crate::formats::{self, RegionFormat, SourceFormatHint};
use crate::path::{self, PathView, SavePath};
use crate::pipeline::{self, resolve_thread_count};
use crate::search;
use crate::sort;

verus! {

/// How many jobs have a source of which that is known.
#[derive(Clone, Copy, Debug, PartialEq, Eq, Structural)]
pub struct FormatBreakdown {
    pub format: SourceFormatHint,
    pub job_count: usize,
}

#[derive(Debug)]
pub struct RunPlan {
    pub input_paths: Vec<SavePath>,
    pub output_root: SavePath,
    pub source_format: Option<SourceFormatHint>,
    pub requested_thread_count: usize,
    pub target_format: RegionFormat,
    pub thread_count: usize,
    pub compression_level: i32,
    pub total_jobs: usize,
    pub total_region_directories: usize,
    pub source_breakdown: Vec<FormatBreakdown>,
    pub input_summaries: Vec<InputDiscovery>,
    pub profile: bool,
}

pub struct ConversionPlan {
    pub run_plan: RunPlan,
    pub jobs: Vec<Job>,
    pub target_format: RegionFormat,
    pub compression_level: i32,
}

pub struct InspectionPlan {
    pub sources: Vec<RegionSource>,
    pub discovery_summary: DiscoverySummary,
    pub thread_count: usize,
}

/// Why nothing can be done.
#[derive(Debug)]
pub enum PlanError {
    Cli(CliError),
    Discovery(DiscoveryError),
}

/// Why nothing can be done.
pub enum PlanFault {
    Cli(CliError),
    Discovery(DiscoveryFault),
}

impl View for PlanError {
    type V = PlanFault;

    open spec fn view(&self) -> PlanFault {
        match self {
            PlanError::Cli(error) => PlanFault::Cli(*error),
            PlanError::Discovery(error) => PlanFault::Discovery(error@),
        }
    }
}

impl PlanError {
    /// The message of the error.
    pub fn message(&self) -> (text: String)
        ensures
            text@ == match self@ {
                PlanFault::Cli(error) => cli::cli_error_text(error),
                PlanFault::Discovery(fault) => discovery::fault_text(fault),
            },
    {
        match self {
            PlanError::Cli(error) => error.message().to_owned(),
            PlanError::Discovery(error) => error.message(),
        }
    }
}

/// The number of `jobs` with a source of which `format` is known.
pub open spec fn jobs_with(jobs: Seq<JobView>, format: SourceFormatHint) -> nat
    decreases jobs.len(),
{
    if jobs.len() == 0 {
        0
    } else {
        jobs_with(jobs.drop_last(), format) + if jobs.last().source_format == format {
            1nat
        } else {
            0
        }
    }
}

/// What can be known of a source format, in the order in which it is shown.
pub open spec fn shown_formats() -> Seq<SourceFormatHint> {
    seq![
        SourceFormatHint::Mca,
        SourceFormatHint::Linear,
        SourceFormatHint::BlinearFamily,
        SourceFormatHint::BlinearV2,
        SourceFormatHint::BlinearV3,
    ]
}

/// How many jobs there are for each of `formats` for which there is one.
pub open spec fn breakdown_of(jobs: Seq<JobView>, formats: Seq<SourceFormatHint>) -> Seq<
    FormatBreakdown,
>
    decreases formats.len(),
{
    if formats.len() == 0 {
        seq![]
    } else {
        let before = breakdown_of(jobs, formats.drop_last());
        let count = jobs_with(jobs, formats.last());
        if count > 0 {
            before.push(FormatBreakdown { format: formats.last(), job_count: count as usize })
        } else {
            before
        }
    }
}

/// Each job is counted for one format.
pub proof fn law_breakdown_adds_up(jobs: Seq<JobView>)
    ensures
        jobs_with(jobs, SourceFormatHint::Mca) + jobs_with(jobs, SourceFormatHint::Linear)
            + jobs_with(jobs, SourceFormatHint::BlinearFamily) + jobs_with(
            jobs,
            SourceFormatHint::BlinearV2,
        ) + jobs_with(jobs, SourceFormatHint::BlinearV3) == jobs.len(),
    decreases jobs.len(),
{
    if jobs.len() > 0 {
        law_breakdown_adds_up(jobs.drop_last());
    }
}

fn count_jobs(jobs: &Vec<Job>, format: SourceFormatHint) -> (count: usize)
    ensures
        count == jobs_with(sort::views(jobs@), format),
        count <= jobs@.len(),
{
    let ghost all = sort::views(jobs@);
    let mut count: usize = 0;
    let mut i: usize = 0;
    while i < jobs.len()
        invariant
            i <= jobs.len(),
            all == sort::views(jobs@),
            count <= i,
            count == jobs_with(all.take(i as int), format),
        decreases jobs.len() - i,
    {
        assert(all.take(i + 1).drop_last() =~= all.take(i as int));
        assert(all[i as int] == jobs@[i as int]@);
        if jobs[i].source_format == format {
            count = count + 1;
        }
        i = i + 1;
    }
    assert(all.take(i as int) =~= all);
    count
}

/// How many of `jobs` there are for each source format for which there is one.
pub fn build_source_breakdown(jobs: &Vec<Job>) -> (breakdown: Vec<FormatBreakdown>)
    ensures
        breakdown@ == breakdown_of(sort::views(jobs@), shown_formats()),
{
    let formats = [
        SourceFormatHint::Mca,
        SourceFormatHint::Linear,
        SourceFormatHint::BlinearFamily,
        SourceFormatHint::BlinearV2,
        SourceFormatHint::BlinearV3,
    ];
    assert(formats@ =~= shown_formats());
    let mut breakdown: Vec<FormatBreakdown> = Vec::new();
    let mut i: usize = 0;
    while i < 5
        invariant
            i <= 5,
            formats@ == shown_formats(),
            breakdown@ == breakdown_of(sort::views(jobs@), formats@.take(i as int)),
        decreases 5 - i,
    {
        assert(formats@.take(i + 1).drop_last() =~= formats@.take(i as int));
        let job_count = count_jobs(jobs, formats[i]);
        if job_count > 0 {
            breakdown.push(FormatBreakdown { format: formats[i], job_count });
        }
        i = i + 1;
    }
    assert(formats@.take(i as int) =~= shown_formats());
    breakdown
}

/// What a command line asks for, where `available` threads can run at once: the number
/// of threads, the target format and the compression level.
pub open spec fn settings_of(cli: Cli, available: usize) -> Result<
    (usize, RegionFormat, i32),
    CliError,
> {
    match cli::cli_fault(cli) {
        Some(error) => Err(error),
        None => match cli::threads_of(cli, available) {
            Err(error) => Err(error),
            Ok(threads) => match cli.to {
                None => Err(CliError::NoTargetFormat),
                Some(to) => match cli::level_of(cli) {
                    Err(error) => Err(error),
                    Ok(level) => match cli.output {
                        None => Err(CliError::NoOutputRoot),
                        Some(_) => Ok((threads, cli::arg_format(to), level)),
                    },
                },
            },
        },
    }
}

/// What a run plan says.
#[verifier::ext_equal]
pub struct PlanView {
    pub input_paths: Seq<PathView>,
    pub output_root: PathView,
    pub source_format: Option<SourceFormatHint>,
    pub requested_thread_count: usize,
    pub target_format: RegionFormat,
    pub thread_count: usize,
    pub compression_level: i32,
    pub found: JobFindings,
    pub source_breakdown: Seq<FormatBreakdown>,
    pub profile: bool,
}

/// What a conversion plan says, with the jobs that go with it.
pub open spec fn plan_view(plan: ConversionPlan) -> PlanView {
    PlanView {
        input_paths: path::path_views(plan.run_plan.input_paths@),
        output_root: plan.run_plan.output_root@,
        source_format: plan.run_plan.source_format,
        requested_thread_count: plan.run_plan.requested_thread_count,
        target_format: plan.run_plan.target_format,
        thread_count: plan.run_plan.thread_count,
        compression_level: plan.run_plan.compression_level,
        found: JobFindings {
            jobs: sort::views(plan.jobs@),
            inputs: sort::views(plan.run_plan.input_summaries@),
            directories: plan.run_plan.total_region_directories as nat,
        },
        source_breakdown: plan.run_plan.source_breakdown@,
        profile: plan.run_plan.profile,
    }
}

/// The plan that converts what a command line names.
pub open spec fn planned_conversion(
    cli: Cli,
    scans: Seq<InputScan>,
    current: PathView,
    available: usize,
) -> Result<PlanView, PlanFault> {
    match settings_of(cli, available) {
        Err(error) => Err(PlanFault::Cli(error)),
        Ok((threads, target, level)) => match discovery::discovered_jobs(
            cli.inputs@,
            scans,
            &cli.output->0,
            cli::arg_hint(cli.from),
            target,
            current,
        ) {
            Err(fault) => Err(PlanFault::Discovery(fault)),
            Ok(found) => Ok(
                PlanView {
                    input_paths: path::path_views(cli.inputs@),
                    output_root: cli.output->0@,
                    source_format: cli::arg_hint(cli.from),
                    requested_thread_count: threads,
                    target_format: target,
                    thread_count: pipeline::resolved_threads(threads, found.jobs.len() as usize),
                    compression_level: level,
                    found,
                    source_breakdown: breakdown_of(found.jobs, shown_formats()),
                    profile: cli.profile,
                },
            ),
        },
    }
}

fn copy_paths(paths: &Vec<SavePath>) -> (copies: Vec<SavePath>)
    ensures
        path::path_views(copies@) == path::path_views(paths@),
{
    let mut copies: Vec<SavePath> = Vec::new();
    let mut i: usize = 0;
    while i < paths.len()
        invariant
            i <= paths.len(),
            copies@.len() == i,
            forall|k: int| 0 <= k < i ==> (#[trigger] copies@[k])@ == paths@[k]@,
        decreases paths.len() - i,
    {
        copies.push(paths[i].copy());
        i = i + 1;
    }
    assert(path::path_views(copies@) =~= path::path_views(paths@));
    copies
}

fn copy_inputs(inputs: &Vec<InputDiscovery>) -> (copies: Vec<InputDiscovery>)
    ensures
        sort::views(copies@) == sort::views(inputs@),
{
    let mut copies: Vec<InputDiscovery> = Vec::new();
    let mut i: usize = 0;
    while i < inputs.len()
        invariant
            i <= inputs.len(),
            copies@.len() == i,
            forall|k: int| 0 <= k < i ==> (#[trigger] copies@[k])@ == inputs@[k]@,
        decreases inputs.len() - i,
    {
        copies.push(
            InputDiscovery {
                input_path: inputs[i].input_path.copy(),
                input_kind: inputs[i].input_kind,
                discovered_jobs: inputs[i].discovered_jobs,
                region_directories: inputs[i].region_directories,
                group_counts: inputs[i].group_counts,
            },
        );
        i = i + 1;
    }
    assert(sort::views(copies@) =~= sort::views(inputs@));
    copies
}

/// Plans the conversion of what `cli` names, where `scans` tell what stands at its
/// inputs and `available` threads can run at once.
pub fn plan_conversion(
    cli: &Cli,
    scans: &Vec<InputScan>,
    current_dir: &SavePath,
    available: usize,
) -> (result: Result<ConversionPlan, PlanError>)
    requires
        cli.inputs@.len() == scans@.len(),
    ensures
        match result {
            Ok(plan) => {
                &&& planned_conversion(*cli, scans@, current_dir@, available) == Ok::<
                    PlanView,
                    PlanFault,
                >(plan_view(plan))
                &&& plan.target_format == plan.run_plan.target_format
                &&& plan.compression_level == plan.run_plan.compression_level
                &&& plan.run_plan.total_jobs == plan.jobs@.len()
            },
            Err(error) => planned_conversion(*cli, scans@, current_dir@, available) == Err::<
                PlanView,
                PlanFault,
            >(error@),
        },
{
    match cli.validate() {
        Ok(_) => {},
        Err(error) => {
            return Err(PlanError::Cli(error));
        },
    }
    let requested_thread_count = match cli.thread_count(available) {
        Ok(threads) => threads,
        Err(error) => {
            return Err(PlanError::Cli(error));
        },
    };
    let source_format = cli.forced_source_format();
    let target_format = match cli.target_format() {
        Ok(format) => format,
        Err(error) => {
            return Err(PlanError::Cli(error));
        },
    };
    let compression_level = match cli.resolved_compression_level() {
        Ok(level) => level,
        Err(error) => {
            return Err(PlanError::Cli(error));
        },
    };
    let output_root = match cli.output_root() {
        Ok(root) => root,
        Err(error) => {
            return Err(PlanError::Cli(error));
        },
    };
    let discovery = match discover_jobs_with_summary(
        &cli.inputs,
        scans,
        output_root,
        source_format,
        target_format,
        current_dir,
    ) {
        Ok(discovery) => discovery,
        Err(error) => {
            return Err(PlanError::Discovery(error));
        },
    };
    let jobs = discovery.jobs;
    assert(sort::views(jobs@).len() == jobs@.len());
    let thread_count = resolve_thread_count(requested_thread_count, jobs.len());
    let run_plan = RunPlan {
        input_paths: copy_paths(&cli.inputs),
        output_root: output_root.copy(),
        source_format,
        requested_thread_count,
        target_format,
        thread_count,
        compression_level,
        total_jobs: jobs.len(),
        total_region_directories: discovery.summary.total_region_directories,
        source_breakdown: build_source_breakdown(&jobs),
        input_summaries: copy_inputs(&discovery.summary.inputs),
        profile: cli.profile,
    };
    Ok(ConversionPlan { run_plan, jobs, target_format, compression_level })
}

/// The plan that inspects what a command line names: what is found, and the number of
/// threads.
pub open spec fn planned_inspection(
    cli: Cli,
    scans: Seq<InputScan>,
    current: PathView,
    available: usize,
) -> Result<(discovery::Findings, usize), PlanFault> {
    match cli::cli_fault(cli) {
        Some(error) => Err(PlanFault::Cli(error)),
        None => match cli::threads_of(cli, available) {
            Err(error) => Err(PlanFault::Cli(error)),
            Ok(threads) => match discovery::discovered_sources(
                cli.inputs@,
                scans,
                None,
                None,
                current,
            ) {
                Err(fault) => Err(PlanFault::Discovery(fault)),
                Ok(found) => Ok(
                    (found, pipeline::resolved_threads(threads, found.sources.len() as usize)),
                ),
            },
        },
    }
}

/// Plans the inspection of what `cli` names, where `scans` tell what stands at its
/// inputs and `available` threads can run at once.
pub fn plan_inspection(
    cli: &Cli,
    scans: &Vec<InputScan>,
    current_dir: &SavePath,
    available: usize,
) -> (result: Result<InspectionPlan, PlanError>)
    requires
        cli.inputs@.len() == scans@.len(),
    ensures
        match result {
            Ok(plan) => {
                &&& planned_inspection(*cli, scans@, current_dir@, available) == Ok::<
                    (discovery::Findings, usize),
                    PlanFault,
                >(
                    (
                        discovery::Findings {
                            sources: sort::views(plan.sources@),
                            inputs: sort::views(plan.discovery_summary.inputs@),
                            directories: plan.discovery_summary.total_region_directories as nat,
                        },
                        plan.thread_count,
                    ),
                )
                &&& discovery::sources_agree(
                    sort::views(plan.sources@),
                    sort::views(plan.discovery_summary.inputs@),
                )
            },
            Err(error) => planned_inspection(*cli, scans@, current_dir@, available) == Err::<
                (discovery::Findings, usize),
                PlanFault,
            >(error@),
        },
{
    match cli.validate() {
        Ok(_) => {},
        Err(error) => {
            return Err(PlanError::Cli(error));
        },
    }
    let requested_thread_count = match cli.thread_count(available) {
        Ok(threads) => threads,
        Err(error) => {
            return Err(PlanError::Cli(error));
        },
    };
    let discovery = match discover_sources_with_summary(
        &cli.inputs,
        scans,
        None,
        None,
        current_dir,
    ) {
        Ok(discovery) => discovery,
        Err(error) => {
            return Err(PlanError::Discovery(error));
        },
    };
    assert(sort::views(discovery.sources@).len() == discovery.sources@.len());
    let thread_count = resolve_thread_count(requested_thread_count, discovery.sources.len());
    Ok(
        InspectionPlan {
            sources: discovery.sources,
            discovery_summary: discovery.summary,
            thread_count,
        },
    )
}

/// The jobs are counted by what is known of their source.
pub proof fn law_jobs_are_counted_by_format(jobs: Seq<JobView>, format: SourceFormatHint)
    ensures
        jobs_with(jobs, format) == jobs.filter(|job: JobView| job.source_format == format).len(),
    decreases jobs.len(),
{
    reveal(Seq::filter);
    if jobs.len() > 0 {
        law_jobs_are_counted_by_format(jobs.drop_last(), format);
    }
}

/// The formats for which there is a job are shown, each once, with the number of their
/// jobs, and no others.
pub proof fn law_breakdown_shows_each_format(
    jobs: Seq<JobView>,
    formats: Seq<SourceFormatHint>,
    format: SourceFormatHint,
)
    requires
        formats.no_duplicates(),
        jobs.len() <= usize::MAX,
    ensures
        ({
            let shown = breakdown_of(jobs, formats);
            let count = jobs.filter(|job: JobView| job.source_format == format).len();
            &&& formats.contains(format) && count > 0 <==> exists|i: int|
                0 <= i < shown.len() && (#[trigger] shown[i]).format == format
            &&& forall|i: int|
                0 <= i < shown.len() && (#[trigger] shown[i]).format == format
                    ==> shown[i].job_count == count
            &&& forall|i: int, j: int|
                0 <= i < j < shown.len() ==> (#[trigger] shown[i]).format != (
                #[trigger] shown[j]).format
        }),
    decreases formats.len(),
{
    let shown = breakdown_of(jobs, formats);
    law_jobs_are_counted_by_format(jobs, format);
    if formats.len() > 0 {
        let before = formats.drop_last();
        let early = breakdown_of(jobs, before);
        let last = formats.last();
        lemma_jobs_bounded(jobs, last);
        law_breakdown_shows_each_format(jobs, before, format);
        assert(formats.contains(format) <==> before.contains(format) || format == last) by {
            if before.contains(format) {
                let k = choose|k: int| 0 <= k < before.len() && before[k] == format;
                assert(formats[k] == format);
            }
            if formats.contains(format) && format != last {
                let k = choose|k: int| 0 <= k < formats.len() && formats[k] == format;
                assert(before[k] == format);
            }
            if format == last {
                assert(formats[formats.len() - 1] == format);
            }
        }
        assert forall|k: int| 0 <= k < early.len() implies shown[k] == early[k] by {}
        if exists|i: int| 0 <= i < early.len() && (#[trigger] early[i]).format == format {
            let i = choose|i: int| 0 <= i < early.len() && (#[trigger] early[i]).format == format;
            assert(shown[i].format == format);
        }
        if format == last && jobs_with(jobs, last) > 0 {
            assert(shown[early.len() as int].format == format);
        }
        if exists|i: int| 0 <= i < shown.len() && (#[trigger] shown[i]).format == format {
            let i = choose|i: int| 0 <= i < shown.len() && (#[trigger] shown[i]).format == format;
            if i < early.len() {
                assert(early[i].format == format);
            }
        }
        assert(!before.contains(last)) by {
            if before.contains(last) {
                let k = choose|k: int| 0 <= k < before.len() && before[k] == last;
                assert(formats[k] == formats[formats.len() - 1]);
            }
        }
        law_breakdown_shows_each_format(jobs, before, last);
        assert forall|i: int, j: int| 0 <= i < j < shown.len() implies (
        #[trigger] shown[i]).format != (#[trigger] shown[j]).format by {
            assert(shown[i] == early[i]);
            if j < early.len() {
                assert(shown[j] == early[j]);
            } else {
                assert(early[i].format != last);
            }
        }
        assert forall|i: int|
            0 <= i < shown.len() && (#[trigger] shown[i]).format == format implies shown[i].job_count
            == jobs.filter(|job: JobView| job.source_format == format).len() by {
            if i < early.len() {
                assert(shown[i] == early[i]);
            }
        }
    }
}

proof fn lemma_jobs_bounded(jobs: Seq<JobView>, format: SourceFormatHint)
    ensures
        jobs_with(jobs, format) <= jobs.len(),
    decreases jobs.len(),
{
    if jobs.len() > 0 {
        lemma_jobs_bounded(jobs.drop_last(), format);
    }
}

/// The formats that are shown are all that can be known, each once.
pub proof fn law_every_format_is_shown(format: SourceFormatHint)
    ensures
        shown_formats().contains(format),
        shown_formats().no_duplicates(),
{
    let all = shown_formats();
    assert(all[0] == SourceFormatHint::Mca);
    assert(all[1] == SourceFormatHint::Linear);
    assert(all[2] == SourceFormatHint::BlinearFamily);
    assert(all[3] == SourceFormatHint::BlinearV2);
    assert(all[4] == SourceFormatHint::BlinearV3);
}

/// A planned conversion does what the command line asks for: it takes the inputs, writes
/// the format that the argument names at the level that is asked for, and runs no more
/// threads than are asked for or than there are jobs.
pub proof fn law_plan_does_what_is_asked(
    cli: Cli,
    scans: Seq<InputScan>,
    current: PathView,
    available: usize,
)
    requires
        planned_conversion(cli, scans, current, available) is Ok,
        available > 0,
        cli.inputs@.len() <= usize::MAX,
    ensures
        ({
            let plan = planned_conversion(cli, scans, current, available)->Ok_0;
            &&& !cli.info
            &&& cli.to matches Some(to)
            &&& cli.output matches Some(root)
            &&& plan.input_paths.len() == cli.inputs@.len()
            &&& forall|i: int|
                0 <= i < cli.inputs@.len() ==> #[trigger] plan.input_paths[i] == cli.inputs@[i]@
            &&& plan.output_root == root@
            &&& formats::format_text(plan.target_format) == match to {
                cli::TargetFormatArg::Mca => "mca"@,
                cli::TargetFormatArg::Linear => "linear"@,
                cli::TargetFormatArg::BlinearV2 => "blinear_v2"@,
                cli::TargetFormatArg::BlinearV3 => "blinear_v3"@,
            }
            &&& plan.source_format is None <==> cli.from == cli::SourceFormatArg::Auto
            &&& plan.source_format == cli::arg_hint(cli.from)
            &&& plan.compression_level == match cli.compression_level {
                Some(level) => level,
                None => 6,
            }
            &&& plan.requested_thread_count == match cli.threads {
                Some(threads) => threads,
                None => available,
            }
            &&& 0 < plan.thread_count <= plan.requested_thread_count
            &&& plan.found.jobs.len() <= usize::MAX ==> plan.thread_count
                == if plan.requested_thread_count <= plan.found.jobs.len() {
                plan.requested_thread_count as int
            } else {
                plan.found.jobs.len() as int
            }
            &&& plan.profile == cli.profile
            &&& discovery::discovered_jobs(
                cli.inputs@,
                scans,
                &root,
                cli::arg_hint(cli.from),
                plan.target_format,
                current,
            ) == Ok::<JobFindings, DiscoveryFault>(plan.found)
        }),
{
    let plan = planned_conversion(cli, scans, current, available)->Ok_0;
    let root = cli.output->0;
    let target = cli::arg_format(cli.to->0);
    let threads = cli::threads_of(cli, available)->Ok_0;
    pipeline::law_threads_are_capped(threads, plan.found.jobs.len() as usize);
    cli::law_target_is_the_one_named(cli.to->0);
    search::law_every_source_has_its_job(
        cli.inputs@,
        scans,
        &root,
        cli::arg_hint(cli.from),
        target,
        current,
    );
}

/// A conversion is planned if and only if the arguments go together, threads are asked for
/// unless none are named, the level is one of the target format, and there are jobs.
pub proof fn law_plan_is_made_where_it_can_be(
    cli: Cli,
    scans: Seq<InputScan>,
    current: PathView,
    available: usize,
)
    ensures
        planned_conversion(cli, scans, current, available) is Ok <==> {
            &&& !cli.info
            &&& cli.output matches Some(root)
            &&& cli.to matches Some(to)
            &&& cli.threads != Some(0usize)
            &&& cli.compression_level matches Some(level) ==> if to == cli::TargetFormatArg::Mca {
                0 <= level <= 9
            } else {
                1 <= level <= 22
            }
            &&& discovery::discovered_jobs(
                cli.inputs@,
                scans,
                &root,
                cli::arg_hint(cli.from),
                cli::arg_format(to),
                current,
            ) is Ok
        },
{
    if let Some(to) = cli.to {
        cli::law_level_is_the_one_asked_for(cli, to);
    }
}

/// An inspection is planned if and only if the arguments go together, and region files are
/// found at every input. It leaves out no output and takes the format of each file from the
/// file itself.
pub proof fn law_inspection_looks_at_every_file(
    cli: Cli,
    scans: Seq<InputScan>,
    current: PathView,
    available: usize,
)
    requires
        available > 0,
    ensures
        planned_inspection(cli, scans, current, available) is Ok <==> {
            &&& if cli.info {
                cli.output is None && cli.to is None && cli.compression_level is None && cli.from
                    == cli::SourceFormatArg::Auto
            } else {
                cli.output is Some && cli.to is Some
            }
            &&& cli.threads != Some(0usize)
            &&& discovery::discovered_sources(cli.inputs@, scans, None, None, current) is Ok
        },
        planned_inspection(cli, scans, current, available) matches Ok(plan) ==> {
            let asked = match cli.threads {
                Some(threads) => threads,
                None => available,
            };
            &&& discovery::discovered_sources(cli.inputs@, scans, None, None, current) == Ok::<
                discovery::Findings,
                DiscoveryFault,
            >(plan.0)
            &&& 0 < plan.1 <= asked
            &&& plan.0.sources.len() <= usize::MAX ==> plan.1 == if asked
                <= plan.0.sources.len() {
                asked as int
            } else {
                plan.0.sources.len() as int
            }
        },
{
    cli::law_arguments_go_together(cli);
}

} // verus!
