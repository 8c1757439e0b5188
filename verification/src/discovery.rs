//! Which region files the inputs hold, and where each of them is converted to.
//!
//! The inputs are scanned beforehand: what stands at an input, what a directory
//! lists, and which directories stand below it. What follows from that is decided
//! here.

use std::collections::HashMap;

use vstd::prelude::*;
use vstd::hash_set::StringHashSet;
use vstd::string::*;

use crate::codec;
use crate::error::{self, RegionError, RegionErrorKind, RegionFault};
use crate::formats::{
    self, guess_format_from_path, looks_like_region_file, parse_region_coords_from_path, xxhash32,
    RegionFormat, SourceFormatHint,
};
use crate::path::{self, normalize_path_for_compare, Part, PathView, SavePath};
use crate::sort::{self, sort_by_path, Located};
use crate::text::{self, chars_of, push_hexadecimal, string_of};

verus! {

#[derive(Clone, Copy, Debug, PartialEq, Eq, Structural, Hash)]
pub enum InputKind {
    RegionFile,
    RegionDirectory,
    WorldDirectory,
}

/// The name of a kind of input.
pub open spec fn kind_text(kind: InputKind) -> Seq<char> {
    match kind {
        InputKind::RegionFile => "region file"@,
        InputKind::RegionDirectory => "region directory"@,
        InputKind::WorldDirectory => "world directory"@,
    }
}

impl InputKind {
    /// The name of the kind.
    pub fn name(self) -> (name: &'static str)
        ensures
            name@ == kind_text(self),
    {
        match self {
            InputKind::RegionFile => "region file",
            InputKind::RegionDirectory => "region directory",
            InputKind::WorldDirectory => "world directory",
        }
    }
}

/// What the region files of a directory are about.
#[derive(Clone, Copy, Debug, PartialEq, Eq, Structural, Hash)]
pub enum RegionFileGroup {
    Regions,
    Entities,
    Poi,
}

/// The name of a group.
pub open spec fn group_text(group: RegionFileGroup) -> Seq<char> {
    match group {
        RegionFileGroup::Regions => "regions"@,
        RegionFileGroup::Entities => "entities"@,
        RegionFileGroup::Poi => "poi"@,
    }
}

/// The groups in the order in which they are converted.
pub open spec fn ordered_groups() -> Seq<RegionFileGroup> {
    seq![RegionFileGroup::Regions, RegionFileGroup::Entities, RegionFileGroup::Poi]
}

/// The group of the file `path`, by the name of its directory.
pub open spec fn group_of(path: PathView) -> RegionFileGroup {
    if path.parent_name() == Some("entities"@) {
        RegionFileGroup::Entities
    } else if path.parent_name() == Some("poi"@) {
        RegionFileGroup::Poi
    } else {
        RegionFileGroup::Regions
    }
}

impl RegionFileGroup {
    /// The name of the group.
    pub fn name(self) -> (name: &'static str)
        ensures
            name@ == group_text(self),
    {
        match self {
            RegionFileGroup::Regions => "regions",
            RegionFileGroup::Entities => "entities",
            RegionFileGroup::Poi => "poi",
        }
    }

    /// The groups in the order in which they are converted.
    pub fn ordered() -> (groups: [RegionFileGroup; 3])
        ensures
            groups@ == ordered_groups(),
    {
        let groups = [RegionFileGroup::Regions, RegionFileGroup::Entities, RegionFileGroup::Poi];
        assert(groups@ =~= ordered_groups());
        groups
    }

    /// The group of the file `path`, by the name of its directory.
    pub fn of_file(path: &SavePath) -> (group: RegionFileGroup)
        ensures
            group == group_of(path@),
    {
        match path.parent_name() {
            None => RegionFileGroup::Regions,
            Some(name) => if *name == "entities".to_owned() {
                RegionFileGroup::Entities
            } else if *name == "poi".to_owned() {
                RegionFileGroup::Poi
            } else {
                RegionFileGroup::Regions
            },
        }
    }
}

/// The number of region files in each group.
#[derive(Clone, Copy, Debug, PartialEq, Eq, Structural)]
pub struct GroupCounts {
    pub regions: usize,
    pub entities: usize,
    pub poi: usize,
}

/// A file or directory that a directory lists.
#[derive(Clone, Debug)]
pub struct FoundFile {
    pub path: SavePath,
    pub is_file: bool,
    pub size: u64,
}

/// What is known of a listed file or directory.
#[verifier::ext_equal]
pub struct FoundView {
    pub path: PathView,
    pub is_file: bool,
    pub size: u64,
}

impl View for FoundFile {
    type V = FoundView;

    open spec fn view(&self) -> FoundView {
        FoundView { path: self.path@, is_file: self.is_file, size: self.size }
    }
}

impl FoundFile {
    /// The same file again.
    pub fn copy(&self) -> (file: FoundFile)
        ensures
            file@ == self@,
    {
        FoundFile { path: self.path.copy(), is_file: self.is_file, size: self.size }
    }
}

impl Located for FoundFile {
    open spec fn parts(view: FoundView) -> Seq<Part> {
        view.path.parts
    }

    fn location(&self) -> (path: &SavePath) {
        &self.path
    }
}

/// A directory below an input, and what it lists, or why it cannot be listed.
#[derive(Debug)]
pub struct WalkedDirectory {
    pub path: SavePath,
    pub listing: Result<Vec<FoundFile>, String>,
}

/// What stands at an input.
#[derive(Debug)]
pub enum InputScan {
    /// A file of that size.
    File(u64),
    /// A directory: what it lists, and the directories in it and below it, itself
    /// first.
    Directory(Result<Vec<FoundFile>, String>, Vec<WalkedDirectory>),
    /// Neither a file nor a directory.
    Missing,
}

/// A region file of an input.
#[derive(Clone, Debug)]
pub struct RegionSource {
    pub input_index: usize,
    pub input_kind: InputKind,
    pub source_file: SavePath,
    pub source_format: SourceFormatHint,
    pub relative_region_dir: SavePath,
    pub file_group: RegionFileGroup,
    pub estimated_size_bytes: u64,
}

/// What is known of a region file of an input.
#[verifier::ext_equal]
pub struct SourceView {
    pub input_index: usize,
    pub input_kind: InputKind,
    pub source_file: PathView,
    pub source_format: SourceFormatHint,
    pub relative_region_dir: Seq<Part>,
    pub file_group: RegionFileGroup,
    pub estimated_size_bytes: u64,
}

impl View for RegionSource {
    type V = SourceView;

    open spec fn view(&self) -> SourceView {
        SourceView {
            input_index: self.input_index,
            input_kind: self.input_kind,
            source_file: self.source_file@,
            source_format: self.source_format,
            relative_region_dir: self.relative_region_dir@.parts,
            file_group: self.file_group,
            estimated_size_bytes: self.estimated_size_bytes,
        }
    }
}

/// A region file, and the file that it is converted to.
#[derive(Clone, Debug)]
pub struct Job {
    pub input_index: usize,
    pub file_group: RegionFileGroup,
    pub source_file: SavePath,
    pub source_format: SourceFormatHint,
    pub destination_file: SavePath,
    pub estimated_size_bytes: u64,
}

/// What is known of a job.
#[verifier::ext_equal]
pub struct JobView {
    pub input_index: usize,
    pub file_group: RegionFileGroup,
    pub source_file: PathView,
    pub source_format: SourceFormatHint,
    pub destination_file: PathView,
    pub estimated_size_bytes: u64,
}

impl View for Job {
    type V = JobView;

    open spec fn view(&self) -> JobView {
        JobView {
            input_index: self.input_index,
            file_group: self.file_group,
            source_file: self.source_file@,
            source_format: self.source_format,
            destination_file: self.destination_file@,
            estimated_size_bytes: self.estimated_size_bytes,
        }
    }
}

impl Located for Job {
    open spec fn parts(view: JobView) -> Seq<Part> {
        view.source_file.parts
    }

    fn location(&self) -> (path: &SavePath) {
        &self.source_file
    }
}

/// What was found at an input.
#[derive(Clone, Debug)]
pub struct InputDiscovery {
    pub input_path: SavePath,
    pub input_kind: InputKind,
    pub discovered_jobs: usize,
    pub region_directories: usize,
    pub group_counts: GroupCounts,
}

/// What was found at an input.
#[verifier::ext_equal]
pub struct InputView {
    pub input_path: PathView,
    pub input_kind: InputKind,
    pub discovered_jobs: nat,
    pub region_directories: nat,
    pub group_counts: GroupCounts,
}

impl View for InputDiscovery {
    type V = InputView;

    open spec fn view(&self) -> InputView {
        InputView {
            input_path: self.input_path@,
            input_kind: self.input_kind,
            discovered_jobs: self.discovered_jobs as nat,
            region_directories: self.region_directories as nat,
            group_counts: self.group_counts,
        }
    }
}

#[derive(Clone, Debug)]
pub struct DiscoverySummary {
    pub inputs: Vec<InputDiscovery>,
    pub total_region_directories: usize,
}

#[derive(Clone, Debug)]
pub struct SourceDiscoveryResult {
    pub sources: Vec<RegionSource>,
    pub summary: DiscoverySummary,
}

#[derive(Clone, Debug)]
pub struct DiscoveryResult {
    pub jobs: Vec<Job>,
    pub summary: DiscoverySummary,
}

/// Why the inputs cannot be converted.
#[derive(Debug)]
pub enum DiscoveryError {
    /// An input that is a file, but not a region file.
    NotRegionFile(SavePath),
    /// An input that is neither a file nor a directory.
    NotFound(SavePath),
    /// A directory without region files.
    NoRegionFiles(SavePath),
    /// A directory that cannot be listed.
    Listing(String),
    /// A directory that is not below its input.
    NotBelow(SavePath),
    /// No input holds a region file.
    NothingFound,
    /// A file name that tells no coordinates.
    Unnamed(RegionError, SavePath),
    /// A file that would be converted to itself.
    InPlace(SavePath),
    /// A file that two region files would be converted to.
    SameOutput(SavePath),
}

/// Why the inputs cannot be converted.
pub enum DiscoveryFault {
    NotRegionFile(PathView),
    NotFound(PathView),
    NoRegionFiles(PathView),
    Listing(Seq<char>),
    NotBelow(PathView),
    NothingFound,
    Unnamed(RegionFault, PathView),
    InPlace(PathView),
    SameOutput(PathView),
}

impl View for DiscoveryError {
    type V = DiscoveryFault;

    open spec fn view(&self) -> DiscoveryFault {
        match self {
            DiscoveryError::NotRegionFile(path) => DiscoveryFault::NotRegionFile(path@),
            DiscoveryError::NotFound(path) => DiscoveryFault::NotFound(path@),
            DiscoveryError::NoRegionFiles(path) => DiscoveryFault::NoRegionFiles(path@),
            DiscoveryError::Listing(text) => DiscoveryFault::Listing(text@),
            DiscoveryError::NotBelow(path) => DiscoveryFault::NotBelow(path@),
            DiscoveryError::NothingFound => DiscoveryFault::NothingFound,
            DiscoveryError::Unnamed(error, path) => DiscoveryFault::Unnamed(error@, path@),
            DiscoveryError::InPlace(path) => DiscoveryFault::InPlace(path@),
            DiscoveryError::SameOutput(path) => DiscoveryFault::SameOutput(path@),
        }
    }
}

/// The message of a fault.
pub open spec fn fault_text(fault: DiscoveryFault) -> Seq<char> {
    match fault {
        DiscoveryFault::NotRegionFile(path) => "input file "@ + path.text()
            + " is not a supported region file"@,
        DiscoveryFault::NotFound(path) => "input path "@ + path.text()
            + " is neither a supported region file nor a directory"@,
        DiscoveryFault::NoRegionFiles(path) => "input "@ + path.text()
            + " does not contain any supported region files"@,
        DiscoveryFault::Listing(text) => text,
        DiscoveryFault::NotBelow(path) => "failed to compute a relative path under "@
            + path.text(),
        DiscoveryFault::NothingFound =>
            "no region files were discovered under the provided input paths"@,
        DiscoveryFault::Unnamed(fault, path) => error::region_error_text(
            fault.kind,
            fault.detail,
            path,
        ),
        DiscoveryFault::InPlace(path) => "refusing to overwrite the source file in place: "@
            + path.text(),
        DiscoveryFault::SameOutput(path) => "multiple inputs map to the same output file "@
            + path.text(),
    }
}

fn message_about(before: &str, path: &SavePath, after: &str) -> (text: String)
    ensures
        text@ == before@ + path@.text() + after@,
{
    let mut text = before.to_owned();
    text.append(path.text().as_str());
    text.append(after);
    text
}

impl DiscoveryError {
    /// The message of the error.
    pub fn message(&self) -> (text: String)
        ensures
            text@ == fault_text(self@),
    {
        proof {
            reveal_strlit("");
            assert forall|s: Seq<char>| #[trigger] (s + ""@) == s by {
                assert(s + ""@ =~= s);
            }
        }
        match self {
            DiscoveryError::NotRegionFile(path) => message_about(
                "input file ",
                path,
                " is not a supported region file",
            ),
            DiscoveryError::NotFound(path) => message_about(
                "input path ",
                path,
                " is neither a supported region file nor a directory",
            ),
            DiscoveryError::NoRegionFiles(path) => message_about(
                "input ",
                path,
                " does not contain any supported region files",
            ),
            DiscoveryError::Listing(text) => text.clone(),
            DiscoveryError::NotBelow(path) => message_about(
                "failed to compute a relative path under ",
                path,
                "",
            ),
            DiscoveryError::NothingFound =>
                "no region files were discovered under the provided input paths".to_owned(),
            DiscoveryError::Unnamed(error, path) => error.message(path),
            DiscoveryError::InPlace(path) => message_about(
                "refusing to overwrite the source file in place: ",
                path,
                "",
            ),
            DiscoveryError::SameOutput(path) => message_about(
                "multiple inputs map to the same output file ",
                path,
                "",
            ),
        }
    }
}

/// What is known of the format of a file that is guessed to have `format`.
pub open spec fn hint_of(format: RegionFormat) -> SourceFormatHint {
    match format {
        RegionFormat::Mca => SourceFormatHint::Mca,
        RegionFormat::Linear => SourceFormatHint::Linear,
        RegionFormat::Blinear => SourceFormatHint::BlinearFamily,
        RegionFormat::BlinearV2 => SourceFormatHint::BlinearV2,
        RegionFormat::BlinearV3 => SourceFormatHint::BlinearV3,
    }
}

/// What is known of the format of the file `path`: `forced`, or what its extension
/// tells.
pub open spec fn resolved_format(path: PathView, forced: Option<SourceFormatHint>) -> Option<
    SourceFormatHint,
> {
    match forced {
        Some(hint) => Some(hint),
        None => match formats::guessed_format(path) {
            Some(format) => Some(hint_of(format)),
            None => None,
        },
    }
}

/// What is known of the format of the file `path`: `forced_format`, or what its
/// extension tells.
pub fn resolve_source_format(path: &SavePath, forced_format: Option<SourceFormatHint>) -> (result: Result<
    SourceFormatHint,
    RegionError,
>)
    ensures
        match result {
            Ok(hint) => resolved_format(path@, forced_format) == Some(hint),
            Err(error) => resolved_format(path@, forced_format) is None && error@
                == error::region_fault(RegionErrorKind::UnsupportedExtension),
        },
{
    match forced_format {
        Some(hint) => Ok(hint),
        None => match guess_format_from_path(path) {
            Ok(format) => Ok(
                match format {
                    RegionFormat::Mca => SourceFormatHint::Mca,
                    RegionFormat::Linear => SourceFormatHint::Linear,
                    RegionFormat::Blinear => SourceFormatHint::BlinearFamily,
                    RegionFormat::BlinearV2 => SourceFormatHint::BlinearV2,
                    RegionFormat::BlinearV3 => SourceFormatHint::BlinearV3,
                },
            ),
            Err(error) => Err(error),
        },
    }
}

/// The region files among `files`.
pub open spec fn region_files(files: Seq<FoundView>) -> Seq<FoundView>
    decreases files.len(),
{
    if files.len() == 0 {
        seq![]
    } else if formats::region_file_like(files.last().path, files.last().is_file) {
        region_files(files.drop_last()).push(files.last())
    } else {
        region_files(files.drop_last())
    }
}

/// The region files among `files`, by path.
pub open spec fn supported_files(files: Seq<FoundView>) -> Seq<FoundView> {
    sort::sorted::<FoundFile>(region_files(files))
}

/// The region files among `files`, by path.
pub fn supported_region_files_in_dir(files: &Vec<FoundFile>) -> (result: Vec<FoundFile>)
    ensures
        sort::views(result@) == supported_files(sort::views(files@)),
{
    let ghost all = sort::views(files@);
    let mut found: Vec<FoundFile> = Vec::new();
    let mut i: usize = 0;
    assert(sort::views(found@) =~= region_files(all.take(0)));
    while i < files.len()
        invariant
            i <= files.len(),
            all == sort::views(files@),
            sort::views(found@) == region_files(all.take(i as int)),
        decreases files.len() - i,
    {
        let ghost before = sort::views(found@);
        assert(all.take(i + 1).drop_last() =~= all.take(i as int));
        if looks_like_region_file(&files[i].path, files[i].is_file) {
            found.push(files[i].copy());
            assert(sort::views(found@) =~= before.push(all[i as int]));
        }
        i = i + 1;
    }
    assert(all.take(i as int) =~= all);
    sort_by_path(found)
}

/// What is found is named like a region file.
pub proof fn lemma_region_files_are_named(files: Seq<FoundView>, i: int)
    requires
        0 <= i < region_files(files).len(),
    ensures
        formats::region_file_like(region_files(files)[i].path, true),
    decreases files.len(),
{
    if files.len() > 0 && i < region_files(files.drop_last()).len() {
        lemma_region_files_are_named(files.drop_last(), i);
    }
}

/// What is found and sorted is named like a region file.
pub proof fn law_supported_files_are_named(files: Seq<FoundView>, i: int)
    requires
        0 <= i < supported_files(files).len(),
    ensures
        formats::region_file_like(supported_files(files)[i].path, true),
{
    broadcast use vstd::seq_lib::group_to_multiset_ensures;

    let found = region_files(files);
    let listed = supported_files(files);
    sort::law_sorting::<FoundFile>(found);
    assert(listed.contains(listed[i]));
    assert(listed.to_multiset().count(listed[i]) > 0);
    assert(found.contains(listed[i]));
    let k = choose|k: int| 0 <= k < found.len() && found[k] == listed[i];
    lemma_region_files_are_named(files, k);
}

/// Whether a directory below the input is left out because it is in the output.
pub open spec fn skipped(
    candidate: PathView,
    input: PathView,
    output: Option<Seq<Part>>,
    current: PathView,
) -> bool {
    match output {
        None => false,
        Some(output) => candidate.parts != input.parts && output.is_prefix_of(
            path::normalized_path(candidate, current).parts,
        ),
    }
}

/// Whether the directory `candidate` below the input is left out because it is in the
/// output.
pub fn should_skip_recursive_entry(
    candidate: &SavePath,
    input_root: &SavePath,
    normalized_output_root: Option<&SavePath>,
    current_dir: &SavePath,
) -> (skip: bool)
    ensures
        skip == skipped(
            candidate@,
            input_root@,
            match normalized_output_root {
                Some(root) => Some(root@.parts),
                None => None,
            },
            current_dir@,
        ),
{
    match normalized_output_root {
        None => false,
        Some(root) => !candidate.same_components(input_root) && normalize_path_for_compare(
            candidate,
            current_dir,
        ).starts_with(root),
    }
}

/// A region file of an input.
pub open spec fn source_of(
    input_index: usize,
    input_kind: InputKind,
    file: FoundView,
    relative: Seq<Part>,
    forced: Option<SourceFormatHint>,
) -> SourceView {
    SourceView {
        input_index,
        input_kind,
        source_file: file.path,
        source_format: resolved_format(file.path, forced)->0,
        relative_region_dir: relative,
        file_group: group_of(file.path),
        estimated_size_bytes: file.size,
    }
}

/// The region files `files` of an input.
pub open spec fn sources_of(
    input_index: usize,
    input_kind: InputKind,
    files: Seq<FoundView>,
    relative: Seq<Part>,
    forced: Option<SourceFormatHint>,
) -> Seq<SourceView> {
    Seq::new(
        files.len(),
        |i: int| source_of(input_index, input_kind, files[i], relative, forced),
    )
}

/// Whether something is known of the format of each of `files`.
pub open spec fn all_resolved(files: Seq<FoundView>, forced: Option<SourceFormatHint>) -> bool {
    forall|i: int|
        0 <= i < files.len() ==> resolved_format((#[trigger] files[i]).path, forced) is Some
}

/// Adds the region files `files` of an input to `sources`.
pub fn append_sources(
    sources: &mut Vec<RegionSource>,
    input_index: usize,
    input_kind: InputKind,
    files: &Vec<FoundFile>,
    relative_region_dir: &SavePath,
    forced_format: Option<SourceFormatHint>,
) -> (result: Result<(), RegionError>)
    ensures
        match result {
            Ok(_) => {
                &&& all_resolved(sort::views(files@), forced_format)
                &&& sort::views(final(sources)@) == sort::views(old(sources)@) + sources_of(
                    input_index,
                    input_kind,
                    sort::views(files@),
                    relative_region_dir@.parts,
                    forced_format,
                )
            },
            Err(error) => {
                &&& !all_resolved(sort::views(files@), forced_format)
                &&& error@ == error::region_fault(RegionErrorKind::UnsupportedExtension)
            },
        },
{
    let ghost start = sort::views(sources@);
    let ghost all = sources_of(
        input_index,
        input_kind,
        sort::views(files@),
        relative_region_dir@.parts,
        forced_format,
    );
    let mut i: usize = 0;
    assert(sort::views(sources@) =~= start + all.take(0));
    while i < files.len()
        invariant
            i <= files.len(),
            forall|k: int|
                0 <= k < i ==> resolved_format(
                    (#[trigger] sort::views(files@)[k]).path,
                    forced_format,
                ) is Some,
            all == sources_of(
                input_index,
                input_kind,
                sort::views(files@),
                relative_region_dir@.parts,
                forced_format,
            ),
            sort::views(sources@) == start + all.take(i as int),
        decreases files.len() - i,
    {
        let ghost before = sort::views(sources@);
        let source_format = match resolve_source_format(&files[i].path, forced_format) {
            Ok(hint) => hint,
            Err(error) => {
                assert(resolved_format(
                    sort::views(files@)[i as int].path,
                    forced_format,
                ) is None);
                return Err(error);
            },
        };
        let source = RegionSource {
            input_index,
            input_kind,
            source_file: files[i].path.copy(),
            source_format,
            relative_region_dir: relative_region_dir.copy(),
            file_group: RegionFileGroup::of_file(&files[i].path),
            estimated_size_bytes: files[i].size,
        };
        assert(source@ == all[i as int]);
        sources.push(source);
        assert(sort::views(sources@) =~= before.push(all[i as int]));
        assert(sort::views(sources@) =~= start + all.take(i + 1));
        i = i + 1;
    }
    assert(all.take(i as int) =~= all);
    Ok(())
}

/// The region files that a directory below an input lists.
#[verifier::ext_equal]
pub struct RegionDirView {
    pub relative: Seq<Part>,
    pub files: Seq<FoundView>,
}

/// The directories with region files among `walked`, those in the output left out.
pub open spec fn region_dirs(
    input: PathView,
    walked: Seq<WalkedDirectory>,
    output: Option<Seq<Part>>,
    current: PathView,
) -> Result<Seq<RegionDirView>, DiscoveryFault>
    decreases walked.len(),
{
    if walked.len() == 0 {
        Ok(seq![])
    } else {
        let directory = walked.last();
        match region_dirs(input, walked.drop_last(), output, current) {
            Err(fault) => Err(fault),
            Ok(before) => if skipped(directory.path@, input, output, current) {
                Ok(before)
            } else {
                match directory.listing {
                    Err(text) => Err(DiscoveryFault::Listing(text@)),
                    Ok(listing) => {
                        let files = supported_files(sort::views(listing@));
                        if files.len() == 0 {
                            Ok(before)
                        } else if !input.parts.is_prefix_of(directory.path@.parts) {
                            Err(DiscoveryFault::NotBelow(input))
                        } else {
                            Ok(
                                before.push(
                                    RegionDirView {
                                        relative: directory.path@.parts.skip(
                                            input.parts.len() as int,
                                        ),
                                        files,
                                    },
                                ),
                            )
                        }
                    },
                }
            },
        }
    }
}

/// The region files of the directories `dirs` of a world.
pub open spec fn world_sources(
    input_index: usize,
    dirs: Seq<RegionDirView>,
    forced: Option<SourceFormatHint>,
) -> Seq<SourceView>
    decreases dirs.len(),
{
    if dirs.len() == 0 {
        seq![]
    } else {
        world_sources(input_index, dirs.drop_last(), forced) + sources_of(
            input_index,
            InputKind::WorldDirectory,
            dirs.last().files,
            dirs.last().relative,
            forced,
        )
    }
}

/// The region files of an input, what kind of input it is, and how many directories
/// hold them.
#[verifier::ext_equal]
pub struct InputFinding {
    pub kind: InputKind,
    pub sources: Seq<SourceView>,
    pub directories: nat,
}

/// What is found at an input.
pub open spec fn input_finding(
    input_index: usize,
    input: PathView,
    scan: InputScan,
    forced: Option<SourceFormatHint>,
    output: Option<Seq<Part>>,
    current: PathView,
) -> Result<InputFinding, DiscoveryFault> {
    match scan {
        InputScan::Missing => Err(DiscoveryFault::NotFound(input)),
        InputScan::File(size) => if !formats::region_file_like(input, true) {
            Err(DiscoveryFault::NotRegionFile(input))
        } else {
            Ok(
                InputFinding {
                    kind: InputKind::RegionFile,
                    sources: seq![
                        source_of(
                            input_index,
                            InputKind::RegionFile,
                            FoundView { path: input, is_file: true, size },
                            seq![],
                            forced,
                        ),
                    ],
                    directories: 0,
                },
            )
        },
        InputScan::Directory(listing, walked) => match listing {
            Err(text) => Err(DiscoveryFault::Listing(text@)),
            Ok(listing) => {
                let direct = supported_files(sort::views(listing@));
                if direct.len() > 0 {
                    Ok(
                        InputFinding {
                            kind: InputKind::RegionDirectory,
                            sources: sources_of(
                                input_index,
                                InputKind::RegionDirectory,
                                direct,
                                seq![],
                                forced,
                            ),
                            directories: 1,
                        },
                    )
                } else {
                    match region_dirs(input, walked@, output, current) {
                        Err(fault) => Err(fault),
                        Ok(dirs) => if dirs.len() == 0 {
                            Err(DiscoveryFault::NoRegionFiles(input))
                        } else {
                            Ok(
                                InputFinding {
                                    kind: InputKind::WorldDirectory,
                                    sources: world_sources(input_index, dirs, forced),
                                    directories: dirs.len(),
                                },
                            )
                        },
                    }
                }
            },
        },
    }
}

/// The number of `sources` in `group`.
pub open spec fn group_count(sources: Seq<SourceView>, group: RegionFileGroup) -> nat
    decreases sources.len(),
{
    if sources.len() == 0 {
        0
    } else {
        group_count(sources.drop_last(), group) + if sources.last().file_group == group {
            1nat
        } else {
            0
        }
    }
}

/// The number of `sources` in each group.
pub open spec fn counts_of(sources: Seq<SourceView>) -> GroupCounts {
    GroupCounts {
        regions: group_count(sources, RegionFileGroup::Regions) as usize,
        entities: group_count(sources, RegionFileGroup::Entities) as usize,
        poi: group_count(sources, RegionFileGroup::Poi) as usize,
    }
}

/// Each region file is in one group.
pub proof fn law_groups_add_up(sources: Seq<SourceView>)
    ensures
        group_count(sources, RegionFileGroup::Regions) + group_count(
            sources,
            RegionFileGroup::Entities,
        ) + group_count(sources, RegionFileGroup::Poi) == sources.len(),
    decreases sources.len(),
{
    if sources.len() > 0 {
        law_groups_add_up(sources.drop_last());
    }
}

/// What is found at all inputs.
#[verifier::ext_equal]
pub struct Findings {
    pub sources: Seq<SourceView>,
    pub inputs: Seq<InputView>,
    pub directories: nat,
}

/// What is found at the first `n` inputs.
pub open spec fn findings(
    inputs: Seq<SavePath>,
    scans: Seq<InputScan>,
    forced: Option<SourceFormatHint>,
    output: Option<Seq<Part>>,
    current: PathView,
    n: nat,
) -> Result<Findings, DiscoveryFault>
    decreases n,
{
    if n == 0 {
        Ok(Findings { sources: seq![], inputs: seq![], directories: 0 })
    } else {
        match findings(inputs, scans, forced, output, current, (n - 1) as nat) {
            Err(fault) => Err(fault),
            Ok(before) => match input_finding(
                (n - 1) as usize,
                inputs[n - 1]@,
                scans[n - 1],
                forced,
                output,
                current,
            ) {
                Err(fault) => Err(fault),
                Ok(found) => Ok(
                    Findings {
                        sources: before.sources + found.sources,
                        inputs: before.inputs.push(
                            InputView {
                                input_path: inputs[n - 1]@,
                                input_kind: found.kind,
                                discovered_jobs: found.sources.len(),
                                region_directories: found.directories,
                                group_counts: counts_of(found.sources),
                            },
                        ),
                        directories: before.directories + found.directories,
                    },
                ),
            },
        }
    }
}

/// The normalized output root, if there is one.
pub open spec fn output_parts(output: Option<&SavePath>, current: PathView) -> Option<Seq<Part>> {
    match output {
        Some(root) => Some(path::normalized_path(root@, current).parts),
        None => None,
    }
}

/// What is found at all inputs, if anything is.
pub open spec fn discovered_sources(
    inputs: Seq<SavePath>,
    scans: Seq<InputScan>,
    forced: Option<SourceFormatHint>,
    output: Option<&SavePath>,
    current: PathView,
) -> Result<Findings, DiscoveryFault> {
    match findings(inputs, scans, forced, output_parts(output, current), current, inputs.len()) {
        Err(fault) => Err(fault),
        Ok(found) => if found.sources.len() == 0 {
            Err(DiscoveryFault::NothingFound)
        } else {
            Ok(found)
        },
    }
}

/// The result of discovering region files, taken by its view.
pub open spec fn source_result(result: Result<SourceDiscoveryResult, DiscoveryError>) -> Result<
    Findings,
    DiscoveryFault,
> {
    match result {
        Ok(found) => Ok(
            Findings {
                sources: sort::views(found.sources@),
                inputs: sort::views(found.summary.inputs@),
                directories: found.summary.total_region_directories as nat,
            },
        ),
        Err(error) => Err(error@),
    }
}

/// Whether all of `sources` belong to the input `input_index` of the given kind.
pub open spec fn all_from(sources: Seq<SourceView>, input_index: usize, kind: InputKind) -> bool {
    forall|i: int|
        0 <= i < sources.len() ==> (#[trigger] sources[i]).input_index == input_index
            && sources[i].input_kind == kind
}

/// Whether each of `sources` belongs to one of `inputs`, and agrees with it on its
/// kind.
pub open spec fn sources_agree(sources: Seq<SourceView>, inputs: Seq<InputView>) -> bool {
    forall|i: int|
        0 <= i < sources.len() ==> {
            let source = #[trigger] sources[i];
            &&& source.input_index < inputs.len()
            &&& inputs[source.input_index as int].input_kind == source.input_kind
        }
}

/// Guessing succeeds for what is named like a region file.
proof fn lemma_supported_resolved(files: Seq<FoundView>, forced: Option<SourceFormatHint>)
    ensures
        all_resolved(supported_files(files), forced),
{
    assert forall|i: int| 0 <= i < supported_files(files).len() implies resolved_format(
        (#[trigger] supported_files(files)[i]).path,
        forced,
    ) is Some by {
        law_supported_files_are_named(files, i);
    }
}

/// A directory that cannot be read makes the input unreadable.
proof fn lemma_region_dirs_fault(
    input: PathView,
    walked: Seq<WalkedDirectory>,
    output: Option<Seq<Part>>,
    current: PathView,
    n: int,
)
    requires
        0 <= n <= walked.len(),
        region_dirs(input, walked.take(n), output, current) is Err,
    ensures
        region_dirs(input, walked, output, current) == region_dirs(
            input,
            walked.take(n),
            output,
            current,
        ),
    decreases walked.len(),
{
    if n < walked.len() {
        assert(walked.drop_last().take(n) =~= walked.take(n));
        lemma_region_dirs_fault(input, walked.drop_last(), output, current, n);
    } else {
        assert(walked.take(n) =~= walked);
    }
}

/// The sources of a world belong to its input, and there is one at least for each of
/// its directories.
proof fn lemma_world_sources(
    input_index: usize,
    dirs: Seq<RegionDirView>,
    forced: Option<SourceFormatHint>,
)
    requires
        forall|i: int| 0 <= i < dirs.len() ==> (#[trigger] dirs[i]).files.len() > 0,
    ensures
        dirs.len() <= world_sources(input_index, dirs, forced).len(),
        all_from(
            world_sources(input_index, dirs, forced),
            input_index,
            InputKind::WorldDirectory,
        ),
    decreases dirs.len(),
{
    if dirs.len() > 0 {
        lemma_world_sources(input_index, dirs.drop_last(), forced);
        assert(dirs[dirs.len() - 1].files.len() > 0);
    }
}

/// The directory that a path names below another.
fn relative_to(path: &SavePath, base: &SavePath) -> (relative: SavePath)
    requires
        base@.parts.len() <= path@.parts.len(),
    ensures
        relative@.parts == path@.parts.skip(base@.parts.len() as int),
{
    let mut relative = SavePath { separator: path.separator, components: Vec::new() };
    let mut i: usize = base.components.len();
    assert(path@.parts.len() == path.components.len());
    assert(base@.parts.len() == base.components.len());
    assert(relative@.parts =~= path@.parts.subrange(i as int, i as int));
    while i < path.components.len()
        invariant
            base.components.len() <= i <= path.components.len(),
            relative@.parts == path@.parts.subrange(base.components.len() as int, i as int),
        decreases path.components.len() - i,
    {
        let ghost before = relative@.parts;
        relative.components.push(path.components[i].copy());
        assert(relative@.parts =~= before.push(path@.parts[i as int]));
        assert(relative@.parts =~= path@.parts.subrange(
            base.components.len() as int,
            i + 1,
        ));
        i = i + 1;
    }
    assert(relative@.parts =~= path@.parts.skip(base@.parts.len() as int));
    relative
}

/// A directory below an input, and the region files that it lists.
struct RegionDir {
    relative: SavePath,
    files: Vec<FoundFile>,
}

impl View for RegionDir {
    type V = RegionDirView;

    closed spec fn view(&self) -> RegionDirView {
        RegionDirView { relative: self.relative@.parts, files: sort::views(self.files@) }
    }
}

fn collect_region_dirs(
    input: &SavePath,
    walked: &Vec<WalkedDirectory>,
    output: Option<&SavePath>,
    current_dir: &SavePath,
) -> (result: Result<Vec<RegionDir>, DiscoveryError>)
    ensures
        ({
            let root = match output {
                Some(root) => Some(root@.parts),
                None => None,
            };
            match result {
                Ok(dirs) => {
                    &&& region_dirs(input@, walked@, root, current_dir@) == Ok::<
                        Seq<RegionDirView>,
                        DiscoveryFault,
                    >(sort::views(dirs@))
                    &&& forall|i: int|
                        0 <= i < dirs@.len() ==> (#[trigger] sort::views(dirs@)[i]).files.len() > 0
                    &&& forall|i: int, forced: Option<SourceFormatHint>|
                        0 <= i < dirs@.len() ==> #[trigger] all_resolved(
                            sort::views(dirs@)[i].files,
                            forced,
                        )
                },
                Err(error) => region_dirs(input@, walked@, root, current_dir@) == Err::<
                    Seq<RegionDirView>,
                    DiscoveryFault,
                >(error@),
            }
        }),
{
    let ghost root = match output {
        Some(root) => Some(root@.parts),
        None => None,
    };
    let mut dirs: Vec<RegionDir> = Vec::new();
    let mut i: usize = 0;
    assert(sort::views(dirs@) =~= seq![]);
    while i < walked.len()
        invariant
            i <= walked.len(),
            root == (match output {
                Some(root) => Some(root@.parts),
                None => None,
            }),
            region_dirs(input@, walked@.take(i as int), root, current_dir@) == Ok::<
                Seq<RegionDirView>,
                DiscoveryFault,
            >(sort::views(dirs@)),
            forall|k: int|
                0 <= k < dirs@.len() ==> (#[trigger] sort::views(dirs@)[k]).files.len() > 0,
            forall|k: int, forced: Option<SourceFormatHint>|
                0 <= k < dirs@.len() ==> #[trigger] all_resolved(
                    sort::views(dirs@)[k].files,
                    forced,
                ),
        decreases walked.len() - i,
    {
        let ghost before = sort::views(dirs@);
        assert(walked@.take(i + 1).drop_last() =~= walked@.take(i as int));
        proof {
            if region_dirs(input@, walked@.take(i + 1), root, current_dir@) is Err {
                lemma_region_dirs_fault(input@, walked@, root, current_dir@, i + 1);
            }
        }
        if !should_skip_recursive_entry(&walked[i].path, input, output, current_dir) {
            match &walked[i].listing {
                Err(text) => {
                    return Err(DiscoveryError::Listing(text.clone()));
                },
                Ok(listing) => {
                    let files = supported_region_files_in_dir(listing);
                    assert(sort::views(files@).len() == files.len());
                    if files.len() > 0 {
                        if !walked[i].path.starts_with(input) {
                            return Err(DiscoveryError::NotBelow(input.copy()));
                        }
                        let relative = relative_to(&walked[i].path, input);
                        let ghost found = sort::views(files@);
                        dirs.push(RegionDir { relative, files });
                        proof {
                            let after = sort::views(dirs@);
                            let pushed = RegionDirView { relative: relative@.parts, files: found };
                            assert(after =~= before.push(pushed));
                            assert forall|k: int, forced: Option<SourceFormatHint>|
                                0 <= k < dirs@.len() implies #[trigger] all_resolved(
                                after[k].files,
                                forced,
                            ) by {
                                if k < before.len() {
                                    assert(after[k] == before[k]);
                                    assert(all_resolved(before[k].files, forced));
                                } else {
                                    lemma_supported_resolved(sort::views(listing@), forced);
                                }
                            }
                            assert forall|k: int| 0 <= k < dirs@.len() implies (
                            #[trigger] after[k]).files.len() > 0 by {
                                if k < before.len() {
                                    assert(after[k] == before[k]);
                                }
                            }
                        }
                    }
                },
            }
        }
        i = i + 1;
    }
    assert(walked@.take(i as int) =~= walked@);
    Ok(dirs)
}

fn append_world_sources(
    sources: &mut Vec<RegionSource>,
    input_index: usize,
    dirs: &Vec<RegionDir>,
    forced_format: Option<SourceFormatHint>,
)
    requires
        forall|i: int, forced: Option<SourceFormatHint>|
            0 <= i < dirs@.len() ==> #[trigger] all_resolved(sort::views(dirs@)[i].files, forced),
    ensures
        sort::views(final(sources)@) == sort::views(old(sources)@) + world_sources(
            input_index,
            sort::views(dirs@),
            forced_format,
        ),
{
    let ghost start = sort::views(sources@);
    let ghost all = sort::views(dirs@);
    let mut i: usize = 0;
    assert(sort::views(sources@) =~= start + world_sources(
        input_index,
        all.take(0),
        forced_format,
    ));
    while i < dirs.len()
        invariant
            i <= dirs.len(),
            all == sort::views(dirs@),
            forall|i: int, forced: Option<SourceFormatHint>|
                0 <= i < dirs@.len() ==> #[trigger] all_resolved(all[i].files, forced),
            sort::views(sources@) == start + world_sources(
                input_index,
                all.take(i as int),
                forced_format,
            ),
        decreases dirs.len() - i,
    {
        assert(all.take(i + 1).drop_last() =~= all.take(i as int));
        assert(all_resolved(all[i as int].files, forced_format));
        let _ = append_sources(
            sources,
            input_index,
            InputKind::WorldDirectory,
            &dirs[i].files,
            &dirs[i].relative,
            forced_format,
        );
        assert(sort::views(sources@) =~= start + world_sources(
            input_index,
            all.take(i + 1),
            forced_format,
        ));
        i = i + 1;
    }
    assert(all.take(i as int) =~= all);
}

/// The kind of an input, and how many directories hold its region files.
type InputShape = (InputKind, usize);

/// Adds the region files of an input to `sources`.
fn find_input(
    sources: &mut Vec<RegionSource>,
    input_index: usize,
    input: &SavePath,
    scan: &InputScan,
    forced_format: Option<SourceFormatHint>,
    output: Option<&SavePath>,
    current_dir: &SavePath,
) -> (result: Result<InputShape, DiscoveryError>)
    ensures
        ({
            let root = match output {
                Some(root) => Some(root@.parts),
                None => None,
            };
            let finding = input_finding(
                input_index,
                input@,
                *scan,
                forced_format,
                root,
                current_dir@,
            );
            match result {
                Ok((kind, directories)) => {
                    &&& finding matches Ok(found)
                    &&& found.kind == kind
                    &&& found.directories == directories
                    &&& found.directories <= found.sources.len()
                    &&& sort::views(final(sources)@) == sort::views(old(sources)@) + found.sources
                    &&& all_from(found.sources, input_index, kind)
                },
                Err(error) => finding == Err::<InputFinding, DiscoveryFault>(error@),
            }
        }),
{
    let ghost start = sort::views(sources@);
    match scan {
        InputScan::Missing => Err(DiscoveryError::NotFound(input.copy())),
        InputScan::File(size) => {
            if !looks_like_region_file(input, true) {
                return Err(DiscoveryError::NotRegionFile(input.copy()));
            }
            let source_format = match resolve_source_format(input, forced_format) {
                Ok(hint) => hint,
                Err(error) => {
                    return Err(DiscoveryError::Unnamed(error, input.copy()));
                },
            };
            let nowhere = SavePath { separator: input.separator, components: Vec::new() };
            assert(nowhere@.parts =~= seq![]);
            let source = RegionSource {
                input_index,
                input_kind: InputKind::RegionFile,
                source_file: input.copy(),
                source_format,
                relative_region_dir: nowhere,
                file_group: RegionFileGroup::of_file(input),
                estimated_size_bytes: *size,
            };
            sources.push(source);
            assert(sort::views(sources@) =~= start + seq![source@]);
            Ok((InputKind::RegionFile, 0))
        },
        InputScan::Directory(listing, walked) => {
            let listing = match listing {
                Ok(listing) => listing,
                Err(text) => {
                    return Err(DiscoveryError::Listing(text.clone()));
                },
            };
            let direct = supported_region_files_in_dir(listing);
            assert(sort::views(direct@).len() == direct.len());
            if direct.len() > 0 {
                proof {
                    lemma_supported_resolved(sort::views(listing@), forced_format);
                }
                let nowhere = SavePath { separator: input.separator, components: Vec::new() };
                assert(nowhere@.parts =~= seq![]);
                let _ = append_sources(
                    sources,
                    input_index,
                    InputKind::RegionDirectory,
                    &direct,
                    &nowhere,
                    forced_format,
                );
                return Ok((InputKind::RegionDirectory, 1));
            }
            let dirs = match collect_region_dirs(input, walked, output, current_dir) {
                Ok(dirs) => dirs,
                Err(error) => {
                    return Err(error);
                },
            };
            assert(sort::views(dirs@).len() == dirs.len());
            if dirs.len() == 0 {
                return Err(DiscoveryError::NoRegionFiles(input.copy()));
            }
            proof {
                lemma_world_sources(input_index, sort::views(dirs@), forced_format);
            }
            append_world_sources(sources, input_index, &dirs, forced_format);
            Ok((InputKind::WorldDirectory, dirs.len()))
        },
    }
}

/// Counts the groups of the region files from `from` on.
fn count_groups(sources: &Vec<RegionSource>, from: usize) -> (counts: GroupCounts)
    requires
        from <= sources@.len(),
    ensures
        counts == counts_of(sort::views(sources@).skip(from as int)),
{
    let ghost all = sort::views(sources@).skip(from as int);
    let mut counts = GroupCounts { regions: 0, entities: 0, poi: 0 };
    let mut i: usize = from;
    while i < sources.len()
        invariant
            from <= i <= sources.len(),
            all == sort::views(sources@).skip(from as int),
            counts.regions == group_count(all.take(i - from), RegionFileGroup::Regions),
            counts.entities == group_count(all.take(i - from), RegionFileGroup::Entities),
            counts.poi == group_count(all.take(i - from), RegionFileGroup::Poi),
            counts.regions <= i - from,
            counts.entities <= i - from,
            counts.poi <= i - from,
        decreases sources.len() - i,
    {
        assert(all.take(i + 1 - from).drop_last() =~= all.take(i - from));
        assert(all[i - from] == sources@[i as int]@);
        match sources[i].file_group {
            RegionFileGroup::Regions => {
                counts.regions = counts.regions + 1;
            },
            RegionFileGroup::Entities => {
                counts.entities = counts.entities + 1;
            },
            RegionFileGroup::Poi => {
                counts.poi = counts.poi + 1;
            },
        }
        i = i + 1;
    }
    assert(all.take(i - from) =~= all);
    counts
}

/// An input that cannot be used makes the discovery fail.
proof fn lemma_findings_fault(
    inputs: Seq<SavePath>,
    scans: Seq<InputScan>,
    forced: Option<SourceFormatHint>,
    output: Option<Seq<Part>>,
    current: PathView,
    n: nat,
    m: nat,
)
    requires
        n <= m,
        findings(inputs, scans, forced, output, current, n) is Err,
    ensures
        findings(inputs, scans, forced, output, current, m) == findings(
            inputs,
            scans,
            forced,
            output,
            current,
            n,
        ),
    decreases m,
{
    if n < m {
        lemma_findings_fault(inputs, scans, forced, output, current, n, (m - 1) as nat);
    }
}

proof fn lemma_agree_grows(
    sources: Seq<SourceView>,
    inputs: Seq<InputView>,
    more: Seq<SourceView>,
    input: InputView,
)
    requires
        sources_agree(sources, inputs),
        inputs.len() <= usize::MAX,
        all_from(more, inputs.len() as usize, input.input_kind),
    ensures
        sources_agree(sources + more, inputs.push(input)),
{
    let all = sources + more;
    let after = inputs.push(input);
    assert forall|i: int| 0 <= i < all.len() implies (#[trigger] all[i]).input_index < after.len()
        && after[all[i].input_index as int].input_kind == all[i].input_kind by {
        if i < sources.len() {
            assert(all[i] == sources[i]);
        } else {
            assert(all[i] == more[i - sources.len()]);
        }
    }
}

/// Finds the region files of `inputs`, at which stands what `scans` tell. The region
/// files below `excluded_root` are left out of worlds.
pub fn discover_sources_with_summary(
    inputs: &Vec<SavePath>,
    scans: &Vec<InputScan>,
    forced_format: Option<SourceFormatHint>,
    excluded_root: Option<&SavePath>,
    current_dir: &SavePath,
) -> (result: Result<SourceDiscoveryResult, DiscoveryError>)
    requires
        inputs@.len() == scans@.len(),
    ensures
        source_result(result) == discovered_sources(
            inputs@,
            scans@,
            forced_format,
            excluded_root,
            current_dir@,
        ),
        result matches Ok(found) ==> {
            &&& found.summary.inputs@.len() == inputs@.len()
            &&& sources_agree(sort::views(found.sources@), sort::views(found.summary.inputs@))
        },
{
    let normalized: Option<SavePath> = match excluded_root {
        Some(root) => Some(normalize_path_for_compare(root, current_dir)),
        None => None,
    };
    let ghost output = output_parts(excluded_root, current_dir@);
    let mut sources: Vec<RegionSource> = Vec::new();
    let mut summaries: Vec<InputDiscovery> = Vec::new();
    let mut directories: usize = 0;
    let mut i: usize = 0;
    assert(sort::views(sources@) =~= seq![]);
    assert(sort::views(summaries@) =~= seq![]);
    while i < inputs.len()
        invariant
            i <= inputs.len(),
            inputs@.len() == scans@.len(),
            output == output_parts(excluded_root, current_dir@),
            output == (match normalized {
                Some(root) => Some(root@.parts),
                None => None,
            }),
            directories <= sources@.len(),
            summaries@.len() == i,
            findings(inputs@, scans@, forced_format, output, current_dir@, i as nat) == Ok::<
                Findings,
                DiscoveryFault,
            >(
                Findings {
                    sources: sort::views(sources@),
                    inputs: sort::views(summaries@),
                    directories: directories as nat,
                },
            ),
            sources_agree(sort::views(sources@), sort::views(summaries@)),
        decreases inputs.len() - i,
    {
        let ghost before = sort::views(sources@);
        let ghost inputs_before = sort::views(summaries@);
        let start = sources.len();
        proof {
            if findings(
                inputs@,
                scans@,
                forced_format,
                output,
                current_dir@,
                (i + 1) as nat,
            ) is Err {
                lemma_findings_fault(
                    inputs@,
                    scans@,
                    forced_format,
                    output,
                    current_dir@,
                    (i + 1) as nat,
                    inputs@.len(),
                );
            }
        }
        let (input_kind, region_directories) = match find_input(
            &mut sources,
            i,
            &inputs[i],
            &scans[i],
            forced_format,
            normalized.as_ref(),
            current_dir,
        ) {
            Ok(shape) => shape,
            Err(error) => {
                return Err(error);
            },
        };
        let ghost found = input_finding(
            i,
            inputs@[i as int]@,
            scans@[i as int],
            forced_format,
            output,
            current_dir@,
        )->Ok_0;
        assert(sort::views(sources@).skip(start as int) =~= found.sources);
        assert(sort::views(sources@).len() == sources@.len());
        let summary = InputDiscovery {
            input_path: inputs[i].copy(),
            input_kind,
            discovered_jobs: sources.len() - start,
            region_directories,
            group_counts: count_groups(&sources, start),
        };
        let ghost view = summary@;
        summaries.push(summary);
        directories = directories + region_directories;
        proof {
            assert(sort::views(summaries@) =~= inputs_before.push(view));
            assert(sort::views(sources@) == before + found.sources);
            lemma_agree_grows(before, inputs_before, found.sources, view);
        }
        i = i + 1;
    }
    assert(sort::views(sources@).len() == sources.len());
    if sources.len() == 0 {
        return Err(DiscoveryError::NothingFound);
    }
    Ok(
        SourceDiscoveryResult {
            sources,
            summary: DiscoverySummary {
                inputs: summaries,
                total_region_directories: directories,
            },
        },
    )
}

/// Whether `c` may stand in the name of a mount.
pub open spec fn plain_char(c: char) -> bool {
    ||| 'a' <= c <= 'z'
    ||| 'A' <= c <= 'Z'
    ||| '0' <= c <= '9'
    ||| c == '_'
    ||| c == '-'
    ||| c == '.'
}

/// `name` with an underscore for each character that may not stand in the name of a
/// mount.
pub open spec fn cleaned(name: Seq<char>) -> Seq<char> {
    Seq::new(
        name.len(),
        |i: int|
            if plain_char(name[i]) {
                name[i]
            } else {
                '_'
            },
    )
}

/// `value` with an underscore for each character that may not stand in the name of a
/// mount, unless nothing is left.
pub fn sanitize_component(value: &str) -> (result: Option<String>)
    ensures
        match result {
            Some(name) => name@ == cleaned(value@) && name@.len() > 0,
            None => value@.len() == 0,
        },
{
    let chars = chars_of(value);
    let mut clean: Vec<char> = Vec::new();
    let mut i: usize = 0;
    while i < chars.len()
        invariant
            i <= chars.len(),
            chars@ == value@,
            clean@ == cleaned(value@).take(i as int),
        decreases chars.len() - i,
    {
        let c = chars[i];
        let plain = ('a' <= c && c <= 'z') || ('A' <= c && c <= 'Z') || ('0' <= c && c <= '9') || c
            == '_' || c == '-' || c == '.';
        clean.push(
            if plain {
                c
            } else {
                '_'
            },
        );
        assert(clean@ =~= cleaned(value@).take(i + 1));
        i = i + 1;
    }
    if clean.len() == 0 {
        return None;
    }
    let name = string_of(&clean, 0, clean.len());
    assert(name@ =~= cleaned(value@));
    Some(name)
}

/// The readable part of the name of a mount.
pub open spec fn mount_label(input: PathView) -> Seq<char> {
    match input.file_name() {
        Some(name) => if name.len() > 0 {
            cleaned(name)
        } else {
            "input"@
        },
        None => "input"@,
    }
}

/// The readable part of the name of the mount of the input `path`.
pub fn directory_mount_base_name(path: &SavePath) -> (label: String)
    ensures
        label@ == mount_label(path@),
{
    match path.file_name() {
        None => "input".to_owned(),
        Some(name) => match sanitize_component(name.as_str()) {
            Some(label) => label,
            None => "input".to_owned(),
        },
    }
}

/// The name of the mount of the input `shown`, whose whole path has the hash `hash`.
pub open spec fn hashed_mount(shown: PathView, hash: u32) -> Seq<char> {
    mount_label(shown) + "__"@ + text::hexadecimal(hash as nat, 8)
}

/// The name of the mount of an input: its own name, and a hash of its whole path.
pub open spec fn mount_text(shown: PathView, input: PathView, current: PathView) -> Seq<char> {
    let whole = path::normalized_path(input, current).text();
    hashed_mount(shown, codec::xxh32_of(vstd::utf8::encode_utf8(whole), 0))
}

/// The name of the mount of the input `path`, whose whole path has the hash `hash`.
pub fn mount_name(path: &SavePath, hash: u32) -> (name: String)
    ensures
        name@ == hashed_mount(path@, hash),
{
    let mut name = directory_mount_base_name(path);
    name.append("__");
    push_hexadecimal(&mut name, hash as u64, 8);
    name
}

/// The names of the mounts of the directories among the inputs, by the index of the
/// input.
pub fn build_directory_mounts(
    inputs: &Vec<SavePath>,
    input_summaries: &Vec<InputDiscovery>,
    current_dir: &SavePath,
) -> (mounts: HashMap<usize, String>)
    requires
        input_summaries@.len() <= inputs@.len(),
    ensures
        forall|i: usize| #[trigger]
            mounts@.contains_key(i) == (i < input_summaries@.len()
                && input_summaries@[i as int].input_kind != InputKind::RegionFile),
        forall|i: usize| #[trigger]
            mounts@.contains_key(i) ==> mounts@[i]@ == mount_text(
                input_summaries@[i as int].input_path@,
                inputs@[i as int]@,
                current_dir@,
            ),
{
    broadcast use vstd::std_specs::hash::group_hash_axioms;

    let mut mounts: HashMap<usize, String> = HashMap::new();
    let mut i: usize = 0;
    while i < input_summaries.len()
        invariant
            i <= input_summaries.len() <= inputs.len(),
            forall|k: usize| #[trigger]
                mounts@.contains_key(k) == (k < i && input_summaries@[k as int].input_kind
                    != InputKind::RegionFile),
            forall|k: usize| #[trigger]
                mounts@.contains_key(k) ==> mounts@[k]@ == mount_text(
                    input_summaries@[k as int].input_path@,
                    inputs@[k as int]@,
                    current_dir@,
                ),
        decreases input_summaries.len() - i,
    {
        if input_summaries[i].input_kind != InputKind::RegionFile {
            let whole = normalize_path_for_compare(&inputs[i], current_dir).text();
            let hash = xxhash32(0, whole.as_str().as_bytes());
            mounts.insert(i, mount_name(&input_summaries[i].input_path, hash));
        }
        i = i + 1;
    }
    mounts
}

/// The directory that a region file is converted to: the output itself for a file that is
/// an input and for a region directory that is the only input, else the mount of its
/// input, and below it the place of the file in its world.
pub open spec fn destination_dir(
    source: SourceView,
    inputs: Seq<SavePath>,
    found: Seq<InputView>,
    output_root: PathView,
    current: PathView,
) -> PathView {
    let i = source.input_index as int;
    let mount = mount_text(found[i].input_path, inputs[i]@, current);
    match source.input_kind {
        InputKind::RegionFile => output_root,
        InputKind::RegionDirectory => if inputs.len() == 1 {
            output_root
        } else {
            output_root.child(mount)
        },
        InputKind::WorldDirectory => output_root.child(mount).below(source.relative_region_dir),
    }
}

/// The job that converts `source` to `target`.
pub open spec fn job_of(
    source: SourceView,
    inputs: Seq<SavePath>,
    found: Seq<InputView>,
    output_root: PathView,
    target: RegionFormat,
    current: PathView,
) -> Result<JobView, DiscoveryFault> {
    match formats::path_coords(source.source_file) {
        Err(kind) => Err(
            DiscoveryFault::Unnamed(error::region_fault(kind), source.source_file),
        ),
        Ok((region_x, region_z)) => Ok(
            JobView {
                input_index: source.input_index,
                file_group: source.file_group,
                source_file: source.source_file,
                source_format: source.source_format,
                destination_file: destination_dir(
                    source,
                    inputs,
                    found,
                    output_root,
                    current,
                ).child(formats::region_file_name_text(target, region_x, region_z)),
                estimated_size_bytes: source.estimated_size_bytes,
            },
        ),
    }
}

/// The jobs that convert `sources` to `target`, in their order.
pub open spec fn jobs_of(
    sources: Seq<SourceView>,
    inputs: Seq<SavePath>,
    found: Seq<InputView>,
    output_root: PathView,
    target: RegionFormat,
    current: PathView,
) -> Result<Seq<JobView>, DiscoveryFault>
    decreases sources.len(),
{
    if sources.len() == 0 {
        Ok(seq![])
    } else {
        match jobs_of(sources.drop_last(), inputs, found, output_root, target, current) {
            Err(fault) => Err(fault),
            Ok(before) => match job_of(
                sources.last(),
                inputs,
                found,
                output_root,
                target,
                current,
            ) {
                Err(fault) => Err(fault),
                Ok(job) => Ok(before.push(job)),
            },
        }
    }
}

/// What is wrong with the job `i`: it converts a file to itself, or to the same file
/// as an earlier one.
pub open spec fn job_fault(jobs: Seq<JobView>, i: int) -> Option<DiscoveryFault> {
    if jobs[i].source_file.parts == jobs[i].destination_file.parts {
        Some(DiscoveryFault::InPlace(jobs[i].source_file))
    } else if exists|j: int|
        0 <= j < i && (#[trigger] jobs[j]).destination_file.parts
            == jobs[i].destination_file.parts {
        Some(DiscoveryFault::SameOutput(jobs[i].destination_file))
    } else {
        None
    }
}

/// What is wrong with the first of `jobs` with which something is.
pub open spec fn jobs_fault(jobs: Seq<JobView>, n: nat) -> Option<DiscoveryFault>
    decreases n,
{
    if n == 0 {
        None
    } else {
        match jobs_fault(jobs, (n - 1) as nat) {
            Some(fault) => Some(fault),
            None => job_fault(jobs, n - 1),
        }
    }
}

proof fn lemma_early_job_fault(jobs: Seq<JobView>, n: nat, m: nat)
    requires
        n <= m,
        jobs_fault(jobs, n) is Some,
    ensures
        jobs_fault(jobs, m) == jobs_fault(jobs, n),
    decreases m,
{
    if n < m {
        lemma_early_job_fault(jobs, n, (m - 1) as nat);
    }
}

/// Jobs with which nothing is wrong convert no file to itself, and no two files to
/// the same file.
pub proof fn law_valid_jobs_do_not_collide(jobs: Seq<JobView>, i: int, j: int)
    requires
        jobs_fault(jobs, jobs.len()) is None,
        0 <= i <= j < jobs.len(),
    ensures
        jobs[i].source_file.parts != jobs[i].destination_file.parts,
        jobs[j].source_file.parts != jobs[j].destination_file.parts,
        i < j ==> jobs[i].destination_file.parts != jobs[j].destination_file.parts,
{
    lemma_no_job_fault(jobs, jobs.len(), i);
    lemma_no_job_fault(jobs, jobs.len(), j);
}

proof fn lemma_no_job_fault(jobs: Seq<JobView>, n: nat, i: int)
    requires
        jobs_fault(jobs, n) is None,
        0 <= i < n,
    ensures
        job_fault(jobs, i) is None,
    decreases n,
{
    if i < n - 1 {
        lemma_no_job_fault(jobs, (n - 1) as nat, i);
    }
}

/// The text that stands for a path in the set of those already seen.
fn path_key(path: &SavePath) -> (key: String)
    ensures
        key@ == path::parts_text('/', path@.parts),
{
    let mut plain = path.copy();
    plain.separator = '/';
    assert(plain@.parts == path@.parts);
    plain.text()
}

/// The first job up to `end` that writes the file `destination`, if there is one.
fn writes_before(jobs: &Vec<Job>, end: usize, destination: &SavePath) -> (found: bool)
    requires
        end <= jobs@.len(),
    ensures
        found == exists|j: int|
            0 <= j < end && (#[trigger] sort::views(jobs@)[j]).destination_file.parts
                == destination@.parts,
{
    let ghost all = sort::views(jobs@);
    let mut j: usize = 0;
    while j < end
        invariant
            j <= end <= jobs.len(),
            all == sort::views(jobs@),
            forall|k: int|
                0 <= k < j ==> (#[trigger] all[k]).destination_file.parts != destination@.parts,
        decreases end - j,
    {
        assert(all[j as int].destination_file == jobs@[j as int].destination_file@);
        if jobs[j].destination_file.same_components(destination) {
            return true;
        }
        j = j + 1;
    }
    false
}

/// Checks that no job converts a file to itself, and no two to the same file.
pub fn validate_jobs(jobs: &Vec<Job>) -> (result: Result<(), DiscoveryError>)
    ensures
        match result {
            Ok(_) => jobs_fault(sort::views(jobs@), jobs@.len()) is None,
            Err(error) => jobs_fault(sort::views(jobs@), jobs@.len()) == Some(error@),
        },
{
    let ghost all = sort::views(jobs@);
    let mut seen = StringHashSet::new();
    let mut i: usize = 0;
    while i < jobs.len()
        invariant
            i <= jobs.len(),
            all == sort::views(jobs@),
            jobs_fault(all, i as nat) is None,
            forall|j: int|
                0 <= j < i ==> seen@.contains(
                    path::parts_text('/', (#[trigger] all[j]).destination_file.parts),
                ),
        decreases jobs.len() - i,
    {
        assert(all[i as int] == jobs@[i as int]@);
        proof {
            if job_fault(all, i as int) is Some {
                lemma_early_job_fault(all, (i + 1) as nat, jobs@.len());
            }
        }
        if jobs[i].source_file.same_components(&jobs[i].destination_file) {
            return Err(DiscoveryError::InPlace(jobs[i].source_file.copy()));
        }
        let key = path_key(&jobs[i].destination_file);
        if seen.contains(key.as_str()) && writes_before(jobs, i, &jobs[i].destination_file) {
            return Err(DiscoveryError::SameOutput(jobs[i].destination_file.copy()));
        }
        seen.insert(key);
        i = i + 1;
    }
    Ok(())
}

/// The jobs that convert the region files of the inputs.
#[verifier::ext_equal]
pub struct JobFindings {
    pub jobs: Seq<JobView>,
    pub inputs: Seq<InputView>,
    pub directories: nat,
}

/// The jobs that convert the region files of the inputs to `target`, by source.
pub open spec fn discovered_jobs(
    inputs: Seq<SavePath>,
    scans: Seq<InputScan>,
    output_root: &SavePath,
    forced: Option<SourceFormatHint>,
    target: RegionFormat,
    current: PathView,
) -> Result<JobFindings, DiscoveryFault> {
    match discovered_sources(inputs, scans, forced, Some(output_root), current) {
        Err(fault) => Err(fault),
        Ok(found) => match jobs_of(
            found.sources,
            inputs,
            found.inputs,
            output_root@,
            target,
            current,
        ) {
            Err(fault) => Err(fault),
            Ok(jobs) => match jobs_fault(jobs, jobs.len()) {
                Some(fault) => Err(fault),
                None => Ok(
                    JobFindings {
                        jobs: sort::sorted::<Job>(jobs),
                        inputs: found.inputs,
                        directories: found.directories,
                    },
                ),
            },
        },
    }
}

/// The result of discovering jobs, taken by its view.
pub open spec fn job_result(result: Result<DiscoveryResult, DiscoveryError>) -> Result<
    JobFindings,
    DiscoveryFault,
> {
    match result {
        Ok(found) => Ok(
            JobFindings {
                jobs: sort::views(found.jobs@),
                inputs: sort::views(found.summary.inputs@),
                directories: found.summary.total_region_directories as nat,
            },
        ),
        Err(error) => Err(error@),
    }
}

proof fn lemma_early_source_fault(
    sources: Seq<SourceView>,
    inputs: Seq<SavePath>,
    found: Seq<InputView>,
    output_root: PathView,
    target: RegionFormat,
    current: PathView,
    n: int,
)
    requires
        0 <= n <= sources.len(),
        jobs_of(sources.take(n), inputs, found, output_root, target, current) is Err,
    ensures
        jobs_of(sources, inputs, found, output_root, target, current) == jobs_of(
            sources.take(n),
            inputs,
            found,
            output_root,
            target,
            current,
        ),
    decreases sources.len(),
{
    if n < sources.len() {
        assert(sources.drop_last().take(n) =~= sources.take(n));
        lemma_early_source_fault(
            sources.drop_last(),
            inputs,
            found,
            output_root,
            target,
            current,
            n,
        );
    } else {
        assert(sources.take(n) =~= sources);
    }
}

fn collect_jobs(
    inputs: &Vec<SavePath>,
    discovery: &SourceDiscoveryResult,
    output_root: &SavePath,
    target_format: RegionFormat,
    current_dir: &SavePath,
) -> (result: Result<Vec<Job>, DiscoveryError>)
    requires
        discovery.summary.inputs@.len() == inputs@.len(),
        sources_agree(sort::views(discovery.sources@), sort::views(discovery.summary.inputs@)),
    ensures
        ({
            let jobs = jobs_of(
                sort::views(discovery.sources@),
                inputs@,
                sort::views(discovery.summary.inputs@),
                output_root@,
                target_format,
                current_dir@,
            );
            match result {
                Ok(found) => jobs == Ok::<Seq<JobView>, DiscoveryFault>(sort::views(found@)),
                Err(error) => jobs == Err::<Seq<JobView>, DiscoveryFault>(error@),
            }
        }),
{
    broadcast use vstd::std_specs::hash::group_hash_axioms;

    let ghost sources = sort::views(discovery.sources@);
    let ghost found = sort::views(discovery.summary.inputs@);
    let mounts = build_directory_mounts(inputs, &discovery.summary.inputs, current_dir);
    let mut jobs: Vec<Job> = Vec::new();
    let mut i: usize = 0;
    assert(sort::views(jobs@) =~= seq![]);
    while i < discovery.sources.len()
        invariant
            i <= discovery.sources.len(),
            sources == sort::views(discovery.sources@),
            found == sort::views(discovery.summary.inputs@),
            discovery.summary.inputs@.len() == inputs@.len(),
            sources_agree(sources, found),
            forall|k: usize| #[trigger]
                mounts@.contains_key(k) == (k < discovery.summary.inputs@.len()
                    && discovery.summary.inputs@[k as int].input_kind != InputKind::RegionFile),
            forall|k: usize| #[trigger]
                mounts@.contains_key(k) ==> mounts@[k]@ == mount_text(
                    discovery.summary.inputs@[k as int].input_path@,
                    inputs@[k as int]@,
                    current_dir@,
                ),
            jobs_of(
                sources.take(i as int),
                inputs@,
                found,
                output_root@,
                target_format,
                current_dir@,
            ) == Ok::<Seq<JobView>, DiscoveryFault>(sort::views(jobs@)),
        decreases discovery.sources.len() - i,
    {
        let source = &discovery.sources[i];
        let ghost before = sort::views(jobs@);
        assert(sources.take(i + 1).drop_last() =~= sources.take(i as int));
        assert(sources[i as int] == source@);
        let owner = source.input_index;
        assert(owner < found.len());
        assert(found[owner as int] == discovery.summary.inputs@[owner as int]@);
        let (region_x, region_z) = match parse_region_coords_from_path(&source.source_file) {
            Ok(coords) => coords,
            Err(error) => {
                proof {
                    lemma_early_source_fault(
                        sources,
                        inputs@,
                        found,
                        output_root@,
                        target_format,
                        current_dir@,
                        i + 1,
                    );
                }
                return Err(DiscoveryError::Unnamed(error, source.source_file.copy()));
            },
        };
        let directory = match source.input_kind {
            InputKind::RegionFile => output_root.copy(),
            InputKind::RegionDirectory => {
                if inputs.len() == 1 {
                    output_root.copy()
                } else {
                    assert(mounts@.contains_key(owner));
                    output_root.child(mounts.get(&owner).unwrap().as_str())
                }
            },
            InputKind::WorldDirectory => {
                assert(mounts@.contains_key(owner));
                output_root.child(mounts.get(&owner).unwrap().as_str()).below(
                    &source.relative_region_dir,
                )
            },
        };
        let job = Job {
            input_index: owner,
            file_group: source.file_group,
            source_file: source.source_file.copy(),
            source_format: source.source_format,
            destination_file: directory.child(
                target_format.region_file_name(region_x, region_z).as_str(),
            ),
            estimated_size_bytes: source.estimated_size_bytes,
        };
        let ghost view = job@;
        jobs.push(job);
        assert(sort::views(jobs@) =~= before.push(view));
        i = i + 1;
    }
    assert(sources.take(i as int) =~= sources);
    Ok(jobs)
}

/// Finds the jobs that convert the region files of `inputs`, at which stands what
/// `scans` tell, to `target_format` below `output_root`.
pub fn discover_jobs_with_summary(
    inputs: &Vec<SavePath>,
    scans: &Vec<InputScan>,
    output_root: &SavePath,
    forced_format: Option<SourceFormatHint>,
    target_format: RegionFormat,
    current_dir: &SavePath,
) -> (result: Result<DiscoveryResult, DiscoveryError>)
    requires
        inputs@.len() == scans@.len(),
    ensures
        job_result(result) == discovered_jobs(
            inputs@,
            scans@,
            output_root,
            forced_format,
            target_format,
            current_dir@,
        ),
{
    let discovery = match discover_sources_with_summary(
        inputs,
        scans,
        forced_format,
        Some(output_root),
        current_dir,
    ) {
        Ok(discovery) => discovery,
        Err(error) => {
            return Err(error);
        },
    };
    let jobs = match collect_jobs(inputs, &discovery, output_root, target_format, current_dir) {
        Ok(jobs) => jobs,
        Err(error) => {
            return Err(error);
        },
    };
    assert(sort::views(jobs@).len() == jobs@.len());
    match validate_jobs(&jobs) {
        Ok(_) => {},
        Err(error) => {
            return Err(error);
        },
    }
    Ok(DiscoveryResult { jobs: sort_by_path(jobs), summary: discovery.summary })
}

/// Finds the jobs that convert the region files of `inputs`, at which stands what
/// `scans` tell, to `target_format` below `output_root`.
pub fn discover_jobs(
    inputs: &Vec<SavePath>,
    scans: &Vec<InputScan>,
    output_root: &SavePath,
    forced_format: Option<SourceFormatHint>,
    target_format: RegionFormat,
    current_dir: &SavePath,
) -> (result: Result<Vec<Job>, DiscoveryError>)
    requires
        inputs@.len() == scans@.len(),
    ensures
        ({
            let found = discovered_jobs(
                inputs@,
                scans@,
                output_root,
                forced_format,
                target_format,
                current_dir@,
            );
            match result {
                Ok(jobs) => found is Ok && sort::views(jobs@) == found->Ok_0.jobs,
                Err(error) => found == Err::<JobFindings, DiscoveryFault>(error@),
            }
        }),
{
    match discover_jobs_with_summary(
        inputs,
        scans,
        output_root,
        forced_format,
        target_format,
        current_dir,
    ) {
        Ok(found) => Ok(found.jobs),
        Err(error) => Err(error),
    }
}

/// Jobs that were discovered stand by source, none converts a file to itself, and no
/// two convert to the same file.
pub proof fn law_discovered_jobs(
    inputs: Seq<SavePath>,
    scans: Seq<InputScan>,
    output_root: &SavePath,
    forced: Option<SourceFormatHint>,
    target: RegionFormat,
    current: PathView,
    i: int,
    j: int,
)
    requires
        discovered_jobs(inputs, scans, output_root, forced, target, current) is Ok,
        0 <= i <= j < discovered_jobs(
            inputs,
            scans,
            output_root,
            forced,
            target,
            current,
        )->Ok_0.jobs.len(),
    ensures
        ({
            let jobs = discovered_jobs(
                inputs,
                scans,
                output_root,
                forced,
                target,
                current,
            )->Ok_0.jobs;
            &&& path::parts_le(jobs[i].source_file.parts, jobs[j].source_file.parts)
            &&& jobs[i].source_file.parts != jobs[i].destination_file.parts
            &&& jobs[j].source_file.parts != jobs[j].destination_file.parts
            &&& i < j ==> jobs[i].destination_file.parts != jobs[j].destination_file.parts
        }),
{
    broadcast use vstd::seq_lib::group_to_multiset_ensures;

    let found = discovered_sources(inputs, scans, forced, Some(output_root), current)->Ok_0;
    let listed = jobs_of(
        found.sources,
        inputs,
        found.inputs,
        output_root@,
        target,
        current,
    )->Ok_0;
    let jobs = sort::sorted::<Job>(listed);
    sort::law_sorting::<Job>(listed);
    assert(listed.no_duplicates()) by {
        assert forall|a: int, b: int| 0 <= a < b < listed.len() implies listed[a] != listed[b] by {
            law_valid_jobs_do_not_collide(listed, a, b);
        }
    }
    listed.lemma_multiset_has_no_duplicates();
    jobs.lemma_multiset_has_no_duplicates_conv();
    assert(i < j ==> jobs[i] != jobs[j]);
    assert(jobs.contains(jobs[i]) && jobs.contains(jobs[j]));
    assert(listed.contains(jobs[i]) && listed.contains(jobs[j])) by {
        assert(jobs.to_multiset().count(jobs[i]) > 0);
        assert(jobs.to_multiset().count(jobs[j]) > 0);
    }
    let a = choose|a: int| 0 <= a < listed.len() && listed[a] == jobs[i];
    let b = choose|b: int| 0 <= b < listed.len() && listed[b] == jobs[j];
    if a < b {
        law_valid_jobs_do_not_collide(listed, a, b);
    } else {
        law_valid_jobs_do_not_collide(listed, b, a);
    }
    assert(sort::in_order::<Job>(jobs));
    if i < j {
        assert(path::parts_le(
            <Job as Located>::parts(jobs[i]),
            <Job as Located>::parts(jobs[j]),
        ));
    } else {
        let parts = jobs[i].source_file.parts;
        path::law_paths_are_ordered(parts, parts, parts);
    }
}

proof fn lemma_jobs_of_sources(
    sources: Seq<SourceView>,
    inputs: Seq<SavePath>,
    found: Seq<InputView>,
    output_root: PathView,
    target: RegionFormat,
    current: PathView,
)
    requires
        jobs_of(sources, inputs, found, output_root, target, current) is Ok,
    ensures
        ({
            let jobs = jobs_of(sources, inputs, found, output_root, target, current)->Ok_0;
            &&& jobs.len() == sources.len()
            &&& forall|k: int|
                0 <= k < sources.len() ==> (#[trigger] jobs[k]).source_file
                    == sources[k].source_file
        }),
    decreases sources.len(),
{
    if sources.len() > 0 {
        let before = sources.drop_last();
        lemma_jobs_of_sources(before, inputs, found, output_root, target, current);
        let earlier = jobs_of(before, inputs, found, output_root, target, current)->Ok_0;
        let jobs = jobs_of(sources, inputs, found, output_root, target, current)->Ok_0;
        assert forall|k: int| 0 <= k < sources.len() implies (#[trigger] jobs[k]).source_file
            == sources[k].source_file by {
            if k < before.len() {
                assert(jobs[k] == earlier[k]);
                assert(before[k] == sources[k]);
            }
        }
    }
}

/// The files of the only input are written directly below the output where it is a region
/// file or a region directory.
pub proof fn law_single_input_is_not_mounted(
    source: SourceView,
    inputs: Seq<SavePath>,
    found: Seq<InputView>,
    output_root: PathView,
    target: RegionFormat,
    current: PathView,
)
    requires
        inputs.len() == 1,
        source.input_kind != InputKind::WorldDirectory,
        formats::path_coords(source.source_file) is Ok,
    ensures
        ({
            let (region_x, region_z) = formats::path_coords(source.source_file)->Ok_0;
            job_of(source, inputs, found, output_root, target, current) matches Ok(job)
                && job.destination_file == output_root.child(
                formats::region_file_name_text(target, region_x, region_z),
            )
        }),
{
}

/// There is one job for each region file that was found, and none is left out.
pub proof fn law_every_source_becomes_a_job(
    inputs: Seq<SavePath>,
    scans: Seq<InputScan>,
    output_root: &SavePath,
    forced: Option<SourceFormatHint>,
    target: RegionFormat,
    current: PathView,
    k: int,
)
    requires
        discovered_jobs(inputs, scans, output_root, forced, target, current) is Ok,
        0 <= k < discovered_sources(
            inputs,
            scans,
            forced,
            Some(output_root),
            current,
        )->Ok_0.sources.len(),
    ensures
        ({
            let sources = discovered_sources(
                inputs,
                scans,
                forced,
                Some(output_root),
                current,
            )->Ok_0.sources;
            let jobs = discovered_jobs(
                inputs,
                scans,
                output_root,
                forced,
                target,
                current,
            )->Ok_0.jobs;
            &&& jobs.len() == sources.len()
            &&& exists|m: int|
                0 <= m < jobs.len() && (#[trigger] jobs[m]).source_file == sources[k].source_file
        }),
{
    broadcast use vstd::seq_lib::group_to_multiset_ensures;

    let found = discovered_sources(inputs, scans, forced, Some(output_root), current)->Ok_0;
    lemma_jobs_of_sources(found.sources, inputs, found.inputs, output_root@, target, current);
    let listed = jobs_of(
        found.sources,
        inputs,
        found.inputs,
        output_root@,
        target,
        current,
    )->Ok_0;
    let jobs = sort::sorted::<Job>(listed);
    sort::law_sorting::<Job>(listed);
    assert(listed.contains(listed[k]));
    assert(jobs.to_multiset().count(listed[k]) > 0);
    assert(jobs.contains(listed[k]));
    let m = choose|m: int| 0 <= m < jobs.len() && jobs[m] == listed[k];
    let all = discovered_jobs(inputs, scans, output_root, forced, target, current)->Ok_0.jobs;
    assert(all[m].source_file == found.sources[k].source_file);
}

/// No directory of a world that is in the output is searched for region files.
pub proof fn law_output_is_left_out(
    input: PathView,
    walked: Seq<WalkedDirectory>,
    output: Option<Seq<Part>>,
    current: PathView,
    i: int,
)
    requires
        region_dirs(input, walked, output, current) is Ok,
        0 <= i < region_dirs(input, walked, output, current)->Ok_0.len(),
    ensures
        ({
            let dir = region_dirs(input, walked, output, current)->Ok_0[i];
            exists|k: int|
                0 <= k < walked.len() && !skipped(
                    (#[trigger] walked[k]).path@,
                    input,
                    output,
                    current,
                ) && walked[k].path@.parts == input.parts + dir.relative
        }),
    decreases walked.len(),
{
    let before = walked.drop_last();
    let dirs = region_dirs(input, walked, output, current)->Ok_0;
    let earlier = region_dirs(input, before, output, current)->Ok_0;
    if i < earlier.len() {
        law_output_is_left_out(input, before, output, current, i);
        let k = choose|k: int|
            0 <= k < before.len() && !skipped(
                (#[trigger] before[k]).path@,
                input,
                output,
                current,
            ) && before[k].path@.parts == input.parts + earlier[i].relative;
        assert(walked[k] == before[k]);
        assert(dirs[i] == earlier[i]);
    } else {
        let last = walked.last();
        let parts = last.path@.parts;
        assert(dirs[i].relative == parts.skip(input.parts.len() as int));
        assert(parts =~= input.parts + dirs[i].relative);
        assert(walked[walked.len() - 1] == last);
    }
}

/// The region files of all inputs together.
pub open spec fn jobs_total(inputs: Seq<InputView>) -> nat
    decreases inputs.len(),
{
    if inputs.len() == 0 {
        0
    } else {
        jobs_total(inputs.drop_last()) + inputs.last().discovered_jobs
    }
}

/// The region directories of all inputs together.
pub open spec fn directories_total(inputs: Seq<InputView>) -> nat
    decreases inputs.len(),
{
    if inputs.len() == 0 {
        0
    } else {
        directories_total(inputs.drop_last()) + inputs.last().region_directories
    }
}

/// What is found at the inputs one by one adds up to what is found at all of them.
pub proof fn law_findings_add_up(
    inputs: Seq<SavePath>,
    scans: Seq<InputScan>,
    forced: Option<SourceFormatHint>,
    output: Option<Seq<Part>>,
    current: PathView,
    n: nat,
)
    requires
        findings(inputs, scans, forced, output, current, n) is Ok,
    ensures
        ({
            let found = findings(inputs, scans, forced, output, current, n)->Ok_0;
            &&& found.inputs.len() == n
            &&& jobs_total(found.inputs) == found.sources.len()
            &&& directories_total(found.inputs) == found.directories
        }),
    decreases n,
{
    if n > 0 {
        law_findings_add_up(inputs, scans, forced, output, current, (n - 1) as nat);
        let found = findings(inputs, scans, forced, output, current, n)->Ok_0;
        let before = findings(inputs, scans, forced, output, current, (n - 1) as nat)->Ok_0;
        assert(found.inputs.drop_last() =~= before.inputs);
    }
}

} // verus!
