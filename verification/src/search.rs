//! Which region files a search finds: all that the inputs hold, at any depth, and no
//! others.

use vstd::prelude::*;
use vstd::string::*;

use crate::codec;
use crate::discovery::{
    self, DiscoveryFault, FoundFile, FoundView, InputFinding, InputKind, InputScan, InputView, Job,
    JobView, RegionDirView, RegionFileGroup, SourceView, WalkedDirectory,
};
use crate::formats::{self, RegionFormat, SourceFormatHint};
use crate::path::{self, Part, PathView, SavePath};
use crate::sort;
use crate::text;

verus! {

/// Whether a listed entry is a region file: a file whose name tells the place of a region
/// and has the extension of a format.
pub open spec fn is_region_file(file: FoundView) -> bool {
    &&& file.is_file
    &&& formats::path_coords(file.path) is Ok
    &&& {
        ||| file.path.extension() == Some("mca"@)
        ||| file.path.extension() == Some("linear"@)
        ||| file.path.extension() == Some("b_linear"@)
    }
}

/// Whether `path` stands in the output, which a search from `input` leaves out unless it
/// is the input itself.
pub open spec fn stands_in_output(
    path: PathView,
    input: PathView,
    output: Option<Seq<Part>>,
    current: PathView,
) -> bool {
    &&& path.parts != input.parts
    &&& output matches Some(root)
    &&& exists|rest: Seq<Part>|
        path::normalized_path(path, current).parts == #[trigger] (root + rest)
}

/// What a directory lists.
pub open spec fn listing_of(directory: WalkedDirectory) -> Seq<FoundView> {
    match directory.listing {
        Ok(listing) => sort::views(listing@),
        Err(_) => seq![],
    }
}

/// The region files in a listing are all found, in the order of their paths, and nothing
/// else is.
pub proof fn law_every_region_file_is_listed(files: Seq<FoundView>)
    ensures
        discovery::supported_files(files).to_multiset() == files.filter(
            |file: FoundView| is_region_file(file),
        ).to_multiset(),
        discovery::supported_files(files).len() == files.filter(
            |file: FoundView| is_region_file(file),
        ).len(),
        sort::in_order::<FoundFile>(discovery::supported_files(files)),
{
    lemma_region_files(files);
    sort::law_sorting::<FoundFile>(discovery::region_files(files));
}

proof fn lemma_region_files(files: Seq<FoundView>)
    ensures
        discovery::region_files(files) == files.filter(|file: FoundView| is_region_file(file)),
    decreases files.len(),
{
    reveal(Seq::filter);
    if files.len() > 0 {
        lemma_region_files(files.drop_last());
    } else {
        assert(discovery::region_files(files) =~= files.filter(
            |file: FoundView| is_region_file(file),
        ));
    }
}

/// A file is found in a directory if and only if the directory lists it and it is a
/// region file.
pub proof fn law_region_file_is_found(files: Seq<FoundView>, file: FoundView)
    ensures
        discovery::supported_files(files).contains(file) <==> files.contains(file)
            && is_region_file(file),
{
    broadcast use vstd::seq_lib::group_to_multiset_ensures;

    let pred = |file: FoundView| is_region_file(file);
    let kept = files.filter(pred);
    let found = discovery::supported_files(files);
    law_every_region_file_is_listed(files);
    assert(found.contains(file) <==> kept.contains(file)) by {
        assert(found.to_multiset().count(file) == kept.to_multiset().count(file));
    }
    if files.contains(file) && is_region_file(file) {
        let i = choose|i: int| 0 <= i < files.len() && files[i] == file;
        assert(pred(files[i]));
        files.lemma_filter_contains(pred, i);
    }
    if kept.contains(file) {
        let i = choose|i: int| 0 <= i < kept.len() && kept[i] == file;
        files.lemma_filter_pred(pred, i);
        files.lemma_filter_contains_rev(pred, file);
    }
}

/// A directory is left out if and only if it stands in the output.
pub proof fn law_only_the_output_is_left_out(
    path: PathView,
    input: PathView,
    output: Option<Seq<Part>>,
    current: PathView,
)
    ensures
        discovery::skipped(path, input, output, current) <==> stands_in_output(
            path,
            input,
            output,
            current,
        ),
{
    let parts = path::normalized_path(path, current).parts;
    if let Some(root) = output {
        if root.is_prefix_of(parts) {
            assert(parts =~= root + parts.skip(root.len() as int));
        }
        if exists|rest: Seq<Part>| parts == #[trigger] (root + rest) {
            let rest = choose|rest: Seq<Part>| parts == #[trigger] (root + rest);
            assert(root =~= parts.subrange(0, root.len() as int));
        }
    }
}

/// Whether a walked directory has region files to convert: it does not stand in the output
/// and lists a region file.
pub open spec fn has_region_files(
    directory: WalkedDirectory,
    input: PathView,
    output: Option<Seq<Part>>,
    current: PathView,
) -> bool {
    &&& !stands_in_output(directory.path@, input, output, current)
    &&& exists|file: FoundView| #[trigger]
        listing_of(directory).contains(file) && is_region_file(file)
}

/// Some file is found in a listing if and only if it holds a region file.
proof fn lemma_some_found(files: Seq<FoundView>)
    ensures
        discovery::supported_files(files).len() > 0 <==> exists|file: FoundView| #[trigger]
            files.contains(file) && is_region_file(file),
{
    let found = discovery::supported_files(files);
    if found.len() > 0 {
        assert(found.contains(found[0]));
        law_region_file_is_found(files, found[0]);
    }
    if exists|file: FoundView| #[trigger] files.contains(file) && is_region_file(file) {
        let file = choose|file: FoundView| #[trigger] files.contains(file) && is_region_file(file);
        law_region_file_is_found(files, file);
    }
}

/// Each walked directory with region files is found, at any depth: the directories that
/// are found are those of the walk that have region files, in the order of the walk, each
/// with its place below the input and all of its region files. The walk fails only where a
/// directory outside the output cannot be listed, or one with region files does not stand
/// below the input.
pub proof fn law_every_region_directory_is_found(
    input: PathView,
    walked: Seq<WalkedDirectory>,
    output: Option<Seq<Part>>,
    current: PathView,
)
    ensures
        match discovery::region_dirs(input, walked, output, current) {
            Ok(dirs) => {
                let kept = walked.filter(
                    |directory: WalkedDirectory|
                        has_region_files(directory, input, output, current),
                );
                &&& dirs.len() == kept.len()
                &&& forall|i: int|
                    0 <= i < dirs.len() ==> {
                        &&& (#[trigger] kept[i]).path@.parts == input.parts + dirs[i].relative
                        &&& dirs[i].files == discovery::supported_files(listing_of(kept[i]))
                    }
            },
            Err(_) => exists|k: int|
                0 <= k < walked.len() && {
                    &&& !stands_in_output((#[trigger] walked[k]).path@, input, output, current)
                    &&& walked[k].listing is Err || (has_region_files(
                        walked[k],
                        input,
                        output,
                        current,
                    ) && forall|rest: Seq<Part>|
                        walked[k].path@.parts != #[trigger] (input.parts + rest))
                },
        },
    decreases walked.len(),
{
    reveal(Seq::filter);
    let pred = |directory: WalkedDirectory| has_region_files(directory, input, output, current);
    let kept = walked.filter(pred);
    if walked.len() > 0 {
        let before = walked.drop_last();
        let last = walked.last();
        let parts = last.path@.parts;
        law_every_region_directory_is_found(input, before, output, current);
        law_only_the_output_is_left_out(last.path@, input, output, current);
        lemma_some_found(listing_of(last));
        let early = discovery::region_dirs(input, before, output, current);
        let all = discovery::region_dirs(input, walked, output, current);
        if early is Err {
            let k = choose|k: int|
                0 <= k < before.len() && {
                    &&& !stands_in_output((#[trigger] before[k]).path@, input, output, current)
                    &&& before[k].listing is Err || (has_region_files(
                        before[k],
                        input,
                        output,
                        current,
                    ) && forall|rest: Seq<Part>|
                        before[k].path@.parts != #[trigger] (input.parts + rest))
                };
            assert(walked[k] == before[k]);
        } else if let Ok(dirs) = all {
            let early_kept = before.filter(pred);
            assert(kept == if pred(last) {
                early_kept.push(last)
            } else {
                early_kept
            });
            if pred(last) {
                assert(parts =~= input.parts + parts.skip(input.parts.len() as int));
            }
            assert forall|i: int| 0 <= i < dirs.len() implies {
                &&& (#[trigger] kept[i]).path@.parts == input.parts + dirs[i].relative
                &&& dirs[i].files == discovery::supported_files(listing_of(kept[i]))
            } by {
                if i < early->Ok_0.len() {
                    assert(kept[i] == early_kept[i]);
                    assert(dirs[i] == early->Ok_0[i]);
                }
            }
        } else {
            assert(walked[walked.len() - 1] == last);
            if last.listing is Ok {
                assert forall|rest: Seq<Part>| parts != #[trigger] (input.parts + rest) by {
                    if parts == input.parts + rest {
                        assert(input.parts =~= parts.subrange(0, input.parts.len() as int));
                    }
                }
            }
        }
    }
}

/// A walked directory with region files is among the directories that are found, with its
/// place below the input and its region files.
pub proof fn law_region_directory_is_found(
    input: PathView,
    walked: Seq<WalkedDirectory>,
    output: Option<Seq<Part>>,
    current: PathView,
    k: int,
)
    requires
        discovery::region_dirs(input, walked, output, current) is Ok,
        0 <= k < walked.len(),
        !discovery::skipped(walked[k].path@, input, output, current),
        discovery::supported_files(listing_of(walked[k])).len() > 0,
    ensures
        ({
            let dirs = discovery::region_dirs(input, walked, output, current)->Ok_0;
            exists|i: int|
                0 <= i < dirs.len() && walked[k].path@.parts == input.parts + (
                #[trigger] dirs[i]).relative && dirs[i].files == discovery::supported_files(
                    listing_of(walked[k]),
                )
        }),
{
    let pred = |directory: WalkedDirectory| has_region_files(directory, input, output, current);
    let kept = walked.filter(pred);
    let dirs = discovery::region_dirs(input, walked, output, current)->Ok_0;
    law_every_region_directory_is_found(input, walked, output, current);
    law_only_the_output_is_left_out(walked[k].path@, input, output, current);
    lemma_some_found(listing_of(walked[k]));
    assert(pred(walked[k]));
    walked.lemma_filter_contains(pred, k);
    let i = choose|i: int| 0 <= i < kept.len() && kept[i] == walked[k];
    assert(walked[k].path@.parts == input.parts + dirs[i].relative);
}

/// Whether `file` is a region file of an input of that kind, in the directory `relative`
/// below the input: the input itself, a file that the input lists, or, where it lists
/// none, a file that a directory below it lists.
pub open spec fn found_at(
    input: PathView,
    scan: InputScan,
    output: Option<Seq<Part>>,
    current: PathView,
    kind: InputKind,
    file: FoundView,
    relative: Seq<Part>,
) -> bool {
    &&& is_region_file(file)
    &&& match scan {
        InputScan::File(size) => {
            &&& kind == InputKind::RegionFile
            &&& file.path == input
            &&& file.size == size
            &&& relative.len() == 0
        },
        InputScan::Directory(listing, walked) => {
            &&& listing matches Ok(direct)
            &&& if exists|other: FoundView| #[trigger]
                sort::views(direct@).contains(other) && is_region_file(other) {
                &&& kind == InputKind::RegionDirectory
                &&& sort::views(direct@).contains(file)
                &&& relative.len() == 0
            } else {
                &&& kind == InputKind::WorldDirectory
                &&& exists|k: int|
                    0 <= k < walked@.len() && {
                        &&& !stands_in_output((#[trigger] walked@[k]).path@, input, output, current)
                        &&& listing_of(walked@[k]).contains(file)
                        &&& walked@[k].path@.parts == input.parts + relative
                    }
            }
        },
        InputScan::Missing => false,
    }
}

/// The name of the directory that a file stands in is `name`.
pub open spec fn in_directory_named(path: PathView, name: Seq<char>) -> bool {
    path.parts.len() >= 2 && path.parts[path.parts.len() - 2] == Part::Normal(name)
}

/// What is known of a region file: its format by what is asked for, else by its extension,
/// and its group by the name of its directory.
pub open spec fn source_at(
    input_index: usize,
    kind: InputKind,
    file: FoundView,
    relative: Seq<Part>,
    forced: Option<SourceFormatHint>,
) -> SourceView {
    SourceView {
        input_index,
        input_kind: kind,
        source_file: file.path,
        source_format: match forced {
            Some(hint) => hint,
            None => if file.path.extension() == Some("mca"@) {
                SourceFormatHint::Mca
            } else if file.path.extension() == Some("linear"@) {
                SourceFormatHint::Linear
            } else {
                SourceFormatHint::BlinearFamily
            },
        },
        relative_region_dir: relative,
        file_group: if in_directory_named(file.path, "entities"@) {
            RegionFileGroup::Entities
        } else if in_directory_named(file.path, "poi"@) {
            RegionFileGroup::Poi
        } else {
            RegionFileGroup::Regions
        },
        estimated_size_bytes: file.size,
    }
}

proof fn lemma_source_at(
    input_index: usize,
    kind: InputKind,
    file: FoundView,
    relative: Seq<Part>,
    forced: Option<SourceFormatHint>,
)
    requires
        is_region_file(file),
    ensures
        discovery::source_of(input_index, kind, file, relative, forced) == source_at(
            input_index,
            kind,
            file,
            relative,
            forced,
        ),
{
    let parts = file.path.parts;
    if parts.len() >= 2 {
        assert(parts.drop_last().last() == parts[parts.len() - 2]);
    }
    if parts.len() > 0 {
        let parent = PathView { separator: file.path.separator, parts: parts.drop_last() };
        assert(file.path.parent_name() == parent.file_name());
    }
}

/// The region files of a world are those of its directories.
proof fn lemma_world_sources_contain(
    input_index: usize,
    dirs: Seq<RegionDirView>,
    forced: Option<SourceFormatHint>,
    d: int,
    j: int,
)
    requires
        0 <= d < dirs.len(),
        0 <= j < dirs[d].files.len(),
    ensures
        discovery::world_sources(input_index, dirs, forced).contains(
            discovery::source_of(
                input_index,
                InputKind::WorldDirectory,
                dirs[d].files[j],
                dirs[d].relative,
                forced,
            ),
        ),
    decreases dirs.len(),
{
    let before = discovery::world_sources(input_index, dirs.drop_last(), forced);
    let last = discovery::sources_of(
        input_index,
        InputKind::WorldDirectory,
        dirs.last().files,
        dirs.last().relative,
        forced,
    );
    let all = discovery::world_sources(input_index, dirs, forced);
    let source = discovery::source_of(
        input_index,
        InputKind::WorldDirectory,
        dirs[d].files[j],
        dirs[d].relative,
        forced,
    );
    if d < dirs.len() - 1 {
        lemma_world_sources_contain(input_index, dirs.drop_last(), forced, d, j);
        let m = choose|m: int| 0 <= m < before.len() && before[m] == source;
        assert(all[m] == source);
    } else {
        assert(all[before.len() + j] == last[j]);
    }
}

/// Each region file of a world is one of some directory of it.
proof fn lemma_world_sources_only(
    input_index: usize,
    dirs: Seq<RegionDirView>,
    forced: Option<SourceFormatHint>,
    m: int,
) -> (place: (int, int))
    requires
        0 <= m < discovery::world_sources(input_index, dirs, forced).len(),
    ensures
        0 <= place.0 < dirs.len(),
        0 <= place.1 < dirs[place.0].files.len(),
        discovery::world_sources(input_index, dirs, forced)[m] == discovery::source_of(
            input_index,
            InputKind::WorldDirectory,
            dirs[place.0].files[place.1],
            dirs[place.0].relative,
            forced,
        ),
    decreases dirs.len(),
{
    let before = discovery::world_sources(input_index, dirs.drop_last(), forced);
    if m < before.len() {
        let place = lemma_world_sources_only(input_index, dirs.drop_last(), forced, m);
        assert(dirs.drop_last()[place.0] == dirs[place.0]);
        place
    } else {
        (dirs.len() - 1, m - before.len())
    }
}

/// A region file of an input is found, with what is known of it.
proof fn lemma_file_is_found(
    input_index: usize,
    input: PathView,
    scan: InputScan,
    forced: Option<SourceFormatHint>,
    output: Option<Seq<Part>>,
    current: PathView,
    kind: InputKind,
    file: FoundView,
    relative: Seq<Part>,
)
    requires
        discovery::input_finding(input_index, input, scan, forced, output, current) is Ok,
        found_at(input, scan, output, current, kind, file, relative),
    ensures
        ({
            let found = discovery::input_finding(
                input_index,
                input,
                scan,
                forced,
                output,
                current,
            )->Ok_0;
            &&& found.kind == kind
            &&& found.sources.contains(source_at(input_index, kind, file, relative, forced))
        }),
{
    let found = discovery::input_finding(input_index, input, scan, forced, output, current)->Ok_0;
    lemma_source_at(input_index, kind, file, relative, forced);
    match scan {
        InputScan::File(size) => {
            assert(file == FoundView { path: input, is_file: true, size });
            assert(relative =~= seq![]);
            assert(found.sources[0] == source_at(input_index, kind, file, relative, forced));
        },
        InputScan::Directory(listing, walked) => {
            let direct = sort::views(listing->Ok_0@);
            lemma_some_found(direct);
            if discovery::supported_files(direct).len() > 0 {
                law_region_file_is_found(direct, file);
                let files = discovery::supported_files(direct);
                let j = choose|j: int| 0 <= j < files.len() && files[j] == file;
                assert(relative =~= seq![]);
                assert(found.sources[j] == source_at(input_index, kind, file, relative, forced));
            } else {
                let k = choose|k: int|
                    0 <= k < walked@.len() && {
                        &&& !stands_in_output((#[trigger] walked@[k]).path@, input, output, current)
                        &&& listing_of(walked@[k]).contains(file)
                        &&& walked@[k].path@.parts == input.parts + relative
                    };
                law_only_the_output_is_left_out(walked@[k].path@, input, output, current);
                lemma_some_found(listing_of(walked@[k]));
                law_region_directory_is_found(input, walked@, output, current, k);
                let dirs = discovery::region_dirs(input, walked@, output, current)->Ok_0;
                let d = choose|d: int|
                    0 <= d < dirs.len() && walked@[k].path@.parts == input.parts + (
                    #[trigger] dirs[d]).relative && dirs[d].files == discovery::supported_files(
                        listing_of(walked@[k]),
                    );
                assert(dirs[d].relative =~= relative) by {
                    let whole = walked@[k].path@.parts;
                    assert(whole.skip(input.parts.len() as int) =~= dirs[d].relative);
                    assert(whole.skip(input.parts.len() as int) =~= relative);
                }
                law_region_file_is_found(listing_of(walked@[k]), file);
                let files = dirs[d].files;
                let j = choose|j: int| 0 <= j < files.len() && files[j] == file;
                lemma_world_sources_contain(input_index, dirs, forced, d, j);
            }
        },
        InputScan::Missing => {},
    }
}

/// Whether a source is a region file of its input.
pub open spec fn is_source_of(
    source: SourceView,
    input_index: usize,
    input: PathView,
    scan: InputScan,
    forced: Option<SourceFormatHint>,
    output: Option<Seq<Part>>,
    current: PathView,
) -> bool {
    exists|file: FoundView|
        found_at(
            input,
            scan,
            output,
            current,
            source.input_kind,
            file,
            source.relative_region_dir,
        ) && source == #[trigger] source_at(
            input_index,
            source.input_kind,
            file,
            source.relative_region_dir,
            forced,
        )
}

/// Nothing else is found at an input.
proof fn lemma_found_is_a_file(
    input_index: usize,
    input: PathView,
    scan: InputScan,
    forced: Option<SourceFormatHint>,
    output: Option<Seq<Part>>,
    current: PathView,
    m: int,
)
    requires
        discovery::input_finding(input_index, input, scan, forced, output, current) is Ok,
        0 <= m < discovery::input_finding(
            input_index,
            input,
            scan,
            forced,
            output,
            current,
        )->Ok_0.sources.len(),
    ensures
        is_source_of(
            discovery::input_finding(
                input_index,
                input,
                scan,
                forced,
                output,
                current,
            )->Ok_0.sources[m],
            input_index,
            input,
            scan,
            forced,
            output,
            current,
        ),
{
    let found = discovery::input_finding(input_index, input, scan, forced, output, current)->Ok_0;
    let source = found.sources[m];
    let nowhere = Seq::<Part>::empty();
    match scan {
        InputScan::File(size) => {
            let file = FoundView { path: input, is_file: true, size };
            lemma_source_at(input_index, InputKind::RegionFile, file, nowhere, forced);
            assert(found_at(input, scan, output, current, found.kind, file, nowhere));
        },
        InputScan::Directory(listing, walked) => {
            let direct = sort::views(listing->Ok_0@);
            lemma_some_found(direct);
            if discovery::supported_files(direct).len() > 0 {
                let file = discovery::supported_files(direct)[m];
                assert(discovery::supported_files(direct).contains(file));
                law_region_file_is_found(direct, file);
                lemma_source_at(input_index, found.kind, file, nowhere, forced);
                assert(found_at(input, scan, output, current, found.kind, file, nowhere));
            } else {
                let dirs = discovery::region_dirs(input, walked@, output, current)->Ok_0;
                let (d, j) = lemma_world_sources_only(input_index, dirs, forced, m);
                let file = dirs[d].files[j];
                let pred = |directory: WalkedDirectory|
                    has_region_files(directory, input, output, current);
                let kept = walked@.filter(pred);
                law_every_region_directory_is_found(input, walked@, output, current);
                assert(kept[d].path@.parts == input.parts + dirs[d].relative);
                walked@.lemma_filter_pred(pred, d);
                walked@.lemma_filter_contains_rev(pred, kept[d]);
                let k = choose|k: int| 0 <= k < walked@.len() && walked@[k] == kept[d];
                assert(dirs[d].files.contains(file));
                law_region_file_is_found(listing_of(kept[d]), file);
                lemma_source_at(input_index, found.kind, file, dirs[d].relative, forced);
                assert(!stands_in_output(walked@[k].path@, input, output, current));
                assert(found_at(
                    input,
                    scan,
                    output,
                    current,
                    found.kind,
                    file,
                    dirs[d].relative,
                ));
            }
        },
        InputScan::Missing => {},
    }
}

/// The parts of the output root, made absolute, where there is an output.
pub open spec fn output_place(output: Option<&SavePath>, current: PathView) -> Option<Seq<Part>> {
    match output {
        None => None,
        Some(root) => if root@.is_absolute() {
            Some(path::normalized(root@.parts))
        } else {
            Some(path::normalized(current.parts + root@.parts))
        },
    }
}

/// Whether what was found at an input is summed up by `view` and is among `sources`.
spec fn is_part(
    finding: Result<InputFinding, DiscoveryFault>,
    input: PathView,
    view: InputView,
    sources: Seq<SourceView>,
) -> bool {
    &&& finding matches Ok(part)
    &&& part.kind == view.input_kind
    &&& view.input_path == input
    &&& view.discovered_jobs == part.sources.len()
    &&& forall|source: SourceView|
        part.sources.contains(source) ==> #[trigger] sources.contains(source)
}

/// What was found at the first inputs is found among all that was found.
proof fn lemma_findings_parts(
    inputs: Seq<SavePath>,
    scans: Seq<InputScan>,
    forced: Option<SourceFormatHint>,
    output: Option<Seq<Part>>,
    current: PathView,
    n: nat,
)
    requires
        discovery::findings(inputs, scans, forced, output, current, n) is Ok,
        n <= inputs.len() <= usize::MAX,
    ensures
        ({
            let found = discovery::findings(inputs, scans, forced, output, current, n)->Ok_0;
            &&& found.inputs.len() == n
            &&& forall|i: int|
                #![trigger found.inputs[i]]
                0 <= i < n ==> is_part(
                    discovery::input_finding(
                        i as usize,
                        inputs[i]@,
                        scans[i],
                        forced,
                        output,
                        current,
                    ),
                    inputs[i]@,
                    found.inputs[i],
                    found.sources,
                )
            &&& forall|m: int|
                0 <= m < found.sources.len() ==> (#[trigger] found.sources[m]).input_index < n
                    && is_source_of(
                    found.sources[m],
                    found.sources[m].input_index,
                    inputs[found.sources[m].input_index as int]@,
                    scans[found.sources[m].input_index as int],
                    forced,
                    output,
                    current,
                )
        }),
    decreases n,
{
    if n > 0 {
        let last = n - 1;
        lemma_findings_parts(inputs, scans, forced, output, current, last as nat);
        let before = discovery::findings(inputs, scans, forced, output, current, last as nat)->Ok_0;
        let part = discovery::input_finding(
            last as usize,
            inputs[last]@,
            scans[last],
            forced,
            output,
            current,
        )->Ok_0;
        let found = discovery::findings(inputs, scans, forced, output, current, n)->Ok_0;
        assert forall|source: SourceView|
            before.sources.contains(source) || part.sources.contains(
                source,
            ) implies #[trigger] found.sources.contains(source) by {
            if before.sources.contains(source) {
                let m = choose|m: int| 0 <= m < before.sources.len() && before.sources[m] == source;
                assert(found.sources[m] == source);
            } else {
                let m = choose|m: int| 0 <= m < part.sources.len() && part.sources[m] == source;
                assert(found.sources[before.sources.len() + m] == source);
            }
        }
        assert forall|i: int|
            #![trigger found.inputs[i]]
            0 <= i < n implies is_part(
            discovery::input_finding(i as usize, inputs[i]@, scans[i], forced, output, current),
            inputs[i]@,
            found.inputs[i],
            found.sources,
        ) by {
            if i < last {
                assert(found.inputs[i] == before.inputs[i]);
                let early = discovery::input_finding(
                    i as usize,
                    inputs[i]@,
                    scans[i],
                    forced,
                    output,
                    current,
                )->Ok_0;
                assert forall|source: SourceView|
                    early.sources.contains(source) implies #[trigger] found.sources.contains(
                    source,
                ) by {
                    assert(before.sources.contains(source));
                }
            }
        }
        assert forall|m: int| 0 <= m < found.sources.len() implies (
        #[trigger] found.sources[m]).input_index < n && is_source_of(
            found.sources[m],
            found.sources[m].input_index,
            inputs[found.sources[m].input_index as int]@,
            scans[found.sources[m].input_index as int],
            forced,
            output,
            current,
        ) by {
            if m < before.sources.len() {
                assert(found.sources[m] == before.sources[m]);
            } else {
                let j = m - before.sources.len();
                assert(found.sources[m] == part.sources[j]);
                lemma_found_is_a_file(
                    last as usize,
                    inputs[last]@,
                    scans[last],
                    forced,
                    output,
                    current,
                    j,
                );
            }
        }
    }
}

/// Each region file of each input is found, at any depth, and all that is found is a
/// region file of an input.
pub proof fn law_every_region_file_is_a_source(
    inputs: Seq<SavePath>,
    scans: Seq<InputScan>,
    forced: Option<SourceFormatHint>,
    output: Option<&SavePath>,
    current: PathView,
)
    requires
        discovery::discovered_sources(inputs, scans, forced, output, current) is Ok,
        inputs.len() <= usize::MAX,
    ensures
        ({
            let found = discovery::discovered_sources(
                inputs,
                scans,
                forced,
                output,
                current,
            )->Ok_0;
            let place = output_place(output, current);
            &&& found.inputs.len() == inputs.len()
            &&& forall|i: int, kind: InputKind, file: FoundView, relative: Seq<Part>|
                0 <= i < inputs.len() && #[trigger] found_at(
                    inputs[i]@,
                    scans[i],
                    place,
                    current,
                    kind,
                    file,
                    relative,
                ) ==> found.sources.contains(
                    source_at(i as usize, kind, file, relative, forced),
                ) && found.inputs[i].input_kind == kind && found.inputs[i].input_path == inputs[i]@
            &&& forall|m: int|
                0 <= m < found.sources.len() ==> (#[trigger] found.sources[m]).input_index
                    < inputs.len() && is_source_of(
                    found.sources[m],
                    found.sources[m].input_index,
                    inputs[found.sources[m].input_index as int]@,
                    scans[found.sources[m].input_index as int],
                    forced,
                    place,
                    current,
                )
        }),
{
    let place = output_place(output, current);
    assert(place == discovery::output_parts(output, current));
    lemma_findings_parts(inputs, scans, forced, place, current, inputs.len());
    let found = discovery::discovered_sources(inputs, scans, forced, output, current)->Ok_0;
    assert forall|i: int, kind: InputKind, file: FoundView, relative: Seq<Part>|
        0 <= i < inputs.len() && #[trigger] found_at(
            inputs[i]@,
            scans[i],
            place,
            current,
            kind,
            file,
            relative,
        ) implies found.sources.contains(source_at(i as usize, kind, file, relative, forced))
        && found.inputs[i].input_kind == kind && found.inputs[i].input_path == inputs[i]@ by {
        let view = found.inputs[i];
        lemma_file_is_found(
            i as usize,
            inputs[i]@,
            scans[i],
            forced,
            place,
            current,
            kind,
            file,
            relative,
        );
    }
}

/// Whether an input can be searched and holds a region file.
pub open spec fn is_searchable(
    input: PathView,
    scan: InputScan,
    output: Option<Seq<Part>>,
    current: PathView,
) -> bool {
    match scan {
        InputScan::Missing => false,
        InputScan::File(size) => is_region_file(FoundView { path: input, is_file: true, size }),
        InputScan::Directory(listing, walked) => {
            &&& listing matches Ok(direct)
            &&& {
                ||| exists|file: FoundView| #[trigger]
                    sort::views(direct@).contains(file) && is_region_file(file)
                ||| {
                    &&& exists|k: int|
                        0 <= k < walked@.len() && has_region_files(
                            #[trigger] walked@[k],
                            input,
                            output,
                            current,
                        )
                    &&& forall|k: int|
                        0 <= k < walked@.len() && !stands_in_output(
                            (#[trigger] walked@[k]).path@,
                            input,
                            output,
                            current,
                        ) ==> walked@[k].listing is Ok
                    &&& forall|k: int|
                        0 <= k < walked@.len() && has_region_files(
                            #[trigger] walked@[k],
                            input,
                            output,
                            current,
                        ) ==> input.parts.is_prefix_of(walked@[k].path@.parts)
                }
            }
        },
    }
}

/// A directory that cannot be listed and is not left out makes a walk fail.
proof fn lemma_unlisted_directory(
    input: PathView,
    walked: Seq<WalkedDirectory>,
    output: Option<Seq<Part>>,
    current: PathView,
    k: int,
)
    requires
        0 <= k < walked.len(),
        !stands_in_output(walked[k].path@, input, output, current),
        walked[k].listing is Err,
    ensures
        discovery::region_dirs(input, walked, output, current) is Err,
    decreases walked.len(),
{
    if k < walked.len() - 1 {
        lemma_unlisted_directory(input, walked.drop_last(), output, current, k);
    } else {
        law_only_the_output_is_left_out(walked[k].path@, input, output, current);
    }
}

/// An input is searched with success if and only if it can be searched and holds a region
/// file, and then something is found at it. What stands in the way of it is told.
pub proof fn law_input_is_searched_or_refused(
    input_index: usize,
    input: PathView,
    scan: InputScan,
    forced: Option<SourceFormatHint>,
    output: Option<Seq<Part>>,
    current: PathView,
)
    ensures
        match discovery::input_finding(input_index, input, scan, forced, output, current) {
            Ok(found) => is_searchable(input, scan, output, current) && found.sources.len() > 0,
            Err(fault) => !is_searchable(input, scan, output, current) && match scan {
                InputScan::Missing => fault == DiscoveryFault::NotFound(input),
                InputScan::File(_) => fault == DiscoveryFault::NotRegionFile(input),
                InputScan::Directory(listing, walked) => match listing {
                    Err(text) => fault == DiscoveryFault::Listing(text@),
                    Ok(_) => {
                        ||| fault == DiscoveryFault::NoRegionFiles(input)
                        ||| fault == DiscoveryFault::NotBelow(input)
                        ||| exists|k: int|
                            0 <= k < walked@.len() && ((#[trigger] walked@[k]).listing matches Err(
                                text,
                            ) && fault == DiscoveryFault::Listing(text@))
                    },
                },
            },
        },
{
    let finding = discovery::input_finding(input_index, input, scan, forced, output, current);
    if let InputScan::Directory(listing, walked) = scan {
        if let Ok(direct) = listing {
            lemma_some_found(sort::views(direct@));
            if discovery::supported_files(sort::views(direct@)).len() == 0 {
                let pred = |directory: WalkedDirectory|
                    has_region_files(directory, input, output, current);
                let kept = walked@.filter(pred);
                law_every_region_directory_is_found(input, walked@, output, current);
                match discovery::region_dirs(input, walked@, output, current) {
                    Err(_) => {
                        let k = choose|k: int|
                            0 <= k < walked@.len() && {
                                &&& !stands_in_output(
                                    (#[trigger] walked@[k]).path@,
                                    input,
                                    output,
                                    current,
                                )
                                &&& walked@[k].listing is Err || (has_region_files(
                                    walked@[k],
                                    input,
                                    output,
                                    current,
                                ) && forall|rest: Seq<Part>|
                                    walked@[k].path@.parts != #[trigger] (input.parts + rest))
                            };
                        let parts = walked@[k].path@.parts;
                        if input.parts.is_prefix_of(parts) {
                            assert(parts =~= input.parts + parts.skip(input.parts.len() as int));
                        }
                        lemma_walk_fault(input, walked@, output, current);
                    },
                    Ok(dirs) => {
                        assert forall|k: int|
                            0 <= k < walked@.len() && has_region_files(
                                #[trigger] walked@[k],
                                input,
                                output,
                                current,
                            ) implies dirs.len() > 0 && input.parts.is_prefix_of(
                            walked@[k].path@.parts,
                        ) by {
                            assert(pred(walked@[k]));
                            walked@.lemma_filter_contains(pred, k);
                            let i = choose|i: int| 0 <= i < kept.len() && kept[i] == walked@[k];
                            let parts = kept[i].path@.parts;
                            assert(parts == input.parts + dirs[i].relative);
                            assert(input.parts =~= parts.subrange(0, input.parts.len() as int));
                        }
                        assert forall|k: int|
                            0 <= k < walked@.len() && !stands_in_output(
                                (#[trigger] walked@[k]).path@,
                                input,
                                output,
                                current,
                            ) implies walked@[k].listing is Ok by {
                            if walked@[k].listing is Err {
                                lemma_unlisted_directory(input, walked@, output, current, k);
                            }
                        }
                        if dirs.len() > 0 {
                            walked@.lemma_filter_pred(pred, 0);
                            walked@.lemma_filter_contains_rev(pred, kept[0]);
                            let k = choose|k: int|
                                0 <= k < walked@.len() && walked@[k] == kept[0];
                            assert(has_region_files(walked@[k], input, output, current));
                            lemma_some_found(listing_of(kept[0]));
                            assert(kept[0].path@.parts == input.parts + dirs[0].relative);
                            lemma_world_sources_contain(input_index, dirs, forced, 0, 0);
                        }
                    },
                }
            }
        }
    }
}

/// Why a walk fails.
proof fn lemma_walk_fault(
    input: PathView,
    walked: Seq<WalkedDirectory>,
    output: Option<Seq<Part>>,
    current: PathView,
)
    ensures
        discovery::region_dirs(input, walked, output, current) matches Err(fault) ==> {
            ||| fault == DiscoveryFault::NotBelow(input)
            ||| exists|k: int|
                0 <= k < walked.len() && ((#[trigger] walked[k]).listing matches Err(text)
                    && fault == DiscoveryFault::Listing(text@))
        },
    decreases walked.len(),
{
    if walked.len() > 0 {
        let before = walked.drop_last();
        lemma_walk_fault(input, before, output, current);
        if let Err(fault) = discovery::region_dirs(input, walked, output, current) {
            if discovery::region_dirs(input, before, output, current) is Err {
                if fault != DiscoveryFault::NotBelow(input) {
                    let k = choose|k: int|
                        0 <= k < before.len() && ((#[trigger] before[k]).listing matches Err(text)
                            && fault == DiscoveryFault::Listing(text@));
                    assert(walked[k] == before[k]);
                }
            } else {
                assert(walked[walked.len() - 1] == walked.last());
            }
        }
    }
}

/// A search succeeds if and only if there is an input and each input can be searched and
/// holds a region file.
pub proof fn law_search_needs_every_input(
    inputs: Seq<SavePath>,
    scans: Seq<InputScan>,
    forced: Option<SourceFormatHint>,
    output: Option<&SavePath>,
    current: PathView,
)
    requires
        inputs.len() <= usize::MAX,
    ensures
        discovery::discovered_sources(inputs, scans, forced, output, current) is Ok <==> {
            &&& inputs.len() > 0
            &&& forall|i: int|
                0 <= i < inputs.len() ==> is_searchable(
                    (#[trigger] inputs[i])@,
                    scans[i],
                    output_place(output, current),
                    current,
                )
        },
{
    let place = output_place(output, current);
    assert(place == discovery::output_parts(output, current));
    lemma_findings_need(inputs, scans, forced, place, current, inputs.len());
}

proof fn lemma_findings_need(
    inputs: Seq<SavePath>,
    scans: Seq<InputScan>,
    forced: Option<SourceFormatHint>,
    output: Option<Seq<Part>>,
    current: PathView,
    n: nat,
)
    requires
        n <= inputs.len() <= usize::MAX,
    ensures
        discovery::findings(inputs, scans, forced, output, current, n) is Ok <==> forall|i: int|
            0 <= i < n ==> is_searchable((#[trigger] inputs[i])@, scans[i], output, current),
        discovery::findings(inputs, scans, forced, output, current, n) matches Ok(found) ==> (
        found.sources.len() > 0 <==> n > 0),
    decreases n,
{
    if n > 0 {
        let last = n - 1;
        lemma_findings_need(inputs, scans, forced, output, current, last as nat);
        law_input_is_searched_or_refused(
            last as usize,
            inputs[last]@,
            scans[last],
            forced,
            output,
            current,
        );
    }
}

/// The directory below the output that a region file is converted to: none of its own for
/// a file that is an input and for a region directory that is the only input, else one
/// named after the input, and below it the place of the file in its world.
pub open spec fn destination_place(
    source: SourceView,
    inputs: Seq<SavePath>,
    current: PathView,
) -> Seq<Part> {
    let input = inputs[source.input_index as int]@;
    let mount = Part::Normal(discovery::mount_text(input, input, current));
    match source.input_kind {
        InputKind::RegionFile => seq![],
        InputKind::RegionDirectory => if inputs.len() == 1 {
            seq![]
        } else {
            seq![mount]
        },
        InputKind::WorldDirectory => seq![mount] + source.relative_region_dir,
    }
}

/// The job that converts `source`: to a file in its place below the output that is named
/// after the same region, with the extension of the target.
pub open spec fn job_at(
    source: SourceView,
    inputs: Seq<SavePath>,
    output_root: PathView,
    target: RegionFormat,
    current: PathView,
) -> JobView {
    let (region_x, region_z) = formats::path_coords(source.source_file)->Ok_0;
    JobView {
        input_index: source.input_index,
        file_group: source.file_group,
        source_file: source.source_file,
        source_format: source.source_format,
        destination_file: PathView {
            separator: output_root.separator,
            parts: output_root.parts + destination_place(source, inputs, current) + seq![
                Part::Normal(formats::region_file_name_text(target, region_x, region_z)),
            ],
        },
        estimated_size_bytes: source.estimated_size_bytes,
    }
}

/// The jobs of some sources, each of which has a name that tells its region.
proof fn lemma_jobs_at(
    sources: Seq<SourceView>,
    inputs: Seq<SavePath>,
    found: Seq<InputView>,
    output_root: PathView,
    target: RegionFormat,
    current: PathView,
)
    requires
        forall|k: int|
            0 <= k < sources.len() ==> {
                let source = #[trigger] sources[k];
                &&& formats::path_coords(source.source_file) is Ok
                &&& found[source.input_index as int].input_path
                    == inputs[source.input_index as int]@
            },
    ensures
        discovery::jobs_of(sources, inputs, found, output_root, target, current) == Ok::<
            Seq<JobView>,
            DiscoveryFault,
        >(
            Seq::new(
                sources.len(),
                |k: int| job_at(sources[k], inputs, output_root, target, current),
            ),
        ),
    decreases sources.len(),
{
    let all = Seq::new(
        sources.len(),
        |k: int| job_at(sources[k], inputs, output_root, target, current),
    );
    if sources.len() > 0 {
        let before = sources.drop_last();
        let last = sources.last();
        assert forall|k: int| 0 <= k < before.len() implies {
            let source = #[trigger] before[k];
            &&& formats::path_coords(source.source_file) is Ok
            &&& found[source.input_index as int].input_path == inputs[source.input_index as int]@
        } by {
            assert(before[k] == sources[k]);
        }
        lemma_jobs_at(before, inputs, found, output_root, target, current);
        assert(sources[sources.len() - 1] == last);
        let job = discovery::job_of(last, inputs, found, output_root, target, current)->Ok_0;
        let expected = job_at(last, inputs, output_root, target, current);
        assert(job.destination_file.parts =~= expected.destination_file.parts);
        assert(job == expected);
        let early = Seq::new(
            before.len(),
            |k: int| job_at(before[k], inputs, output_root, target, current),
        );
        assert(early.push(job) =~= all);
    } else {
        assert(all =~= seq![]);
    }
}

/// A file is not converted to itself, and no two are converted to the same file.
pub open spec fn jobs_fit(jobs: Seq<JobView>) -> bool {
    &&& forall|k: int|
        0 <= k < jobs.len() ==> (#[trigger] jobs[k]).source_file.parts
            != jobs[k].destination_file.parts
    &&& forall|j: int, k: int|
        0 <= j < k < jobs.len() ==> (#[trigger] jobs[j]).destination_file.parts != (
        #[trigger] jobs[k]).destination_file.parts
}

proof fn lemma_jobs_fit(jobs: Seq<JobView>, n: nat)
    requires
        n <= jobs.len(),
    ensures
        discovery::jobs_fault(jobs, n) is None <==> jobs_fit(jobs.take(n as int)),
    decreases n,
{
    if n > 0 {
        let last = n - 1;
        let part = jobs.take(n as int);
        let before = jobs.take(last);
        lemma_jobs_fit(jobs, last as nat);
        assert forall|k: int| 0 <= k < last implies before[k] == #[trigger] part[k] by {}
        assert forall|k: int| 0 <= k < last implies #[trigger] before[k] == part[k] by {}
        assert(part[last] == jobs[last]);
        if discovery::jobs_fault(jobs, n) is None {
            assert forall|j: int, k: int| 0 <= j < k < part.len() implies (
            #[trigger] part[j]).destination_file.parts != (
            #[trigger] part[k]).destination_file.parts by {
                if k < last {
                    assert(before[j] == part[j] && before[k] == part[k]);
                } else {
                    assert(jobs[j] == part[j]);
                }
            }
        }
        if jobs_fit(part) {
            assert forall|j: int| 0 <= j < last implies (
            #[trigger] jobs[j]).destination_file.parts != jobs[last].destination_file.parts by {
                assert(part[j] == jobs[j]);
            }
        }
    }
}

/// Each region file that is found becomes one job, in its place below the output, and
/// there are no other jobs. The jobs are refused if and only if one would convert a file to
/// itself, or two would convert to the same file.
pub proof fn law_every_source_has_its_job(
    inputs: Seq<SavePath>,
    scans: Seq<InputScan>,
    output_root: &SavePath,
    forced: Option<SourceFormatHint>,
    target: RegionFormat,
    current: PathView,
)
    requires
        inputs.len() <= usize::MAX,
    ensures
        match discovery::discovered_sources(inputs, scans, forced, Some(output_root), current) {
            Err(fault) => discovery::discovered_jobs(
                inputs,
                scans,
                output_root,
                forced,
                target,
                current,
            ) == Err::<discovery::JobFindings, DiscoveryFault>(fault),
            Ok(found) => {
                let planned = Seq::new(
                    found.sources.len(),
                    |k: int| job_at(found.sources[k], inputs, output_root@, target, current),
                );
                match discovery::discovered_jobs(
                    inputs,
                    scans,
                    output_root,
                    forced,
                    target,
                    current,
                ) {
                    Ok(all) => {
                        &&& jobs_fit(planned)
                        &&& all.jobs.to_multiset() == planned.to_multiset()
                        &&& all.jobs.len() == planned.len()
                        &&& sort::in_order::<Job>(all.jobs)
                        &&& all.inputs == found.inputs
                        &&& all.directories == found.directories
                    },
                    Err(_) => !jobs_fit(planned),
                }
            },
        },
{
    if let Ok(found) = discovery::discovered_sources(
        inputs,
        scans,
        forced,
        Some(output_root),
        current,
    ) {
        let place = output_place(Some(output_root), current);
        assert(place == discovery::output_parts(Some(output_root), current));
        lemma_findings_parts(inputs, scans, forced, place, current, inputs.len());
        assert forall|k: int| 0 <= k < found.sources.len() implies {
            let source = #[trigger] found.sources[k];
            &&& formats::path_coords(source.source_file) is Ok
            &&& found.inputs[source.input_index as int].input_path
                == inputs[source.input_index as int]@
        } by {
            let source = found.sources[k];
            let view = found.inputs[source.input_index as int];
            assert(is_source_of(
                source,
                source.input_index,
                inputs[source.input_index as int]@,
                scans[source.input_index as int],
                forced,
                place,
                current,
            ));
        }
        lemma_jobs_at(found.sources, inputs, found.inputs, output_root@, target, current);
        let planned = Seq::new(
            found.sources.len(),
            |k: int| job_at(found.sources[k], inputs, output_root@, target, current),
        );
        assert(planned.take(planned.len() as int) =~= planned);
        lemma_jobs_fit(planned, planned.len());
        sort::law_sorting::<Job>(planned);
    }
}

/// Each region file of each input is converted by a job of its own, whatever depth it
/// stands at.
pub proof fn law_every_region_file_is_converted(
    inputs: Seq<SavePath>,
    scans: Seq<InputScan>,
    output_root: &SavePath,
    forced: Option<SourceFormatHint>,
    target: RegionFormat,
    current: PathView,
    i: int,
    kind: InputKind,
    file: FoundView,
    relative: Seq<Part>,
)
    requires
        inputs.len() <= usize::MAX,
        discovery::discovered_jobs(inputs, scans, output_root, forced, target, current) is Ok,
        0 <= i < inputs.len(),
        found_at(
            inputs[i]@,
            scans[i],
            output_place(Some(output_root), current),
            current,
            kind,
            file,
            relative,
        ),
    ensures
        discovery::discovered_jobs(
            inputs,
            scans,
            output_root,
            forced,
            target,
            current,
        )->Ok_0.jobs.contains(
            job_at(
                source_at(i as usize, kind, file, relative, forced),
                inputs,
                output_root@,
                target,
                current,
            ),
        ),
{
    broadcast use vstd::seq_lib::group_to_multiset_ensures;

    let found = discovery::discovered_sources(
        inputs,
        scans,
        forced,
        Some(output_root),
        current,
    )->Ok_0;
    let jobs = discovery::discovered_jobs(
        inputs,
        scans,
        output_root,
        forced,
        target,
        current,
    )->Ok_0.jobs;
    let source = source_at(i as usize, kind, file, relative, forced);
    law_every_source_has_its_job(inputs, scans, output_root, forced, target, current);
    law_every_region_file_is_a_source(inputs, scans, forced, Some(output_root), current);
    assert(found.sources.contains(source));
    let k = choose|k: int| 0 <= k < found.sources.len() && found.sources[k] == source;
    let planned = Seq::new(
        found.sources.len(),
        |k: int| job_at(found.sources[k], inputs, output_root@, target, current),
    );
    assert(planned[k] == job_at(source, inputs, output_root@, target, current));
    assert(planned.contains(planned[k]));
    assert(jobs.to_multiset().count(planned[k]) > 0);
}

/// The groups of region files are counted.
pub proof fn law_groups_are_counted(sources: Seq<SourceView>, group: RegionFileGroup)
    ensures
        discovery::group_count(sources, group) == sources.filter(
            |source: SourceView| source.file_group == group,
        ).len(),
    decreases sources.len(),
{
    reveal(Seq::filter);
    if sources.len() > 0 {
        law_groups_are_counted(sources.drop_last(), group);
    }
}

/// An input that is a file has no region directory, one that is a region directory has one,
/// and a world has as many as have region files. Each group of what was found is counted.
pub proof fn law_directories_are_counted(
    input_index: usize,
    input: PathView,
    scan: InputScan,
    forced: Option<SourceFormatHint>,
    output: Option<Seq<Part>>,
    current: PathView,
)
    ensures
        discovery::input_finding(input_index, input, scan, forced, output, current) matches Ok(
            found,
        ) ==> match found.kind {
            InputKind::RegionFile => scan is File && found.directories == 0 && found.sources.len()
                == 1,
            InputKind::RegionDirectory => {
                &&& scan matches InputScan::Directory(Ok(direct), _)
                &&& found.directories == 1
                &&& found.sources.len() == sort::views(direct@).filter(
                    |file: FoundView| is_region_file(file),
                ).len()
            },
            InputKind::WorldDirectory => {
                &&& scan matches InputScan::Directory(_, walked)
                &&& found.directories == walked@.filter(
                    |directory: WalkedDirectory|
                        has_region_files(directory, input, output, current),
                ).len()
            },
        },
{
    if let InputScan::Directory(listing, walked) = scan {
        law_every_region_directory_is_found(input, walked@, output, current);
        if let Ok(direct) = listing {
            law_every_region_file_is_listed(sort::views(direct@));
        }
    }
}

/// The directory that an input is converted to is named after the input, with an underscore
/// for each character that is not a plain one, and after a hash of its whole path, in eight
/// digits. A different hash gives a different name.
pub proof fn law_mount_is_named_after_the_input(input: PathView, hash: u32, other: u32)
    ensures
        ({
            let mount = discovery::hashed_mount(input, hash);
            let label = match input.file_name() {
                Some(name) => if name.len() > 0 {
                    name.map_values(
                        |c: char|
                            if ('a' <= c <= 'z') || ('A' <= c <= 'Z') || ('0' <= c <= '9') || c
                                == '_' || c == '-' || c == '.' {
                                c
                            } else {
                                '_'
                            },
                    )
                } else {
                    "input"@
                },
                None => "input"@,
            };
            mount == label + "__"@ + text::hexadecimal(hash as nat, 8)
        }),
        hash != other ==> discovery::hashed_mount(input, hash) != discovery::hashed_mount(
            input,
            other,
        ),
{
    if let Some(name) = input.file_name() {
        assert(discovery::cleaned(name) =~= name.map_values(
            |c: char|
                if ('a' <= c <= 'z') || ('A' <= c <= 'Z') || ('0' <= c <= '9') || c == '_' || c
                    == '-' || c == '.' {
                    c
                } else {
                    '_'
                },
        ));
    }
    let head = discovery::mount_label(input) + "__"@;
    let a = text::hexadecimal(hash as nat, 8);
    let b = text::hexadecimal(other as nat, 8);
    assert((head + a).skip(head.len() as int) =~= a);
    assert((head + b).skip(head.len() as int) =~= b);
    if a == b {
        text::law_hexadecimal_tells_the_number(hash as nat, other as nat, 8);
        text::lemma_eight_digits();
    }
}

/// The hash in the name of a mount is that of the text of the whole path of the input.
pub proof fn law_mount_hashes_the_whole_path(input: PathView, current: PathView)
    ensures
        discovery::mount_text(input, input, current) == discovery::hashed_mount(
            input,
            codec::xxh32_of(
                vstd::utf8::encode_utf8(path::normalized_path(input, current).text()),
                0,
            ),
        ),
{
}

/// The number of region files in a walk, those in the output left out.
pub open spec fn files_in_walk(
    walked: Seq<WalkedDirectory>,
    input: PathView,
    output: Option<Seq<Part>>,
    current: PathView,
) -> nat
    decreases walked.len(),
{
    if walked.len() == 0 {
        0
    } else {
        files_in_walk(walked.drop_last(), input, output, current) + if stands_in_output(
            walked.last().path@,
            input,
            output,
            current,
        ) {
            0
        } else {
            listing_of(walked.last()).filter(|file: FoundView| is_region_file(file)).len()
        }
    }
}

/// A world has as many region files as its directories list, none of them twice.
pub proof fn law_files_of_a_world_are_counted(
    input_index: usize,
    input: PathView,
    walked: Seq<WalkedDirectory>,
    forced: Option<SourceFormatHint>,
    output: Option<Seq<Part>>,
    current: PathView,
)
    ensures
        discovery::region_dirs(input, walked, output, current) matches Ok(dirs)
            ==> discovery::world_sources(input_index, dirs, forced).len() == files_in_walk(
            walked,
            input,
            output,
            current,
        ),
    decreases walked.len(),
{
    if walked.len() > 0 {
        let before = walked.drop_last();
        let last = walked.last();
        law_files_of_a_world_are_counted(input_index, input, before, forced, output, current);
        law_only_the_output_is_left_out(last.path@, input, output, current);
        law_every_region_file_is_listed(listing_of(last));
        if let Ok(dirs) = discovery::region_dirs(input, walked, output, current) {
            let early = discovery::region_dirs(input, before, output, current)->Ok_0;
            if dirs != early {
                assert(dirs.drop_last() =~= early);
            }
        }
    }
}

/// The region files of an input, in a group or in any.
pub open spec fn files_of_input(
    sources: Seq<SourceView>,
    i: int,
    group: Option<RegionFileGroup>,
) -> nat {
    sources.filter(
        |source: SourceView|
            source.input_index == i && (group is None || group == Some(source.file_group)),
    ).len()
}

/// Whether an input is summed up by its path and by how many region files it has, in all and
/// in each group.
pub open spec fn is_summed_up(
    view: InputView,
    input: PathView,
    sources: Seq<SourceView>,
    i: int,
) -> bool {
    &&& view.input_path == input
    &&& view.discovered_jobs == files_of_input(sources, i, None)
    &&& view.discovered_jobs <= usize::MAX ==> {
        &&& view.group_counts.regions == files_of_input(
            sources,
            i,
            Some(RegionFileGroup::Regions),
        )
        &&& view.group_counts.entities == files_of_input(
            sources,
            i,
            Some(RegionFileGroup::Entities),
        )
        &&& view.group_counts.poi == files_of_input(sources, i, Some(RegionFileGroup::Poi))
    }
}

/// The files of an input are all counted for it, and for no other.
proof fn lemma_files_of_one_input(
    sources: Seq<SourceView>,
    index: usize,
    i: int,
    group: Option<RegionFileGroup>,
)
    requires
        forall|m: int| 0 <= m < sources.len() ==> (#[trigger] sources[m]).input_index == index,
    ensures
        i != index ==> files_of_input(sources, i, group) == 0,
        i == index ==> files_of_input(sources, i, group) == match group {
            None => sources.len(),
            Some(group) => discovery::group_count(sources, group),
        },
        group matches Some(group) ==> discovery::group_count(sources, group) <= sources.len(),
    decreases sources.len(),
{
    reveal(Seq::filter);
    if sources.len() > 0 {
        let before = sources.drop_last();
        assert forall|m: int| 0 <= m < before.len() implies (#[trigger] before[m]).input_index
            == index by {
            assert(before[m] == sources[m]);
        }
        lemma_files_of_one_input(before, index, i, group);
        assert(sources[sources.len() - 1].input_index == index);
    }
}

/// The files of two lists are counted one list after the other.
proof fn lemma_files_join(
    first: Seq<SourceView>,
    second: Seq<SourceView>,
    i: int,
    group: Option<RegionFileGroup>,
)
    ensures
        files_of_input(first + second, i, group) == files_of_input(first, i, group)
            + files_of_input(second, i, group),
{
    Seq::filter_distributes_over_add(
        first,
        second,
        |source: SourceView|
            source.input_index == i && (group is None || group == Some(source.file_group)),
    );
}

/// Whether the first `n` inputs are summed up, and what was found stands by input.
spec fn summed_up(
    inputs: Seq<SavePath>,
    views: Seq<InputView>,
    sources: Seq<SourceView>,
    n: nat,
) -> bool {
    &&& views.len() == n
    &&& forall|i: int|
        0 <= i < n ==> is_summed_up(#[trigger] views[i], inputs[i]@, sources, i)
    &&& forall|m: int| 0 <= m < sources.len() ==> (#[trigger] sources[m]).input_index < n
    &&& forall|l: int, m: int|
        0 <= l < m < sources.len() ==> (#[trigger] sources[l]).input_index <= (
        #[trigger] sources[m]).input_index
}

proof fn lemma_summed_up(
    inputs: Seq<SavePath>,
    scans: Seq<InputScan>,
    forced: Option<SourceFormatHint>,
    output: Option<Seq<Part>>,
    current: PathView,
    n: nat,
)
    requires
        discovery::findings(inputs, scans, forced, output, current, n) is Ok,
        n <= inputs.len() <= usize::MAX,
    ensures
        ({
            let found = discovery::findings(inputs, scans, forced, output, current, n)->Ok_0;
            summed_up(inputs, found.inputs, found.sources, n)
        }),
    decreases n,
{
    if n > 0 {
        let last = n - 1;
        lemma_summed_up(inputs, scans, forced, output, current, last as nat);
        let before = discovery::findings(inputs, scans, forced, output, current, last as nat)->Ok_0;
        let part = discovery::input_finding(
            last as usize,
            inputs[last]@,
            scans[last],
            forced,
            output,
            current,
        )->Ok_0;
        let found = discovery::findings(inputs, scans, forced, output, current, n)->Ok_0;
        let new = part.sources;
        assert forall|m: int| 0 <= m < new.len() implies (#[trigger] new[m]).input_index
            == last as usize by {
            lemma_found_is_a_file(
                last as usize,
                inputs[last]@,
                scans[last],
                forced,
                output,
                current,
                m,
            );
        }
        assert forall|m: int| 0 <= m < found.sources.len() implies #[trigger] found.sources[m]
            == if m < before.sources.len() {
            before.sources[m]
        } else {
            new[m - before.sources.len()]
        } by {}
        assert forall|i: int| 0 <= i < n implies is_summed_up(
            #[trigger] found.inputs[i],
            inputs[i]@,
            found.sources,
            i,
        ) by {
            lemma_input_summed_up(before.sources, new, last as usize, i);
            if i < last {
                assert(found.inputs[i] == before.inputs[i]);
            } else {
                lemma_none_of_later(before.sources, last);
            }
        }
    }
}

/// What a new input adds is counted for it alone.
proof fn lemma_input_summed_up(
    before: Seq<SourceView>,
    new: Seq<SourceView>,
    index: usize,
    i: int,
)
    requires
        forall|m: int| 0 <= m < new.len() ==> (#[trigger] new[m]).input_index == index,
    ensures
        forall|group: Option<RegionFileGroup>| #[trigger]
            files_of_input(before + new, i, group) == files_of_input(before, i, group) + if i
                == index {
                match group {
                    None => new.len(),
                    Some(group) => discovery::group_count(new, group),
                }
            } else {
                0
            },
        forall|group: RegionFileGroup| #[trigger]
            discovery::group_count(new, group) <= new.len(),
{
    assert forall|group: Option<RegionFileGroup>| #[trigger]
        files_of_input(before + new, i, group) == files_of_input(before, i, group) + if i
            == index {
            match group {
                None => new.len(),
                Some(group) => discovery::group_count(new, group),
            }
        } else {
            0
        } by {
        lemma_files_join(before, new, i, group);
        lemma_files_of_one_input(new, index, i, group);
    }
    assert forall|group: RegionFileGroup| #[trigger]
        discovery::group_count(new, group) <= new.len() by {
        lemma_files_of_one_input(new, index, i, Some(group));
    }
}

/// Nothing was found of an input that comes later.
proof fn lemma_none_of_later(sources: Seq<SourceView>, i: int)
    requires
        forall|m: int| 0 <= m < sources.len() ==> (#[trigger] sources[m]).input_index < i,
    ensures
        forall|group: Option<RegionFileGroup>| #[trigger] files_of_input(sources, i, group) == 0,
    decreases sources.len(),
{
    reveal(Seq::filter);
    if sources.len() > 0 {
        let before = sources.drop_last();
        assert forall|m: int| 0 <= m < before.len() implies (#[trigger] before[m]).input_index
            < i by {
            assert(before[m] == sources[m]);
        }
        lemma_none_of_later(before, i);
        assert(sources[sources.len() - 1].input_index < i);
        assert forall|group: Option<RegionFileGroup>| #[trigger]
            files_of_input(sources, i, group) == 0 by {
            assert(files_of_input(before, i, group) == 0);
        }
    }
}

/// Each input is summed up by the region files that were found at it, which stand by input.
pub proof fn law_each_input_is_summed_up(
    inputs: Seq<SavePath>,
    scans: Seq<InputScan>,
    forced: Option<SourceFormatHint>,
    output: Option<&SavePath>,
    current: PathView,
    i: int,
    l: int,
    m: int,
)
    requires
        discovery::discovered_sources(inputs, scans, forced, output, current) is Ok,
        0 <= i < inputs.len() <= usize::MAX,
    ensures
        ({
            let found = discovery::discovered_sources(
                inputs,
                scans,
                forced,
                output,
                current,
            )->Ok_0;
            &&& found.inputs.len() == inputs.len()
            &&& is_summed_up(found.inputs[i], inputs[i]@, found.sources, i)
            &&& 0 <= l < m < found.sources.len() ==> found.sources[l].input_index
                <= found.sources[m].input_index
        }),
{
    lemma_summed_up(
        inputs,
        scans,
        forced,
        discovery::output_parts(output, current),
        current,
        inputs.len(),
    );
}

/// Region files that are no plain ones stand in a directory with the name of their group,
/// and no two groups or kinds of input have the same name.
pub proof fn law_groups_are_named_after_directories(
    path: PathView,
    a: RegionFileGroup,
    b: RegionFileGroup,
    x: InputKind,
    y: InputKind,
)
    ensures
        a != RegionFileGroup::Regions ==> (discovery::group_of(path) == a <==> path.parent_name()
            == Some(discovery::group_text(a))),
        discovery::group_text(RegionFileGroup::Entities) == "entities"@,
        discovery::group_text(RegionFileGroup::Poi) == "poi"@,
        a != b ==> discovery::group_text(a) != discovery::group_text(b),
        x != y ==> discovery::kind_text(x) != discovery::kind_text(y),
{
    reveal_strlit("regions");
    reveal_strlit("entities");
    reveal_strlit("poi");
    reveal_strlit("region file");
    reveal_strlit("region directory");
    reveal_strlit("world directory");
    assert("regions"@.len() == 7 && "entities"@.len() == 8 && "poi"@.len() == 3);
    assert("region file"@.len() == 11 && "region directory"@.len() == 16
        && "world directory"@.len() == 15);
}

/// The message about an input or a file names it.
pub proof fn law_search_message_names_the_file(path: PathView, detail: Seq<char>)
    ensures
        text::contains_text(
            discovery::fault_text(DiscoveryFault::NotRegionFile(path)),
            path.text(),
        ),
        text::contains_text(discovery::fault_text(DiscoveryFault::NotFound(path)), path.text()),
        text::contains_text(discovery::fault_text(DiscoveryFault::NoRegionFiles(path)), path.text()),
        text::contains_text(discovery::fault_text(DiscoveryFault::NotBelow(path)), path.text()),
        text::contains_text(discovery::fault_text(DiscoveryFault::InPlace(path)), path.text()),
        text::contains_text(discovery::fault_text(DiscoveryFault::SameOutput(path)), path.text()),
        discovery::fault_text(DiscoveryFault::Listing(detail)) == detail,
{
    let name = path.text();
    text::lemma_contains("input file "@, name, " is not a supported region file"@);
    text::lemma_contains(
        "input path "@,
        name,
        " is neither a supported region file nor a directory"@,
    );
    text::lemma_contains("input "@, name, " does not contain any supported region files"@);
    text::lemma_contains("failed to compute a relative path under "@, name, seq![]);
    text::lemma_contains("refusing to overwrite the source file in place: "@, name, seq![]);
    text::lemma_contains("multiple inputs map to the same output file "@, name, seq![]);
    assert("failed to compute a relative path under "@ + name + seq![]
        =~= "failed to compute a relative path under "@ + name);
    assert("refusing to overwrite the source file in place: "@ + name + seq![]
        =~= "refusing to overwrite the source file in place: "@ + name);
    assert("multiple inputs map to the same output file "@ + name + seq![]
        =~= "multiple inputs map to the same output file "@ + name);
}

/// The format of a source is the one that is asked for, else the one that its extension
/// tells, and otherwise not known.
pub proof fn law_source_format_is_known(path: PathView, forced: Option<SourceFormatHint>)
    ensures
        forced is Some ==> discovery::resolved_format(path, forced) == forced,
        ({
            let known = discovery::resolved_format(path, None);
            &&& known == Some(SourceFormatHint::Mca) <==> path.extension() == Some("mca"@)
            &&& known == Some(SourceFormatHint::Linear) <==> path.extension() == Some("linear"@)
            &&& known == Some(SourceFormatHint::BlinearFamily) <==> path.extension() == Some(
                "b_linear"@,
            )
            &&& known != Some(SourceFormatHint::BlinearV2)
            &&& known != Some(SourceFormatHint::BlinearV3)
        }),
{
    reveal_strlit("mca");
    reveal_strlit("linear");
    reveal_strlit("b_linear");
    assert("mca"@.len() == 3 && "linear"@.len() == 6 && "b_linear"@.len() == 8);
}

} // verus!
