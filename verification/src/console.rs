//! What is printed about a run or an inspection, line by line.

use vstd::prelude::*;
use vstd::string::*;

use crate::convert::{JobReport, ReportView};
use crate::diagnostic::Diagnostic;
use crate::discovery::{self, InputKind};
use crate::formats::{self, SourceFormatHint};
use crate::info::{
    self, EntryView, FormatCount, InfoSummary, InfoTotals, InputInfo, InputInfoView,
    RegionInfoEntry,
};
use crate::path::{self, PathView, SavePath};
use crate::planner::RunPlan;
use crate::sort;
use crate::text::{self, push_decimal, push_signed, push_two_digits};

verus! {

/// A time in hours, minutes and seconds; the hours are left out where there are none.
pub open spec fn duration_text(seconds: u64) -> Seq<char> {
    let hours = seconds as nat / 3600;
    let minutes = seconds as nat % 3600 / 60;
    let rest = seconds as nat % 60;
    let short = text::two_digits(minutes) + ":"@ + text::two_digits(rest);
    if hours > 0 {
        text::two_digits(hours) + ":"@ + short
    } else {
        short
    }
}

/// A time in hours, minutes and seconds.
pub fn format_duration(total_seconds: u64) -> (text: String)
    ensures
        text@ == duration_text(total_seconds),
{
    let hours = total_seconds / 3600;
    let minutes = total_seconds % 3600 / 60;
    let seconds = total_seconds % 60;
    let mut text = String::new();
    if hours > 0 {
        push_two_digits(&mut text, hours);
        text.append(":");
    }
    push_two_digits(&mut text, minutes);
    text.append(":");
    push_two_digits(&mut text, seconds);
    assert(text@ =~= duration_text(total_seconds));
    text
}

/// The source format that is asked for.
pub open spec fn source_mode_text(format: Option<SourceFormatHint>) -> Seq<char> {
    match format {
        Some(hint) => formats::hint_text(hint),
        None => "auto"@,
    }
}

/// The source format that is asked for.
pub fn format_source_mode(source_format: Option<SourceFormatHint>) -> (text: &'static str)
    ensures
        text@ == source_mode_text(source_format),
{
    match source_format {
        Some(hint) => hint.name(),
        None => "auto",
    }
}

/// The formats and how often each was found, one after the other.
pub open spec fn counts_text(counts: Seq<FormatCount>) -> Seq<char>
    decreases counts.len(),
{
    if counts.len() == 0 {
        seq![]
    } else {
        let entry = formats::storage_text(counts.last().format) + " x"@ + text::decimal(
            counts.last().count as nat,
        );
        if counts.len() == 1 {
            entry
        } else {
            counts_text(counts.drop_last()) + ", "@ + entry
        }
    }
}

/// The formats and how often each was found.
pub open spec fn breakdown_text(counts: Seq<FormatCount>) -> Seq<char> {
    if counts.len() == 0 {
        "unknown"@
    } else {
        counts_text(counts)
    }
}

/// The formats and how often each was found.
pub fn format_format_breakdown(formats: &Vec<FormatCount>) -> (text: String)
    ensures
        text@ == breakdown_text(formats@),
{
    if formats.len() == 0 {
        return "unknown".to_owned();
    }
    let mut text = String::new();
    let mut i: usize = 0;
    assert(text@ =~= counts_text(formats@.take(0)));
    while i < formats.len()
        invariant
            i <= formats.len(),
            text@ == counts_text(formats@.take(i as int)),
        decreases formats.len() - i,
    {
        assert(formats@.take(i + 1).drop_last() =~= formats@.take(i as int));
        if i > 0 {
            text.append(", ");
        }
        text.append(formats[i].format.name());
        text.append(" x");
        push_decimal(&mut text, formats[i].count as u64);
        assert(text@ =~= counts_text(formats@.take(i + 1)));
        i = i + 1;
    }
    assert(formats@.take(i as int) =~= formats@);
    text
}

/// A line that ends in a number.
pub open spec fn counted(label: Seq<char>, n: nat) -> Seq<char> {
    label + text::decimal(n)
}

fn counted_line(label: &str, n: u64) -> (line: String)
    ensures
        line@ == counted(label@, n as nat),
{
    let mut line = label.to_owned();
    push_decimal(&mut line, n);
    line
}

/// A size, in words and in bytes.
pub open spec fn size_text(label: Seq<char>, words: Seq<char>, bytes: u64) -> Seq<char> {
    label + words + " ("@ + text::decimal(bytes as nat) + " bytes)"@
}

fn size_line(label: &str, words: &String, bytes: u64) -> (line: String)
    ensures
        line@ == size_text(label@, words@, bytes),
{
    let mut line = label.to_owned();
    line.append(words.as_str());
    line.append(" (");
    push_decimal(&mut line, bytes);
    line.append(" bytes)");
    line
}

/// The lines about some totals, of which the size is also given in words.
pub open spec fn totals_lines(indent: Seq<char>, totals: InfoTotals, words: Seq<char>) -> Seq<
    Seq<char>,
> {
    seq![
        counted(indent + "Region files: "@, totals.region_files as nat),
        counted(indent + "Readable regions: "@, totals.readable_regions as nat)
            + " | Failed regions: "@ + text::decimal(totals.failed_regions as nat),
        size_text(indent + "Total size: "@, words, totals.total_size_bytes),
        counted(indent + "Chunks ok: "@, totals.chunk_count as nat) + " | Discarded chunks: "@
            + text::decimal(totals.discarded_chunks as nat) + " | Warnings: "@ + text::decimal(
            totals.warnings as nat,
        ),
    ]
}

fn indented(indent: &str, label: &str) -> (text: String)
    ensures
        text@ == indent@ + label@,
{
    let mut text = indent.to_owned();
    text.append(label);
    text
}

/// Adds a line.
fn put(lines: &mut Vec<String>, line: String)
    ensures
        info::texts(final(lines)@) == info::texts(old(lines)@).push(line@),
{
    lines.push(line);
    assert(info::texts(lines@) =~= info::texts(old(lines)@).push(line@));
}

fn push_totals(lines: &mut Vec<String>, indent: &str, totals: InfoTotals, words: &String)
    ensures
        info::texts(final(lines)@) == info::texts(old(lines)@) + totals_lines(
            indent@,
            totals,
            words@,
        ),
{
    let ghost start = info::texts(lines@);
    put(
        lines,
        counted_line(indented(indent, "Region files: ").as_str(), totals.region_files as u64),
    );
    let mut line = counted_line(
        indented(indent, "Readable regions: ").as_str(),
        totals.readable_regions as u64,
    );
    line.append(" | Failed regions: ");
    push_decimal(&mut line, totals.failed_regions as u64);
    put(lines, line);
    put(
        lines,
        size_line(
            indented(indent, "Total size: ").as_str(),
            words,
            totals.total_size_bytes,
        ),
    );
    let mut line = counted_line(
        indented(indent, "Chunks ok: ").as_str(),
        totals.chunk_count as u64,
    );
    line.append(" | Discarded chunks: ");
    push_decimal(&mut line, totals.discarded_chunks as u64);
    line.append(" | Warnings: ");
    push_decimal(&mut line, totals.warnings as u64);
    put(lines, line);
    assert(info::texts(lines@) =~= start + totals_lines(indent@, totals, words@));
}

/// The lines about a region file that is an input of its own, of which the size is
/// also given in words.
pub open spec fn entry_lines(entry: EntryView, words: Seq<char>) -> Seq<Seq<char>> {
    let format = match entry.storage_format {
        Some(format) => seq!["    Format: "@ + formats::storage_text(format)],
        None => seq![],
    };
    let coords = match (entry.region_x, entry.region_z) {
        (Some(x), Some(z)) => seq![
            "    Region coords: ("@ + text::signed_decimal(x as int) + ", "@
                + text::signed_decimal(z as int) + ")"@,
        ],
        _ => seq![],
    };
    let size = match entry.size_bytes {
        Some(bytes) => seq![size_text("    File size: "@, words, bytes)],
        None => seq![],
    };
    let error = match entry.error {
        Some(message) => seq!["    Status: failed"@, "    Error: "@ + message],
        None => seq![],
    };
    format + coords + size + error
}

/// Adds the lines about a region file that is an input of its own.
fn push_entry(lines: &mut Vec<String>, entry: &RegionInfoEntry, words: &String)
    ensures
        info::texts(final(lines)@) == info::texts(old(lines)@) + entry_lines(entry@, words@),
{
    let ghost start = info::texts(lines@);
    if let Some(format) = entry.storage_format {
        put(lines, indented("    Format: ", format.name()));
    }
    let ghost first = info::texts(lines@);
    match (entry.region_x, entry.region_z) {
        (Some(x), Some(z)) => {
            let mut line = "    Region coords: (".to_owned();
            push_signed(&mut line, x as i64);
            line.append(", ");
            push_signed(&mut line, z as i64);
            line.append(")");
            put(lines, line);
        },
        _ => {},
    }
    let ghost second = info::texts(lines@);
    if let Some(bytes) = entry.size_bytes {
        put(lines, size_line("    File size: ", words, bytes));
    }
    let ghost third = info::texts(lines@);
    if let Some(message) = &entry.error {
        put(lines, "    Status: failed".to_owned());
        put(lines, indented("    Error: ", message.as_str()));
    }
    assert(info::texts(lines@) =~= start + entry_lines(entry@, words@));
}

/// The first of `entries` from `from` on that belongs to the input `index`.
pub open spec fn first_entry(entries: Seq<EntryView>, index: usize, from: int) -> int
    decreases entries.len() - from,
{
    if from >= entries.len() || entries[from].input_index == index {
        from
    } else {
        first_entry(entries, index, from + 1)
    }
}

/// The lines about the input `index`.
pub open spec fn input_lines(
    input: InputInfoView,
    index: usize,
    entries: Seq<EntryView>,
    words: Seq<char>,
    entry_words: Seq<Seq<char>>,
) -> Seq<Seq<char>> {
    let found = first_entry(entries, index, 0);
    seq![
        "  - "@ + input.input_path.text() + " ["@ + discovery::kind_text(input.input_kind) + "]"@,
    ] + totals_lines("    "@, input.totals, words) + seq![
        "    Formats: "@ + breakdown_text(input.format_breakdown),
    ] + if input.input_kind == InputKind::RegionFile && found < entries.len() {
        entry_lines(entries[found], entry_words[found])
    } else {
        seq![]
    }
}

fn find_entry(entries: &Vec<RegionInfoEntry>, index: usize) -> (at: usize)
    ensures
        at == first_entry(sort::views(entries@), index, 0),
        at <= entries@.len(),
{
    let ghost all = sort::views(entries@);
    let mut at: usize = 0;
    while at < entries.len() && entries[at].input_index != index
        invariant
            at <= entries.len(),
            all == sort::views(entries@),
            first_entry(all, index, 0) == first_entry(all, index, at as int),
        decreases entries.len() - at,
    {
        assert(all[at as int] == entries@[at as int]@);
        at = at + 1;
    }
    if at < entries.len() {
        assert(all[at as int] == entries@[at as int]@);
    }
    at
}

fn totals_of_input(input: &InputInfo) -> (totals: InfoTotals)
    ensures
        totals == input@.totals,
{
    InfoTotals {
        region_files: input.region_files,
        readable_regions: input.readable_regions,
        failed_regions: input.failed_regions,
        total_size_bytes: input.total_size_bytes,
        chunk_count: input.chunk_count,
        discarded_chunks: input.discarded_chunks,
        warnings: input.warnings,
    }
}

fn push_input(
    lines: &mut Vec<String>,
    input: &InputInfo,
    index: usize,
    entries: &Vec<RegionInfoEntry>,
    words: &String,
    entry_words: &Vec<String>,
)
    requires
        entry_words@.len() == entries@.len(),
    ensures
        info::texts(final(lines)@) == info::texts(old(lines)@) + input_lines(
            input@,
            index,
            sort::views(entries@),
            words@,
            info::texts(entry_words@),
        ),
{
    let ghost start = info::texts(lines@);
    let mut line = "  - ".to_owned();
    line.append(input.input_path.text().as_str());
    line.append(" [");
    line.append(input.input_kind.name());
    line.append("]");
    put(lines, line);
    push_totals(lines, "    ", totals_of_input(input), words);
    put(
        lines,
        indented("    Formats: ", format_format_breakdown(&input.format_breakdown).as_str()),
    );
    if input.input_kind == InputKind::RegionFile {
        let found = find_entry(entries, index);
        if found < entries.len() {
            push_entry(lines, &entries[found], &entry_words[found]);
        }
    }
    assert(info::texts(lines@) =~= start + input_lines(
        input@,
        index,
        sort::views(entries@),
        words@,
        info::texts(entry_words@),
    ));
}

/// The lines about the first `n` inputs.
pub open spec fn inputs_lines(
    inputs: Seq<InputInfoView>,
    entries: Seq<EntryView>,
    words: Seq<Seq<char>>,
    entry_words: Seq<Seq<char>>,
    n: nat,
) -> Seq<Seq<char>>
    decreases n,
{
    if n == 0 {
        seq![]
    } else {
        inputs_lines(inputs, entries, words, entry_words, (n - 1) as nat) + input_lines(
            inputs[n - 1],
            (n - 1) as usize,
            entries,
            words[n - 1],
            entry_words,
        )
    }
}

/// A message about the file `path`.
pub open spec fn issue_text(path: PathView, message: Seq<char>) -> Seq<char> {
    "  - ["@ + path.text() + "] "@ + message
}

fn issue_line(path: &SavePath, message: &String) -> (line: String)
    ensures
        line@ == issue_text(path@, message@),
{
    let mut line = "  - [".to_owned();
    line.append(path.text().as_str());
    line.append("] ");
    line.append(message.as_str());
    line
}

/// The lines about the warnings of an entry.
pub open spec fn entry_warnings(entry: EntryView, n: nat) -> Seq<Seq<char>>
    decreases n,
{
    if n == 0 {
        seq![]
    } else {
        entry_warnings(entry, (n - 1) as nat).push(
            issue_text(entry.source_file, entry.warnings[n - 1]),
        )
    }
}

/// The lines about the warnings of `entries`.
pub open spec fn warning_lines(entries: Seq<EntryView>) -> Seq<Seq<char>>
    decreases entries.len(),
{
    if entries.len() == 0 {
        seq![]
    } else {
        warning_lines(entries.drop_last()) + entry_warnings(
            entries.last(),
            entries.last().warnings.len(),
        )
    }
}

/// The lines about the errors of `entries`.
pub open spec fn error_lines(entries: Seq<EntryView>) -> Seq<Seq<char>>
    decreases entries.len(),
{
    if entries.len() == 0 {
        seq![]
    } else {
        let before = error_lines(entries.drop_last());
        match entries.last().error {
            Some(message) => before.push(issue_text(entries.last().source_file, message)),
            None => before,
        }
    }
}

/// The lines under a heading, if there are any.
pub open spec fn headed(heading: Seq<char>, lines: Seq<Seq<char>>) -> Seq<Seq<char>> {
    if lines.len() == 0 {
        lines
    } else {
        seq![heading] + lines
    }
}

fn collect_warnings(entries: &Vec<RegionInfoEntry>) -> (lines: Vec<String>)
    ensures
        info::texts(lines@) == warning_lines(sort::views(entries@)),
{
    let ghost all = sort::views(entries@);
    let mut lines: Vec<String> = Vec::new();
    let mut i: usize = 0;
    assert(info::texts(lines@) =~= warning_lines(all.take(0)));
    while i < entries.len()
        invariant
            i <= entries.len(),
            all == sort::views(entries@),
            info::texts(lines@) == warning_lines(all.take(i as int)),
        decreases entries.len() - i,
    {
        let entry = &entries[i];
        let ghost before = info::texts(lines@);
        assert(all.take(i + 1).drop_last() =~= all.take(i as int));
        assert(all.take(i + 1).last() == entry@);
        let mut k: usize = 0;
        assert(info::texts(lines@) =~= before + entry_warnings(entry@, 0));
        while k < entry.warnings.len()
            invariant
                k <= entry.warnings.len(),
                info::texts(lines@) == before + entry_warnings(entry@, k as nat),
            decreases entry.warnings.len() - k,
        {
            put(&mut lines, issue_line(&entry.source_file, &entry.warnings[k]));
            assert(info::texts(lines@) =~= before + entry_warnings(entry@, (k + 1) as nat));
            k = k + 1;
        }
        assert(entry@.warnings.len() == entry.warnings@.len());
        i = i + 1;
    }
    assert(all.take(i as int) =~= all);
    lines
}

fn collect_errors(entries: &Vec<RegionInfoEntry>) -> (lines: Vec<String>)
    ensures
        info::texts(lines@) == error_lines(sort::views(entries@)),
{
    let ghost all = sort::views(entries@);
    let mut lines: Vec<String> = Vec::new();
    let mut i: usize = 0;
    assert(info::texts(lines@) =~= error_lines(all.take(0)));
    while i < entries.len()
        invariant
            i <= entries.len(),
            all == sort::views(entries@),
            info::texts(lines@) == error_lines(all.take(i as int)),
        decreases entries.len() - i,
    {
        assert(all.take(i + 1).drop_last() =~= all.take(i as int));
        assert(all.take(i + 1).last() == entries@[i as int]@);
        if let Some(message) = &entries[i].error {
            put(&mut lines, issue_line(&entries[i].source_file, message));
        }
        i = i + 1;
    }
    assert(all.take(i as int) =~= all);
    lines
}

fn push_headed(lines: &mut Vec<String>, heading: &str, more: Vec<String>)
    ensures
        info::texts(final(lines)@) == info::texts(old(lines)@) + headed(
            heading@,
            info::texts(more@),
        ),
{
    let ghost start = info::texts(lines@);
    let ghost all = info::texts(more@);
    assert(all.len() == more@.len());
    if more.len() > 0 {
        put(lines, heading.to_owned());
        let ghost before = info::texts(lines@);
        let mut more = more;
        lines.append(&mut more);
        assert(info::texts(lines@) =~= before + all);
    }
    assert(info::texts(lines@) =~= start + headed(heading@, all));
}

/// The sizes of an inspection in words: of the inputs, of the entries, and of all.
#[derive(Debug)]
pub struct InfoSizes {
    pub inputs: Vec<String>,
    pub entries: Vec<String>,
    pub total: String,
}

/// The lines about an inspection that took `seconds` seconds.
pub open spec fn info_lines(summary: InfoSummary, sizes: InfoSizes, seconds: u64) -> Seq<Seq<char>> {
    let inputs = sort::views(summary.inputs@);
    let entries = sort::views(summary.entries@);
    seq!["Save info:"@, counted("  Inputs ("@, inputs.len()) + "):"@] + inputs_lines(
        inputs,
        entries,
        info::texts(sizes.inputs@),
        info::texts(sizes.entries@),
        inputs.len(),
    ) + seq!["Overall:"@, counted("  Threads used: "@, summary.thread_count as nat)]
        + totals_lines("  "@, info::summary_totals(summary), sizes.total@) + seq![
        "  Completed in "@ + duration_text(seconds),
    ] + headed("Warnings:"@, warning_lines(entries)) + headed("Errors:"@, error_lines(entries))
}

/// The lines about an inspection that took `seconds` seconds.
pub fn render_info_summary(summary: &InfoSummary, sizes: &InfoSizes, seconds: u64) -> (lines: Vec<
    String,
>)
    requires
        sizes.inputs@.len() == summary.inputs@.len(),
        sizes.entries@.len() == summary.entries@.len(),
    ensures
        info::texts(lines@) == info_lines(*summary, *sizes, seconds),
{
    let ghost inputs = sort::views(summary.inputs@);
    let ghost entries = sort::views(summary.entries@);
    let ghost words = info::texts(sizes.inputs@);
    let ghost entry_words = info::texts(sizes.entries@);
    let mut lines: Vec<String> = Vec::new();
    put(&mut lines, "Save info:".to_owned());
    let mut line = counted_line("  Inputs (", summary.inputs.len() as u64);
    line.append("):");
    put(&mut lines, line);
    let ghost head = info::texts(lines@);
    let mut i: usize = 0;
    assert(head =~= head + inputs_lines(inputs, entries, words, entry_words, 0));
    while i < summary.inputs.len()
        invariant
            i <= summary.inputs.len(),
            sizes.inputs@.len() == summary.inputs@.len(),
            sizes.entries@.len() == summary.entries@.len(),
            inputs == sort::views(summary.inputs@),
            entries == sort::views(summary.entries@),
            words == info::texts(sizes.inputs@),
            entry_words == info::texts(sizes.entries@),
            info::texts(lines@) == head + inputs_lines(
                inputs,
                entries,
                words,
                entry_words,
                i as nat,
            ),
        decreases summary.inputs.len() - i,
    {
        push_input(
            &mut lines,
            &summary.inputs[i],
            i,
            &summary.entries,
            &sizes.inputs[i],
            &sizes.entries,
        );
        assert(info::texts(lines@) =~= head + inputs_lines(
            inputs,
            entries,
            words,
            entry_words,
            (i + 1) as nat,
        ));
        i = i + 1;
    }
    assert(inputs.len() == summary.inputs@.len());
    put(&mut lines, "Overall:".to_owned());
    put(&mut lines, counted_line("  Threads used: ", summary.thread_count as u64));
    let totals = InfoTotals {
        region_files: summary.total_region_files,
        readable_regions: summary.readable_regions,
        failed_regions: summary.failed_regions,
        total_size_bytes: summary.total_size_bytes,
        chunk_count: summary.chunk_count,
        discarded_chunks: summary.discarded_chunks,
        warnings: summary.warnings,
    };
    push_totals(&mut lines, "  ", totals, &sizes.total);
    put(&mut lines, indented("  Completed in ", format_duration(seconds).as_str()));
    push_headed(&mut lines, "Warnings:", collect_warnings(&summary.entries));
    push_headed(&mut lines, "Errors:", collect_errors(&summary.entries));
    assert(info::texts(lines@) =~= info_lines(*summary, *sizes, seconds));
    lines
}

/// The lines about the inputs of a run.
pub open spec fn path_lines(paths: Seq<PathView>) -> Seq<Seq<char>> {
    Seq::new(paths.len(), |i: int| "  - "@ + paths[i].text())
}

/// The lines about what a run is going to do.
pub open spec fn plan_lines(plan: RunPlan) -> Seq<Seq<char>> {
    seq!["Conversion plan:"@, counted("  Inputs ("@, plan.input_paths@.len()) + "):"@]
        + path_lines(path::path_views(plan.input_paths@)) + seq![
        "  Output root: "@ + plan.output_root@.text(),
        "  Format: "@ + source_mode_text(plan.source_format) + " -> "@ + formats::format_text(
            plan.target_format,
        ),
        if plan.thread_count == plan.requested_thread_count {
            counted("  Threads: "@, plan.thread_count as nat)
        } else {
            counted("  Threads: "@, plan.thread_count as nat) + " (capped from "@ + text::decimal(
                plan.requested_thread_count as nat,
            ) + " to match discovered work)"@
        },
        "  Compression level: "@ + text::signed_decimal(plan.compression_level as int),
        counted("  Region files: "@, plan.total_jobs as nat),
    ]
}

/// The lines about what a run is going to do.
pub fn render_plan(plan: &RunPlan) -> (lines: Vec<String>)
    ensures
        info::texts(lines@) == plan_lines(*plan),
{
    let ghost paths = path_lines(path::path_views(plan.input_paths@));
    let mut lines: Vec<String> = Vec::new();
    put(&mut lines, "Conversion plan:".to_owned());
    let mut line = counted_line("  Inputs (", plan.input_paths.len() as u64);
    line.append("):");
    put(&mut lines, line);
    let ghost head = info::texts(lines@);
    let mut i: usize = 0;
    assert(head =~= head + paths.take(0));
    while i < plan.input_paths.len()
        invariant
            i <= plan.input_paths.len(),
            paths == path_lines(path::path_views(plan.input_paths@)),
            info::texts(lines@) == head + paths.take(i as int),
        decreases plan.input_paths.len() - i,
    {
        put(&mut lines, indented("  - ", plan.input_paths[i].text().as_str()));
        assert(info::texts(lines@) =~= head + paths.take(i + 1));
        i = i + 1;
    }
    assert(paths.take(i as int) =~= paths);
    put(&mut lines, indented("  Output root: ", plan.output_root.text().as_str()));
    let mut line = "  Format: ".to_owned();
    line.append(format_source_mode(plan.source_format));
    line.append(" -> ");
    line.append(plan.target_format.name());
    put(&mut lines, line);
    let mut line = counted_line("  Threads: ", plan.thread_count as u64);
    if plan.thread_count != plan.requested_thread_count {
        line.append(" (capped from ");
        push_decimal(&mut line, plan.requested_thread_count as u64);
        line.append(" to match discovered work)");
    }
    put(&mut lines, line);
    let mut line = "  Compression level: ".to_owned();
    push_signed(&mut line, plan.compression_level as i64);
    put(&mut lines, line);
    put(&mut lines, counted_line("  Region files: ", plan.total_jobs as u64));
    assert(info::texts(lines@) =~= plan_lines(*plan));
    lines
}

/// A message about a job.
pub open spec fn job_text(
    label: Seq<char>,
    source: PathView,
    destination: PathView,
    message: Seq<char>,
) -> Seq<char> {
    label + " ["@ + source.text() + " -> "@ + destination.text() + "]: "@ + message
}

fn job_line(label: &str, source: &SavePath, destination: &SavePath, message: &String) -> (line:
    String)
    ensures
        line@ == job_text(label@, source@, destination@, message@),
{
    let mut line = label.to_owned();
    line.append(" [");
    line.append(source.text().as_str());
    line.append(" -> ");
    line.append(destination.text().as_str());
    line.append("]: ");
    line.append(message.as_str());
    line
}

/// The lines about what became of a job: a warning for each diagnostic, and the error
/// if it failed.
pub open spec fn report_lines(report: ReportView) -> Seq<Seq<char>> {
    Seq::new(
        report.diagnostics.len(),
        |i: int|
            job_text(
                "warning"@,
                report.source_file,
                report.destination_file,
                report.diagnostics[i].message,
            ),
    ) + match report.outcome {
        Ok(_) => seq![],
        Err(error) => seq![
            job_text("error"@, report.source_file, report.destination_file, error.message),
        ],
    }
}

fn diagnostic_lines(source: &SavePath, destination: &SavePath, diagnostics: &Vec<Diagnostic>) -> (lines:
    Vec<String>)
    ensures
        info::texts(lines@) == Seq::new(
            diagnostics@.len(),
            |i: int| job_text("warning"@, source@, destination@, diagnostics@[i].message@),
        ),
{
    let mut lines: Vec<String> = Vec::new();
    let mut i: usize = 0;
    while i < diagnostics.len()
        invariant
            i <= diagnostics.len(),
            lines@.len() == i,
            forall|k: int|
                0 <= k < i ==> (#[trigger] lines@[k])@ == job_text(
                    "warning"@,
                    source@,
                    destination@,
                    diagnostics@[k].message@,
                ),
        decreases diagnostics.len() - i,
    {
        lines.push(job_line("warning", source, destination, &diagnostics[i].message));
        i = i + 1;
    }
    assert(info::texts(lines@) =~= Seq::new(
        diagnostics@.len(),
        |i: int| job_text("warning"@, source@, destination@, diagnostics@[i].message@),
    ));
    lines
}

/// The lines about what became of a job.
pub fn render_report(report: &JobReport) -> (lines: Vec<String>)
    ensures
        info::texts(lines@) == report_lines(report@),
{
    match report {
        JobReport::Success(success) => {
            let lines = diagnostic_lines(
                &success.source_file,
                &success.destination_file,
                &success.diagnostics,
            );
            assert(info::texts(lines@) =~= report_lines(report@));
            lines
        },
        JobReport::Failure(failure) => {
            let mut lines = diagnostic_lines(
                &failure.source_file,
                &failure.destination_file,
                &failure.diagnostics,
            );
            put(
                &mut lines,
                job_line(
                    "error",
                    &failure.source_file,
                    &failure.destination_file,
                    &failure.error.message,
                ),
            );
            assert(info::texts(lines@) =~= report_lines(report@));
            lines
        },
    }
}

/// A time is told by its hours, where there are any, its minutes and its seconds.
pub proof fn law_duration_is_told(seconds: u64, h: nat, m: nat, s: nat)
    requires
        seconds == 3600 * h + 60 * m + s,
        m < 60,
        s < 60,
    ensures
        duration_text(seconds) == (if h > 0 {
            text::two_digits(h) + ":"@
        } else {
            seq![]
        }) + text::two_digits(m) + ":"@ + text::two_digits(s),
{
    assert(seconds as nat / 3600 == h);
    assert(seconds as nat % 3600 / 60 == m);
    assert(seconds as nat % 60 == s);
    assert(duration_text(seconds) =~= (if h > 0 {
        text::two_digits(h) + ":"@
    } else {
        seq![]
    }) + text::two_digits(m) + ":"@ + text::two_digits(s));
}

/// The formats that were found are told one after the other, each with its number, and
/// that none is known where there is none.
pub proof fn law_formats_are_told_one_by_one(counts: Seq<FormatCount>, more: FormatCount)
    ensures
        breakdown_text(seq![]) == "unknown"@,
        breakdown_text(counts.push(more)) == (if counts.len() == 0 {
            seq![]
        } else {
            breakdown_text(counts) + ", "@
        }) + formats::storage_text(more.format) + " x"@ + text::decimal(more.count as nat),
{
    let all = counts.push(more);
    assert(all.drop_last() =~= counts);
    assert(breakdown_text(all) =~= (if counts.len() == 0 {
        seq![]
    } else {
        breakdown_text(counts) + ", "@
    }) + formats::storage_text(more.format) + " x"@ + text::decimal(more.count as nat));
}

/// The warnings of an entry are told in their order.
proof fn lemma_entry_warnings(entry: EntryView, n: nat)
    requires
        n <= entry.warnings.len(),
    ensures
        entry_warnings(entry, n).len() == n,
        forall|k: int|
            0 <= k < n ==> #[trigger] entry_warnings(entry, n)[k] == "  - ["@
                + entry.source_file.text() + "] "@ + entry.warnings[k],
    decreases n,
{
    if n > 0 {
        lemma_entry_warnings(entry, (n - 1) as nat);
        let before = entry_warnings(entry, (n - 1) as nat);
        assert forall|k: int| 0 <= k < n implies #[trigger] entry_warnings(entry, n)[k] == "  - ["@
            + entry.source_file.text() + "] "@ + entry.warnings[k] by {
            if k < n - 1 {
                assert(entry_warnings(entry, n)[k] == before[k]);
            }
        }
    }
}

/// Each warning and each error of each entry is told, with the file that it is about.
pub proof fn law_every_issue_is_told(entries: Seq<EntryView>, i: int, k: int)
    requires
        0 <= i < entries.len(),
    ensures
        0 <= k < entries[i].warnings.len() ==> warning_lines(entries).contains(
            "  - ["@ + entries[i].source_file.text() + "] "@ + entries[i].warnings[k],
        ),
        entries[i].error matches Some(message) ==> error_lines(entries).contains(
            "  - ["@ + entries[i].source_file.text() + "] "@ + message,
        ),
    decreases entries.len(),
{
    let before = entries.drop_last();
    let warnings = warning_lines(entries);
    let errors = error_lines(entries);
    if i < before.len() {
        law_every_issue_is_told(before, i, k);
        assert(before[i] == entries[i]);
        if 0 <= k < entries[i].warnings.len() {
            let line = "  - ["@ + entries[i].source_file.text() + "] "@ + entries[i].warnings[k];
            let early = warning_lines(before);
            let j = choose|j: int| 0 <= j < early.len() && early[j] == line;
            assert(warnings[j] == line);
        }
        if let Some(message) = entries[i].error {
            let line = "  - ["@ + entries[i].source_file.text() + "] "@ + message;
            let early = error_lines(before);
            let j = choose|j: int| 0 <= j < early.len() && early[j] == line;
            assert(errors[j] == line);
        }
    } else {
        let last = entries.last();
        lemma_entry_warnings(last, last.warnings.len());
        if 0 <= k < last.warnings.len() {
            let line = "  - ["@ + last.source_file.text() + "] "@ + last.warnings[k];
            assert(warnings[warning_lines(before).len() + k] == line);
        }
        if last.error is Some {
            assert(errors[errors.len() - 1] == errors.last());
        }
    }
}

/// No more issues are told than there are: a line for each warning, and one for each entry
/// with an error.
pub proof fn law_only_issues_are_told(entries: Seq<EntryView>)
    ensures
        warning_lines(entries).len() == info::total_of(entries, None, info::warned()),
        error_lines(entries).len() == entries.filter(|entry: EntryView| entry.error is Some).len(),
    decreases entries.len(),
{
    reveal(Seq::filter);
    if entries.len() > 0 {
        law_only_issues_are_told(entries.drop_last());
        lemma_entry_warnings(entries.last(), entries.last().warnings.len());
    }
}

/// The entry that is told of with an input is the first of the input.
pub proof fn law_first_entry_of_an_input(entries: Seq<EntryView>, index: usize, from: int)
    requires
        0 <= from <= entries.len(),
    ensures
        from <= first_entry(entries, index, from) <= entries.len(),
        first_entry(entries, index, from) < entries.len() ==> entries[first_entry(
            entries,
            index,
            from,
        )].input_index == index,
        forall|i: int|
            from <= i < first_entry(entries, index, from) ==> (
            #[trigger] entries[i]).input_index != index,
    decreases entries.len() - from,
{
    if from < entries.len() && entries[from].input_index != index {
        law_first_entry_of_an_input(entries, index, from + 1);
    }
}

/// What became of a job is told by one line for each diagnostic, and one more where it
/// failed, each with both files.
pub proof fn law_report_is_told_by_lines(report: ReportView, i: int)
    ensures
        report_lines(report).len() == report.diagnostics.len() + if report.outcome is Err {
            1nat
        } else {
            0
        },
        0 <= i < report.diagnostics.len() ==> report_lines(report)[i] == "warning ["@
            + report.source_file.text() + " -> "@ + report.destination_file.text() + "]: "@
            + report.diagnostics[i].message,
        report.outcome matches Err(failure) ==> report_lines(report).last() == "error ["@
            + report.source_file.text() + " -> "@ + report.destination_file.text() + "]: "@
            + failure.message,
{
    reveal_strlit("warning");
    reveal_strlit("error");
    reveal_strlit(" [");
    reveal_strlit("warning [");
    reveal_strlit("error [");
    assert("warning"@ + " ["@ =~= "warning ["@);
    assert("error"@ + " ["@ =~= "error ["@);
}

/// A plan tells the inputs in their order, the output, both formats, the threads, the level
/// and the number of region files, a line each.
pub proof fn law_plan_is_told_by_lines(plan: RunPlan, i: int)
    ensures
        ({
            let lines = plan_lines(plan);
            let n = plan.input_paths@.len() as int;
            &&& lines.len() == n + 7
            &&& 0 <= i < n ==> lines[2 + i] == "  - "@ + plan.input_paths@[i]@.text()
            &&& lines[n + 2] == "  Output root: "@ + plan.output_root@.text()
            &&& lines[n + 3] == "  Format: "@ + (match plan.source_format {
                Some(hint) => formats::hint_text(hint),
                None => "auto"@,
            }) + " -> "@ + formats::format_text(plan.target_format)
            &&& ("  Threads: "@ + text::decimal(plan.thread_count as nat)).is_prefix_of(
                lines[n + 4],
            )
            &&& lines[n + 5] == "  Compression level: "@ + text::signed_decimal(
                plan.compression_level as int,
            )
            &&& lines[n + 6] == "  Region files: "@ + text::decimal(plan.total_jobs as nat)
        }),
{
    let lines = plan_lines(plan);
    let n = plan.input_paths@.len() as int;
    let threads = "  Threads: "@ + text::decimal(plan.thread_count as nat);
    assert(path_lines(path::path_views(plan.input_paths@)).len() == n);
    assert(threads =~= lines[n + 4].subrange(0, threads.len() as int));
}

/// A region file that is an input is told by its format, its place, its size and its error,
/// a line for each that is known and two for the error.
pub proof fn law_entry_is_told_by_lines(entry: EntryView, words: Seq<char>)
    ensures
        ({
            let lines = entry_lines(entry, words);
            let format = if entry.storage_format is Some {
                1int
            } else {
                0
            };
            let coords = if entry.region_x is Some && entry.region_z is Some {
                1int
            } else {
                0
            };
            let size = if entry.size_bytes is Some {
                1int
            } else {
                0
            };
            &&& lines.len() == format + coords + size + if entry.error is Some {
                2int
            } else {
                0
            }
            &&& entry.storage_format matches Some(known) ==> lines[0] == "    Format: "@
                + formats::storage_text(known)
            &&& entry.region_x matches Some(x) ==> entry.region_z matches Some(z)
                ==> lines[format] == "    Region coords: ("@ + text::signed_decimal(x as int)
                + ", "@ + text::signed_decimal(z as int) + ")"@
            &&& entry.size_bytes matches Some(bytes) ==> lines[format + coords]
                == "    File size: "@ + words + " ("@ + text::decimal(bytes as nat) + " bytes)"@
            &&& entry.error matches Some(message) ==> {
                &&& lines[format + coords + size] == "    Status: failed"@
                &&& lines[format + coords + size + 1] == "    Error: "@ + message
            }
        }),
{
}

/// An input is told by its path and kind, the numbers of its files, their size, their chunks
/// and their formats, and a region file by its entry as well.
pub proof fn law_input_is_told_by_lines(
    input: InputInfoView,
    index: usize,
    entries: Seq<EntryView>,
    words: Seq<char>,
    entry_words: Seq<Seq<char>>,
)
    ensures
        ({
            let lines = input_lines(input, index, entries, words, entry_words);
            let totals = input.totals;
            &&& lines.len() >= 6
            &&& lines[0] == "  - "@ + input.input_path.text() + " ["@ + discovery::kind_text(
                input.input_kind,
            ) + "]"@
            &&& lines[1] == "    "@ + "Region files: "@ + text::decimal(totals.region_files as nat)
            &&& lines[2] == "    "@ + "Readable regions: "@ + text::decimal(
                totals.readable_regions as nat,
            ) + " | Failed regions: "@ + text::decimal(totals.failed_regions as nat)
            &&& lines[3] == "    "@ + "Total size: "@ + words + " ("@ + text::decimal(
                totals.total_size_bytes as nat,
            ) + " bytes)"@
            &&& lines[4] == "    "@ + "Chunks ok: "@ + text::decimal(totals.chunk_count as nat)
                + " | Discarded chunks: "@ + text::decimal(totals.discarded_chunks as nat)
                + " | Warnings: "@ + text::decimal(totals.warnings as nat)
            &&& lines[5] == "    Formats: "@ + breakdown_text(input.format_breakdown)
            &&& forall|i: int|
                0 <= i < entries.len() && (#[trigger] entries[i]).input_index == index && (forall|
                    j: int,
                |
                    0 <= j < i ==> (#[trigger] entries[j]).input_index != index) ==> lines.skip(6)
                    == if input.input_kind == InputKind::RegionFile {
                    entry_lines(entries[i], entry_words[i])
                } else {
                    seq![]
                }
        }),
{
    let lines = input_lines(input, index, entries, words, entry_words);
    law_first_entry_of_an_input(entries, index, 0);
    let found = first_entry(entries, index, 0);
    let rest = if input.input_kind == InputKind::RegionFile && found < entries.len() {
        entry_lines(entries[found], entry_words[found])
    } else {
        seq![]
    };
    assert(lines.skip(6) =~= rest);
}

/// An inspection is told input by input, then as a whole, with the time that it took, and
/// then each warning and each error under a heading of its own, where there is one.
pub proof fn law_inspection_is_told_by_lines(summary: InfoSummary, sizes: InfoSizes, seconds: u64)
    ensures
        ({
            let lines = info_lines(summary, sizes, seconds);
            let entries = sort::views(summary.entries@);
            let warnings = warning_lines(entries);
            let errors = error_lines(entries);
            let tail = (if warnings.len() > 0 {
                seq!["Warnings:"@] + warnings
            } else {
                seq![]
            }) + (if errors.len() > 0 {
                seq!["Errors:"@] + errors
            } else {
                seq![]
            });
            let n = lines.len() - tail.len();
            &&& n >= 9
            &&& lines[0] == "Save info:"@
            &&& lines[1] == "  Inputs ("@ + text::decimal(summary.inputs@.len()) + "):"@
            &&& lines[n - 7] == "Overall:"@
            &&& lines[n - 6] == "  Threads used: "@ + text::decimal(summary.thread_count as nat)
            &&& lines[n - 5] == "  "@ + "Region files: "@ + text::decimal(
                summary.total_region_files as nat,
            )
            &&& lines[n - 4] == "  "@ + "Readable regions: "@ + text::decimal(
                summary.readable_regions as nat,
            ) + " | Failed regions: "@ + text::decimal(summary.failed_regions as nat)
            &&& lines[n - 3] == "  "@ + "Total size: "@ + sizes.total@ + " ("@ + text::decimal(
                summary.total_size_bytes as nat,
            ) + " bytes)"@
            &&& lines[n - 2] == "  "@ + "Chunks ok: "@ + text::decimal(summary.chunk_count as nat)
                + " | Discarded chunks: "@ + text::decimal(summary.discarded_chunks as nat)
                + " | Warnings: "@ + text::decimal(summary.warnings as nat)
            &&& lines[n - 1] == "  Completed in "@ + duration_text(seconds)
            &&& lines.skip(n) == tail
        }),
{
    let inputs = sort::views(summary.inputs@);
    let entries = sort::views(summary.entries@);
    let warnings = warning_lines(entries);
    let errors = error_lines(entries);
    let lines = info_lines(summary, sizes, seconds);
    let head = seq!["Save info:"@, counted("  Inputs ("@, inputs.len()) + "):"@];
    let middle = inputs_lines(
        inputs,
        entries,
        info::texts(sizes.inputs@),
        info::texts(sizes.entries@),
        inputs.len(),
    );
    let overall = seq!["Overall:"@, counted("  Threads used: "@, summary.thread_count as nat)];
    let totals = totals_lines("  "@, info::summary_totals(summary), sizes.total@);
    let done = seq!["  Completed in "@ + duration_text(seconds)];
    let first = headed("Warnings:"@, warnings);
    let second = headed("Errors:"@, errors);
    let m = (head + middle).len() as int;
    assert(lines == head + middle + overall + totals + done + first + second);
    assert(totals.len() == 4);
    assert(lines.len() == m + 7 + first.len() + second.len());
    assert(lines.skip(m + 7) =~= first + second);
    assert(lines[m] == overall[0] && lines[m + 1] == overall[1]);
    assert(lines[m + 2] == totals[0] && lines[m + 3] == totals[1]);
    assert(lines[m + 4] == totals[2] && lines[m + 5] == totals[3]);
    assert(lines[m + 6] == done[0]);
}

} // verus!
