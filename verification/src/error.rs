//! What can be wrong with a region file, or with one chunk of it.

use vstd::prelude::*;
use vstd::string::*;

use crate::path::{PathView, SavePath};
use crate::text::{self, push_decimal, push_hexadecimal};

verus! {

/// What keeps a whole region from being read or written.
#[derive(Clone, Copy, Debug, PartialEq, Eq, Structural)]
pub enum RegionErrorKind {
    /// A chunk index past the last slot of a region.
    ChunkIndexOutOfRange(usize),
    /// A file whose extension is not that of a region file.
    UnsupportedExtension,
    /// A path that does not end in a file name.
    MissingFileName,
    /// A file name that does not have the parts of a region file name.
    FileNameShape,
    /// A file name whose x coordinate is not a number.
    InvalidRegionX,
    /// A file name whose z coordinate is not a number.
    InvalidRegionZ,
    /// An attempt to write the placeholder for both blinear versions.
    GenericTarget,
    /// A blinear file that ends inside its header.
    BlinearHeaderMissing,
    /// A blinear file that does not start with the superblock.
    UnknownSuperblock,
    /// A blinear file of a version that is not known.
    UnknownVersion(u8),
    /// An mca file that ends inside its header.
    McaTooSmall,
    /// A chunk that could not be compressed.
    McaCompression(usize),
    /// A linear file without room for its header and footer.
    LinearTooSmall,
    /// A linear file that does not start with the superblock.
    LinearSuperblock,
    /// A linear file of a version that is not known.
    LinearVersion(u8),
    /// A linear file whose length is not the one its header tells.
    LinearLength,
    /// A linear file that does not end with the superblock.
    LinearFooter,
    /// A linear payload that ends inside its chunk table.
    LinearTable,
    /// A linear chunk table whose lengths add up to too much.
    LinearOverflow,
    /// A linear header and a chunk table that disagree on the number of chunks.
    LinearChunkCount(usize, usize),
    /// A linear chunk table whose lengths do not add up to the payload.
    LinearPayload,
    /// A chunk that is too long for a linear chunk table.
    LinearChunkTooLarge,
    /// A linear payload that could not be compressed.
    LinearCompression,
    /// A compressed linear payload that is too long for the header.
    LinearCompressedTooLarge,
    /// A payload that is no zstd stream.
    Decompression,
    /// A chunk that is too long for a chunk section.
    ChunkTooLarge,
    /// A blinear_v2 file that ends inside its header.
    BlinearV2TooSmall,
    /// A blinear_v2 file that does not start with the superblock.
    BlinearV2Superblock,
    /// A blinear_v2 file of another version.
    BlinearV2Version(u8),
    /// A blinear_v2 payload that ends before a slot.
    BlinearV2Ended(usize),
    /// A blinear_v2 payload with a negative section length.
    BlinearV2NegativeSection(usize),
    /// A blinear_v2 payload with bytes after its slots.
    BlinearV2Trailing,
    /// A chunk section that is too long for a blinear_v2 slot.
    BlinearV2SectionTooLarge,
    /// A blinear_v2 payload that could not be compressed.
    BlinearV2Compression,
    /// A blinear_v2 payload that could not be compressed as a stream.
    BlinearV2Stream,
    /// A blinear_v3 file that ends inside its header.
    BlinearV3TooSmall,
    /// A blinear_v3 file that does not start with the superblock.
    BlinearV3Superblock,
    /// A blinear_v3 file of another version.
    BlinearV3Version(u8),
    /// A chunk section that is too long for a blinear_v3 slot.
    BlinearV3SectionTooLarge,
    /// A blinear_v3 bucket that could not be compressed.
    BlinearV3Compression,
    /// A blinear_v3 bucket that is too long for its header.
    BlinearV3BucketTooLarge,
    /// A compressed blinear_v3 bucket that is too long for its header.
    BlinearV3CompressedTooLarge,
}

/// What keeps one chunk of a region from being read.
#[derive(Clone, Copy, Debug, PartialEq, Eq, Structural)]
pub enum ChunkErrorKind {
    /// A chunk section that ends inside its header.
    SectionTooShort,
    /// A chunk section with a negative length.
    NegativeLength,
    /// A chunk section whose declared and actual lengths differ.
    LengthMismatch(usize, usize),
    /// A chunk section whose expected and actual hashes differ.
    HashMismatch(u32, u32),
    /// A chunk in a file of its own that could not be read.
    ExternalUnreadable,
    /// An mca chunk without room for its compression type.
    LengthTooShort,
    /// An mca chunk that is longer than its sectors.
    ExceedsAllocation,
    /// An mca chunk whose payload could not be decompressed.
    DecompressionFailed,
    /// An mca chunk of a compression type that is not known.
    UnsupportedCompression(u8),
}

/// An error about a whole region, with the text of the outside error behind it
/// where there is one.
#[derive(Clone, Debug, PartialEq, Eq)]
pub struct RegionError {
    pub kind: RegionErrorKind,
    pub detail: String,
}

/// An error about one chunk, with the text of the outside error behind it where
/// there is one.
#[derive(Clone, Debug, PartialEq, Eq)]
pub struct ChunkError {
    pub kind: ChunkErrorKind,
    pub detail: String,
}

/// What a `RegionError` says.
#[verifier::ext_equal]
pub struct RegionFault {
    pub kind: RegionErrorKind,
    pub detail: Seq<char>,
}

/// What a `ChunkError` says.
#[verifier::ext_equal]
pub struct ChunkFault {
    pub kind: ChunkErrorKind,
    pub detail: Seq<char>,
}

impl View for RegionError {
    type V = RegionFault;

    open spec fn view(&self) -> RegionFault {
        RegionFault { kind: self.kind, detail: self.detail@ }
    }
}

impl View for ChunkError {
    type V = ChunkFault;

    open spec fn view(&self) -> ChunkFault {
        ChunkFault { kind: self.kind, detail: self.detail@ }
    }
}

/// The fault of the given kind without an outside error behind it.
pub open spec fn region_fault(kind: RegionErrorKind) -> RegionFault {
    RegionFault { kind, detail: seq![] }
}

/// The fault of the given kind without an outside error behind it.
pub open spec fn chunk_fault(kind: ChunkErrorKind) -> ChunkFault {
    ChunkFault { kind, detail: seq![] }
}

/// The file name of `path`, or nothing.
pub open spec fn name_text(path: PathView) -> Seq<char> {
    match path.file_name() {
        Some(name) => name,
        None => seq![],
    }
}

/// The message of an error of the given kind about the file `path`.
pub open spec fn region_error_text(kind: RegionErrorKind, detail: Seq<char>, path: PathView) -> Seq<char> {
    match kind {
        RegionErrorKind::ChunkIndexOutOfRange(n) => "chunk index "@ + text::decimal(n as nat) + " is outside the 32x32 region grid"@,
        RegionErrorKind::UnsupportedExtension => "unsupported region file extension for "@ + path.text(),
        RegionErrorKind::MissingFileName => "region file name is not valid UTF-8: "@ + path.text(),
        RegionErrorKind::FileNameShape => "region file name does not match r.<x>.<z>.<ext>: "@ + name_text(path),
        RegionErrorKind::InvalidRegionX => "invalid region x coordinate in "@ + name_text(path),
        RegionErrorKind::InvalidRegionZ => "invalid region z coordinate in "@ + name_text(path),
        RegionErrorKind::GenericTarget => "generic blinear format is only valid as an input placeholder"@,
        RegionErrorKind::BlinearHeaderMissing => "failed to read blinear header from "@ + path.text() + ": failed to fill whole buffer"@,
        RegionErrorKind::UnknownSuperblock => "unknown blinear superblock in "@ + path.text(),
        RegionErrorKind::UnknownVersion(n) => "unsupported blinear version "@ + text::decimal(n as nat) + " in "@ + path.text(),
        RegionErrorKind::McaTooSmall => "mca region "@ + path.text() + " is smaller than the 8 KiB header"@,
        RegionErrorKind::McaCompression(n) => "failed to compress chunk slot "@ + text::decimal(n as nat) + ": "@ + detail,
        RegionErrorKind::LinearTooSmall => "linear region "@ + path.text() + " is too small"@,
        RegionErrorKind::LinearSuperblock => "invalid linear superblock"@,
        RegionErrorKind::LinearVersion(n) => "unsupported linear version "@ + text::decimal(n as nat) + "; this converter writes and reads classic linear v1/v2"@,
        RegionErrorKind::LinearLength => "linear region compressed length does not match the file size"@,
        RegionErrorKind::LinearFooter => "invalid linear footer signature"@,
        RegionErrorKind::LinearTable => "linear region payload is smaller than the 1024-entry chunk table"@,
        RegionErrorKind::LinearOverflow => "linear chunk payload lengths overflowed the region size"@,
        RegionErrorKind::LinearChunkCount(a, b) => "linear region chunk count mismatch: header says "@ + text::decimal(a as nat) + ", table says "@ + text::decimal(b as nat),
        RegionErrorKind::LinearPayload => "linear region payload lengths do not match the decompressed size"@,
        RegionErrorKind::LinearChunkTooLarge => "linear chunk payload is too large: out of range integral type conversion attempted"@,
        RegionErrorKind::LinearCompression => "failed to zstd-compress the linear region payload: "@ + detail,
        RegionErrorKind::LinearCompressedTooLarge => "linear compressed payload is too large: out of range integral type conversion attempted"@,
        RegionErrorKind::Decompression => "failed to decompress "@ + path.text() + ": "@ + detail,
        RegionErrorKind::ChunkTooLarge => "chunk payload is too large: out of range integral type conversion attempted"@,
        RegionErrorKind::BlinearV2TooSmall => "blinear_v2 region "@ + path.text() + " is too small"@,
        RegionErrorKind::BlinearV2Superblock => "invalid blinear_v2 superblock"@,
        RegionErrorKind::BlinearV2Version(n) => "invalid blinear_v2 version "@ + text::decimal(n as nat),
        RegionErrorKind::BlinearV2Ended(n) => "blinear_v2 region "@ + path.text() + " ended before slot "@ + text::decimal(n as nat),
        RegionErrorKind::BlinearV2NegativeSection(n) => "blinear_v2 region "@ + path.text() + " has a negative section length at slot "@ + text::decimal(n as nat),
        RegionErrorKind::BlinearV2Trailing => "blinear_v2 region "@ + path.text() + " has trailing bytes after slot parsing"@,
        RegionErrorKind::BlinearV2SectionTooLarge => "blinear_v2 section is too large: out of range integral type conversion attempted"@,
        RegionErrorKind::BlinearV2Compression => "failed to zstd-compress the blinear_v2 payload: "@ + detail,
        RegionErrorKind::BlinearV2Stream => "failed to finish the blinear_v2 zstd stream: "@ + detail,
        RegionErrorKind::BlinearV3TooSmall => "blinear_v3 region "@ + path.text() + " is too small"@,
        RegionErrorKind::BlinearV3Superblock => "invalid blinear_v3 superblock"@,
        RegionErrorKind::BlinearV3Version(n) => "invalid blinear_v3 version "@ + text::decimal(n as nat),
        RegionErrorKind::BlinearV3SectionTooLarge => "blinear_v3 section is too large: out of range integral type conversion attempted"@,
        RegionErrorKind::BlinearV3Compression => "failed to zstd-compress a blinear_v3 bucket: "@ + detail,
        RegionErrorKind::BlinearV3BucketTooLarge => "blinear_v3 bucket is too large: out of range integral type conversion attempted"@,
        RegionErrorKind::BlinearV3CompressedTooLarge => "compressed blinear_v3 bucket is too large: out of range integral type conversion attempted"@,
    }
}

/// The message of a chunk error of the given kind.
pub open spec fn chunk_error_text(kind: ChunkErrorKind, detail: Seq<char>) -> Seq<char> {
    match kind {
        ChunkErrorKind::SectionTooShort => "chunk section is shorter than 16 bytes"@,
        ChunkErrorKind::NegativeLength => "chunk section has a negative payload length"@,
        ChunkErrorKind::LengthMismatch(a, b) => "chunk section length mismatch: declared "@ + text::decimal(a as nat) + " bytes but found "@ + text::decimal(b as nat) + " bytes"@,
        ChunkErrorKind::HashMismatch(a, b) => "chunk section xxhash32 mismatch: expected 0x"@ + text::hexadecimal(a as nat, 8) + ", got 0x"@ + text::hexadecimal(b as nat, 8),
        ChunkErrorKind::ExternalUnreadable => detail,
        ChunkErrorKind::LengthTooShort => "chunk length is too short"@,
        ChunkErrorKind::ExceedsAllocation => "chunk payload exceeds its declared sector allocation"@,
        ChunkErrorKind::DecompressionFailed => detail,
        ChunkErrorKind::UnsupportedCompression(n) => "unsupported mca compression type "@ + text::decimal(n as nat),
    }
}

fn push_name(text: &mut String, path: &SavePath)
    ensures
        final(text)@ == old(text)@ + name_text(path@),
{
    match path.file_name() {
        Some(name) => text.append(name.as_str()),
        None => {
            assert(text@ =~= old(text)@ + name_text(path@));
        },
    }
}

impl RegionError {
    pub fn new(kind: RegionErrorKind) -> (error: RegionError)
        ensures
            error@ == region_fault(kind),
    {
        RegionError { kind, detail: String::new() }
    }

    pub fn with_detail(kind: RegionErrorKind, detail: String) -> (error: RegionError)
        ensures
            error@ == (RegionFault { kind, detail: detail@ }),
    {
        RegionError { kind, detail }
    }

    /// The message of this error about the file `path`.
    pub fn message(&self, path: &SavePath) -> (text: String)
        ensures
            text@ == region_error_text(self.kind, self.detail@, path@),
    {
        let mut text = String::new();
        match self.kind {
            RegionErrorKind::ChunkIndexOutOfRange(n) => {
                text.append("chunk index ");
                push_decimal(&mut text, n as u64);
                text.append(" is outside the 32x32 region grid");
            },
            RegionErrorKind::UnsupportedExtension => {
                text.append("unsupported region file extension for ");
                text.append(path.text().as_str());
            },
            RegionErrorKind::MissingFileName => {
                text.append("region file name is not valid UTF-8: ");
                text.append(path.text().as_str());
            },
            RegionErrorKind::FileNameShape => {
                text.append("region file name does not match r.<x>.<z>.<ext>: ");
                push_name(&mut text, path);
            },
            RegionErrorKind::InvalidRegionX => {
                text.append("invalid region x coordinate in ");
                push_name(&mut text, path);
            },
            RegionErrorKind::InvalidRegionZ => {
                text.append("invalid region z coordinate in ");
                push_name(&mut text, path);
            },
            RegionErrorKind::GenericTarget => {
                text.append("generic blinear format is only valid as an input placeholder");
            },
            RegionErrorKind::BlinearHeaderMissing => {
                text.append("failed to read blinear header from ");
                text.append(path.text().as_str());
                text.append(": failed to fill whole buffer");
            },
            RegionErrorKind::UnknownSuperblock => {
                text.append("unknown blinear superblock in ");
                text.append(path.text().as_str());
            },
            RegionErrorKind::UnknownVersion(n) => {
                text.append("unsupported blinear version ");
                push_decimal(&mut text, n as u64);
                text.append(" in ");
                text.append(path.text().as_str());
            },
            RegionErrorKind::McaTooSmall => {
                text.append("mca region ");
                text.append(path.text().as_str());
                text.append(" is smaller than the 8 KiB header");
            },
            RegionErrorKind::McaCompression(n) => {
                text.append("failed to compress chunk slot ");
                push_decimal(&mut text, n as u64);
                text.append(": ");
                text.append(self.detail.as_str());
            },
            RegionErrorKind::LinearTooSmall => {
                text.append("linear region ");
                text.append(path.text().as_str());
                text.append(" is too small");
            },
            RegionErrorKind::LinearSuperblock => {
                text.append("invalid linear superblock");
            },
            RegionErrorKind::LinearVersion(n) => {
                text.append("unsupported linear version ");
                push_decimal(&mut text, n as u64);
                text.append("; this converter writes and reads classic linear v1/v2");
            },
            RegionErrorKind::LinearLength => {
                text.append("linear region compressed length does not match the file size");
            },
            RegionErrorKind::LinearFooter => {
                text.append("invalid linear footer signature");
            },
            RegionErrorKind::LinearTable => {
                text.append("linear region payload is smaller than the 1024-entry chunk table");
            },
            RegionErrorKind::LinearOverflow => {
                text.append("linear chunk payload lengths overflowed the region size");
            },
            RegionErrorKind::LinearChunkCount(a, b) => {
                text.append("linear region chunk count mismatch: header says ");
                push_decimal(&mut text, a as u64);
                text.append(", table says ");
                push_decimal(&mut text, b as u64);
            },
            RegionErrorKind::LinearPayload => {
                text.append("linear region payload lengths do not match the decompressed size");
            },
            RegionErrorKind::LinearChunkTooLarge => {
                text.append("linear chunk payload is too large: out of range integral type conversion attempted");
            },
            RegionErrorKind::LinearCompression => {
                text.append("failed to zstd-compress the linear region payload: ");
                text.append(self.detail.as_str());
            },
            RegionErrorKind::LinearCompressedTooLarge => {
                text.append("linear compressed payload is too large: out of range integral type conversion attempted");
            },
            RegionErrorKind::Decompression => {
                text.append("failed to decompress ");
                text.append(path.text().as_str());
                text.append(": ");
                text.append(self.detail.as_str());
            },
            RegionErrorKind::ChunkTooLarge => {
                text.append("chunk payload is too large: out of range integral type conversion attempted");
            },
            RegionErrorKind::BlinearV2TooSmall => {
                text.append("blinear_v2 region ");
                text.append(path.text().as_str());
                text.append(" is too small");
            },
            RegionErrorKind::BlinearV2Superblock => {
                text.append("invalid blinear_v2 superblock");
            },
            RegionErrorKind::BlinearV2Version(n) => {
                text.append("invalid blinear_v2 version ");
                push_decimal(&mut text, n as u64);
            },
            RegionErrorKind::BlinearV2Ended(n) => {
                text.append("blinear_v2 region ");
                text.append(path.text().as_str());
                text.append(" ended before slot ");
                push_decimal(&mut text, n as u64);
            },
            RegionErrorKind::BlinearV2NegativeSection(n) => {
                text.append("blinear_v2 region ");
                text.append(path.text().as_str());
                text.append(" has a negative section length at slot ");
                push_decimal(&mut text, n as u64);
            },
            RegionErrorKind::BlinearV2Trailing => {
                text.append("blinear_v2 region ");
                text.append(path.text().as_str());
                text.append(" has trailing bytes after slot parsing");
            },
            RegionErrorKind::BlinearV2SectionTooLarge => {
                text.append("blinear_v2 section is too large: out of range integral type conversion attempted");
            },
            RegionErrorKind::BlinearV2Compression => {
                text.append("failed to zstd-compress the blinear_v2 payload: ");
                text.append(self.detail.as_str());
            },
            RegionErrorKind::BlinearV2Stream => {
                text.append("failed to finish the blinear_v2 zstd stream: ");
                text.append(self.detail.as_str());
            },
            RegionErrorKind::BlinearV3TooSmall => {
                text.append("blinear_v3 region ");
                text.append(path.text().as_str());
                text.append(" is too small");
            },
            RegionErrorKind::BlinearV3Superblock => {
                text.append("invalid blinear_v3 superblock");
            },
            RegionErrorKind::BlinearV3Version(n) => {
                text.append("invalid blinear_v3 version ");
                push_decimal(&mut text, n as u64);
            },
            RegionErrorKind::BlinearV3SectionTooLarge => {
                text.append("blinear_v3 section is too large: out of range integral type conversion attempted");
            },
            RegionErrorKind::BlinearV3Compression => {
                text.append("failed to zstd-compress a blinear_v3 bucket: ");
                text.append(self.detail.as_str());
            },
            RegionErrorKind::BlinearV3BucketTooLarge => {
                text.append("blinear_v3 bucket is too large: out of range integral type conversion attempted");
            },
            RegionErrorKind::BlinearV3CompressedTooLarge => {
                text.append("compressed blinear_v3 bucket is too large: out of range integral type conversion attempted");
            },
        }
        assert(text@ =~= region_error_text(self.kind, self.detail@, path@));
        text
    }
}

impl ChunkError {
    pub fn new(kind: ChunkErrorKind) -> (error: ChunkError)
        ensures
            error@ == chunk_fault(kind),
    {
        ChunkError { kind, detail: String::new() }
    }

    pub fn with_detail(kind: ChunkErrorKind, detail: String) -> (error: ChunkError)
        ensures
            error@ == (ChunkFault { kind, detail: detail@ }),
    {
        ChunkError { kind, detail }
    }

    /// The message of this error.
    pub fn message(&self) -> (text: String)
        ensures
            text@ == chunk_error_text(self.kind, self.detail@),
    {
        let mut text = String::new();
        match self.kind {
            ChunkErrorKind::SectionTooShort => {
                text.append("chunk section is shorter than 16 bytes");
            },
            ChunkErrorKind::NegativeLength => {
                text.append("chunk section has a negative payload length");
            },
            ChunkErrorKind::LengthMismatch(a, b) => {
                text.append("chunk section length mismatch: declared ");
                push_decimal(&mut text, a as u64);
                text.append(" bytes but found ");
                push_decimal(&mut text, b as u64);
                text.append(" bytes");
            },
            ChunkErrorKind::HashMismatch(a, b) => {
                text.append("chunk section xxhash32 mismatch: expected 0x");
                push_hexadecimal(&mut text, a as u64, 8);
                text.append(", got 0x");
                push_hexadecimal(&mut text, b as u64, 8);
            },
            ChunkErrorKind::ExternalUnreadable => {
                text.append(self.detail.as_str());
            },
            ChunkErrorKind::LengthTooShort => {
                text.append("chunk length is too short");
            },
            ChunkErrorKind::ExceedsAllocation => {
                text.append("chunk payload exceeds its declared sector allocation");
            },
            ChunkErrorKind::DecompressionFailed => {
                text.append(self.detail.as_str());
            },
            ChunkErrorKind::UnsupportedCompression(n) => {
                text.append("unsupported mca compression type ");
                push_decimal(&mut text, n as u64);
            },
        }
        assert(text@ =~= chunk_error_text(self.kind, self.detail@));
        text
    }
}

/// The message of an error with an outside error behind it ends with the text of that, and
/// a mismatch tells both numbers.
pub proof fn law_message_tells_what_is_behind_it(
    detail: Seq<char>,
    path: PathView,
    a: usize,
    b: usize,
    x: u32,
    y: u32,
)
    ensures
        detail.is_suffix_of(region_error_text(RegionErrorKind::McaCompression(a), detail, path)),
        detail.is_suffix_of(region_error_text(RegionErrorKind::LinearCompression, detail, path)),
        detail.is_suffix_of(region_error_text(RegionErrorKind::Decompression, detail, path)),
        detail.is_suffix_of(region_error_text(RegionErrorKind::BlinearV2Compression, detail, path)),
        detail.is_suffix_of(region_error_text(RegionErrorKind::BlinearV2Stream, detail, path)),
        detail.is_suffix_of(region_error_text(RegionErrorKind::BlinearV3Compression, detail, path)),
        chunk_error_text(ChunkErrorKind::ExternalUnreadable, detail) == detail,
        chunk_error_text(ChunkErrorKind::DecompressionFailed, detail) == detail,
        ("chunk section length mismatch: declared "@ + text::decimal(a as nat)).is_prefix_of(
            chunk_error_text(ChunkErrorKind::LengthMismatch(a, b), detail),
        ),
        (text::decimal(b as nat) + " bytes"@).is_suffix_of(
            chunk_error_text(ChunkErrorKind::LengthMismatch(a, b), detail),
        ),
        ("chunk section xxhash32 mismatch: expected 0x"@ + text::hexadecimal(
            x as nat,
            8,
        )).is_prefix_of(chunk_error_text(ChunkErrorKind::HashMismatch(x, y), detail)),
        ("got 0x"@ + text::hexadecimal(y as nat, 8)).is_suffix_of(
            chunk_error_text(ChunkErrorKind::HashMismatch(x, y), detail),
        ),
        text::decimal(b as nat).is_suffix_of(
            region_error_text(RegionErrorKind::LinearChunkCount(a, b), detail, path),
        ),
        ("linear region chunk count mismatch: header says "@ + text::decimal(
            a as nat,
        )).is_prefix_of(
            region_error_text(RegionErrorKind::LinearChunkCount(a, b), detail, path),
        ),
{
    lemma_ends(
        "failed to compress chunk slot "@ + text::decimal(a as nat) + ": "@,
        detail,
    );
    lemma_ends("failed to zstd-compress the linear region payload: "@, detail);
    lemma_ends("failed to decompress "@ + path.text() + ": "@, detail);
    lemma_ends("failed to zstd-compress the blinear_v2 payload: "@, detail);
    lemma_ends("failed to finish the blinear_v2 zstd stream: "@, detail);
    lemma_ends("failed to zstd-compress a blinear_v3 bucket: "@, detail);
    let declared = "chunk section length mismatch: declared "@ + text::decimal(a as nat);
    let found = text::decimal(b as nat) + " bytes"@;
    let lengths = chunk_error_text(ChunkErrorKind::LengthMismatch(a, b), detail);
    assert(lengths =~= declared + (" bytes but found "@ + found));
    lemma_starts(declared, " bytes but found "@ + found);
    assert(lengths =~= (declared + " bytes but found "@) + found);
    lemma_ends(declared + " bytes but found "@, found);
    let expected = "chunk section xxhash32 mismatch: expected 0x"@ + text::hexadecimal(x as nat, 8);
    let got = "got 0x"@ + text::hexadecimal(y as nat, 8);
    let hashes = chunk_error_text(ChunkErrorKind::HashMismatch(x, y), detail);
    reveal_strlit(", got 0x");
    reveal_strlit("got 0x");
    assert(", got 0x"@ =~= seq![',', ' '] + "got 0x"@);
    assert(hashes =~= expected + (seq![',', ' '] + got));
    lemma_starts(expected, seq![',', ' '] + got);
    assert(hashes =~= (expected + seq![',', ' ']) + got);
    lemma_ends(expected + seq![',', ' '], got);
    let says = "linear region chunk count mismatch: header says "@ + text::decimal(a as nat);
    let counts = region_error_text(RegionErrorKind::LinearChunkCount(a, b), detail, path);
    assert(counts =~= says + (", table says "@ + text::decimal(b as nat)));
    lemma_starts(says, ", table says "@ + text::decimal(b as nat));
    assert(counts =~= (says + ", table says "@) + text::decimal(b as nat));
    lemma_ends(says + ", table says "@, text::decimal(b as nat));
}

proof fn lemma_ends(before: Seq<char>, end: Seq<char>)
    ensures
        end.is_suffix_of(before + end),
{
    assert(end =~= (before + end).subrange(
        (before + end).len() - end.len(),
        (before + end).len() as int,
    ));
}

proof fn lemma_starts(start: Seq<char>, rest: Seq<char>)
    ensures
        start.is_prefix_of(start + rest),
{
    assert(start =~= (start + rest).subrange(0, start.len() as int));
}

/// The message of an error about a file names it.
pub proof fn law_message_names_the_file(path: PathView, detail: Seq<char>, n: u8, slot: usize)
    ensures
        text::contains_text(
            region_error_text(RegionErrorKind::UnsupportedExtension, detail, path),
            path.text(),
        ),
        text::contains_text(
            region_error_text(RegionErrorKind::UnknownSuperblock, detail, path),
            path.text(),
        ),
        text::contains_text(
            region_error_text(RegionErrorKind::UnknownVersion(n), detail, path),
            path.text(),
        ),
        text::contains_text(
            region_error_text(RegionErrorKind::McaTooSmall, detail, path),
            path.text(),
        ),
        text::contains_text(
            region_error_text(RegionErrorKind::LinearTooSmall, detail, path),
            path.text(),
        ),
        text::contains_text(
            region_error_text(RegionErrorKind::BlinearV2TooSmall, detail, path),
            path.text(),
        ),
        text::contains_text(
            region_error_text(RegionErrorKind::BlinearV3TooSmall, detail, path),
            path.text(),
        ),
        text::contains_text(
            region_error_text(RegionErrorKind::BlinearV2Trailing, detail, path),
            path.text(),
        ),
        text::contains_text(
            region_error_text(RegionErrorKind::Decompression, detail, path),
            path.text(),
        ),
        path.file_name() matches Some(name) ==> {
            &&& name.is_suffix_of(region_error_text(RegionErrorKind::FileNameShape, detail, path))
            &&& name.is_suffix_of(region_error_text(RegionErrorKind::InvalidRegionX, detail, path))
            &&& name.is_suffix_of(region_error_text(RegionErrorKind::InvalidRegionZ, detail, path))
        },
        text::decimal(slot as nat).is_suffix_of(
            region_error_text(RegionErrorKind::BlinearV2Ended(slot), detail, path),
        ),
        text::decimal(slot as nat).is_suffix_of(
            region_error_text(RegionErrorKind::BlinearV2NegativeSection(slot), detail, path),
        ),
        text::decimal(n as nat).is_suffix_of(
            region_error_text(RegionErrorKind::BlinearV2Version(n), detail, path),
        ),
        text::decimal(n as nat).is_suffix_of(
            region_error_text(RegionErrorKind::BlinearV3Version(n), detail, path),
        ),
{
    let shown = path.text();
    let none = Seq::<char>::empty();
    text::lemma_contains("unsupported region file extension for "@, shown, none);
    assert("unsupported region file extension for "@ + shown + none
        =~= "unsupported region file extension for "@ + shown);
    text::lemma_contains("unknown blinear superblock in "@, shown, none);
    assert("unknown blinear superblock in "@ + shown + none =~= "unknown blinear superblock in "@
        + shown);
    let version = "unsupported blinear version "@ + text::decimal(n as nat) + " in "@;
    text::lemma_contains(version, shown, none);
    assert(version + shown + none =~= version + shown);
    text::lemma_contains("mca region "@, shown, " is smaller than the 8 KiB header"@);
    text::lemma_contains("linear region "@, shown, " is too small"@);
    text::lemma_contains("blinear_v2 region "@, shown, " is too small"@);
    text::lemma_contains("blinear_v3 region "@, shown, " is too small"@);
    text::lemma_contains(
        "blinear_v2 region "@,
        shown,
        " has trailing bytes after slot parsing"@,
    );
    text::lemma_contains("failed to decompress "@, shown, ": "@ + detail);
    assert("failed to decompress "@ + shown + (": "@ + detail) =~= "failed to decompress "@ + shown
        + ": "@ + detail);
    if let Some(name) = path.file_name() {
        lemma_ends("region file name does not match r.<x>.<z>.<ext>: "@, name);
        lemma_ends("invalid region x coordinate in "@, name);
        lemma_ends("invalid region z coordinate in "@, name);
    }
    let place = text::decimal(slot as nat);
    lemma_ends("blinear_v2 region "@ + shown + " ended before slot "@, place);
    lemma_ends(
        "blinear_v2 region "@ + shown + " has a negative section length at slot "@,
        place,
    );
    lemma_ends("invalid blinear_v2 version "@, text::decimal(n as nat));
    lemma_ends("invalid blinear_v3 version "@, text::decimal(n as nat));
}

} // verus!
