//! What the command line asks for.

use vstd::prelude::*;
use vstd::string::*;

use crate::error::RegionErrorKind;
use crate::formats::{self, RegionFormat, SourceFormatHint};
use crate::path::SavePath;

verus! {

#[derive(Clone, Copy, Debug, PartialEq, Eq, Structural)]
pub enum SourceFormatArg {
    Auto,
    Mca,
    Linear,
    BlinearV2,
    BlinearV3,
}

#[derive(Clone, Copy, Debug, PartialEq, Eq, Structural)]
pub enum TargetFormatArg {
    Mca,
    Linear,
    BlinearV2,
    BlinearV3,
}

/// The command line: inputs, and what to do with them.
#[derive(Debug)]
pub struct Cli {
    pub inputs: Vec<SavePath>,
    pub output: Option<SavePath>,
    pub info: bool,
    pub from: SourceFormatArg,
    pub to: Option<TargetFormatArg>,
    pub threads: Option<usize>,
    pub compression_level: Option<i32>,
    pub profile: bool,
}

/// Why a command line is refused.
#[derive(Clone, Copy, Debug, PartialEq, Eq, Structural)]
pub enum CliError {
    OutputWithInfo,
    ToWithInfo,
    LevelWithInfo,
    FromWithInfo,
    OutputRequired,
    ToRequired,
    ZeroThreads,
    NoOutputRoot,
    NoTargetFormat,
    McaLevel,
    ZstdLevel,
}

/// The message of an error.
pub open spec fn cli_error_text(error: CliError) -> Seq<char> {
    match error {
        CliError::OutputWithInfo => "--output cannot be used together with --info"@,
        CliError::ToWithInfo => "--to cannot be used together with --info"@,
        CliError::LevelWithInfo => "--compression-level cannot be used together with --info"@,
        CliError::FromWithInfo => "--from cannot be used together with --info"@,
        CliError::OutputRequired => "--output is required unless --info is used"@,
        CliError::ToRequired => "--to is required unless --info is used"@,
        CliError::ZeroThreads => "thread count must be greater than zero"@,
        CliError::NoOutputRoot => "output root is only available in conversion mode"@,
        CliError::NoTargetFormat => "target format is only available in conversion mode"@,
        CliError::McaLevel => "mca compression level must be in the range 0..=9"@,
        CliError::ZstdLevel =>
            "linear and blinear compression levels must be in the range 1..=22"@,
    }
}

impl CliError {
    /// The message of the error.
    pub fn message(self) -> (text: &'static str)
        ensures
            text@ == cli_error_text(self),
    {
        match self {
            CliError::OutputWithInfo => "--output cannot be used together with --info",
            CliError::ToWithInfo => "--to cannot be used together with --info",
            CliError::LevelWithInfo => "--compression-level cannot be used together with --info",
            CliError::FromWithInfo => "--from cannot be used together with --info",
            CliError::OutputRequired => "--output is required unless --info is used",
            CliError::ToRequired => "--to is required unless --info is used",
            CliError::ZeroThreads => "thread count must be greater than zero",
            CliError::NoOutputRoot => "output root is only available in conversion mode",
            CliError::NoTargetFormat => "target format is only available in conversion mode",
            CliError::McaLevel => "mca compression level must be in the range 0..=9",
            CliError::ZstdLevel =>
                "linear and blinear compression levels must be in the range 1..=22",
        }
    }
}

/// What an argument tells of the source format.
pub open spec fn arg_hint(arg: SourceFormatArg) -> Option<SourceFormatHint> {
    match arg {
        SourceFormatArg::Auto => None,
        SourceFormatArg::Mca => Some(SourceFormatHint::Mca),
        SourceFormatArg::Linear => Some(SourceFormatHint::Linear),
        SourceFormatArg::BlinearV2 => Some(SourceFormatHint::BlinearV2),
        SourceFormatArg::BlinearV3 => Some(SourceFormatHint::BlinearV3),
    }
}

/// The target format that an argument names.
pub open spec fn arg_format(arg: TargetFormatArg) -> RegionFormat {
    match arg {
        TargetFormatArg::Mca => RegionFormat::Mca,
        TargetFormatArg::Linear => RegionFormat::Linear,
        TargetFormatArg::BlinearV2 => RegionFormat::BlinearV2,
        TargetFormatArg::BlinearV3 => RegionFormat::BlinearV3,
    }
}

impl SourceFormatArg {
    pub fn into_source_format_hint(self) -> (hint: Option<SourceFormatHint>)
        ensures
            hint == arg_hint(self),
    {
        match self {
            SourceFormatArg::Auto => None,
            SourceFormatArg::Mca => Some(SourceFormatHint::Mca),
            SourceFormatArg::Linear => Some(SourceFormatHint::Linear),
            SourceFormatArg::BlinearV2 => Some(SourceFormatHint::BlinearV2),
            SourceFormatArg::BlinearV3 => Some(SourceFormatHint::BlinearV3),
        }
    }
}

impl TargetFormatArg {
    pub fn into_region_format(self) -> (format: RegionFormat)
        ensures
            format == arg_format(self),
    {
        match self {
            TargetFormatArg::Mca => RegionFormat::Mca,
            TargetFormatArg::Linear => RegionFormat::Linear,
            TargetFormatArg::BlinearV2 => RegionFormat::BlinearV2,
            TargetFormatArg::BlinearV3 => RegionFormat::BlinearV3,
        }
    }
}

/// What is wrong with a combination of arguments, if something is.
pub open spec fn cli_fault(cli: Cli) -> Option<CliError> {
    if cli.info {
        if cli.output is Some {
            Some(CliError::OutputWithInfo)
        } else if cli.to is Some {
            Some(CliError::ToWithInfo)
        } else if cli.compression_level is Some {
            Some(CliError::LevelWithInfo)
        } else if cli.from != SourceFormatArg::Auto {
            Some(CliError::FromWithInfo)
        } else {
            None
        }
    } else if cli.output is None {
        Some(CliError::OutputRequired)
    } else if cli.to is None {
        Some(CliError::ToRequired)
    } else {
        None
    }
}

/// The number of threads that is asked for, where `available` can run at once.
pub open spec fn threads_of(cli: Cli, available: usize) -> Result<usize, CliError> {
    match cli.threads {
        Some(n) => if n == 0 {
            Err(CliError::ZeroThreads)
        } else {
            Ok(n)
        },
        None => Ok(available),
    }
}

/// Whether `format` can be written at the compression level `level`.
pub open spec fn level_allowed(format: RegionFormat, level: i32) -> bool {
    if format == RegionFormat::Mca {
        0 <= level <= 9
    } else {
        1 <= level <= 22
    }
}

/// The compression level that is asked for.
pub open spec fn level_of(cli: Cli) -> Result<i32, CliError> {
    match cli.to {
        None => Err(CliError::NoTargetFormat),
        Some(to) => {
            let level = match cli.compression_level {
                Some(level) => level,
                None => 6,
            };
            if level_allowed(arg_format(to), level) {
                Ok(level)
            } else if arg_format(to) == RegionFormat::Mca {
                Err(CliError::McaLevel)
            } else {
                Err(CliError::ZstdLevel)
            }
        },
    }
}

impl Cli {
    /// Checks that the arguments go together.
    pub fn validate(&self) -> (result: Result<(), CliError>)
        ensures
            match result {
                Ok(_) => cli_fault(*self) is None,
                Err(error) => cli_fault(*self) == Some(error),
            },
    {
        if self.info {
            if self.output.is_some() {
                return Err(CliError::OutputWithInfo);
            }
            if self.to.is_some() {
                return Err(CliError::ToWithInfo);
            }
            if self.compression_level.is_some() {
                return Err(CliError::LevelWithInfo);
            }
            if self.from != SourceFormatArg::Auto {
                return Err(CliError::FromWithInfo);
            }
            return Ok(());
        }
        if self.output.is_none() {
            return Err(CliError::OutputRequired);
        }
        if self.to.is_none() {
            return Err(CliError::ToRequired);
        }
        Ok(())
    }

    /// The number of threads that is asked for, where `available` can run at once.
    pub fn thread_count(&self, available: usize) -> (result: Result<usize, CliError>)
        ensures
            result == threads_of(*self, available),
    {
        match self.threads {
            Some(0) => Err(CliError::ZeroThreads),
            Some(value) => Ok(value),
            None => Ok(available),
        }
    }

    /// The source format that is asked for, if one is.
    pub fn forced_source_format(&self) -> (hint: Option<SourceFormatHint>)
        ensures
            hint == arg_hint(self.from),
    {
        self.from.into_source_format_hint()
    }

    /// The directory to write to.
    pub fn output_root(&self) -> (result: Result<&SavePath, CliError>)
        ensures
            match result {
                Ok(root) => self.output == Some(*root),
                Err(error) => self.output is None && error == CliError::NoOutputRoot,
            },
    {
        match &self.output {
            Some(root) => Ok(root),
            None => Err(CliError::NoOutputRoot),
        }
    }

    /// The format to write.
    pub fn target_format(&self) -> (result: Result<RegionFormat, CliError>)
        ensures
            match result {
                Ok(format) => self.to matches Some(to) && format == arg_format(to),
                Err(error) => self.to is None && error == CliError::NoTargetFormat,
            },
    {
        match self.to {
            Some(to) => Ok(to.into_region_format()),
            None => Err(CliError::NoTargetFormat),
        }
    }

    /// The compression level to write at.
    pub fn resolved_compression_level(&self) -> (result: Result<i32, CliError>)
        ensures
            result == level_of(*self),
    {
        let target = match self.target_format() {
            Ok(target) => target,
            Err(error) => {
                return Err(error);
            },
        };
        let level = match self.compression_level {
            Some(level) => level,
            None => target.default_compression_level(),
        };
        match target {
            RegionFormat::Mca => {
                if level < 0 || level > 9 {
                    return Err(CliError::McaLevel);
                }
            },
            _ => {
                if level < 1 || level > 22 {
                    return Err(CliError::ZstdLevel);
                }
            },
        }
        Ok(level)
    }
}

/// The target format is the one that the argument names.
pub proof fn law_target_is_the_one_named(arg: TargetFormatArg)
    ensures
        formats::format_text(arg_format(arg)) == match arg {
            TargetFormatArg::Mca => "mca"@,
            TargetFormatArg::Linear => "linear"@,
            TargetFormatArg::BlinearV2 => "blinear_v2"@,
            TargetFormatArg::BlinearV3 => "blinear_v3"@,
        },
        arg_format(arg) != RegionFormat::Blinear,
{
}

/// No two formats have the same name.
proof fn lemma_format_names_differ()
    ensures
        forall|a: RegionFormat, b: RegionFormat|
            a != b ==> #[trigger] formats::format_text(a) != #[trigger] formats::format_text(b),
{
    reveal_strlit("mca");
    reveal_strlit("linear");
    reveal_strlit("blinear");
    reveal_strlit("blinear_v2");
    reveal_strlit("blinear_v3");
    assert("mca"@.len() == 3 && "linear"@.len() == 6 && "blinear"@.len() == 7);
    assert("blinear_v2"@.len() == 10 && "blinear_v3"@.len() == 10);
    assert("blinear_v2"@[9] != "blinear_v3"@[9]);
}

/// Each target format is reached by its own argument: different arguments name different
/// formats, and each format that can be written is named by one.
pub proof fn law_each_target_has_its_argument(
    a: TargetFormatArg,
    b: TargetFormatArg,
    format: RegionFormat,
)
    ensures
        a != b ==> arg_format(a) != arg_format(b),
        a != b ==> formats::format_text(arg_format(a)) != formats::format_text(arg_format(b)),
        format != RegionFormat::Blinear ==> exists|arg: TargetFormatArg| #[trigger]
            arg_format(arg) == format,
{
    lemma_format_names_differ();
    match format {
        RegionFormat::Mca => {
            assert(arg_format(TargetFormatArg::Mca) == format);
        },
        RegionFormat::Linear => {
            assert(arg_format(TargetFormatArg::Linear) == format);
        },
        RegionFormat::Blinear => {},
        RegionFormat::BlinearV2 => {
            assert(arg_format(TargetFormatArg::BlinearV2) == format);
        },
        RegionFormat::BlinearV3 => {
            assert(arg_format(TargetFormatArg::BlinearV3) == format);
        },
    }
}

/// The source format that is asked for is the one that the argument names, a file is read
/// as that format whatever it holds, and with no name nothing is asked for.
pub proof fn law_source_is_the_one_named(arg: SourceFormatArg, bytes: Seq<u8>)
    ensures
        arg_hint(arg) is None <==> arg == SourceFormatArg::Auto,
        arg_hint(arg) matches Some(hint) ==> {
            &&& formats::hint_text(hint) == match arg {
                SourceFormatArg::Auto => "auto"@,
                SourceFormatArg::Mca => "mca"@,
                SourceFormatArg::Linear => "linear"@,
                SourceFormatArg::BlinearV2 => "blinear_v2"@,
                SourceFormatArg::BlinearV3 => "blinear_v3"@,
            }
            &&& formats::hinted_format(hint, bytes) matches Ok(format)
            &&& formats::format_text(format) == formats::hint_text(hint)
        },
{
}

/// A source and a target argument stand for the same format if and only if they have the
/// same name.
pub proof fn law_source_and_target_agree(
    from: SourceFormatArg,
    to: TargetFormatArg,
    bytes: Seq<u8>,
)
    requires
        from != SourceFormatArg::Auto,
    ensures
        formats::hinted_format(arg_hint(from)->0, bytes) == Ok::<RegionFormat, RegionErrorKind>(
            arg_format(to),
        ) <==> match to {
            TargetFormatArg::Mca => from == SourceFormatArg::Mca,
            TargetFormatArg::Linear => from == SourceFormatArg::Linear,
            TargetFormatArg::BlinearV2 => from == SourceFormatArg::BlinearV2,
            TargetFormatArg::BlinearV3 => from == SourceFormatArg::BlinearV3,
        },
{
}

/// A command line is accepted if and only if it asks for information alone, or names an
/// output and a target format. What it is refused for is what it holds or lacks.
pub proof fn law_arguments_go_together(cli: Cli)
    ensures
        cli_fault(cli) is None <==> if cli.info {
            cli.output is None && cli.to is None && cli.compression_level is None && cli.from
                == SourceFormatArg::Auto
        } else {
            cli.output is Some && cli.to is Some
        },
        match cli_fault(cli) {
            None => true,
            Some(CliError::OutputWithInfo) => cli.info && cli.output is Some,
            Some(CliError::ToWithInfo) => cli.info && cli.output is None && cli.to is Some,
            Some(CliError::LevelWithInfo) => cli.info && cli.output is None && cli.to is None
                && cli.compression_level is Some,
            Some(CliError::FromWithInfo) => cli.info && cli.output is None && cli.to is None
                && cli.compression_level is None && cli.from != SourceFormatArg::Auto,
            Some(CliError::OutputRequired) => !cli.info && cli.output is None,
            Some(CliError::ToRequired) => !cli.info && cli.output is Some && cli.to is None,
            Some(_) => false,
        },
{
}

/// As many threads are asked for as the command line says, but not none, or as many as
/// can run at once where it says nothing.
pub proof fn law_threads_are_those_asked_for(cli: Cli, available: usize, n: usize)
    ensures
        threads_of(cli, available) == Ok::<usize, CliError>(n) <==> (cli.threads == Some(n) && n
            > 0) || (cli.threads is None && n == available),
        threads_of(cli, available) is Err <==> cli.threads == Some(0usize),
        threads_of(cli, available) matches Err(error) ==> error == CliError::ZeroThreads,
{
}

/// The compression level is the one that is asked for, or 6. For mca it is from 0 to 9,
/// for the other formats from 1 to 22, and any other is refused.
pub proof fn law_level_is_the_one_asked_for(cli: Cli, to: TargetFormatArg)
    requires
        cli.to == Some(to),
    ensures
        ({
            let asked = match cli.compression_level {
                Some(level) => level as int,
                None => 6,
            };
            match level_of(cli) {
                Ok(level) => level == asked && if to == TargetFormatArg::Mca {
                    0 <= level <= 9
                } else {
                    1 <= level <= 22
                },
                Err(error) => if to == TargetFormatArg::Mca {
                    error == CliError::McaLevel && (asked < 0 || asked > 9)
                } else {
                    error == CliError::ZstdLevel && (asked < 1 || asked > 22)
                },
            }
        }),
{
}

} // verus!
