//! How a file is put into place: written beside it under a temporary name, and then
//! renamed.

use vstd::prelude::*;
use vstd::string::*;

use crate::formats::{self, detection};
use crate::path::{Part, PathView, SavePath};
use crate::text::{self, push_decimal};

verus! {

/// Why no temporary file can be named.
#[derive(Clone, Copy, Debug, PartialEq, Eq, Structural)]
pub enum TempPathError {
    /// A path that names no directory for the file.
    NoParent,
    /// A path that does not end in a file name.
    NoFileName,
}

/// The message of an error.
pub open spec fn temp_error_text(error: TempPathError) -> Seq<char> {
    match error {
        TempPathError::NoParent => "output file does not have a parent directory"@,
        TempPathError::NoFileName => "output file is missing a file name"@,
    }
}

impl TempPathError {
    /// The message of the error.
    pub fn message(self) -> (text: &'static str)
        ensures
            text@ == temp_error_text(self),
    {
        match self {
            TempPathError::NoParent => "output file does not have a parent directory",
            TempPathError::NoFileName => "output file is missing a file name",
        }
    }
}

/// The name of the temporary file for `name`.
pub open spec fn temp_name(name: Seq<char>, process: u32, counter: u64) -> Seq<char> {
    "."@ + name + ".tmp-"@ + text::decimal(process as nat) + "-"@ + text::decimal(counter as nat)
}

/// Whether `path` has a parent: it is not empty and not a root.
pub open spec fn has_parent(path: PathView) -> bool {
    path.parts.len() > 0 && path.parts.last() != Part::RootDir && !(path.parts.last() is Prefix)
}

/// The temporary file beside `path`.
pub open spec fn temp_path(path: PathView, process: u32, counter: u64) -> Result<
    PathView,
    TempPathError,
> {
    if !has_parent(path) {
        Err(TempPathError::NoParent)
    } else {
        match path.file_name() {
            None => Err(TempPathError::NoFileName),
            Some(name) => Ok(
                PathView {
                    parts: path.parts.drop_last().push(
                        Part::Normal(temp_name(name, process, counter)),
                    ),
                    ..path
                },
            ),
        }
    }
}

/// The temporary file beside `path`, for the process `process`, which has named
/// `counter` of them before.
pub fn prepare_temp_path(path: &SavePath, process: u32, counter: u64) -> (result: Result<
    SavePath,
    TempPathError,
>)
    ensures
        match result {
            Ok(temp) => temp_path(path@, process, counter) == Ok::<PathView, TempPathError>(temp@),
            Err(error) => temp_path(path@, process, counter) == Err::<PathView, TempPathError>(
                error,
            ),
        },
{
    if path.components.len() == 0 {
        return Err(TempPathError::NoParent);
    }
    assert(path@.parts.last() == path.components@.last()@);
    match &path.components[path.components.len() - 1] {
        crate::path::PathComponent::RootDir => {
            return Err(TempPathError::NoParent);
        },
        crate::path::PathComponent::Prefix(_) => {
            return Err(TempPathError::NoParent);
        },
        _ => {},
    }
    let mut name = ".".to_owned();
    match path.file_name() {
        None => {
            return Err(TempPathError::NoFileName);
        },
        Some(file_name) => {
            name.append(file_name.as_str());
        },
    }
    name.append(".tmp-");
    push_decimal(&mut name, process as u64);
    name.append("-");
    push_decimal(&mut name, counter);
    let mut temp = path.copy();
    let ghost before = temp@.parts;
    temp.components.pop();
    assert(temp@.parts =~= before.drop_last());
    Ok(temp.child(name.as_str()))
}

/// Temporary files that one process names at different times are different.
pub proof fn law_temp_paths_differ(path: PathView, process: u32, first: u64, second: u64)
    requires
        temp_path(path, process, first) is Ok,
        first != second,
    ensures
        temp_path(path, process, second) is Ok,
        temp_path(path, process, first)->Ok_0 != temp_path(path, process, second)->Ok_0,
{
    let name = path.file_name()->0;
    let head = "."@ + name + ".tmp-"@ + text::decimal(process as nat) + "-"@;
    let one = temp_path(path, process, first)->Ok_0.parts;
    let other = temp_path(path, process, second)->Ok_0.parts;
    assert(one.last() == Part::Normal(temp_name(name, process, first)));
    assert(other.last() == Part::Normal(temp_name(name, process, second)));
    text::lemma_decimal_spells(first as nat);
    text::lemma_decimal_spells(second as nat);
    assert(temp_name(name, process, first) == head + text::decimal(first as nat));
    assert(temp_name(name, process, second) == head + text::decimal(second as nat));
    assert((head + text::decimal(first as nat)).skip(head.len() as int) =~= text::decimal(
        first as nat,
    ));
    assert((head + text::decimal(second as nat)).skip(head.len() as int) =~= text::decimal(
        second as nat,
    ));
}

/// What is done after an attempt to rename the temporary file.
#[derive(Clone, Copy, Debug, PartialEq, Eq, Structural)]
pub enum ReplaceStep {
    /// The file is in place.
    Done,
    /// The file that stands in the way is removed, and the temporary one renamed
    /// again.
    RemoveAndRename,
    /// The file cannot be put into place.
    Fail,
}

/// What is done after an attempt to rename the temporary file, which has succeeded or
/// not, where a file stands in its place or not.
pub fn after_rename(renamed: bool, destination_exists: bool) -> (step: ReplaceStep)
    ensures
        step == if renamed {
            ReplaceStep::Done
        } else if destination_exists {
            ReplaceStep::RemoveAndRename
        } else {
            ReplaceStep::Fail
        },
{
    if renamed {
        ReplaceStep::Done
    } else if destination_exists {
        ReplaceStep::RemoveAndRename
    } else {
        ReplaceStep::Fail
    }
}

/// A temporary file stands beside the file that it is for, is hidden, has the name of that
/// file in its own, and is not taken for a region file. There is none for what is not a
/// file in a directory.
pub proof fn law_temp_file_stands_beside(path: PathView, process: u32, counter: u64)
    ensures
        match temp_path(path, process, counter) {
            Ok(temp) => {
                &&& temp.separator == path.separator
                &&& temp.parts.len() == path.parts.len()
                &&& temp.parts.drop_last() == path.parts.drop_last()
                &&& path.file_name() matches Some(name)
                &&& temp.file_name() matches Some(hidden)
                &&& (seq!['.'] + name).is_prefix_of(hidden)
                &&& hidden != name
                &&& formats::guessed_format(temp) is None
            },
            Err(TempPathError::NoParent) => path.parts.len() == 0 || path.parts.last() is RootDir
                || path.parts.last() is Prefix,
            Err(TempPathError::NoFileName) => path.parts.len() > 0 && (path.parts.last() is CurDir
                || path.parts.last() is ParentDir),
        },
{
    if let Ok(temp) = temp_path(path, process, counter) {
        let name = path.file_name()->0;
        let hidden = temp_name(name, process, counter);
        let stem = seq!['.'] + name;
        let rest = "tmp-"@ + text::decimal(process as nat) + "-"@ + text::decimal(counter as nat);
        reveal_strlit(".");
        reveal_strlit("-");
        reveal_strlit("tmp-");
        reveal_strlit(".tmp-");
        reveal_strlit("mca");
        reveal_strlit("linear");
        reveal_strlit("b_linear");
        assert("."@ =~= seq!['.']);
        assert(".tmp-"@ =~= seq!['.'] + "tmp-"@);
        assert(temp.parts.last() == Part::Normal(hidden));
        assert(temp.parts.drop_last() =~= path.parts.drop_last());
        assert(hidden =~= stem + seq!['.'] + rest);
        assert(stem =~= hidden.subrange(0, stem.len() as int));
        assert(hidden.len() > name.len());
        text::lemma_decimal_spells(process as nat);
        text::lemma_decimal_spells(counter as nat);
        assert(!rest.contains('.')) by {
            if rest.contains('.') {
                let i = choose|i: int| 0 <= i < rest.len() && rest[i] == '.';
                let first = text::decimal(process as nat);
                let second = text::decimal(counter as nat);
                if 4 <= i < 4 + first.len() {
                    assert(rest[i] == first[i - 4]);
                } else if i > 4 + first.len() {
                    assert(rest[i] == second[i - 5 - first.len()]);
                }
            }
        }
        detection::lemma_last_dot(stem, rest);
        assert(hidden.skip(stem.len() as int + 1) =~= rest);
        assert(temp.extension() == Some(rest));
        assert(rest[0] == 't' && "mca"@[0] == 'm' && "linear"@[0] == 'l' && "b_linear"@[0] == 'b');
    }
}

} // verus!
