//! How the files of a region are written: all of them under temporary names first,
//! then the chunk files are put into place, and the region file last.

use vstd::prelude::*;
use vstd::string::*;

use crate::error::{self, RegionError, RegionErrorKind};
use crate::formats::{mca, records, region_uses_external_chunks, RegionFormat};
use crate::path::{PathView, SavePath};

verus! {

/// Time that writing a region has taken, in nanoseconds.
#[derive(Clone, Copy, Debug, Default)]
pub struct WriteTransactionProfile {
    pub prepare: u64,
    pub commit: u64,
}

/// The message of a refusal to overwrite the file `path`.
pub open spec fn refusal_text(path: PathView) -> Seq<char> {
    "refusing to overwrite "@ + path.text()
        + " because it already uses external .mcc chunks and replacing the sidecars plus header atomically is not currently safe"@
}

/// The message of a refusal to overwrite the file `path`.
pub fn refusal_message(path: &SavePath) -> (text: String)
    ensures
        text@ == refusal_text(path@),
{
    let mut text = "refusing to overwrite ".to_owned();
    text.append(path.text().as_str());
    text.append(
        " because it already uses external .mcc chunks and replacing the sidecars plus header atomically is not currently safe",
    );
    text
}

/// Whether a region file in `format`, with chunk files or not, must not replace a file
/// with the content `existing`: one that has chunk files of its own.
pub open spec fn overwrite_refused(
    format: RegionFormat,
    may_have_sidecars: bool,
    existing: Option<Seq<u8>>,
) -> Result<bool, RegionErrorKind> {
    match existing {
        Some(bytes) => if format != RegionFormat::Mca || !may_have_sidecars {
            Ok(false)
        } else if bytes.len() < mca::MCA_HEADER_SIZE {
            Err(RegionErrorKind::McaTooSmall)
        } else {
            Ok(mca::uses_external(bytes))
        },
        None => Ok(false),
    }
}

/// Whether a region file in `target_format`, with chunk files or not, must not replace
/// a file with the content `existing`.
pub fn refuses_overwrite(
    target_format: RegionFormat,
    may_have_sidecars: bool,
    existing: Option<&Vec<u8>>,
) -> (result: Result<bool, RegionError>)
    ensures
        ({
            let content = match existing {
                Some(bytes) => Some(bytes@),
                None => None,
            };
            match result {
                Ok(refused) => overwrite_refused(target_format, may_have_sidecars, content) == Ok::<
                    bool,
                    RegionErrorKind,
                >(refused),
                Err(error) => overwrite_refused(target_format, may_have_sidecars, content)
                    == Err::<bool, RegionErrorKind>(error.kind) && error@ == error::region_fault(
                    error.kind,
                ),
            }
        }),
{
    match existing {
        None => Ok(false),
        Some(bytes) => {
            if target_format != RegionFormat::Mca || !may_have_sidecars {
                return Ok(false);
            }
            region_uses_external_chunks(bytes.as_slice())
        },
    }
}

/// What is to be put into place next.
#[derive(Clone, Copy, Debug, PartialEq, Eq, Structural)]
pub enum CommitAction {
    /// The chunk file with that index.
    Sidecar(usize),
    /// The region file.
    Main,
    /// Nothing: all files are in place.
    Finished,
    /// Nothing: a file could not be put into place.
    Abandoned(CommitCleanup),
}

/// What is undone when a file could not be put into place.
#[derive(Clone, Copy, Debug, PartialEq, Eq, Structural)]
pub struct CommitCleanup {
    /// Whether the temporary region file is removed.
    pub discard_main: bool,
    /// How many chunk files, from the first on, are removed again.
    pub remove_sidecars: usize,
}

/// How far the files of a region have been put into place.
#[derive(Clone, Copy, Debug, PartialEq, Eq, Structural)]
pub struct CommitProgress {
    pub sidecars: usize,
    pub committed_sidecars: usize,
    pub main_committed: bool,
    pub failed: bool,
}

/// What is to be done next.
pub open spec fn next_commit(progress: CommitProgress) -> CommitAction {
    if progress.failed {
        CommitAction::Abandoned(
            CommitCleanup {
                discard_main: progress.committed_sidecars < progress.sidecars,
                remove_sidecars: progress.committed_sidecars,
            },
        )
    } else if progress.committed_sidecars < progress.sidecars {
        CommitAction::Sidecar(progress.committed_sidecars)
    } else if !progress.main_committed {
        CommitAction::Main
    } else {
        CommitAction::Finished
    }
}

/// The progress after the next file was put into place or not.
pub open spec fn commit_recorded(progress: CommitProgress, committed: bool) -> CommitProgress {
    if !committed {
        CommitProgress { failed: true, ..progress }
    } else if progress.committed_sidecars < progress.sidecars {
        CommitProgress {
            committed_sidecars: (progress.committed_sidecars + 1) as usize,
            ..progress
        }
    } else {
        CommitProgress { main_committed: true, ..progress }
    }
}

impl CommitProgress {
    /// Whether the chunk files come before the region file.
    pub open spec fn well_formed(&self) -> bool {
        &&& self.committed_sidecars <= self.sidecars
        &&& self.main_committed ==> self.committed_sidecars == self.sidecars && !self.failed
    }

    /// Nothing in place yet of `sidecars` chunk files and the region file.
    pub fn new(sidecars: usize) -> (progress: CommitProgress)
        ensures
            progress.well_formed(),
            progress == (CommitProgress {
                sidecars,
                committed_sidecars: 0,
                main_committed: false,
                failed: false,
            }),
    {
        CommitProgress { sidecars, committed_sidecars: 0, main_committed: false, failed: false }
    }

    /// What is to be done next.
    pub fn next(&self) -> (action: CommitAction)
        requires
            self.well_formed(),
        ensures
            action == next_commit(*self),
    {
        if self.failed {
            CommitAction::Abandoned(
                CommitCleanup {
                    discard_main: self.committed_sidecars < self.sidecars,
                    remove_sidecars: self.committed_sidecars,
                },
            )
        } else if self.committed_sidecars < self.sidecars {
            CommitAction::Sidecar(self.committed_sidecars)
        } else if !self.main_committed {
            CommitAction::Main
        } else {
            CommitAction::Finished
        }
    }

    /// Records that the next file was put into place, or could not be.
    pub fn record(&mut self, committed: bool)
        requires
            old(self).well_formed(),
            next_commit(*old(self)) is Sidecar || next_commit(*old(self)) is Main,
        ensures
            final(self).well_formed(),
            *final(self) == commit_recorded(*old(self), committed),
    {
        if !committed {
            self.failed = true;
        } else if self.committed_sidecars < self.sidecars {
            self.committed_sidecars = self.committed_sidecars + 1;
        } else {
            self.main_committed = true;
        }
    }
}

/// The region file is put into place only once all of its chunk files are, and where
/// one of the files cannot be, every chunk file that is in place is removed again.
pub proof fn law_commit_is_all_or_nothing(progress: CommitProgress)
    requires
        progress.well_formed(),
    ensures
        next_commit(progress) == CommitAction::Main ==> progress.committed_sidecars
            == progress.sidecars,
        next_commit(progress) == CommitAction::Finished ==> progress.main_committed
            && progress.committed_sidecars == progress.sidecars,
        next_commit(progress) matches CommitAction::Abandoned(cleanup) ==> cleanup.remove_sidecars
            == progress.committed_sidecars && !progress.main_committed,
{
}

/// The files of a region are put into place one by one, its chunk files first and in their
/// order, and then the region file; where one cannot be, what is in place is removed again,
/// and the temporary region file with it unless it is the one that could not be.
pub proof fn law_files_are_put_into_place_in_order(sidecars: usize, done: nat)
    requires
        done <= sidecars,
        sidecars < usize::MAX,
    ensures
        ({
            let progress = CommitProgress {
                sidecars,
                committed_sidecars: done as usize,
                main_committed: false,
                failed: false,
            };
            let next = commit_recorded(progress, true);
            let failed = commit_recorded(progress, false);
            &&& next_commit(progress) == if done < sidecars {
                CommitAction::Sidecar(done as usize)
            } else {
                CommitAction::Main
            }
            &&& next.sidecars == sidecars
            &&& !next.failed
            &&& next.committed_sidecars + (if next.main_committed {
                1int
            } else {
                0
            }) == done + 1
            &&& next_commit(next) == if done + 1 < sidecars {
                CommitAction::Sidecar((done + 1) as usize)
            } else if done + 1 == sidecars {
                CommitAction::Main
            } else {
                CommitAction::Finished
            }
            &&& next_commit(failed) == CommitAction::Abandoned(
                CommitCleanup { discard_main: done < sidecars, remove_sidecars: done as usize },
            )
        }),
{
}

/// A file is kept if and only if it is a region file in mca with a chunk in a file of its
/// own and an mca file that may have chunk files would replace it. One that cannot be an
/// mca file is told of then.
pub proof fn law_only_files_with_chunk_files_are_kept(
    format: RegionFormat,
    may_have_sidecars: bool,
    existing: Option<Seq<u8>>,
)
    ensures
        (overwrite_refused(format, may_have_sidecars, existing) matches Ok(true)) <==> {
            &&& format == RegionFormat::Mca
            &&& may_have_sidecars
            &&& existing matches Some(bytes)
            &&& bytes.len() >= 8192
            &&& exists|i: int| 0 <= i < 1024 && #[trigger] records::says_elsewhere(bytes, i)
        },
        overwrite_refused(format, may_have_sidecars, existing) matches Err(kind) ==> kind
            == RegionErrorKind::McaTooSmall,
        overwrite_refused(format, may_have_sidecars, existing) is Err <==> format
            == RegionFormat::Mca && may_have_sidecars && (existing matches Some(bytes)
            && bytes.len() < 8192),
{
    if let Some(bytes) = existing {
        records::law_chunk_files_are_those_told(bytes);
        let slots = mca::external_slots(bytes, 1024);
        if slots.len() > 0 {
            assert(slots.contains(slots[0]));
        }
        if exists|i: int| 0 <= i < 1024 && #[trigger] records::says_elsewhere(bytes, i) {
            let i = choose|i: int| 0 <= i < 1024 && #[trigger] records::says_elsewhere(bytes, i);
            assert(slots.contains(i));
        }
    }
}

} // verus!
