//! Warnings and errors about region files.

use vstd::prelude::*;

use crate::path::{PathView, SavePath};

verus! {

#[derive(Clone, Copy, Debug, PartialEq, Eq, Structural, Hash)]
pub enum DiagnosticLevel {
    Warning,
    Error,
}

#[derive(Clone, Copy, Debug, PartialEq, Eq, Structural, Hash)]
pub enum DiagnosticCode {
    CorruptChunk,
    CorruptBucket,
    CorruptRegion,
    InvalidMetadata,
    FormatMismatch,
    SkippedData,
    Io,
    OutputSafety,
    UnsupportedFormat,
}

/// Where in a save a diagnostic applies.
#[derive(Clone, Debug, PartialEq, Eq)]
pub struct RegionLocation {
    pub path: Option<SavePath>,
    pub region_coords: Option<(i32, i32)>,
    pub chunk_index: Option<usize>,
}

/// What a location says.
#[verifier::ext_equal]
pub struct LocationView {
    pub path: Option<PathView>,
    pub region_coords: Option<(i32, i32)>,
    pub chunk_index: Option<usize>,
}

impl View for RegionLocation {
    type V = LocationView;

    open spec fn view(&self) -> LocationView {
        LocationView {
            path: match self.path {
                Some(path) => Some(path@),
                None => None,
            },
            region_coords: self.region_coords,
            chunk_index: self.chunk_index,
        }
    }
}

impl Default for RegionLocation {
    fn default() -> (location: RegionLocation)
        ensures
            location@ == nowhere(),
    {
        RegionLocation { path: None, region_coords: None, chunk_index: None }
    }
}

#[derive(Clone, Debug, PartialEq, Eq)]
pub struct Diagnostic {
    pub level: DiagnosticLevel,
    pub code: DiagnosticCode,
    pub message: String,
    pub location: RegionLocation,
}

/// What a diagnostic says.
#[verifier::ext_equal]
pub struct DiagnosticView {
    pub level: DiagnosticLevel,
    pub code: DiagnosticCode,
    pub message: Seq<char>,
    pub location: LocationView,
}

impl View for Diagnostic {
    type V = DiagnosticView;

    open spec fn view(&self) -> DiagnosticView {
        DiagnosticView {
            level: self.level,
            code: self.code,
            message: self.message@,
            location: self.location@,
        }
    }
}

/// The location that names nothing.
pub open spec fn nowhere() -> LocationView {
    LocationView { path: None, region_coords: None, chunk_index: None }
}

/// What each of a list of diagnostics says.
pub open spec fn diagnostic_views(diagnostics: Seq<Diagnostic>) -> Seq<DiagnosticView> {
    Seq::new(diagnostics.len(), |i: int| diagnostics[i]@)
}

/// The number of warnings in `diagnostics`.
pub open spec fn warnings_in(diagnostics: Seq<DiagnosticView>) -> nat
    decreases diagnostics.len(),
{
    if diagnostics.len() == 0 {
        0
    } else {
        warnings_in(diagnostics.drop_last()) + if diagnostics.last().level
            == DiagnosticLevel::Warning {
            1nat
        } else {
            0
        }
    }
}

/// There are at most as many warnings as diagnostics.
pub proof fn lemma_warnings_bounded(diagnostics: Seq<DiagnosticView>)
    ensures
        warnings_in(diagnostics) <= diagnostics.len(),
    decreases diagnostics.len(),
{
    if diagnostics.len() > 0 {
        lemma_warnings_bounded(diagnostics.drop_last());
    }
}

/// Whether none of `diagnostics` is an error.
pub open spec fn only_warnings(diagnostics: Seq<DiagnosticView>) -> bool {
    forall|i: int|
        0 <= i < diagnostics.len() ==> (#[trigger] diagnostics[i]).level
            == DiagnosticLevel::Warning
}

/// Where nothing is an error, there are as many warnings as diagnostics.
pub proof fn lemma_only_warnings(diagnostics: Seq<DiagnosticView>)
    requires
        only_warnings(diagnostics),
    ensures
        warnings_in(diagnostics) == diagnostics.len(),
    decreases diagnostics.len(),
{
    if diagnostics.len() > 0 {
        let before = diagnostics.drop_last();
        assert forall|i: int| 0 <= i < before.len() implies (#[trigger] before[i]).level
            == DiagnosticLevel::Warning by {
            assert(before[i] == diagnostics[i]);
        }
        assert(diagnostics[diagnostics.len() - 1] == diagnostics.last());
        lemma_only_warnings(before);
    }
}

/// The warnings of two lists together are those of the one and of the other.
pub proof fn law_warnings_add_up(first: Seq<DiagnosticView>, second: Seq<DiagnosticView>)
    ensures
        warnings_in(first + second) == warnings_in(first) + warnings_in(second),
    decreases second.len(),
{
    if second.len() == 0 {
        assert(first + second =~= first);
    } else {
        law_warnings_add_up(first, second.drop_last());
        assert((first + second).drop_last() =~= first + second.drop_last());
    }
}

impl DiagnosticView {
    /// The same at the file `path`.
    pub open spec fn at_path(self, path: PathView) -> DiagnosticView {
        DiagnosticView { location: LocationView { path: Some(path), ..self.location }, ..self }
    }

    /// The same in the region at `(region_x, region_z)`.
    pub open spec fn in_region(self, region_x: i32, region_z: i32) -> DiagnosticView {
        DiagnosticView {
            location: LocationView { region_coords: Some((region_x, region_z)), ..self.location },
            ..self
        }
    }

    /// The same at the chunk slot `index`.
    pub open spec fn at_chunk(self, index: usize) -> DiagnosticView {
        DiagnosticView { location: LocationView { chunk_index: Some(index), ..self.location }, ..self }
    }
}

/// A warning that names no location.
pub open spec fn warning_view(code: DiagnosticCode, message: Seq<char>) -> DiagnosticView {
    DiagnosticView { level: DiagnosticLevel::Warning, code, message, location: nowhere() }
}

/// An error that names no location.
pub open spec fn error_view(code: DiagnosticCode, message: Seq<char>) -> DiagnosticView {
    DiagnosticView { level: DiagnosticLevel::Error, code, message, location: nowhere() }
}

impl Diagnostic {
    pub fn warning(code: DiagnosticCode, message: String) -> (diagnostic: Diagnostic)
        ensures
            diagnostic@ == warning_view(code, message@),
    {
        Diagnostic {
            level: DiagnosticLevel::Warning,
            code,
            message,
            location: RegionLocation::default(),
        }
    }

    pub fn error(code: DiagnosticCode, message: String) -> (diagnostic: Diagnostic)
        ensures
            diagnostic@ == error_view(code, message@),
    {
        Diagnostic {
            level: DiagnosticLevel::Error,
            code,
            message,
            location: RegionLocation::default(),
        }
    }

    pub fn with_path(self, path: &SavePath) -> (diagnostic: Diagnostic)
        ensures
            diagnostic@ == self@.at_path(path@),
    {
        let mut diagnostic = self;
        diagnostic.location.path = Some(path.copy());
        diagnostic
    }

    pub fn with_region_coords(self, region_x: i32, region_z: i32) -> (diagnostic: Diagnostic)
        ensures
            diagnostic@ == self@.in_region(region_x, region_z),
    {
        let mut diagnostic = self;
        diagnostic.location.region_coords = Some((region_x, region_z));
        diagnostic
    }

    pub fn with_chunk_index(self, chunk_index: usize) -> (diagnostic: Diagnostic)
        ensures
            diagnostic@ == self@.at_chunk(chunk_index),
    {
        let mut diagnostic = self;
        diagnostic.location.chunk_index = Some(chunk_index);
        diagnostic
    }

    pub fn is_warning(&self) -> (warning: bool)
        ensures
            warning == (self.level == DiagnosticLevel::Warning),
    {
        self.level == DiagnosticLevel::Warning
    }
}

/// The number of warnings in `diagnostics`.
pub fn warning_count(diagnostics: &[Diagnostic]) -> (count: usize)
    ensures
        count == warnings_in(diagnostic_views(diagnostics@)),
{
    let ghost views = diagnostic_views(diagnostics@);
    let mut count: usize = 0;
    let mut i: usize = 0;
    while i < diagnostics.len()
        invariant
            i <= diagnostics@.len(),
            views == diagnostic_views(diagnostics@),
            count == warnings_in(views.take(i as int)),
            count <= i,
        decreases diagnostics@.len() - i,
    {
        assert(views.take(i + 1).drop_last() =~= views.take(i as int));
        if diagnostics[i].is_warning() {
            count += 1;
        }
        i += 1;
    }
    assert(views.take(i as int) =~= views);
    count
}

} // verus!
