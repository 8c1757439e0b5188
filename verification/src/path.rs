//! File-system paths as lists of components.
//!
//! A path is split into its components where it enters the library, so that the
//! rules here hold whatever separator the platform uses.

use vstd::prelude::*;
use vstd::string::*;

use crate::text::chars_of;

verus! {

/// One component of a path.
#[derive(Clone, Debug, PartialEq, Eq, Hash)]
pub enum PathComponent {
    /// A drive or share, such as `C:`.
    Prefix(String),
    /// The root directory.
    RootDir,
    /// A reference to the current directory, `.`.
    CurDir,
    /// A reference to the parent directory, `..`.
    ParentDir,
    /// A named entry.
    Normal(String),
}

/// What a component says.
pub enum Part {
    Prefix(Seq<char>),
    RootDir,
    CurDir,
    ParentDir,
    Normal(Seq<char>),
}

impl View for PathComponent {
    type V = Part;

    open spec fn view(&self) -> Part {
        match self {
            PathComponent::Prefix(text) => Part::Prefix(text@),
            PathComponent::RootDir => Part::RootDir,
            PathComponent::CurDir => Part::CurDir,
            PathComponent::ParentDir => Part::ParentDir,
            PathComponent::Normal(text) => Part::Normal(text@),
        }
    }
}

/// A path: its components, and the character that separates them in print.
#[derive(Clone, Debug, PartialEq, Eq, Hash)]
pub struct SavePath {
    pub separator: char,
    pub components: Vec<PathComponent>,
}

/// What a path says.
#[verifier::ext_equal]
pub struct PathView {
    pub separator: char,
    pub parts: Seq<Part>,
}

impl View for SavePath {
    type V = PathView;

    open spec fn view(&self) -> PathView {
        PathView { separator: self.separator, parts: parts_of(self.components@) }
    }
}

/// What each of a list of components says.
pub open spec fn parts_of(components: Seq<PathComponent>) -> Seq<Part> {
    Seq::new(components.len(), |i: int| components[i]@)
}

/// What each of a list of paths says.
pub open spec fn path_views(paths: Seq<SavePath>) -> Seq<PathView> {
    Seq::new(paths.len(), |i: int| paths[i]@)
}

/// The position of the last `.` in `s`, or -1.
pub open spec fn last_dot(s: Seq<char>) -> int
    decreases s.len(),
{
    if s.len() == 0 {
        -1
    } else if s.last() == '.' {
        s.len() - 1
    } else {
        last_dot(s.drop_last())
    }
}

impl PathView {
    /// The last component, where it is a named entry.
    pub open spec fn file_name(self) -> Option<Seq<char>> {
        if self.parts.len() > 0 {
            match self.parts.last() {
                Part::Normal(text) => Some(text),
                _ => None,
            }
        } else {
            None
        }
    }

    /// What follows the last `.` of the file name, unless the name starts with
    /// it or has none.
    pub open spec fn extension(self) -> Option<Seq<char>> {
        match self.file_name() {
            Some(name) => if last_dot(name) > 0 {
                Some(name.skip(last_dot(name) + 1))
            } else {
                None
            },
            None => None,
        }
    }

    /// The name of the directory that holds the last component.
    pub open spec fn parent_name(self) -> Option<Seq<char>> {
        if self.parts.len() > 0 {
            (PathView { separator: self.separator, parts: self.parts.drop_last() }).file_name()
        } else {
            None
        }
    }

    /// Whether the path does not depend on the current directory.
    pub open spec fn is_absolute(self) -> bool {
        ||| self.parts.len() > 0 && self.parts[0] is RootDir
        ||| self.parts.len() > 1 && self.parts[0] is Prefix && self.parts[1] is RootDir
    }

    /// The path with the entry `name` below it.
    pub open spec fn child(self, name: Seq<char>) -> PathView {
        PathView { separator: self.separator, parts: self.parts.push(Part::Normal(name)) }
    }

    /// The path with the relative path `below` below it.
    pub open spec fn below(self, below: Seq<Part>) -> PathView {
        PathView { separator: self.separator, parts: self.parts + below }
    }

    /// The text of the path.
    pub open spec fn text(self) -> Seq<char> {
        parts_text(self.separator, self.parts)
    }
}

/// The text of one component.
pub open spec fn part_text(separator: char, part: Part) -> Seq<char> {
    match part {
        Part::Prefix(text) => text,
        Part::RootDir => seq![separator],
        Part::CurDir => seq!['.'],
        Part::ParentDir => seq!['.', '.'],
        Part::Normal(text) => text,
    }
}

/// Whether a separator stands between two neighbouring components.
pub open spec fn separated(before: Part, after: Part) -> bool {
    !(before is Prefix) && !(before is RootDir) && !(after is RootDir)
}

/// The texts of `parts` in order, with separators between them.
pub open spec fn parts_text(separator: char, parts: Seq<Part>) -> Seq<char>
    decreases parts.len(),
{
    if parts.len() == 0 {
        seq![]
    } else {
        let before = parts_text(separator, parts.drop_last());
        let last = part_text(separator, parts.last());
        if parts.len() > 1 && separated(parts[parts.len() - 2], parts.last()) {
            before.push(separator) + last
        } else {
            before + last
        }
    }
}

/// The parts that are left when `.` is dropped and each `..` takes away what
/// stands before it, the root and a prefix excepted.
pub open spec fn normalized(parts: Seq<Part>) -> Seq<Part>
    decreases parts.len(),
{
    if parts.len() == 0 {
        seq![]
    } else {
        let before = normalized(parts.drop_last());
        match parts.last() {
            Part::CurDir => before,
            Part::ParentDir => if before.len() > 0 && before.last() is Normal {
                before.drop_last()
            } else {
                before
            },
            part => before.push(part),
        }
    }
}

/// The normalized form of `path`, which is taken from `current` where it is
/// relative.
pub open spec fn normalized_path(path: PathView, current: PathView) -> PathView {
    PathView {
        separator: path.separator,
        parts: if path.is_absolute() {
            normalized(path.parts)
        } else {
            normalized(current.parts + path.parts)
        },
    }
}

/// Whether `a` comes before `b` in the order of their characters, or is equal.
pub open spec fn chars_le(a: Seq<char>, b: Seq<char>) -> bool
    decreases a.len(),
{
    a.len() == 0 || (b.len() > 0 && (a[0] < b[0] || (a[0] == b[0] && chars_le(a.skip(1), b.skip(1)))))
}

/// The place of a kind of component among the kinds.
pub open spec fn part_rank(part: Part) -> int {
    match part {
        Part::Prefix(_) => 0,
        Part::RootDir => 1,
        Part::CurDir => 2,
        Part::ParentDir => 3,
        Part::Normal(_) => 4,
    }
}

/// Whether `a` comes before `b`, or is equal: by kind, then by text.
pub open spec fn part_le(a: Part, b: Part) -> bool {
    part_rank(a) < part_rank(b) || match (a, b) {
        (Part::Prefix(x), Part::Prefix(y)) => chars_le(x, y),
        (Part::Normal(x), Part::Normal(y)) => chars_le(x, y),
        _ => part_rank(a) == part_rank(b),
    }
}

/// Whether `a` comes before `b`, or is equal: component by component.
pub open spec fn parts_le(a: Seq<Part>, b: Seq<Part>) -> bool
    decreases a.len(),
{
    a.len() == 0 || (b.len() > 0 && (if a[0] == b[0] {
        parts_le(a.skip(1), b.skip(1))
    } else {
        part_le(a[0], b[0])
    }))
}

proof fn lemma_chars_le_refl(a: Seq<char>)
    ensures
        chars_le(a, a),
    decreases a.len(),
{
    if a.len() > 0 {
        lemma_chars_le_refl(a.skip(1));
    }
}

proof fn lemma_chars_le_trans(a: Seq<char>, b: Seq<char>, c: Seq<char>)
    requires
        chars_le(a, b),
        chars_le(b, c),
    ensures
        chars_le(a, c),
    decreases a.len(),
{
    if a.len() > 0 && a[0] == b[0] && b[0] == c[0] {
        lemma_chars_le_trans(a.skip(1), b.skip(1), c.skip(1));
    }
}

proof fn lemma_chars_le_total(a: Seq<char>, b: Seq<char>)
    ensures
        chars_le(a, b) || chars_le(b, a),
    decreases a.len(),
{
    if a.len() > 0 && b.len() > 0 {
        lemma_chars_le_total(a.skip(1), b.skip(1));
    }
}

proof fn lemma_chars_le_antisym(a: Seq<char>, b: Seq<char>)
    requires
        chars_le(a, b),
        chars_le(b, a),
    ensures
        a == b,
    decreases a.len(),
{
    if a.len() > 0 {
        lemma_chars_le_antisym(a.skip(1), b.skip(1));
        assert(a =~= seq![a[0]] + a.skip(1));
        assert(b =~= seq![b[0]] + b.skip(1));
    } else {
        assert(a =~= b);
    }
}

/// The order of components is a total order.
pub proof fn lemma_part_le_order(a: Part, b: Part, c: Part)
    ensures
        part_le(a, a),
        part_le(a, b) || part_le(b, a),
        part_le(a, b) && part_le(b, a) ==> a == b,
        part_le(a, b) && part_le(b, c) ==> part_le(a, c),
{
    match a {
        Part::Prefix(x) | Part::Normal(x) => {
            lemma_chars_le_refl(x);
            match b {
                Part::Prefix(y) | Part::Normal(y) => {
                    lemma_chars_le_total(x, y);
                    if chars_le(x, y) && chars_le(y, x) {
                        lemma_chars_le_antisym(x, y);
                    }
                    match c {
                        Part::Prefix(z) | Part::Normal(z) => {
                            if chars_le(x, y) && chars_le(y, z) {
                                lemma_chars_le_trans(x, y, z);
                            }
                        },
                        _ => {},
                    }
                },
                _ => {},
            }
        },
        _ => {},
    }
}

/// The order of paths is reflexive.
proof fn lemma_parts_le_refl(a: Seq<Part>)
    ensures
        parts_le(a, a),
    decreases a.len(),
{
    if a.len() > 0 {
        lemma_parts_le_refl(a.skip(1));
    }
}

/// Of two paths, one comes before the other or they are equal.
pub proof fn lemma_parts_le_total(a: Seq<Part>, b: Seq<Part>)
    ensures
        parts_le(a, b) || parts_le(b, a),
    decreases a.len(),
{
    if a.len() > 0 && b.len() > 0 {
        lemma_part_le_order(a[0], b[0], b[0]);
        lemma_parts_le_total(a.skip(1), b.skip(1));
    }
}

/// The order of paths is transitive.
pub proof fn lemma_parts_le_trans(a: Seq<Part>, b: Seq<Part>, c: Seq<Part>)
    requires
        parts_le(a, b),
        parts_le(b, c),
    ensures
        parts_le(a, c),
    decreases a.len(),
{
    if a.len() > 0 {
        lemma_part_le_order(a[0], b[0], c[0]);
        lemma_part_le_order(b[0], a[0], c[0]);
        if a[0] == b[0] && b[0] == c[0] {
            lemma_parts_le_trans(a.skip(1), b.skip(1), c.skip(1));
        }
    }
}

/// Two paths that come before each other are equal.
proof fn lemma_parts_le_antisym(a: Seq<Part>, b: Seq<Part>)
    requires
        parts_le(a, b),
        parts_le(b, a),
    ensures
        a == b,
    decreases a.len(),
{
    if a.len() > 0 {
        lemma_part_le_order(a[0], b[0], b[0]);
        lemma_parts_le_antisym(a.skip(1), b.skip(1));
        assert(a =~= seq![a[0]] + a.skip(1));
        assert(b =~= seq![b[0]] + b.skip(1));
    } else {
        assert(a =~= b);
    }
}

/// The order of paths is a total order: sorting by it leaves no choice but among equal
/// paths.
pub proof fn law_paths_are_ordered(a: Seq<Part>, b: Seq<Part>, c: Seq<Part>)
    ensures
        parts_le(a, a),
        parts_le(a, b) || parts_le(b, a),
        parts_le(a, b) && parts_le(b, a) ==> a == b,
        parts_le(a, b) && parts_le(b, c) ==> parts_le(a, c),
{
    lemma_parts_le_refl(a);
    lemma_parts_le_total(a, b);
    if parts_le(a, b) && parts_le(b, a) {
        lemma_parts_le_antisym(a, b);
    }
    if parts_le(a, b) && parts_le(b, c) {
        lemma_parts_le_trans(a, b, c);
    }
}

proof fn lemma_normalized_shape(parts: Seq<Part>)
    ensures
        forall|i: int|
            0 <= i < normalized(parts).len() ==> !(#[trigger] normalized(parts)[i] is CurDir) && !(
            normalized(parts)[i] is ParentDir),
    decreases parts.len(),
{
    if parts.len() > 0 {
        lemma_normalized_shape(parts.drop_last());
    }
}

proof fn lemma_normalized_unchanged(parts: Seq<Part>)
    requires
        forall|i: int|
            0 <= i < parts.len() ==> !(#[trigger] parts[i] is CurDir) && !(parts[i] is ParentDir),
    ensures
        normalized(parts) == parts,
    decreases parts.len(),
{
    if parts.len() > 0 {
        let before = parts.drop_last();
        assert forall|i: int| 0 <= i < before.len() implies !(#[trigger] before[i] is CurDir) && !(
        before[i] is ParentDir) by {
            assert(before[i] == parts[i]);
        }
        lemma_normalized_unchanged(before);
        assert(before.push(parts.last()) =~= parts);
    } else {
        assert(normalized(parts) =~= parts);
    }
}

/// Normalizing what is already normalized changes nothing.
pub proof fn law_normalizing_is_idempotent(parts: Seq<Part>)
    ensures
        normalized(normalized(parts)) == normalized(parts),
{
    lemma_normalized_shape(parts);
    lemma_normalized_unchanged(normalized(parts));
}

fn text_le(a: &String, b: &String) -> (le: bool)
    ensures
        le == chars_le(a@, b@),
{
    let x = chars_of(a.as_str());
    let y = chars_of(b.as_str());
    assert(x@.skip(0) =~= x@);
    assert(y@.skip(0) =~= y@);
    let mut i: usize = 0;
    while i < x.len() && i < y.len() && x[i] == y[i]
        invariant
            i <= x.len(),
            i <= y.len(),
            x@ == a@,
            y@ == b@,
            chars_le(a@, b@) == chars_le(x@.skip(i as int), y@.skip(i as int)),
        decreases x.len() - i,
    {
        assert(x@.skip(i as int).skip(1) =~= x@.skip(i + 1));
        assert(y@.skip(i as int).skip(1) =~= y@.skip(i + 1));
        i += 1;
    }
    i == x.len() || (i < y.len() && x[i] < y[i])
}

impl PathComponent {
    fn rank(&self) -> (rank: u8)
        ensures
            rank == part_rank(self@),
    {
        match self {
            PathComponent::Prefix(_) => 0,
            PathComponent::RootDir => 1,
            PathComponent::CurDir => 2,
            PathComponent::ParentDir => 3,
            PathComponent::Normal(_) => 4,
        }
    }

    /// Whether two components say the same.
    pub fn same(&self, other: &PathComponent) -> (same: bool)
        ensures
            same == (self@ == other@),
    {
        match (self, other) {
            (PathComponent::Prefix(x), PathComponent::Prefix(y)) => *x == *y,
            (PathComponent::Normal(x), PathComponent::Normal(y)) => *x == *y,
            _ => self.rank() == other.rank(),
        }
    }

    fn precedes(&self, other: &PathComponent) -> (le: bool)
        ensures
            le == part_le(self@, other@),
    {
        match (self, other) {
            (PathComponent::Prefix(x), PathComponent::Prefix(y)) => text_le(x, y),
            (PathComponent::Normal(x), PathComponent::Normal(y)) => text_le(x, y),
            _ => self.rank() <= other.rank(),
        }
    }

    /// A component that says the same.
    pub fn copy(&self) -> (copy: PathComponent)
        ensures
            copy@ == self@,
    {
        match self {
            PathComponent::Prefix(text) => PathComponent::Prefix(text.clone()),
            PathComponent::RootDir => PathComponent::RootDir,
            PathComponent::CurDir => PathComponent::CurDir,
            PathComponent::ParentDir => PathComponent::ParentDir,
            PathComponent::Normal(text) => PathComponent::Normal(text.clone()),
        }
    }
}

fn copy_components(from: &Vec<PathComponent>, into: &mut Vec<PathComponent>)
    ensures
        parts_of(final(into)@) == parts_of(old(into)@) + parts_of(from@),
{
    let ghost start = parts_of(into@);
    let mut i: usize = 0;
    while i < from.len()
        invariant
            i <= from.len(),
            parts_of(into@) == start + parts_of(from@).take(i as int),
        decreases from.len() - i,
    {
        let ghost before = parts_of(into@);
        into.push(from[i].copy());
        assert(parts_of(into@) =~= before.push(parts_of(from@)[i as int]));
        i += 1;
        assert(parts_of(into@) =~= start + parts_of(from@).take(i as int));
    }
    assert(parts_of(from@).take(i as int) =~= parts_of(from@));
}

impl SavePath {
    /// A path that says the same.
    pub fn copy(&self) -> (copy: SavePath)
        ensures
            copy@ == self@,
    {
        let mut components: Vec<PathComponent> = Vec::new();
        copy_components(&self.components, &mut components);
        let copy = SavePath { separator: self.separator, components };
        assert(copy@.parts =~= self@.parts);
        copy
    }

    /// Whether two paths have the same components.
    pub fn same_components(&self, other: &SavePath) -> (same: bool)
        ensures
            same == (self@.parts == other@.parts),
    {
        assert(self@.parts.len() == self.components.len());
        assert(other@.parts.len() == other.components.len());
        self.components.len() == other.components.len() && self.starts_with(other)
    }

    /// Whether the components of `prefix` stand at the start of this path.
    pub fn starts_with(&self, prefix: &SavePath) -> (starts: bool)
        ensures
            starts == prefix@.parts.is_prefix_of(self@.parts),
            self@.parts.len() == prefix@.parts.len() ==> starts == (self@.parts == prefix@.parts),
    {
        if self.components.len() < prefix.components.len() {
            return false;
        }
        let mut i: usize = 0;
        while i < prefix.components.len()
            invariant
                i <= prefix.components.len() <= self.components.len(),
                forall|k: int| 0 <= k < i ==> #[trigger] self@.parts[k] == prefix@.parts[k],
            decreases prefix.components.len() - i,
        {
            if !self.components[i].same(&prefix.components[i]) {
                assert(self@.parts[i as int] != prefix@.parts[i as int]);
                assert(prefix@.parts[i as int] != self@.parts.subrange(
                    0,
                    prefix@.parts.len() as int,
                )[i as int]);
                return false;
            }
            assert(self@.parts[i as int] == prefix@.parts[i as int]);
            i += 1;
        }
        assert(prefix@.parts =~= self@.parts.subrange(0, prefix@.parts.len() as int));
        assert(self@.parts.len() == prefix@.parts.len() ==> self@.parts =~= prefix@.parts);
        true
    }

    /// Whether this path comes before `other`, or is equal.
    pub fn precedes(&self, other: &SavePath) -> (le: bool)
        ensures
            le == parts_le(self@.parts, other@.parts),
    {
        let ghost a = self@.parts;
        let ghost b = other@.parts;
        assert(a.skip(0) =~= a);
        assert(b.skip(0) =~= b);
        let mut i: usize = 0;
        while i < self.components.len() && i < other.components.len() && self.components[i].same(
            &other.components[i],
        )
            invariant
                i <= self.components.len(),
                i <= other.components.len(),
                a == self@.parts,
                b == other@.parts,
                parts_le(a, b) == parts_le(a.skip(i as int), b.skip(i as int)),
            decreases self.components.len() - i,
        {
            assert(a.skip(i as int).skip(1) =~= a.skip(i + 1));
            assert(b.skip(i as int).skip(1) =~= b.skip(i + 1));
            i += 1;
        }
        if i == self.components.len() {
            return true;
        }
        if i == other.components.len() {
            return false;
        }
        assert(a.skip(i as int)[0] == self.components[i as int]@);
        assert(b.skip(i as int)[0] == other.components[i as int]@);
        self.components[i].precedes(&other.components[i])
    }

    /// The last component, where it is a named entry.
    pub fn file_name(&self) -> (name: Option<&String>)
        ensures
            name matches Some(text) ==> self@.file_name() == Some(text@),
            name is None ==> self@.file_name() is None,
    {
        if self.components.len() == 0 {
            return None;
        }
        match &self.components[self.components.len() - 1] {
            PathComponent::Normal(text) => Some(text),
            _ => None,
        }
    }

    /// Whether the path has the extension `wanted`.
    #[verifier::loop_isolation(false)]
    pub fn has_extension(&self, wanted: &str) -> (has: bool)
        ensures
            has == (self@.extension() == Some(wanted@)),
    {
        let name = match self.file_name() {
            Some(name) => name,
            None => {
                return false;
            },
        };
        let chars = chars_of(name.as_str());
        let extension = chars_of(wanted);
        let mut end = chars.len();
        assert(chars@.take(end as int) =~= chars@);
        while end > 0 && chars[end - 1] != '.'
            invariant
                end <= chars.len(),
                last_dot(chars@) == last_dot(chars@.take(end as int)),
            decreases end,
        {
            assert(chars@.take(end as int).drop_last() =~= chars@.take(end - 1));
            end -= 1;
        }
        assert(last_dot(chars@) == end - 1);
        if end <= 1 || chars.len() - end != extension.len() {
            return false;
        }
        let ghost tail = chars@.skip(end as int);
        let mut i: usize = 0;
        while i < extension.len()
            invariant
                i <= extension.len(),
                forall|k: int| 0 <= k < i ==> tail[k] == #[trigger] extension@[k],
            decreases extension.len() - i,
        {
            if chars[end + i] != extension[i] {
                assert(tail[i as int] != extension@[i as int]);
                return false;
            }
            i += 1;
        }
        assert(tail =~= extension@);
        true
    }

    /// The name of the directory that holds the last component.
    pub fn parent_name(&self) -> (name: Option<&String>)
        ensures
            name matches Some(text) ==> self@.parent_name() == Some(text@),
            name is None ==> self@.parent_name() is None,
    {
        if self.components.len() < 2 {
            return None;
        }
        assert(self@.parts.drop_last().last() == self.components[self.components.len() - 2]@);
        match &self.components[self.components.len() - 2] {
            PathComponent::Normal(text) => Some(text),
            _ => None,
        }
    }

    /// Whether the path does not depend on the current directory.
    pub fn is_absolute(&self) -> (absolute: bool)
        ensures
            absolute == self@.is_absolute(),
    {
        if self.components.len() == 0 {
            return false;
        }
        assert(self@.parts[0] == self.components[0]@);
        match &self.components[0] {
            PathComponent::RootDir => true,
            PathComponent::Prefix(_) => {
                if self.components.len() < 2 {
                    return false;
                }
                assert(self@.parts[1] == self.components[1]@);
                match &self.components[1] {
                    PathComponent::RootDir => true,
                    _ => false,
                }
            },
            _ => false,
        }
    }

    /// The path with the entry `name` below it.
    pub fn child(&self, name: &str) -> (path: SavePath)
        ensures
            path@ == self@.child(name@),
    {
        let mut path = self.copy();
        path.components.push(PathComponent::Normal(name.to_owned()));
        assert(path@.parts =~= self@.child(name@).parts);
        path
    }

    /// The path with the components of the relative path `below` below it.
    pub fn below(&self, below: &SavePath) -> (path: SavePath)
        ensures
            path@ == self@.below(below@.parts),
    {
        let mut path = self.copy();
        copy_components(&below.components, &mut path.components);
        path
    }

    /// The text of the path.
    pub fn text(&self) -> (text: String)
        ensures
            text@ == self@.text(),
    {
        let ghost parts = self@.parts;
        let mut text = String::new();
        let mut i: usize = 0;
        while i < self.components.len()
            invariant
                i <= self.components.len(),
                parts == self@.parts,
                text@ == parts_text(self.separator, parts.take(i as int)),
            decreases self.components.len() - i,
        {
            let ghost longer = parts.take(i + 1);
            assert(longer.drop_last() =~= parts.take(i as int));
            if i > 0 {
                let apart = match (&self.components[i - 1], &self.components[i]) {
                    (PathComponent::Prefix(_), _) => false,
                    (PathComponent::RootDir, _) => false,
                    (_, PathComponent::RootDir) => false,
                    _ => true,
                };
                assert(longer[longer.len() - 2] == self.components[i - 1]@);
                assert(apart == separated(longer[longer.len() - 2], longer.last()));
                if apart {
                    text.push(self.separator);
                }
            }
            let ghost middle = text@;
            match &self.components[i] {
                PathComponent::Prefix(part) => text.append(part.as_str()),
                PathComponent::RootDir => text.push(self.separator),
                PathComponent::CurDir => text.push('.'),
                PathComponent::ParentDir => {
                    text.push('.');
                    text.push('.');
                },
                PathComponent::Normal(part) => text.append(part.as_str()),
            }
            assert(text@ =~= middle + part_text(self.separator, longer.last()));
            i += 1;
        }
        assert(parts.take(i as int) =~= parts);
        text
    }
}

/// The normalized form of `path`, which is taken from `current` where it is
/// relative.
pub fn normalize_path_for_compare(path: &SavePath, current: &SavePath) -> (result: SavePath)
    ensures
        result@ == normalized_path(path@, current@),
{
    let mut all: Vec<PathComponent> = Vec::new();
    if !path.is_absolute() {
        copy_components(&current.components, &mut all);
    }
    copy_components(&path.components, &mut all);
    let ghost parts = parts_of(all@);
    assert(parts =~= (if path@.is_absolute() {
        path@.parts
    } else {
        current@.parts + path@.parts
    }));
    let mut components: Vec<PathComponent> = Vec::new();
    let mut i: usize = 0;
    while i < all.len()
        invariant
            i <= all.len(),
            parts == parts_of(all@),
            parts_of(components@) == normalized(parts.take(i as int)),
        decreases all.len() - i,
    {
        let ghost longer = parts.take(i + 1);
        assert(longer.drop_last() =~= parts.take(i as int));
        let ghost before = components@;
        let count = components.len();
        match &all[i] {
            PathComponent::CurDir => {},
            PathComponent::ParentDir => {
                let named = count > 0 && match &components[count - 1] {
                    PathComponent::Normal(_) => true,
                    _ => false,
                };
                if named {
                    components.pop();
                    assert(parts_of(components@) =~= parts_of(before).drop_last());
                }
            },
            _ => {
                components.push(all[i].copy());
                assert(parts_of(components@) =~= parts_of(before).push(longer.last()));
            },
        }
        i += 1;
    }
    assert(parts.take(i as int) =~= parts);
    SavePath { separator: path.separator, components }
}

/// In a normalized path no `.` and no `..` is left, a `.` changes nothing, and a `..` takes
/// away the name before it, but not the root.
pub proof fn law_dots_are_resolved(parts: Seq<Part>, name: Seq<char>)
    ensures
        forall|i: int|
            0 <= i < normalized(parts).len() ==> !(#[trigger] normalized(parts)[i] is CurDir) && !(
            normalized(parts)[i] is ParentDir),
        normalized(seq![]) == Seq::<Part>::empty(),
        normalized(parts.push(Part::CurDir)) == normalized(parts),
        normalized(parts.push(Part::Normal(name))) == normalized(parts).push(Part::Normal(name)),
        normalized(parts.push(Part::RootDir)) == normalized(parts).push(Part::RootDir),
        normalized(parts.push(Part::Prefix(name))) == normalized(parts).push(Part::Prefix(name)),
        normalized(parts.push(Part::Normal(name)).push(Part::ParentDir)) == normalized(parts),
        normalized(parts.push(Part::RootDir).push(Part::ParentDir)) == normalized(parts).push(
            Part::RootDir,
        ),
        normalized(parts).len() == 0 ==> normalized(parts.push(Part::ParentDir)) == normalized(
            parts,
        ),
{
    lemma_normalized_shape(parts);
    let named = parts.push(Part::Normal(name));
    let rooted = parts.push(Part::RootDir);
    assert(parts.push(Part::CurDir).drop_last() =~= parts);
    assert(parts.push(Part::ParentDir).drop_last() =~= parts);
    assert(parts.push(Part::Prefix(name)).drop_last() =~= parts);
    assert(named.drop_last() =~= parts);
    assert(rooted.drop_last() =~= parts);
    assert(named.push(Part::ParentDir).drop_last() =~= named);
    assert(rooted.push(Part::ParentDir).drop_last() =~= rooted);
    assert(normalized(named).drop_last() =~= normalized(parts));
}

/// What a path comes to does not depend on when its start is normalized.
pub proof fn law_normalizing_goes_on(before: Seq<Part>, after: Seq<Part>)
    ensures
        normalized(before + after) == normalized(normalized(before) + after),
    decreases after.len(),
{
    if after.len() > 0 {
        let rest = after.drop_last();
        law_normalizing_goes_on(before, rest);
        assert((before + after).drop_last() =~= before + rest);
        assert((normalized(before) + after).drop_last() =~= normalized(before) + rest);
    } else {
        assert(before + after =~= before);
        assert(normalized(before) + after =~= normalized(before));
        law_normalizing_is_idempotent(before);
    }
}

/// An absolute path is what it is wherever it is taken from; a relative one is taken from
/// the current directory.
pub proof fn law_relative_paths_are_taken_from_the_current_directory(
    path: PathView,
    current: PathView,
    other: PathView,
)
    ensures
        path.is_absolute() ==> normalized_path(path, current) == normalized_path(path, other),
        path.is_absolute() ==> normalized_path(path, current).parts == normalized(path.parts),
        !path.is_absolute() ==> normalized_path(path, current).parts == normalized(
            normalized(current.parts) + path.parts,
        ),
        path.is_absolute() <==> (path.parts.len() > 0 && path.parts[0] == Part::RootDir) || (
        path.parts.len() > 1 && path.parts[0] is Prefix && path.parts[1] == Part::RootDir),
        normalized_path(path, current).separator == path.separator,
{
    law_normalizing_goes_on(current.parts, path.parts);
}

/// An entry of a directory has the name that it was given and the directory as its parent,
/// and its text is that of the directory, a separator and the name.
pub proof fn law_entry_is_named(path: PathView, name: Seq<char>, other: Seq<char>)
    ensures
        path.child(name).file_name() == Some(name),
        path.child(name).child(other).parent_name() == Some(name),
        path.child(name).parts.drop_last() == path.parts,
        path.child(name).child(other).text() == path.child(name).text() + seq![path.separator]
            + other,
        path.parts.len() == 0 ==> path.child(name).text() == name,
        path.parts.len() > 0 && path.parts.last() == Part::RootDir ==> path.child(name).text()
            == path.text() + name,
        path.below(seq![Part::Normal(name)]) == path.child(name),
        path.is_absolute() ==> path.child(name).is_absolute(),
{
    let entry = path.child(name);
    let inner = entry.child(other);
    assert(entry.parts.drop_last() =~= path.parts);
    assert(inner.parts.drop_last() =~= entry.parts);
    assert(inner.parts[inner.parts.len() - 2] == Part::Normal(name));
    assert(inner.text() =~= entry.text() + seq![path.separator] + other);
    assert(path.below(seq![Part::Normal(name)]).parts =~= entry.parts);
    if path.parts.len() == 0 {
        assert(parts_text(path.separator, path.parts) =~= seq![]);
        assert(entry.text() =~= name);
    } else {
        assert(entry.parts[entry.parts.len() - 2] == path.parts.last());
    }
}

/// Texts are ordered by the first character in which they differ, and a text comes before
/// those that it starts.
pub proof fn law_texts_are_ordered_by_first_difference(a: Seq<char>, b: Seq<char>, k: int)
    requires
        0 <= k <= a.len(),
        k <= b.len(),
        forall|i: int| 0 <= i < k ==> a[i] == b[i],
    ensures
        k == a.len() ==> chars_le(a, b),
        k < a.len() && k < b.len() && a[k] < b[k] ==> chars_le(a, b) && !chars_le(b, a),
        k == a.len() && k < b.len() ==> !chars_le(b, a),
    decreases k,
{
    if k > 0 {
        let x = a.skip(1);
        let y = b.skip(1);
        assert(a[0] == b[0]);
        assert forall|i: int| 0 <= i < k - 1 implies x[i] == y[i] by {
            assert(x[i] == a[i + 1] && y[i] == b[i + 1]);
        }
        law_texts_are_ordered_by_first_difference(x, y, k - 1);
    }
}

/// Paths are ordered by the first component in which they differ: a prefix before the root,
/// then `.`, then `..`, then names, which are ordered as texts. A path comes before those
/// that are below it.
pub proof fn law_paths_are_ordered_by_first_difference(a: Seq<Part>, b: Seq<Part>, k: int)
    requires
        0 <= k <= a.len(),
        k <= b.len(),
        forall|i: int| 0 <= i < k ==> a[i] == b[i],
    ensures
        k == a.len() ==> parts_le(a, b),
        k == a.len() && k < b.len() ==> !parts_le(b, a),
        k < a.len() && k < b.len() && a[k] != b[k] ==> (parts_le(a, b) <==> match (a[k], b[k]) {
            (Part::Prefix(x), Part::Prefix(y)) => chars_le(x, y),
            (Part::Prefix(_), _) => true,
            (_, Part::Prefix(_)) => false,
            (Part::RootDir, _) => true,
            (_, Part::RootDir) => false,
            (Part::CurDir, _) => true,
            (_, Part::CurDir) => false,
            (Part::ParentDir, _) => true,
            (_, Part::ParentDir) => false,
            (Part::Normal(x), Part::Normal(y)) => chars_le(x, y),
        }),
    decreases k,
{
    if k > 0 {
        let x = a.skip(1);
        let y = b.skip(1);
        assert(a[0] == b[0]);
        assert forall|i: int| 0 <= i < k - 1 implies x[i] == y[i] by {
            assert(x[i] == a[i + 1] && y[i] == b[i + 1]);
        }
        law_paths_are_ordered_by_first_difference(x, y, k - 1);
        if k < a.len() && k < b.len() {
            assert(x[k - 1] == a[k] && y[k - 1] == b[k]);
        }
    }
}

/// The text of a path grows component by component: with a separator between two of them,
/// but not behind a prefix or the root, nor before the root.
pub proof fn law_text_grows_by_components(separator: char, parts: Seq<Part>, part: Part)
    ensures
        parts_text(separator, seq![]) == Seq::<char>::empty(),
        ({
            let last = match part {
                Part::Prefix(text) => text,
                Part::RootDir => seq![separator],
                Part::CurDir => seq!['.'],
                Part::ParentDir => seq!['.', '.'],
                Part::Normal(text) => text,
            };
            let joint = if parts.len() == 0 || parts.last() is Prefix || parts.last() is RootDir
                || part is RootDir {
                Seq::<char>::empty()
            } else {
                seq![separator]
            };
            parts_text(separator, parts.push(part)) == parts_text(separator, parts) + joint + last
        }),
{
    let all = parts.push(part);
    let last = part_text(separator, part);
    assert(all.drop_last() =~= parts);
    if parts.len() > 0 {
        assert(all[all.len() - 2] == parts.last());
    } else {
        assert(parts_text(separator, parts) =~= seq![]);
    }
    let before = parts_text(separator, parts);
    let joint = if parts.len() == 0 || parts.last() is Prefix || parts.last() is RootDir
        || part is RootDir {
        Seq::<char>::empty()
    } else {
        seq![separator]
    };
    assert(parts_text(separator, all) =~= before + joint + last);
}

} // verus!
