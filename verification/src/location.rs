//! Positions and spans inside source files.

use vstd::prelude::*;
use vstd::string::StringExecFns;

verus! {

/// A position in a source file: a zero-based line and a zero-based column.
#[derive(Debug, Clone, Copy, PartialEq, Eq, Structural)]
pub struct Location {
    pub line: u32,
    pub col: u32,
}

/// A span of source code, from `start` to `end`.
#[derive(Debug, Clone, Copy, PartialEq, Eq, Structural)]
pub struct Range {
    pub start: Location,
    pub end: Location,
}

/// Locations are ordered by line, then by column.
pub open spec fn location_le(a: Location, b: Location) -> bool {
    a.line < b.line || (a.line == b.line && a.col <= b.col)
}

pub open spec fn spec_location_min(a: Location, b: Location) -> Location {
    if location_le(a, b) { a } else { b }
}

pub open spec fn spec_location_max(a: Location, b: Location) -> Location {
    if location_le(a, b) { b } else { a }
}

/// The smallest span that covers both spans.
pub open spec fn spec_union(a: Range, b: Range) -> Range {
    Range { start: spec_location_min(a.start, b.start), end: spec_location_max(a.end, b.end) }
}

/// A span covers a location when the location lies between its ends.
pub open spec fn covers(r: Range, l: Location) -> bool {
    location_le(r.start, l) && location_le(l, r.end)
}

impl Location {
    /// Is this location at or before `other`?
    pub fn le(&self, other: &Location) -> (res: bool)
        ensures
            res == location_le(*self, *other),
    {
        self.line < other.line || (self.line == other.line && self.col <= other.col)
    }

    /// The earlier of two locations.
    pub fn min(self, other: Location) -> (res: Location)
        ensures
            res == spec_location_min(self, other),
    {
        if self.le(&other) { self } else { other }
    }

    /// The later of two locations.
    pub fn max(self, other: Location) -> (res: Location)
        ensures
            res == spec_location_max(self, other),
    {
        if self.le(&other) { other } else { self }
    }
}

impl Range {
    /// Combines two spans into the smallest span containing both of them.
    pub fn union(self, other: Range) -> (res: Range)
        ensures
            res == spec_union(self, other),
    {
        Range { start: self.start.min(other.start), end: self.end.max(other.end) }
    }
}

/// The union of spans does not depend on the order of its arguments.
pub proof fn lemma_union_commutative(a: Range, b: Range)
    ensures
        spec_union(a, b) == spec_union(b, a),
{
}

/// The union of spans may be grouped either way.
pub proof fn lemma_union_associative(a: Range, b: Range, c: Range)
    ensures
        spec_union(spec_union(a, b), c) == spec_union(a, spec_union(b, c)),
{
}

/// The union of a span with itself is the span.
pub proof fn lemma_union_idempotent(a: Range)
    ensures
        spec_union(a, a) == a,
{
}

/// Every location covered by either span is covered by their union.
pub proof fn lemma_union_covers(a: Range, b: Range, l: Location)
    requires
        covers(a, l) || covers(b, l),
    ensures
        covers(spec_union(a, b), l),
{
}

/// The kind of a source file, which decides its extension on disk.
#[derive(Debug, Clone, Copy, PartialEq, Eq, Structural)]
pub enum SourceFileType {
    Quill,
    Toml,
}

impl SourceFileType {
    /// The file extension used on disk for this kind of file.
    pub fn file_extension(&self) -> (res: &'static str)
        ensures
            res@ == spec_file_extension(*self),
    {
        match self {
            SourceFileType::Quill => {
                proof { reveal_strlit("ql"); }
                "ql"
            },
            SourceFileType::Toml => {
                proof { reveal_strlit("toml"); }
                "toml"
            },
        }
    }
}

pub open spec fn spec_file_extension(t: SourceFileType) -> Seq<char> {
    match t {
        SourceFileType::Quill => seq!['q', 'l'],
        SourceFileType::Toml => seq!['t', 'o', 'm', 'l'],
    }
}

/// One segment of a module path, or the name of a file inside a module.
#[derive(Debug, Clone)]
pub struct SourceFileIdentifierSegment(pub String);

/// The path of a module, as a list of segments; the first segment names the project.
#[derive(Debug, Clone)]
pub struct ModuleIdentifier {
    pub segments: Vec<SourceFileIdentifierSegment>,
}

/// Identifies one source file: the module it lives in, its name and its kind.
#[derive(Debug, Clone)]
pub struct SourceFileIdentifier {
    pub module: ModuleIdentifier,
    pub file: SourceFileIdentifierSegment,
    pub file_type: SourceFileType,
}

/// The module path of an identifier, as a sequence of segment names.
pub open spec fn module_segments(m: ModuleIdentifier) -> Seq<Seq<char>> {
    segment_names(m.segments@)
}

/// The names of a sequence of path segments.
pub open spec fn segment_names(segments: Seq<SourceFileIdentifierSegment>) -> Seq<Seq<char>> {
    segments.map_values(|s: SourceFileIdentifierSegment| s.0@)
}

/// Two identifiers name the same file.
pub open spec fn same_file(a: SourceFileIdentifier, b: SourceFileIdentifier) -> bool {
    &&& module_segments(a.module) == module_segments(b.module)
    &&& a.file.0@ == b.file.0@
    &&& a.file_type == b.file_type
}

impl ModuleIdentifier {
    /// A copy of this module path.
    pub fn duplicate(&self) -> (res: ModuleIdentifier)
        ensures
            module_segments(res) == module_segments(*self),
    {
        let mut segments: Vec<SourceFileIdentifierSegment> = Vec::new();
        let mut i: usize = 0;
        while i < self.segments.len()
            invariant
                i <= self.segments@.len(),
                segments@.len() == i,
                forall|j: int| 0 <= j < i ==> #[trigger] segments@[j].0@ == self.segments@[j].0@,
            decreases self.segments@.len() - i,
        {
            segments.push(SourceFileIdentifierSegment(self.segments[i].0.clone()));
            i = i + 1;
        }
        let res = ModuleIdentifier { segments };
        assert(module_segments(res) =~= module_segments(*self));
        res
    }
}

impl SourceFileIdentifier {
    /// A copy of this identifier.
    pub fn duplicate(&self) -> (res: SourceFileIdentifier)
        ensures
            same_file(*self, res),
    {
        SourceFileIdentifier {
            module: self.module.duplicate(),
            file: SourceFileIdentifierSegment(self.file.0.clone()),
            file_type: self.file_type,
        }
    }
}

/// Names joined by `::`.
pub open spec fn join_names(names: Seq<Seq<char>>) -> Seq<char>
    decreases names.len(),
{
    if names.len() == 0 {
        Seq::empty()
    } else if names.len() == 1 {
        names[0]
    } else {
        join_names(names.drop_last()) + seq![':', ':'] + names.last()
    }
}

/// How an identifier is written in messages: its module path and file name, joined by `::`.
pub open spec fn identifier_text(id: SourceFileIdentifier) -> Seq<char> {
    join_names(module_segments(id.module).push(id.file.0@))
}

/// How a kind of file is named in messages.
pub open spec fn file_type_text(t: SourceFileType) -> Seq<char> {
    match t {
        SourceFileType::Quill => seq!['q', 'u', 'i', 'l', 'l'],
        SourceFileType::Toml => seq!['t', 'o', 'm', 'l'],
    }
}

impl SourceFileType {
    /// The name of this kind of file, as messages write it.
    pub fn to_string(&self) -> (res: String)
        ensures
            res@ == file_type_text(*self),
    {
        match self {
            SourceFileType::Quill => {
                proof { reveal_strlit("quill"); }
                String::from_str("quill")
            },
            SourceFileType::Toml => {
                proof { reveal_strlit("toml"); }
                String::from_str("toml")
            },
        }
    }
}

impl SourceFileIdentifier {
    /// The identifier as messages write it: `module::path::file`.
    pub fn to_string(&self) -> (res: String)
        ensures
            res@ == identifier_text(*self),
    {
        let sep = "::";
        proof { reveal_strlit("::"); }
        let ghost names = module_segments(self.module).push(self.file.0@);
        let mut out = String::new();
        let mut i: usize = 0;
        while i < self.module.segments.len()
            invariant
                i <= self.module.segments@.len(),
                names == module_segments(self.module).push(self.file.0@),
                sep@ == seq![':', ':'],
                out@ == join_names(names.take(i as int)),
            decreases self.module.segments@.len() - i,
        {
            if i > 0 {
                out.append(sep);
            }
            out.append(self.module.segments[i].0.as_str());
            proof {
                let t = names.take(i + 1);
                assert(t.drop_last() =~= names.take(i as int));
                assert(t.last() == self.module.segments@[i as int].0@);
                if i == 0 {
                    assert(names.take(0) =~= Seq::<Seq<char>>::empty());
                }
            }
            i = i + 1;
        }
        if i > 0 {
            out.append(sep);
        }
        out.append(self.file.0.as_str());
        proof {
            let t = names.take(i + 1);
            assert(t.drop_last() =~= names.take(i as int));
            assert(t =~= names);
            if i == 0 {
                assert(names.take(0) =~= Seq::<Seq<char>>::empty());
            }
        }
        out
    }
}

} // verus!
