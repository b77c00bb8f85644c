//! Core data model: names, languages, source files, line records, and the
//! reconstructed functions that a debug session emits.

use vstd::prelude::*;

verus! {

/// The kind of object file a debug session was created from.
///
/// In relocatable objects functions have not been placed yet, so an address
/// of zero is legitimate; everywhere else it marks code eliminated by the
/// linker.
#[derive(Clone, Copy, Debug, PartialEq, Eq, Structural)]
pub enum ObjectKind {
    /// An object file that has not been linked to final addresses.
    Relocatable,
    /// Any object whose code has been placed at final addresses.
    Linked,
}

/// The source language a compilation unit was written in.
#[derive(Clone, Copy, Debug, PartialEq, Eq, Structural)]
pub enum Language {
    C,
    Cpp,
    D,
    Go,
    ObjC,
    ObjCpp,
    Rust,
    Swift,
    Unknown,
}

/// Whether the text of a name is mangled.
#[derive(Clone, Copy, Debug, PartialEq, Eq, Structural)]
pub enum NameMangling {
    Mangled,
    Unmangled,
    Unknown,
}

/// A function name together with its mangling state and language.
#[derive(Clone, Debug)]
pub struct Name {
    /// The text of the name.
    pub text: String,
    /// Whether the text is mangled.
    pub mangling: NameMangling,
    /// The language the name belongs to.
    pub language: Language,
}

impl Name {
    /// Creates a new name.
    pub fn new(text: String, mangling: NameMangling, language: Language) -> (r: Name)
        ensures
            r.text@ == text@,
            r.mangling == mangling,
            r.language == language,
    {
        Name { text, mangling, language }
    }
}

/// A source file referenced by a line program.
///
/// The logical full path is the compilation directory joined with `dir` and
/// `name`, later absolute fragments overriding earlier ones.
#[derive(Clone, Debug)]
pub struct FileInfo {
    /// The directory fragment, relative to the compilation directory.
    pub dir: Vec<u8>,
    /// The file name fragment.
    pub name: Vec<u8>,
}

impl FileInfo {
    /// An empty file record, used when a file reference cannot be resolved.
    pub fn empty() -> (r: FileInfo)
        ensures
            r.dir@.len() == 0,
            r.name@.len() == 0,
    {
        FileInfo { dir: Vec::new(), name: Vec::new() }
    }
}

/// A line record within a function.
#[derive(Clone, Debug)]
pub struct LineInfo {
    /// The first instruction address the record covers, after the global
    /// address offset was applied.
    pub address: u64,
    /// The number of bytes the record covers, unknown only for the last row
    /// of a sequence that lacked an end marker.
    pub size: Option<u64>,
    /// The source file.
    pub file: FileInfo,
    /// The source line, with zero standing for missing line information.
    pub line: u64,
}

/// A function reconstructed from the DWARF debugging information.
#[derive(Debug)]
pub struct Function {
    /// The start address, after the global address offset was applied.
    pub address: u64,
    /// The sum of the lengths of all address ranges of this function.
    pub size: u64,
    /// The (possibly mangled) name of this function.
    pub name: Name,
    /// The compilation directory of the owning unit.
    pub compilation_dir: Vec<u8>,
    /// Line records sorted by address.
    pub lines: Vec<LineInfo>,
    /// Functions inlined into this one, in source order of appearance.
    pub inlinees: Vec<Function>,
    /// Whether this function is itself an inlined call.
    pub inline: bool,
}

/// A file entry yielded by the file iterator of a debug session.
#[derive(Clone, Debug)]
pub struct FileEntry {
    /// The compilation directory of the owning unit.
    pub compilation_dir: Vec<u8>,
    /// Directory and name of the file itself.
    pub info: FileInfo,
}

/// A half-open raw address range `[begin, end)` of a DIE, before the global
/// address offset is applied.
#[derive(Clone, Copy, Debug, PartialEq, Eq, Structural)]
pub struct AddrRange {
    /// The first address covered.
    pub begin: u64,
    /// The first address past the range.
    pub end: u64,
}

/// The sum of the lengths of a sequence of ranges.
pub open spec fn range_len_sum(rs: Seq<AddrRange>) -> int
    decreases rs.len(),
{
    if rs.len() == 0 {
        0
    } else {
        range_len_sum(rs.drop_last()) + (rs.last().end - rs.last().begin)
    }
}

/// Whether a sequence of ranges is sorted by its begin addresses.
pub open spec fn ranges_sorted_by_begin(rs: Seq<AddrRange>) -> bool {
    forall|i: int, j: int| 0 <= i <= j < rs.len() ==> #[trigger] rs[i].begin <= #[trigger] rs[j].begin
}

} // verus!
