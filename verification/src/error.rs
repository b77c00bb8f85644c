//! Errors raised while processing DWARF debugging information.

use vstd::prelude::*;

verus! {

/// The kind of error raised while handling DWARF debugging information.
#[derive(Clone, Copy, Debug, PartialEq, Eq, Structural)]
pub enum DwarfErrorKind {
    /// A compilation unit referenced by offset does not exist.
    InvalidUnitRef(usize),
    /// A file record referenced by index does not exist.
    InvalidFileRef(u64),
    /// An inline record was encountered without an inlining parent.
    UnexpectedInline,
    /// The address range of a function is inverted.
    InvertedFunctionRange,
    /// The DWARF data is corrupted.
    CorruptedData,
}

impl DwarfErrorKind {
    /// A human-readable description of this error kind.
    pub fn message(&self) -> (r: &'static str)
        ensures
            r@.len() > 0,
    {
        let r = match self {
            DwarfErrorKind::InvalidUnitRef(_) => "compilation unit for offset does not exist",
            DwarfErrorKind::InvalidFileRef(_) => "referenced file does not exist",
            DwarfErrorKind::UnexpectedInline => "unexpected inline function without parent",
            DwarfErrorKind::InvertedFunctionRange => "function with inverted address range",
            DwarfErrorKind::CorruptedData => "corrupted dwarf debug data",
        };
        proof {
            reveal_strlit("compilation unit for offset does not exist");
            reveal_strlit("referenced file does not exist");
            reveal_strlit("unexpected inline function without parent");
            reveal_strlit("function with inverted address range");
            reveal_strlit("corrupted dwarf debug data");
        }
        r
    }
}

/// An error raised while handling DWARF debugging information.
///
/// The error is fully described by its [`DwarfErrorKind`], which the view of
/// this type exposes to specifications.
#[derive(Clone, Copy, Debug)]
pub struct DwarfError {
    kind: DwarfErrorKind,
}

impl View for DwarfError {
    type V = DwarfErrorKind;

    closed spec fn view(&self) -> DwarfErrorKind {
        self.kind
    }
}

impl DwarfError {
    /// Creates a new DWARF error of a known kind.
    pub fn new(kind: DwarfErrorKind) -> (r: Self)
        ensures
            r@ == kind,
    {
        DwarfError { kind }
    }

    /// Returns the corresponding [`DwarfErrorKind`] for this error.
    pub fn kind(&self) -> (k: DwarfErrorKind)
        ensures
            k == self@,
    {
        self.kind
    }

    /// A human-readable description of this error.
    pub fn message(&self) -> (r: &'static str)
        ensures
            r@.len() > 0,
    {
        self.kind.message()
    }
}

impl From<DwarfErrorKind> for DwarfError {
    fn from(kind: DwarfErrorKind) -> (r: Self) {
        DwarfError { kind }
    }
}

impl vstd::std_specs::convert::FromSpecImpl<DwarfErrorKind> for DwarfError {
    open spec fn obeys_from_spec() -> bool {
        true
    }

    closed spec fn from_spec(kind: DwarfErrorKind) -> DwarfError {
        DwarfError { kind }
    }
}

} // verus!
