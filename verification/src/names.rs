//! Name resolution helpers: the source-language mapping, the optional
//! bitcode symbol map, and the symbol table consulted for function names.

use vstd::prelude::*;
use vstd::slice::slice_index_get;
use vstd::slice::slice_to_vec;
use vstd::string::StringSliceAdditionalSpecFns;
use vstd::utf8::encode_utf8;

use crate::base::Language;

verus! {

/// The DWARF code of the C89 language.
pub const DW_LANG_C89: u16 = 0x0001;

/// The DWARF code of the C language.
pub const DW_LANG_C: u16 = 0x0002;

/// The DWARF code of the C++ language.
pub const DW_LANG_C_PLUS_PLUS: u16 = 0x0004;

/// The DWARF code of the C99 language.
pub const DW_LANG_C99: u16 = 0x000c;

/// The DWARF code of the Objective-C language.
pub const DW_LANG_OBJC: u16 = 0x0010;

/// The DWARF code of the Objective-C++ language.
pub const DW_LANG_OBJC_PLUS_PLUS: u16 = 0x0011;

/// The DWARF code of the D language.
pub const DW_LANG_D: u16 = 0x0013;

/// The DWARF code of the Go language.
pub const DW_LANG_GO: u16 = 0x0016;

/// The DWARF code of the C++03 language.
pub const DW_LANG_C_PLUS_PLUS_03: u16 = 0x0019;

/// The DWARF code of the C++11 language.
pub const DW_LANG_C_PLUS_PLUS_11: u16 = 0x001a;

/// The DWARF code of the Rust language.
pub const DW_LANG_RUST: u16 = 0x001c;

/// The DWARF code of the C11 language.
pub const DW_LANG_C11: u16 = 0x001d;

/// The DWARF code of the Swift language.
pub const DW_LANG_SWIFT: u16 = 0x001e;

/// The DWARF code of the C++14 language.
pub const DW_LANG_C_PLUS_PLUS_14: u16 = 0x0021;

/// The language a DWARF language code maps to; codes of language revisions
/// collapse onto their language, unknown codes onto `Unknown`.
pub open spec fn language_of_code(code: u16) -> Language {
    if code == DW_LANG_C || code == DW_LANG_C11 || code == DW_LANG_C89 || code == DW_LANG_C99 {
        Language::C
    } else if code == DW_LANG_C_PLUS_PLUS || code == DW_LANG_C_PLUS_PLUS_03 || code
        == DW_LANG_C_PLUS_PLUS_11 || code == DW_LANG_C_PLUS_PLUS_14 {
        Language::Cpp
    } else if code == DW_LANG_D {
        Language::D
    } else if code == DW_LANG_GO {
        Language::Go
    } else if code == DW_LANG_OBJC {
        Language::ObjC
    } else if code == DW_LANG_OBJC_PLUS_PLUS {
        Language::ObjCpp
    } else if code == DW_LANG_RUST {
        Language::Rust
    } else if code == DW_LANG_SWIFT {
        Language::Swift
    } else {
        Language::Unknown
    }
}

/// Converts a DWARF language code into a [`Language`].
pub fn language_from_dwarf(code: u16) -> (r: Language)
    ensures
        r == language_of_code(code),
{
    if code == DW_LANG_C || code == DW_LANG_C11 || code == DW_LANG_C89 || code == DW_LANG_C99 {
        Language::C
    } else if code == DW_LANG_C_PLUS_PLUS || code == DW_LANG_C_PLUS_PLUS_03 || code
        == DW_LANG_C_PLUS_PLUS_11 || code == DW_LANG_C_PLUS_PLUS_14 {
        Language::Cpp
    } else if code == DW_LANG_D {
        Language::D
    } else if code == DW_LANG_GO {
        Language::Go
    } else if code == DW_LANG_OBJC {
        Language::ObjC
    } else if code == DW_LANG_OBJC_PLUS_PLUS {
        Language::ObjCpp
    } else if code == DW_LANG_RUST {
        Language::Rust
    } else if code == DW_LANG_SWIFT {
        Language::Swift
    } else {
        Language::Unknown
    }
}

/// What decoding bytes as UTF-8 with replacement yields. Relies on
/// `String::from_utf8_lossy`, whose result depends on the bytes alone.
pub uninterp spec fn lossy_utf8(bytes: Seq<u8>) -> Seq<char>;

/// Relies on `String::from_utf8_lossy`: decodes the bytes as UTF-8,
/// replacing invalid sequences with the replacement character; an empty
/// input decodes to the empty string.
#[verifier::external_body]
pub fn bytes_to_string_lossy(bytes: &[u8]) -> (r: String)
    ensures
        r@ == lossy_utf8(bytes@),
        bytes@.len() == 0 ==> r@.len() == 0,
{
    String::from_utf8_lossy(bytes).into_owned()
}

/// One entry of a bitcode symbol map: a hidden name and the original it
/// stands for.
#[derive(Debug)]
pub struct BcSymbolMapEntry {
    /// The hidden name, as the container spells it.
    pub name: Vec<u8>,
    /// The original name it resolves to.
    pub replacement: String,
}

/// The index of the first map entry whose hidden name spells `name`.
pub open spec fn bc_first_match(entries: Seq<BcSymbolMapEntry>, name: Seq<u8>) -> Option<int>
    decreases entries.len(),
{
    if entries.len() == 0 {
        None
    } else if entries[0].name@ == name {
        Some(0)
    } else {
        match bc_first_match(entries.drop_first(), name) {
            None => None,
            Some(i) => Some(i + 1),
        }
    }
}

/// A bitcode symbol map: the resolver containers provide when they hide
/// their symbol names behind a separate map. Resolving a hidden name
/// yields the original it stands for, or nothing when the map does not
/// know the name.
#[derive(Debug)]
pub struct BcSymbolMap {
    entries: Vec<BcSymbolMapEntry>,
}

impl BcSymbolMap {
    /// The entries of the map.
    pub closed spec fn entries_spec(&self) -> Seq<BcSymbolMapEntry> {
        self.entries@
    }

    /// Creates a map from its entries; an earlier entry shadows a later
    /// one with the same hidden name.
    pub fn new(entries: Vec<BcSymbolMapEntry>) -> (r: BcSymbolMap)
        ensures
            r.entries_spec() == entries@,
    {
        BcSymbolMap { entries }
    }

    /// A map without entries, which resolves nothing.
    pub fn empty() -> (r: BcSymbolMap)
        ensures
            r.entries_spec().len() == 0,
    {
        BcSymbolMap { entries: Vec::new() }
    }

    /// Resolves a hidden name, yielding the original it stands for, or
    /// nothing when the map does not know the name.
    pub fn resolve_opt(&self, name: &[u8]) -> (r: Option<&str>)
        ensures
            match bc_first_match(self.entries_spec(), name@) {
                None => r is None,
                Some(i) => r matches Some(s) && s@ == self.entries_spec()[i].replacement@,
            },
    {
        let mut k: usize = 0;
        while k < self.entries.len()
            invariant
                k <= self.entries@.len(),
                forall|j: int| 0 <= j < k ==> (#[trigger] self.entries@[j]).name@ != name@,
            decreases self.entries@.len() - k,
        {
            if slice_eq_vec(name, &self.entries[k].name) {
                proof {
                    lemma_bc_first_match(self.entries@, name@, k as int);
                }
                return Some(self.entries[k].replacement.as_str());
            }
            k = k + 1;
        }
        proof {
            lemma_bc_no_match(self.entries@, name@);
        }
        None
    }

    /// Copies the map: the same entries, entry for entry.
    pub fn duplicate(&self) -> (r: BcSymbolMap)
        ensures
            r.entries_spec().len() == self.entries_spec().len(),
            forall|i: int|
                0 <= i < self.entries_spec().len() ==> (#[trigger] r.entries_spec()[i]).name@
                    == self.entries_spec()[i].name@ && r.entries_spec()[i].replacement@
                    == self.entries_spec()[i].replacement@,
    {
        let mut entries: Vec<BcSymbolMapEntry> = Vec::new();
        let mut k: usize = 0;
        while k < self.entries.len()
            invariant
                k <= self.entries@.len(),
                entries@.len() == k,
                forall|i: int|
                    0 <= i < k ==> (#[trigger] entries@[i]).name@ == self.entries@[i].name@
                        && entries@[i].replacement@ == self.entries@[i].replacement@,
            decreases self.entries@.len() - k,
        {
            let e = &self.entries[k];
            entries.push(
                BcSymbolMapEntry {
                    name: slice_to_vec(e.name.as_slice()),
                    replacement: e.replacement.clone(),
                },
            );
            k = k + 1;
        }
        BcSymbolMap { entries }
    }
}

/// When no entry before `k` matches the name and entry `k` does, `k` is
/// the first match.
proof fn lemma_bc_first_match(entries: Seq<BcSymbolMapEntry>, name: Seq<u8>, k: int)
    requires
        0 <= k < entries.len(),
        entries[k].name@ == name,
        forall|j: int| 0 <= j < k ==> (#[trigger] entries[j]).name@ != name,
    ensures
        bc_first_match(entries, name) == Some(k),
    decreases entries.len(),
{
    if k > 0 {
        lemma_bc_first_match(entries.drop_first(), name, k - 1);
    }
}

/// When no entry matches the name, the search yields nothing.
proof fn lemma_bc_no_match(entries: Seq<BcSymbolMapEntry>, name: Seq<u8>)
    requires
        forall|j: int| 0 <= j < entries.len() ==> (#[trigger] entries[j]).name@ != name,
    ensures
        bc_first_match(entries, name) is None,
    decreases entries.len(),
{
    if entries.len() > 0 {
        lemma_bc_no_match(entries.drop_first(), name);
    }
}

/// Whether a byte slice spells the same bytes as a vector.
fn slice_eq_vec(a: &[u8], b: &Vec<u8>) -> (r: bool)
    ensures
        r == (a@ == b@),
{
    if a.len() != b.len() {
        proof {
            assert(a@.len() != b@.len());
        }
        return false;
    }
    let n = a.len();
    let mut i: usize = 0;
    while i < n
        invariant
            n == a@.len() == b@.len(),
            i <= n,
            forall|j: int| 0 <= j < i ==> a@[j] == b@[j],
        decreases n - i,
    {
        if *slice_index_get(a, i) != b[i] {
            return false;
        }
        i = i + 1;
    }
    proof {
        assert(a@ =~= b@);
    }
    true
}

/// The optional bitcode symbol map an `Option<&BcSymbolMap>` stands for.
pub open spec fn map_of(m: Option<&BcSymbolMap>) -> Option<BcSymbolMap> {
    match m {
        None => None,
        Some(p) => Some(*p),
    }
}

/// The bytes a name resolves to through an optional bitcode symbol map:
/// the matching entry's replacement encoded as UTF-8, or the bytes
/// unchanged when no map is loaded or the map does not know the name.
pub open spec fn resolved_bytes(map: Option<BcSymbolMap>, s: Seq<u8>) -> Seq<u8> {
    match map {
        None => s,
        Some(m) => match bc_first_match(m.entries_spec(), s) {
            None => s,
            Some(i) => encode_utf8(m.entries_spec()[i].replacement@),
        },
    }
}

/// The characters a name resolves to through an optional bitcode symbol
/// map, matched by the name's UTF-8 bytes.
pub open spec fn resolved_chars(map: Option<BcSymbolMap>, s: Seq<char>) -> Seq<char> {
    match map {
        None => s,
        Some(m) => match bc_first_match(m.entries_spec(), encode_utf8(s)) {
            None => s,
            Some(i) => m.entries_spec()[i].replacement@,
        },
    }
}

/// Passes raw name bytes through the bitcode symbol map, substituting the
/// original name where the map knows the bytes.
pub fn resolve_byte_name<'a>(bcsymbolmap: Option<&'a BcSymbolMap>, s: &'a [u8]) -> (r: &'a [u8])
    ensures
        r@ == resolved_bytes(map_of(bcsymbolmap), s@),
{
    match bcsymbolmap {
        Some(map) => match map.resolve_opt(s) {
            Some(resolved) => resolved.as_bytes(),
            None => s,
        },
        None => s,
    }
}

/// Passes an owned name through the bitcode symbol map, substituting the
/// original name where the map knows the name's UTF-8 bytes.
pub fn resolve_cow_name(bcsymbolmap: Option<&BcSymbolMap>, s: String) -> (r: String)
    ensures
        r@ == resolved_chars(map_of(bcsymbolmap), s@),
{
    match bcsymbolmap {
        Some(map) => match map.resolve_opt(s.as_str().as_bytes()) {
            Some(resolved) => resolved.to_owned(),
            None => s,
        },
        None => s,
    }
}

/// One entry of the symbol table: a start address and, when the table has
/// one, the symbol's name.
#[derive(Clone, Debug)]
pub struct SymbolMapEntry {
    /// The start address of the symbol.
    pub address: u64,
    /// The name of the symbol.
    pub name: Option<String>,
}

/// The index of the first entry whose address equals `addr`.
pub open spec fn first_symbol_at(entries: Seq<SymbolMapEntry>, addr: u64) -> Option<int>
    decreases entries.len(),
{
    if entries.len() == 0 {
        None
    } else if entries[0].address == addr {
        Some(0)
    } else {
        match first_symbol_at(entries.drop_first(), addr) {
            None => None,
            Some(i) => Some(i + 1),
        }
    }
}

/// The symbol table of the container, consulted for the names of non-inline
/// functions by their exact start address.
#[derive(Debug)]
pub struct SymbolMap {
    entries: Vec<SymbolMapEntry>,
}

impl SymbolMap {
    /// The entries of the table.
    pub closed spec fn entries_spec(&self) -> Seq<SymbolMapEntry> {
        self.entries@
    }

    /// Creates a symbol table from its entries.
    pub fn new(entries: Vec<SymbolMapEntry>) -> (r: SymbolMap)
        ensures
            r.entries_spec() == entries@,
    {
        SymbolMap { entries }
    }

    /// An empty symbol table.
    pub fn empty() -> (r: SymbolMap)
        ensures
            r.entries_spec().len() == 0,
    {
        SymbolMap { entries: Vec::new() }
    }

    /// Looks up the symbol whose start address equals `addr` exactly,
    /// yielding the first such entry.
    pub fn lookup_exact(&self, addr: u64) -> (r: Option<&SymbolMapEntry>)
        ensures
            match first_symbol_at(self.entries_spec(), addr) {
                None => r is None,
                Some(i) => r matches Some(e) && *e == self.entries_spec()[i],
            },
    {
        let mut k: usize = 0;
        while k < self.entries.len()
            invariant
                k <= self.entries@.len(),
                (forall|j: int| 0 <= j < k ==> self.entries@[j].address != addr),
            decreases self.entries@.len() - k,
        {
            if self.entries[k].address == addr {
                proof {
                    lemma_first_symbol_at(self.entries@, addr, k as int);
                }
                return Some(&self.entries[k]);
            }
            k = k + 1;
        }
        proof {
            lemma_no_symbol_at(self.entries@, addr);
        }
        None
    }
}

/// When no entry before `k` matches and entry `k` does, `k` is the first
/// match.
proof fn lemma_first_symbol_at(entries: Seq<SymbolMapEntry>, addr: u64, k: int)
    requires
        0 <= k < entries.len(),
        entries[k].address == addr,
        forall|j: int| 0 <= j < k ==> entries[j].address != addr,
    ensures
        first_symbol_at(entries, addr) == Some(k),
    decreases entries.len(),
{
    if k > 0 {
        lemma_first_symbol_at(entries.drop_first(), addr, k - 1);
    }
}

/// When no entry matches, the search yields nothing.
proof fn lemma_no_symbol_at(entries: Seq<SymbolMapEntry>, addr: u64)
    requires
        forall|j: int| 0 <= j < entries.len() ==> entries[j].address != addr,
    ensures
        first_symbol_at(entries, addr) is None,
    decreases entries.len(),
{
    if entries.len() > 0 {
        lemma_no_symbol_at(entries.drop_first(), addr);
    }
}

} // verus!
