//! Function-name resolution and unit preparation.
//!
//! A DIE's name is resolved from its attributes: a linkage name wins and is
//! returned as mangled, a plain name is the unmangled fallback, and failing
//! both, an abstract-origin or specification reference is followed, across
//! units where necessary, guarding against a DIE referencing itself.

use vstd::prelude::*;
use vstd::slice::slice_to_vec;

use crate::base::FileInfo;
use crate::base::Language;
use crate::base::Name;
use crate::base::NameMangling;
use crate::base::ObjectKind;
use crate::die::AttrName;
use crate::die::AttrValue;
use crate::die::DieAttr;
use crate::die::DieData;
use crate::die::DieReference;
use crate::error::DwarfError;
use crate::error::DwarfErrorKind;
use crate::line::DwarfLineProgram;
use crate::names::bytes_to_string_lossy;
use crate::names::language_from_dwarf;
use crate::names::language_of_code;
use crate::names::lossy_utf8;
use crate::names::resolve_byte_name;
use crate::names::resolve_cow_name;
use crate::names::BcSymbolMap;
use crate::names::SymbolMap;
use crate::names::first_symbol_at;
use crate::names::map_of;
use crate::names::resolved_bytes;
use crate::names::resolved_chars;
use crate::unit::find_unit_offset_spec;
use crate::unit::DwarfData;
use crate::unit::UnitData;
use crate::unit::UnitSlot;

verus! {

/// How many reference hops a name resolution follows before giving up: a
/// guard against reference cycles in malformed data.
pub const NAME_RESOLUTION_FUEL: u64 = 128;

/// The index of the first attribute bearing `name`.
pub open spec fn first_attr_index(attrs: Seq<DieAttr>, name: AttrName) -> Option<int>
    decreases attrs.len(),
{
    if attrs.len() == 0 {
        None
    } else if attrs[0].name == name {
        Some(0)
    } else {
        match first_attr_index(attrs.drop_first(), name) {
            None => None,
            Some(i) => Some(i + 1),
        }
    }
}

/// The bytes a string-valued attribute carries.
pub open spec fn attr_bytes(v: AttrValue) -> Option<Seq<u8>> {
    match v {
        AttrValue::Bytes(b) => Some(b@),
        _ => None,
    }
}

/// The reference a reference-valued attribute carries.
pub open spec fn attr_ref(v: AttrValue) -> Option<DieReference> {
    match v {
        AttrValue::Ref(r) => Some(r),
        _ => None,
    }
}

/// What one pass over a DIE's attributes finds for its name.
pub enum NameScanResult {
    /// A linkage name came first: its bytes when it was a string.
    Linkage(Option<Seq<u8>>),
    /// No linkage name; the first plain name: its bytes when it was a
    /// string.
    Fallback(Option<Seq<u8>>),
    /// Neither name; the first reference attribute: the reference when its
    /// value was one.
    Reference(Option<DieReference>),
    /// No name-bearing attribute at all.
    Nothing,
}

/// Scans a DIE's attributes for its name: a linkage name returns at once,
/// the first plain name and the first reference are kept as fallbacks.
pub open spec fn name_scan(
    attrs: Seq<DieAttr>,
    fallback: Option<Option<Seq<u8>>>,
    reference: Option<Option<DieReference>>,
) -> NameScanResult
    decreases attrs.len(),
{
    if attrs.len() == 0 {
        match fallback {
            Some(b) => NameScanResult::Fallback(b),
            None => match reference {
                Some(r) => NameScanResult::Reference(r),
                None => NameScanResult::Nothing,
            },
        }
    } else {
        let a = attrs[0];
        match a.name {
            AttrName::LinkageName | AttrName::MipsLinkageName => NameScanResult::Linkage(
                attr_bytes(a.value),
            ),
            AttrName::Name => name_scan(
                attrs.drop_first(),
                match fallback {
                    Some(_) => fallback,
                    None => Some(attr_bytes(a.value)),
                },
                reference,
            ),
            AttrName::AbstractOrigin | AttrName::Specification => name_scan(
                attrs.drop_first(),
                fallback,
                match reference {
                    Some(_) => reference,
                    None => Some(attr_ref(a.value)),
                },
            ),
            _ => name_scan(attrs.drop_first(), fallback, reference),
        }
    }
}

/// The index of the first DIE at a unit-relative offset.
pub open spec fn first_die_at(dies: Seq<DieData>, offset: usize) -> Option<int>
    decreases dies.len(),
{
    if dies.len() == 0 {
        None
    } else if dies[0].offset == offset {
        Some(0)
    } else {
        match first_die_at(dies.drop_first(), offset) {
            None => None,
            Some(i) => Some(i + 1),
        }
    }
}

/// The value of a resolved name: its characters, mangling, and language.
pub struct NameRepr {
    /// The characters of the name.
    pub text: Seq<char>,
    /// Whether the text is mangled.
    pub mangling: NameMangling,
    /// The language the name belongs to.
    pub language: Language,
}

/// What resolving a DIE's function name yields: the name, nothing when the
/// DIE carries none (or only a reference to itself, or the reference chain
/// is deeper than the fuel), or the error that resolving a cross-unit
/// reference raised.
pub open spec fn resolve_name_spec(
    units: Seq<UnitSlot>,
    ui: int,
    di: int,
    language: Language,
    bc: Option<BcSymbolMap>,
    fuel: nat,
) -> Result<Option<NameRepr>, DwarfErrorKind>
    decreases fuel,
{
    if fuel == 0 {
        Ok(None)
    } else if !(0 <= ui < units.len()) {
        Ok(None)
    } else {
        match units[ui] {
            UnitSlot::Present(u) => {
                if !(0 <= di < u.dies@.len()) {
                    Ok(None)
                } else {
                    let die = u.dies@[di];
                    match name_scan(die.attrs@, None, None) {
                        NameScanResult::Linkage(b) => Ok(
                            match b {
                                Some(bytes) => Some(
                                    NameRepr {
                                        text: resolved_chars(bc, lossy_utf8(bytes)),
                                        mangling: NameMangling::Mangled,
                                        language,
                                    },
                                ),
                                None => None,
                            },
                        ),
                        NameScanResult::Fallback(b) => Ok(
                            match b {
                                Some(bytes) => Some(
                                    NameRepr {
                                        text: resolved_chars(bc, lossy_utf8(bytes)),
                                        mangling: NameMangling::Unmangled,
                                        language,
                                    },
                                ),
                                None => None,
                            },
                        ),
                        NameScanResult::Reference(ro) => match ro {
                            None => Ok(None),
                            Some(DieReference::UnitLocal(off)) => {
                                if off == die.offset {
                                    Ok(None)
                                } else {
                                    match first_die_at(u.dies@, off) {
                                        None => Ok(None),
                                        Some(j) => resolve_name_spec(
                                            units,
                                            ui,
                                            j,
                                            language,
                                            bc,
                                            (fuel - 1) as nat,
                                        ),
                                    }
                                }
                            },
                            Some(DieReference::DebugInfo(off)) => {
                                match find_unit_offset_spec(units, off) {
                                    Err(k) => Err(k),
                                    Ok(t) => {
                                        if t.0 == ui && t.1 == die.offset {
                                            Ok(None)
                                        } else {
                                            match units[t.0] {
                                                UnitSlot::Present(tu) => match first_die_at(
                                                    tu.dies@,
                                                    t.1,
                                                ) {
                                                    None => Ok(None),
                                                    Some(j) => resolve_name_spec(
                                                        units,
                                                        t.0,
                                                        j,
                                                        language,
                                                        bc,
                                                        (fuel - 1) as nat,
                                                    ),
                                                },
                                                _ => Ok(None),
                                            }
                                        }
                                    },
                                }
                            },
                        },
                        NameScanResult::Nothing => Ok(None),
                    }
                }
            },
            _ => Ok(None),
        }
    }
}

/// Whether an executable resolution result carries the value the
/// specification prescribes.
pub open spec fn name_result_matches(
    s: Result<Option<NameRepr>, DwarfErrorKind>,
    r: Result<Option<Name>, DwarfError>,
) -> bool {
    match s {
        Ok(rep_opt) => match rep_opt {
            None => r matches Ok(o) && o is None,
            Some(rep) => r matches Ok(o) && o matches Some(n) && n.text@ == rep.text && n.mangling
                == rep.mangling && n.language == rep.language,
        },
        Err(k) => r matches Err(e) && e@ == k,
    }
}

/// The recorded fallback-name bytes, as the scan state sees them.
pub open spec fn fb_of(attrs: Seq<DieAttr>, idx: Option<usize>) -> Option<Option<Seq<u8>>> {
    match idx {
        None => None,
        Some(k) => Some(attr_bytes(attrs[k as int].value)),
    }
}

/// The recorded reference target, as the scan state sees it.
pub open spec fn ref_of(attrs: Seq<DieAttr>, idx: Option<usize>) -> Option<Option<DieReference>> {
    match idx {
        None => None,
        Some(k) => Some(attr_ref(attrs[k as int].value)),
    }
}

/// Resolves the function name of a DIE, following abstract-origin and
/// specification references across units, at most `fuel` hops deep.
pub fn resolve_function_name(
    data: &DwarfData,
    unit_index: usize,
    die_index: usize,
    language: Language,
    bcsymbolmap: Option<&BcSymbolMap>,
    fuel: u64,
) -> (r: Result<Option<Name>, DwarfError>)
    ensures
        name_result_matches(
            resolve_name_spec(
                data.units_spec(),
                unit_index as int,
                die_index as int,
                language,
                map_of(bcsymbolmap),
                fuel as nat,
            ),
            r,
        ),
    decreases fuel,
{
    if fuel == 0 {
        return Ok(None);
    }
    if unit_index >= data.unit_count() {
        return Ok(None);
    }
    let u = match data.slot(unit_index) {
        UnitSlot::Present(u) => u,
        _ => {
            return Ok(None);
        },
    };
    if die_index >= u.dies.len() {
        return Ok(None);
    }
    let die = &u.dies[die_index];

    let mut fallback_idx: Option<usize> = None;
    let mut reference_idx: Option<usize> = None;
    let mut i: usize = 0;
    proof {
        assert(die.attrs@.skip(0) =~= die.attrs@);
    }
    while i < die.attrs.len()
        invariant
            i <= die.attrs@.len(),
            fuel > 0,
            unit_index < data.units_spec().len(),
            data.units_spec()[unit_index as int] == UnitSlot::Present(*u),
            die_index < u.dies@.len(),
            *die == u.dies@[die_index as int],
            fallback_idx matches Some(k) ==> k < i,
            reference_idx matches Some(k) ==> k < i,
            name_scan(die.attrs@, None, None) == name_scan(
                die.attrs@.skip(i as int),
                fb_of(die.attrs@, fallback_idx),
                ref_of(die.attrs@, reference_idx),
            ),
        decreases die.attrs@.len() - i,
    {
        proof {
            assert(die.attrs@.skip(i as int).drop_first() =~= die.attrs@.skip(i + 1));
            assert(die.attrs@.skip(i as int)[0] == die.attrs@[i as int]);
        }
        let attr = &die.attrs[i];
        match attr.name {
            AttrName::LinkageName | AttrName::MipsLinkageName => {
                match &attr.value {
                    AttrValue::Bytes(b) => {
                        let text = bytes_to_string_lossy(b.as_slice());
                        let text = resolve_cow_name(bcsymbolmap, text);
                        return Ok(Some(Name::new(text, NameMangling::Mangled, language)));
                    },
                    _ => {
                        return Ok(None);
                    },
                }
            },
            AttrName::Name => {
                if fallback_idx.is_none() {
                    fallback_idx = Some(i);
                }
            },
            AttrName::AbstractOrigin | AttrName::Specification => {
                if reference_idx.is_none() {
                    reference_idx = Some(i);
                }
            },
            _ => {},
        }
        i = i + 1;
    }
    proof {
        assert(die.attrs@.skip(die.attrs@.len() as int) =~= Seq::<DieAttr>::empty());
    }

    if let Some(k) = fallback_idx {
        match &die.attrs[k].value {
            AttrValue::Bytes(b) => {
                let text = bytes_to_string_lossy(b.as_slice());
                let text = resolve_cow_name(bcsymbolmap, text);
                return Ok(Some(Name::new(text, NameMangling::Unmangled, language)));
            },
            _ => {
                return Ok(None);
            },
        }
    }
    let target = match reference_idx {
        None => {
            return Ok(None);
        },
        Some(k) => match &die.attrs[k].value {
            AttrValue::Ref(r) => *r,
            _ => {
                return Ok(None);
            },
        },
    };
    match target {
        DieReference::UnitLocal(off) => {
            if off == die.offset {
                return Ok(None);
            }
            match find_die_at(&u.dies, off) {
                None => Ok(None),
                Some(j) => resolve_function_name(
                    data,
                    unit_index,
                    j,
                    language,
                    bcsymbolmap,
                    fuel - 1,
                ),
            }
        },
        DieReference::DebugInfo(off) => {
            let (target_unit, target_off) = match data.find_unit_offset(off) {
                Ok(t) => t,
                Err(e) => {
                    return Err(e);
                },
            };
            if target_unit == unit_index && target_off == die.offset {
                return Ok(None);
            }
            let tu = match data.slot(target_unit) {
                UnitSlot::Present(tu) => tu,
                _ => {
                    return Ok(None);
                },
            };
            match find_die_at(&tu.dies, target_off) {
                None => Ok(None),
                Some(j) => resolve_function_name(
                    data,
                    target_unit,
                    j,
                    language,
                    bcsymbolmap,
                    fuel - 1,
                ),
            }
        },
    }
}

/// Finds the first DIE at a unit-relative offset.
fn find_die_at(dies: &Vec<DieData>, offset: usize) -> (r: Option<usize>)
    ensures
        first_die_at(dies@, offset) is None ==> r is None,
        first_die_at(dies@, offset) matches Some(i) ==> (r matches Some(j) && j == i),
{
    let mut k: usize = 0;
    while k < dies.len()
        invariant
            k <= dies@.len(),
            forall|j: int| 0 <= j < k ==> dies@[j].offset != offset,
        decreases dies@.len() - k,
    {
        if dies[k].offset == offset {
            proof {
                lemma_first_die_at(dies@, offset, k as int);
            }
            return Some(k);
        }
        k = k + 1;
    }
    proof {
        lemma_no_die_at(dies@, offset);
    }
    None
}

/// When no DIE before `k` sits at the offset and DIE `k` does, `k` is the
/// first.
proof fn lemma_first_die_at(dies: Seq<DieData>, offset: usize, k: int)
    requires
        0 <= k < dies.len(),
        dies[k].offset == offset,
        forall|j: int| 0 <= j < k ==> dies[j].offset != offset,
    ensures
        first_die_at(dies, offset) == Some(k),
    decreases dies.len(),
{
    if k > 0 {
        lemma_first_die_at(dies.drop_first(), offset, k - 1);
    }
}

/// When no DIE sits at the offset, the search yields nothing.
proof fn lemma_no_die_at(dies: Seq<DieData>, offset: usize)
    requires
        forall|j: int| 0 <= j < dies.len() ==> dies[j].offset != offset,
    ensures
        first_die_at(dies, offset) is None,
    decreases dies.len(),
{
    if dies.len() > 0 {
        lemma_no_die_at(dies.drop_first(), offset);
    }
}

/// Finds the first attribute bearing `name`.
fn find_attr<'a>(attrs: &'a Vec<DieAttr>, name: AttrName) -> (r: Option<&'a DieAttr>)
    ensures
        first_attr_index(attrs@, name) is None ==> r is None,
        first_attr_index(attrs@, name) matches Some(i) ==> (r matches Some(a) && *a == attrs@[i]),
{
    let mut k: usize = 0;
    while k < attrs.len()
        invariant
            k <= attrs@.len(),
            forall|j: int| 0 <= j < k ==> attrs@[j].name != name,
        decreases attrs@.len() - k,
    {
        if attrs[k].name == name {
            proof {
                lemma_first_attr_at(attrs@, name, k as int);
            }
            return Some(&attrs[k]);
        }
        k = k + 1;
    }
    proof {
        lemma_no_attr(attrs@, name);
    }
    None
}

/// When no attribute before `k` bears the name and attribute `k` does, `k`
/// is the first.
proof fn lemma_first_attr_at(attrs: Seq<DieAttr>, name: AttrName, k: int)
    requires
        0 <= k < attrs.len(),
        attrs[k].name == name,
        forall|j: int| 0 <= j < k ==> attrs[j].name != name,
    ensures
        first_attr_index(attrs, name) == Some(k),
    decreases attrs.len(),
{
    if k > 0 {
        lemma_first_attr_at(attrs.drop_first(), name, k - 1);
    }
}

/// When no attribute bears the name, the search yields nothing.
proof fn lemma_no_attr(attrs: Seq<DieAttr>, name: AttrName)
    requires
        forall|j: int| 0 <= j < attrs.len() ==> attrs[j].name != name,
    ensures
        first_attr_index(attrs, name) is None,
    decreases attrs.len(),
{
    if attrs.len() > 0 {
        lemma_no_attr(attrs.drop_first(), name);
    }
}

/// The producer string of the Dart virtual machine, whose name mangling is
/// lossy: for its units the DWARF names are preferred over the symbol
/// table.
pub open spec fn dart_vm_bytes() -> Seq<u8> {
    seq![68u8, 97u8, 114u8, 116u8, 32u8, 86u8, 77u8]
}

/// Whether the bytes spell the Dart VM producer string.
fn is_dart_vm(b: &Vec<u8>) -> (r: bool)
    ensures
        r == (b@ == dart_vm_bytes()),
{
    let matches_bytes = b.len() == 7 && *b.get(0).unwrap() == 68 && *b.get(1).unwrap() == 97
        && *b.get(2).unwrap() == 114 && *b.get(3).unwrap() == 116 && *b.get(4).unwrap() == 32
        && *b.get(5).unwrap() == 86 && *b.get(6).unwrap() == 77;
    proof {
        if matches_bytes {
            assert(b@ =~= dart_vm_bytes());
        } else {
            assert(b@ != dart_vm_bytes());
        }
    }
    matches_bytes
}

/// The language a unit's top-level entry declares, unknown when it
/// declares none.
pub open spec fn unit_language_spec(attrs: Seq<DieAttr>) -> Language {
    match first_attr_index(attrs, AttrName::Language) {
        None => Language::Unknown,
        Some(i) => match attrs[i].value {
            AttrValue::Lang(code) => language_of_code(code),
            _ => Language::Unknown,
        },
    }
}

/// Whether a unit's producer is known to mangle names lossily, so that
/// DWARF names are preferred over the symbol table.
pub open spec fn prefer_dwarf_names_spec(attrs: Seq<DieAttr>) -> bool {
    match first_attr_index(attrs, AttrName::Producer) {
        None => false,
        Some(i) => match attrs[i].value {
            AttrValue::Bytes(b) => b@ == dart_vm_bytes(),
            _ => false,
        },
    }
}

/// Whether a prepared line program was prepared from the given raw line
/// program.
pub open spec fn prepared_from(
    lp: DwarfLineProgram,
    rows: Seq<crate::line::LineProgramRow>,
    files: Seq<FileInfo>,
) -> bool {
    &&& lp.files_spec().len() == files.len()
    &&& (forall|k: int|
        0 <= k < files.len() ==> (#[trigger] lp.files_spec()[k]).dir@ == files[k].dir@
            && lp.files_spec()[k].name@ == files[k].name@)
    &&& lp.sequences_spec().to_multiset() == crate::line::prep_final(rows).to_multiset()
    &&& crate::line::seqs_sorted_by_start(lp.sequences_spec())
}

/// Copies a file table.
fn clone_file_table(files: &Vec<FileInfo>) -> (r: Vec<FileInfo>)
    ensures
        r@.len() == files@.len(),
        forall|k: int|
            0 <= k < files@.len() ==> (#[trigger] r@[k]).dir@ == files@[k].dir@ && r@[k].name@
                == files@[k].name@,
{
    let mut out: Vec<FileInfo> = Vec::new();
    let mut k: usize = 0;
    while k < files.len()
        invariant
            k <= files@.len(),
            out@.len() == k,
            forall|j: int|
                0 <= j < k ==> (#[trigger] out@[j]).dir@ == files@[j].dir@ && out@[j].name@
                    == files@[j].name@,
        decreases files@.len() - k,
    {
        let f = &files[k];
        out.push(FileInfo { dir: slice_to_vec(f.dir.as_slice()), name: slice_to_vec(f.name.as_slice()) });
        k = k + 1;
    }
    out
}

/// A prepared compilation unit: everything the function builder needs to
/// walk its DIE tree.
#[derive(Debug)]
pub struct DwarfUnit {
    /// The index of the unit in the registry.
    pub index: usize,
    /// The unit's source language.
    pub language: Language,
    /// The unit's compilation directory, empty when it names none.
    pub comp_dir: Vec<u8>,
    /// The unit's prepared line program, when it declares one.
    pub line_program: Option<DwarfLineProgram>,
    /// Whether DWARF names are preferred over the symbol table for this
    /// unit.
    pub prefer_dwarf_names: bool,
}

impl DwarfUnit {
    /// Prepares a compilation unit: nothing for a unit whose code the
    /// linker eliminated entirely (a zero low address without ranges,
    /// outside relocatable objects), an error for a unit without a
    /// top-level entry.
    pub fn from_unit(
        unit: &UnitData,
        index: usize,
        kind: ObjectKind,
        bcsymbolmap: Option<&BcSymbolMap>,
    ) -> (r: Result<Option<DwarfUnit>, DwarfError>)
        ensures
            unit.dies@.len() == 0 ==> (r matches Err(e) && e@ == DwarfErrorKind::CorruptedData),
            unit.dies@.len() > 0 ==> ({
                let top_attrs = unit.dies@[0].attrs@;
                let skip = kind != ObjectKind::Relocatable && unit.low_pc == 0 && first_attr_index(
                    top_attrs,
                    AttrName::Ranges,
                ) is None;
                &&& skip ==> (r matches Ok(o) && o is None)
                &&& !skip ==> (r matches Ok(o) && o matches Some(du) && {
                    &&& du.index == index
                    &&& du.language == unit_language_spec(top_attrs)
                    &&& du.prefer_dwarf_names == prefer_dwarf_names_spec(top_attrs)
                    &&& du.comp_dir@ == (match unit.comp_dir {
                        Some(d) => resolved_bytes(map_of(bcsymbolmap), d@),
                        None => Seq::<u8>::empty(),
                    })
                    &&& (du.line_program is Some <==> unit.line_program is Some)
                    &&& (unit.line_program matches Some(p) ==> du.line_program matches Some(lp)
                        && prepared_from(lp, p.rows@, p.files@))
                })
            }),
    {
        if unit.dies.len() == 0 {
            return Err(DwarfError::new(DwarfErrorKind::CorruptedData));
        }
        let top = &unit.dies[0];

        let relocatable = match kind {
            ObjectKind::Relocatable => true,
            ObjectKind::Linked => false,
        };
        let has_ranges = find_attr(&top.attrs, AttrName::Ranges).is_some();
        if !relocatable && unit.low_pc == 0 && !has_ranges {
            return Ok(None);
        }

        let language = match find_attr(&top.attrs, AttrName::Language) {
            Some(attr) => match &attr.value {
                AttrValue::Lang(code) => language_from_dwarf(*code),
                _ => Language::Unknown,
            },
            None => Language::Unknown,
        };

        let line_program = match &unit.line_program {
            Some(p) => Some(DwarfLineProgram::prepare(&p.rows, clone_file_table(&p.files))),
            None => None,
        };

        let prefer_dwarf_names = match find_attr(&top.attrs, AttrName::Producer) {
            Some(attr) => match &attr.value {
                AttrValue::Bytes(b) => is_dart_vm(b),
                _ => false,
            },
            None => false,
        };

        let comp_dir: Vec<u8> = match &unit.comp_dir {
            Some(d) => slice_to_vec(resolve_byte_name(bcsymbolmap, d.as_slice())),
            None => Vec::new(),
        };

        Ok(Some(DwarfUnit { index, language, comp_dir, line_program, prefer_dwarf_names }))
    }

    /// The compilation directory of this unit.
    pub fn compilation_dir(&self) -> (r: &[u8])
        ensures
            r@ == self.comp_dir@,
    {
        self.comp_dir.as_slice()
    }

    /// Resolves a file entry of this unit's line program by its index.
    pub fn resolve_file(&self, bcsymbolmap: Option<&BcSymbolMap>, file_id: u64) -> (r: Option<
        FileInfo,
    >)
        ensures
            self.line_program is None ==> r is None,
            self.line_program matches Some(lp) ==> ({
                &&& file_id < lp.files_spec().len() ==> (r matches Some(f) && f.dir@
                    == resolved_bytes(
                    map_of(bcsymbolmap),
                    lp.files_spec()[file_id as int].dir@,
                ) && f.name@ == resolved_bytes(
                    map_of(bcsymbolmap),
                    lp.files_spec()[file_id as int].name@,
                ))
                &&& file_id >= lp.files_spec().len() ==> r is None
            }),
    {
        let bc = bcsymbolmap;
        let lp = match &self.line_program {
            Some(lp) => lp,
            None => {
                return None;
            },
        };
        match lp.file(file_id) {
            Some(f) => Some(
                FileInfo {
                    dir: slice_to_vec(resolve_byte_name(bc, f.dir.as_slice())),
                    name: slice_to_vec(resolve_byte_name(bc, f.name.as_slice())),
                },
            ),
            None => None,
        }
    }

    /// Resolves the name of a function from the symbol table by its exact
    /// start address.
    pub fn resolve_symbol_name(
        &self,
        bcsymbolmap: Option<&BcSymbolMap>,
        symbol_map: &SymbolMap,
        address: u64,
    ) -> (r: Option<Name>)
        ensures
            ({
                let found = first_symbol_at(symbol_map.entries_spec(), address);
                &&& found is None ==> r is None
                &&& found matches Some(i) ==> ({
                    match symbol_map.entries_spec()[i].name {
                        None => r is None,
                        Some(n) => r matches Some(nm) && nm.text@ == resolved_chars(
                            map_of(bcsymbolmap),
                            n@,
                        ) && nm.mangling == NameMangling::Mangled && nm.language
                            == self.language,
                    }
                })
            }),
    {
        let bc = bcsymbolmap;
        let entry = match symbol_map.lookup_exact(address) {
            Some(e) => e,
            None => {
                return None;
            },
        };
        let name = match &entry.name {
            Some(n) => n.clone(),
            None => {
                return None;
            },
        };
        let resolved = resolve_cow_name(bc, name);
        Some(Name::new(resolved, NameMangling::Mangled, self.language))
    }

    /// Resolves the name of a function from the DWARF debugging
    /// information, swallowing resolution errors.
    pub fn resolve_dwarf_name(
        &self,
        bcsymbolmap: Option<&BcSymbolMap>,
        data: &DwarfData,
        die_index: usize,
    ) -> (r: Option<Name>)
        ensures
            ({
                let s = resolve_name_spec(
                    data.units_spec(),
                    self.index as int,
                    die_index as int,
                    self.language,
                    map_of(bcsymbolmap),
                    NAME_RESOLUTION_FUEL as nat,
                );
                &&& s matches Ok(o) ==> ({
                    match o {
                        Some(rep) => r matches Some(n) && n.text@ == rep.text && n.mangling
                            == rep.mangling && n.language == rep.language,
                        None => r is None,
                    }
                })
                &&& (s matches Err(_)) ==> r is None
            }),
    {
        match resolve_function_name(
            data,
            self.index,
            die_index,
            self.language,
            bcsymbolmap,
            NAME_RESOLUTION_FUEL,
        ) {
            Ok(name) => name,
            Err(_) => None,
        }
    }
}

} // verus!
