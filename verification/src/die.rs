//! The model of a debugging information entry (DIE) and the parsing of its
//! call site and address ranges.
//!
//! A DIE is held as plain values: its tag, its unit-relative offset, its
//! depth in the unit's tree, and its attributes with already-decoded
//! payloads (addresses resolved, strings fetched, range lists expanded into
//! items). [`parse_ranges`] recovers the address ranges of a DIE from those
//! attributes exactly as the DWARF data prescribes.

use vstd::prelude::*;

use crate::base::AddrRange;
use crate::base::ObjectKind;
use crate::error::DwarfError;
use crate::error::DwarfErrorKind;

verus! {

/// The tag of a DIE, reduced to what function reconstruction distinguishes.
#[derive(Clone, Copy, Debug, PartialEq, Eq, Structural)]
pub enum DieTag {
    /// A function.
    Subprogram,
    /// A function inlined into its caller at a call site.
    InlinedSubroutine,
    /// Any other entry.
    Other,
}

/// The name of a DIE attribute, reduced to those the reconstruction reads.
#[derive(Clone, Copy, Debug, PartialEq, Eq, Structural)]
pub enum AttrName {
    /// The lowest address covered.
    LowPc,
    /// The first address past the covered range, or its length.
    HighPc,
    /// The source line of the call site of an inlined function.
    CallLine,
    /// The source file of the call site of an inlined function.
    CallFile,
    /// A range list.
    Ranges,
    /// The base of the range lists, carrying a range list itself.
    RnglistsBase,
    /// The start scope, carrying a range list.
    StartScope,
    /// The mangled linkage name.
    LinkageName,
    /// The legacy mangled linkage name.
    MipsLinkageName,
    /// The plain name.
    Name,
    /// A reference to the abstract origin of an inlined function.
    AbstractOrigin,
    /// A reference to the declaration a definition completes.
    Specification,
    /// The source language of a compilation unit.
    Language,
    /// The producer string of a compilation unit.
    Producer,
    /// Any other attribute.
    Other,
}

/// One expanded entry of a range list.
#[derive(Clone, Copy, Debug, PartialEq, Eq, Structural)]
pub enum RangeListItem {
    /// A decoded range.
    Span(AddrRange),
    /// An entry the producer emitted with an inverted or otherwise invalid
    /// address range; it is skipped, the rest of the list stands.
    InvalidAddressRange,
    /// An entry that could not be decoded at all; it corrupts the list.
    Corrupt,
}

/// A reference from one DIE to another.
#[derive(Clone, Copy, Debug, PartialEq, Eq, Structural)]
pub enum DieReference {
    /// An offset relative to the start of the referencing DIE's own unit.
    UnitLocal(usize),
    /// An offset relative to the start of the debug-info section.
    DebugInfo(usize),
}

/// The decoded payload of a DIE attribute.
#[derive(Clone, Debug, PartialEq, Eq)]
pub enum AttrValue {
    /// An absolute address, either direct or resolved through the address
    /// table.
    Addr(u64),
    /// An unsigned constant.
    Udata(u64),
    /// An index into the line-program file table.
    FileIndex(u64),
    /// The bytes of a string attribute, already fetched from its string
    /// section.
    Bytes(Vec<u8>),
    /// A reference to another DIE.
    Ref(DieReference),
    /// A source-language code of the DWARF standard.
    Lang(u16),
    /// An expanded range list.
    RangeList(Vec<RangeListItem>),
    /// A form the reconstruction does not support.
    Unsupported,
}

/// One attribute of a DIE.
#[derive(Clone, Debug, PartialEq, Eq)]
pub struct DieAttr {
    /// The attribute's name.
    pub name: AttrName,
    /// The attribute's decoded payload.
    pub value: AttrValue,
}

/// A DIE of a compilation unit, in depth-first order.
#[derive(Clone, Debug)]
pub struct DieData {
    /// The unit-relative offset of this DIE.
    pub offset: usize,
    /// The depth of this DIE in the unit's tree, the unit root at zero.
    pub depth: u32,
    /// The tag.
    pub tag: DieTag,
    /// The attributes, in the order they are stored.
    pub attrs: Vec<DieAttr>,
}

/// The state while a DIE's attributes are scanned for ranges and call-site
/// data.
pub struct RangeScan {
    /// The ranges collected from range-list attributes, in order.
    pub ranges: Seq<AddrRange>,
    /// The last low address seen.
    pub low_pc: Option<u64>,
    /// The last absolute high address seen.
    pub high_pc: Option<u64>,
    /// The last high-address-as-length seen.
    pub high_pc_rel: Option<u64>,
    /// The call-site line of an inlined function.
    pub call_line: Option<u64>,
    /// The call-site file of an inlined function.
    pub call_file: Option<u64>,
}

/// The scan state before any attribute was read.
pub open spec fn scan_init() -> RangeScan {
    RangeScan {
        ranges: Seq::empty(),
        low_pc: None,
        high_pc: None,
        high_pc_rel: None,
        call_line: None,
        call_file: None,
    }
}

/// The ranges an expanded range list contributes: decoded ranges in order,
/// those beginning at zero dropped unless the object is relocatable,
/// invalid entries skipped; an undecodable entry corrupts the whole list.
pub open spec fn expand_list(items: Seq<RangeListItem>, relocatable: bool) -> Result<
    Seq<AddrRange>,
    (),
>
    decreases items.len(),
{
    if items.len() == 0 {
        Ok(Seq::empty())
    } else {
        match expand_list(items.drop_last(), relocatable) {
            Err(()) => Err(()),
            Ok(rs) => match items.last() {
                RangeListItem::Span(range) => {
                    if range.begin > 0 || relocatable {
                        Ok(rs.push(range))
                    } else {
                        Ok(rs)
                    }
                },
                RangeListItem::InvalidAddressRange => Ok(rs),
                RangeListItem::Corrupt => Err(()),
            },
        }
    }
}

/// Folds one attribute into the scan state, or fails on an unsupported
/// form.
pub open spec fn scan_step(st: RangeScan, attr: DieAttr, relocatable: bool) -> Result<
    RangeScan,
    DwarfErrorKind,
> {
    match attr.name {
        AttrName::LowPc => match attr.value {
            AttrValue::Addr(a) => Ok(RangeScan { low_pc: Some(a), ..st }),
            _ => Err(DwarfErrorKind::CorruptedData),
        },
        AttrName::HighPc => match attr.value {
            AttrValue::Addr(a) => Ok(RangeScan { high_pc: Some(a), ..st }),
            AttrValue::Udata(u) => Ok(RangeScan { high_pc_rel: Some(u), ..st }),
            _ => Err(DwarfErrorKind::CorruptedData),
        },
        AttrName::CallLine => match attr.value {
            AttrValue::Udata(l) => Ok(RangeScan { call_line: Some(l), ..st }),
            _ => Err(DwarfErrorKind::CorruptedData),
        },
        AttrName::CallFile => match attr.value {
            AttrValue::FileIndex(f) => Ok(RangeScan { call_file: Some(f), ..st }),
            _ => Err(DwarfErrorKind::CorruptedData),
        },
        AttrName::Ranges | AttrName::RnglistsBase | AttrName::StartScope => match attr.value {
            AttrValue::RangeList(items) => match expand_list(items@, relocatable) {
                Ok(rs) => Ok(RangeScan { ranges: st.ranges + rs, ..st }),
                Err(()) => Err(DwarfErrorKind::CorruptedData),
            },
            _ => Ok(st),
        },
        _ => Ok(st),
    }
}

/// Folds all attributes of a DIE, stopping at the first unsupported form.
pub open spec fn scan_fold(attrs: Seq<DieAttr>, relocatable: bool) -> Result<
    RangeScan,
    DwarfErrorKind,
>
    decreases attrs.len(),
{
    if attrs.len() == 0 {
        Ok(scan_init())
    } else {
        match scan_fold(attrs.drop_last(), relocatable) {
            Err(k) => Err(k),
            Ok(st) => scan_step(st, attrs.last(), relocatable),
        }
    }
}

/// An error in a prefix of the attributes decides the whole fold.
pub proof fn lemma_scan_fold_err(attrs: Seq<DieAttr>, relocatable: bool, n: int, k: DwarfErrorKind)
    requires
        0 <= n <= attrs.len(),
        scan_fold(attrs.take(n), relocatable) == Err::<RangeScan, DwarfErrorKind>(k),
    ensures
        scan_fold(attrs, relocatable) == Err::<RangeScan, DwarfErrorKind>(k),
    decreases attrs.len(),
{
    if n < attrs.len() {
        assert(attrs.drop_last().take(n) =~= attrs.take(n));
        lemma_scan_fold_err(attrs.drop_last(), relocatable, n, k);
    } else {
        assert(attrs.take(n) =~= attrs);
    }
}

/// What parsing the ranges of a DIE yields: the ranges and the call-site
/// line and file.
///
/// Ranges from range lists win. Otherwise a range is synthesised from the
/// low and high addresses: a zero low address (outside relocatable objects),
/// a missing high address, or an empty range yields nothing, an inverted
/// range is an error. A high address given as a length is added to the low
/// address, wrapping around.
pub open spec fn parse_ranges_spec(attrs: Seq<DieAttr>, relocatable: bool) -> Result<
    (Seq<AddrRange>, Option<u64>, Option<u64>),
    DwarfErrorKind,
> {
    match scan_fold(attrs, relocatable) {
        Err(k) => Err(k),
        Ok(st) => {
            if st.ranges.len() > 0 {
                Ok((st.ranges, st.call_line, st.call_file))
            } else {
                match st.low_pc {
                    Some(low) if low != 0 || relocatable => {
                        let high_opt = match (st.high_pc, st.high_pc_rel) {
                            (Some(h), _) => Some(h),
                            (None, Some(rel)) => Some(low.wrapping_add(rel)),
                            _ => None,
                        };
                        match high_opt {
                            None => Ok((Seq::empty(), st.call_line, st.call_file)),
                            Some(high) => {
                                if low == high {
                                    Ok((Seq::empty(), st.call_line, st.call_file))
                                } else if low > high {
                                    Err(DwarfErrorKind::InvertedFunctionRange)
                                } else {
                                    Ok(
                                        (
                                            Seq::empty().push(AddrRange { begin: low, end: high }),
                                            st.call_line,
                                            st.call_file,
                                        ),
                                    )
                                }
                            },
                        }
                    },
                    _ => Ok((Seq::empty(), st.call_line, st.call_file)),
                }
            }
        },
    }
}

/// Parses the call site and range lists of a DIE into the reusable range
/// buffer.
///
/// The buffer is handed in cleared: callers reuse one buffer across DIEs
/// to keep its allocation and clear it before each call. On an error the
/// buffer may hold the ranges collected before the failing attribute;
/// callers discard it.
pub fn parse_ranges(die: &DieData, kind: ObjectKind, range_buf: &mut Vec<AddrRange>) -> (r: Result<
    (Option<u64>, Option<u64>),
    DwarfError,
>)
    requires
        old(range_buf)@.len() == 0,
    ensures
        parse_ranges_spec(die.attrs@, kind == ObjectKind::Relocatable) matches Ok(t) ==> (
        r matches Ok(got) && got.0 == t.1 && got.1 == t.2 && final (range_buf)@ == t.0),
        parse_ranges_spec(die.attrs@, kind == ObjectKind::Relocatable) matches Err(k) ==> (
        r matches Err(e) && e@ == k),
{
    let relocatable = match kind {
        ObjectKind::Relocatable => true,
        ObjectKind::Linked => false,
    };
    let mut low_pc: Option<u64> = None;
    let mut high_pc: Option<u64> = None;
    let mut high_pc_rel: Option<u64> = None;
    let mut call_line: Option<u64> = None;
    let mut call_file: Option<u64> = None;
    let ghost reloc = (kind == ObjectKind::Relocatable);
    proof {
        assert(die.attrs@.take(0) =~= Seq::<DieAttr>::empty());
    }
    let mut i: usize = 0;
    while i < die.attrs.len()
        invariant
            i <= die.attrs@.len(),
            reloc == (kind == ObjectKind::Relocatable),
            relocatable == reloc,
            scan_fold(die.attrs@.take(i as int), reloc) matches Ok(st) && st.ranges
                == range_buf@ && st.low_pc == low_pc && st.high_pc == high_pc && st.high_pc_rel
                == high_pc_rel && st.call_line == call_line && st.call_file == call_file,
        decreases die.attrs@.len() - i,
    {
        proof {
            assert(die.attrs@.take(i + 1).drop_last() =~= die.attrs@.take(i as int));
            assert(die.attrs@.take(i + 1).last() == die.attrs@[i as int]);
        }
        let ghost st = scan_fold(die.attrs@.take(i as int), reloc).unwrap();
        let attr = &die.attrs[i];
        match attr.name {
            AttrName::LowPc => match &attr.value {
                AttrValue::Addr(a) => {
                    low_pc = Some(*a);
                },
                _ => {
                    proof {
                        lemma_scan_fold_err(
                            die.attrs@,
                            reloc,
                            i + 1,
                            DwarfErrorKind::CorruptedData,
                        );
                    }
                    return Err(DwarfError::new(DwarfErrorKind::CorruptedData));
                },
            },
            AttrName::HighPc => match &attr.value {
                AttrValue::Addr(a) => {
                    high_pc = Some(*a);
                },
                AttrValue::Udata(u) => {
                    high_pc_rel = Some(*u);
                },
                _ => {
                    proof {
                        lemma_scan_fold_err(
                            die.attrs@,
                            reloc,
                            i + 1,
                            DwarfErrorKind::CorruptedData,
                        );
                    }
                    return Err(DwarfError::new(DwarfErrorKind::CorruptedData));
                },
            },
            AttrName::CallLine => match &attr.value {
                AttrValue::Udata(l) => {
                    call_line = Some(*l);
                },
                _ => {
                    proof {
                        lemma_scan_fold_err(
                            die.attrs@,
                            reloc,
                            i + 1,
                            DwarfErrorKind::CorruptedData,
                        );
                    }
                    return Err(DwarfError::new(DwarfErrorKind::CorruptedData));
                },
            },
            AttrName::CallFile => match &attr.value {
                AttrValue::FileIndex(f) => {
                    call_file = Some(*f);
                },
                _ => {
                    proof {
                        lemma_scan_fold_err(
                            die.attrs@,
                            reloc,
                            i + 1,
                            DwarfErrorKind::CorruptedData,
                        );
                    }
                    return Err(DwarfError::new(DwarfErrorKind::CorruptedData));
                },
            },
            AttrName::Ranges | AttrName::RnglistsBase | AttrName::StartScope => match &attr.value {
                AttrValue::RangeList(items) => {
                    proof {
                        assert(items@.take(0) =~= Seq::<RangeListItem>::empty());
                        assert(range_buf@ =~= st.ranges + Seq::<AddrRange>::empty());
                    }
                    let mut j: usize = 0;
                    while j < items.len()
                        invariant
                            j <= items@.len(),
                            i < die.attrs@.len(),
                            reloc == (kind == ObjectKind::Relocatable),
                            relocatable == reloc,
                            scan_fold(die.attrs@.take(i as int), reloc) == Ok::<
                                RangeScan,
                                DwarfErrorKind,
                            >(st),
                            die.attrs@[i as int].value == AttrValue::RangeList(*items),
                            (die.attrs@[i as int].name == AttrName::Ranges || die.attrs@[
                                i as int
                            ].name == AttrName::RnglistsBase || die.attrs@[i as int].name
                                == AttrName::StartScope),
                            expand_list(items@.take(j as int), reloc) matches Ok(rs) && range_buf@
                                == st.ranges + rs,
                        decreases items@.len() - j,
                    {
                        proof {
                            assert(items@.take(j + 1).drop_last() =~= items@.take(j as int));
                            assert(items@.take(j + 1).last() == items@[j as int]);
                        }
                        match &items[j] {
                            RangeListItem::Span(range) => {
                                if range.begin > 0 || relocatable {
                                    range_buf.push(*range);
                                }
                            },
                            RangeListItem::InvalidAddressRange => {},
                            RangeListItem::Corrupt => {
                                proof {
                                    assert(die.attrs@.take(i + 1).drop_last() =~= die.attrs@.take(
                                        i as int,
                                    ));
                                    assert(die.attrs@.take(i + 1).last() == die.attrs@[i as int]);
                                    lemma_expand_list_err(items@, reloc, j + 1);
                                    lemma_scan_fold_err(
                                        die.attrs@,
                                        reloc,
                                        i + 1,
                                        DwarfErrorKind::CorruptedData,
                                    );
                                }
                                return Err(DwarfError::new(DwarfErrorKind::CorruptedData));
                            },
                        }
                        j = j + 1;
                    }
                    proof {
                        assert(items@.take(items@.len() as int) =~= items@);
                    }
                },
                _ => {},
            },
            _ => {},
        }
        i = i + 1;
    }
    proof {
        assert(die.attrs@.take(die.attrs@.len() as int) =~= die.attrs@);
    }

    if range_buf.len() > 0 {
        return Ok((call_line, call_file));
    }
    let low = match low_pc {
        Some(low) => {
            if low != 0 || relocatable {
                Some(low)
            } else {
                None
            }
        },
        None => None,
    };
    let low = match low {
        Some(low) => low,
        None => {
            return Ok((call_line, call_file));
        },
    };
    let high = match (high_pc, high_pc_rel) {
        (Some(high), _) => high,
        (None, Some(rel)) => low.wrapping_add(rel),
        _ => {
            return Ok((call_line, call_file));
        },
    };
    if low == high {
        return Ok((call_line, call_file));
    }
    if low > high {
        return Err(DwarfError::new(DwarfErrorKind::InvertedFunctionRange));
    }
    range_buf.push(AddrRange { begin: low, end: high });
    Ok((call_line, call_file))
}

/// A corrupt entry in a prefix of a range list decides the whole expansion.
proof fn lemma_expand_list_err(items: Seq<RangeListItem>, relocatable: bool, n: int)
    requires
        0 <= n <= items.len(),
        expand_list(items.take(n), relocatable) matches Err(()),
    ensures
        expand_list(items, relocatable) matches Err(()),
    decreases items.len(),
{
    if n < items.len() {
        assert(items.drop_last().take(n) =~= items.take(n));
        lemma_expand_list_err(items.drop_last(), relocatable, n);
    } else {
        assert(items.take(n) =~= items);
    }
}

/// Outside relocatable objects, every parsed range begins above zero: ranges
/// beginning at zero mark code eliminated by the linker and are dropped.
pub proof fn lemma_zero_ranges_dropped(attrs: Seq<DieAttr>, t: (Seq<AddrRange>, Option<u64>, Option<u64>))
    requires
        parse_ranges_spec(attrs, false) == Ok::<_, DwarfErrorKind>(t),
    ensures
        forall|k: int| 0 <= k < t.0.len() ==> #[trigger] t.0[k].begin > 0,
{
    let st = scan_fold(attrs, false).unwrap();
    lemma_scan_ranges_positive(attrs, false);
    if st.ranges.len() == 0 {
    }
}

/// Every range a scan collects from range lists begins above zero unless
/// the object is relocatable.
proof fn lemma_scan_ranges_positive(attrs: Seq<DieAttr>, relocatable: bool)
    requires
        !relocatable,
        scan_fold(attrs, relocatable) matches Ok(_),
    ensures
        forall|k: int|
            0 <= k < scan_fold(attrs, relocatable).unwrap().ranges.len()
                ==> #[trigger] scan_fold(attrs, relocatable).unwrap().ranges[k].begin > 0,
    decreases attrs.len(),
{
    if attrs.len() > 0 {
        lemma_scan_ranges_positive(attrs.drop_last(), relocatable);
        let st = scan_fold(attrs.drop_last(), relocatable).unwrap();
        let attr = attrs.last();
        match attr.name {
            AttrName::Ranges | AttrName::RnglistsBase | AttrName::StartScope => match attr.value {
                AttrValue::RangeList(items) => {
                    lemma_expand_positive(items@, relocatable);
                },
                _ => {},
            },
            _ => {},
        }
    }
}

/// Every range an expansion keeps begins above zero unless the object is
/// relocatable.
proof fn lemma_expand_positive(items: Seq<RangeListItem>, relocatable: bool)
    requires
        !relocatable,
        expand_list(items, relocatable) matches Ok(_),
    ensures
        forall|k: int|
            0 <= k < expand_list(items, relocatable).unwrap().len()
                ==> #[trigger] expand_list(items, relocatable).unwrap()[k].begin > 0,
    decreases items.len(),
{
    if items.len() > 0 {
        if expand_list(items.drop_last(), relocatable) matches Ok(_) {
            lemma_expand_positive(items.drop_last(), relocatable);
        }
    }
}

} // verus!
