//! The unit registry: the compilation units of the debug-info section, and
//! the resolution of cross-unit references by section offset.
//!
//! Each unit is held as plain values: its header offset and extent, the
//! fields of its top-level entry, its line program's replayed rows, and its
//! DIEs in depth-first order.

use vstd::prelude::*;

use crate::base::FileInfo;
use crate::base::ObjectKind;
use crate::die::DieData;
use crate::error::DwarfError;
use crate::error::DwarfErrorKind;
use crate::line::LineProgramRow;
use crate::names::SymbolMap;

verus! {

/// The raw line program of a unit: the replayed rows of its state machine
/// and the file table of its header.
#[derive(Debug)]
pub struct LineProgramData {
    /// The replayed rows, in the order the state machine produced them.
    pub rows: Vec<LineProgramRow>,
    /// The file table, indexed by the file indices the rows carry.
    pub files: Vec<FileInfo>,
}

/// One compilation unit of the debug-info section, as plain values.
#[derive(Debug)]
pub struct UnitData {
    /// The section offset of this unit's header.
    pub header_offset: usize,
    /// The section offset one past this unit.
    pub end_offset: usize,
    /// The lowest address of the unit, zero when absent.
    pub low_pc: u64,
    /// The compilation directory, when the unit names one.
    pub comp_dir: Option<Vec<u8>>,
    /// The unit's line program, when it declares one.
    pub line_program: Option<LineProgramData>,
    /// The DIEs of the unit in depth-first order, the unit root first.
    pub dies: Vec<DieData>,
}

/// One slot of the unit registry.
#[derive(Debug)]
pub enum UnitSlot {
    /// A unit that parsed.
    Present(UnitData),
    /// A unit whose producer omitted the top-level entry; it is treated as
    /// empty, not as an error.
    Empty(usize),
    /// A unit that failed to parse; reading it reports corrupted data.
    Corrupt(usize),
}

/// The section offset of a slot's unit header.
pub open spec fn slot_offset(slot: UnitSlot) -> usize {
    match slot {
        UnitSlot::Present(u) => u.header_offset,
        UnitSlot::Empty(offset) => offset,
        UnitSlot::Corrupt(offset) => offset,
    }
}

/// Whether the slots are strictly ascending by header offset, and each
/// present unit's extent lies after its header.
pub open spec fn slots_wf(units: Seq<UnitSlot>) -> bool {
    &&& (forall|i: int, j: int|
        0 <= i < j < units.len() ==> slot_offset(#[trigger] units[i]) < slot_offset(
            #[trigger] units[j],
        ))
    &&& (forall|i: int|
        0 <= i < units.len() ==> ((#[trigger] units[i]) matches UnitSlot::Present(u)
            ==> u.header_offset <= u.end_offset))
}

/// How many slots have a header offset below `key`.
pub open spec fn num_slots_below(units: Seq<UnitSlot>, key: usize) -> int
    decreases units.len(),
{
    if units.len() == 0 {
        0
    } else {
        num_slots_below(units.drop_last(), key) + if slot_offset(units.last()) < key {
            1int
        } else {
            0int
        }
    }
}

/// The slot a section offset falls into: the slot starting at the offset on
/// an exact hit, otherwise the closest slot starting before it; none when
/// the offset lies before every slot.
pub open spec fn predecessor_slot(units: Seq<UnitSlot>, key: usize) -> Option<int> {
    let nb = num_slots_below(units, key);
    if nb < units.len() && slot_offset(units[nb]) == key {
        Some(nb)
    } else if nb == 0 {
        None
    } else {
        Some(nb - 1)
    }
}

/// What resolving a debug-info offset to a unit yields: the index of the
/// unit holding the offset and the unit-relative offset, or the error that
/// names the offset when no parsed unit holds it.
pub open spec fn find_unit_offset_spec(units: Seq<UnitSlot>, key: usize) -> Result<
    (int, usize),
    DwarfErrorKind,
> {
    match predecessor_slot(units, key) {
        None => Err(DwarfErrorKind::InvalidUnitRef(key)),
        Some(i) => match units[i] {
            UnitSlot::Corrupt(_) => Err(DwarfErrorKind::CorruptedData),
            UnitSlot::Empty(_) => Err(DwarfErrorKind::InvalidUnitRef(key)),
            UnitSlot::Present(u) => {
                if u.header_offset <= key && key < u.end_offset {
                    Ok((i, (key - u.header_offset) as usize))
                } else {
                    Err(DwarfErrorKind::InvalidUnitRef(key))
                }
            },
        },
    }
}

/// How many slots below a partition index start before `key`.
proof fn lemma_num_slots_below_split(units: Seq<UnitSlot>, key: usize, k: int)
    requires
        0 <= k <= units.len(),
        forall|j: int| 0 <= j < k ==> slot_offset(#[trigger] units[j]) < key,
        forall|j: int| k <= j < units.len() ==> slot_offset(#[trigger] units[j]) >= key,
    ensures
        num_slots_below(units, key) == k,
    decreases units.len(),
{
    if units.len() == 0 {
    } else if k == units.len() {
        lemma_num_slots_below_split(units.drop_last(), key, k - 1);
    } else {
        lemma_num_slots_below_split(units.drop_last(), key, k);
    }
}

/// The parsed debug information: the compilation units, the symbol table,
/// the global address offset, and the kind of object they came from.
#[derive(Debug)]
pub struct DwarfData {
    units: Vec<UnitSlot>,
    symbol_map: SymbolMap,
    address_offset: i64,
    kind: ObjectKind,
}

impl DwarfData {
    /// The unit slots, ascending by header offset.
    pub closed spec fn units_spec(&self) -> Seq<UnitSlot> {
        self.units@
    }

    /// The symbol table.
    pub closed spec fn symbol_map_spec(&self) -> SymbolMap {
        self.symbol_map
    }

    /// The global address offset subtracted from every raw address.
    pub closed spec fn address_offset_spec(&self) -> i64 {
        self.address_offset
    }

    /// The kind of object the units came from.
    pub closed spec fn kind_spec(&self) -> ObjectKind {
        self.kind
    }

    #[verifier::type_invariant]
    closed spec fn wf(self) -> bool {
        slots_wf(self.units@)
    }

    /// Assembles the registry, refusing unit slots that are out of order.
    pub fn new(
        units: Vec<UnitSlot>,
        symbol_map: SymbolMap,
        address_offset: i64,
        kind: ObjectKind,
    ) -> (r: Option<DwarfData>)
        ensures
            r is Some <==> slots_wf(units@),
            r matches Some(d) ==> {
                &&& d.units_spec() == units@
                &&& d.symbol_map_spec() == symbol_map
                &&& d.address_offset_spec() == address_offset
                &&& d.kind_spec() == kind
            },
    {
        let n = units.len();
        let mut i: usize = 0;
        while i < n
            invariant
                n == units@.len(),
                i <= n,
                forall|a: int, b: int|
                    0 <= a < b < i ==> slot_offset(#[trigger] units@[a]) < slot_offset(
                        #[trigger] units@[b],
                    ),
                forall|a: int|
                    0 <= a < i ==> ((#[trigger] units@[a]) matches UnitSlot::Present(u)
                        ==> u.header_offset <= u.end_offset),
            decreases n - i,
        {
            if i > 0 {
                let prev = slot_offset_exec(&units[i - 1]);
                let cur = slot_offset_exec(&units[i]);
                if prev >= cur {
                    return None;
                }
                proof {
                    assert forall|a: int, b: int|
                        0 <= a < b < i + 1 implies slot_offset(#[trigger] units@[a])
                        < slot_offset(#[trigger] units@[b]) by {
                        if b == i as int && a < i - 1 {
                            assert(slot_offset(units@[a]) < slot_offset(units@[i - 1]));
                        }
                    }
                }
            }
            match &units[i] {
                UnitSlot::Present(u) => {
                    if u.header_offset > u.end_offset {
                        return None;
                    }
                },
                _ => {},
            }
            i = i + 1;
        }
        Some(DwarfData { units, symbol_map, address_offset, kind })
    }

    /// The number of unit slots.
    pub fn unit_count(&self) -> (r: usize)
        ensures
            r == self.units_spec().len(),
    {
        self.units.len()
    }

    /// The kind of object the units came from.
    pub fn kind(&self) -> (r: ObjectKind)
        ensures
            r == self.kind_spec(),
    {
        self.kind
    }

    /// The global address offset subtracted from every raw address.
    pub fn address_offset(&self) -> (r: i64)
        ensures
            r == self.address_offset_spec(),
    {
        self.address_offset
    }

    /// The symbol table.
    pub fn symbol_map(&self) -> (r: &SymbolMap)
        ensures
            *r == self.symbol_map_spec(),
    {
        &self.symbol_map
    }

    /// The slot at a valid index.
    pub fn slot(&self, index: usize) -> (r: &UnitSlot)
        requires
            index < self.units_spec().len(),
        ensures
            *r == self.units_spec()[index as int],
    {
        &self.units[index]
    }

    /// Loads a compilation unit: the unit when it parsed, nothing for a
    /// missing index or a unit without a top-level entry, an error for a
    /// unit that failed to parse.
    pub fn get_unit(&self, index: usize) -> (r: Result<Option<&UnitData>, DwarfError>)
        ensures
            index >= self.units_spec().len() ==> (r matches Ok(o) && o is None),
            index < self.units_spec().len() ==> ({
                match self.units_spec()[index as int] {
                    UnitSlot::Present(u) => r matches Ok(o) && o matches Some(p) && *p == u,
                    UnitSlot::Empty(_) => r matches Ok(o) && o is None,
                    UnitSlot::Corrupt(_) => r matches Err(e) && e@
                        == DwarfErrorKind::CorruptedData,
                }
            }),
    {
        if index >= self.units.len() {
            return Ok(None);
        }
        match &self.units[index] {
            UnitSlot::Present(u) => Ok(Some(u)),
            UnitSlot::Empty(_) => Ok(None),
            UnitSlot::Corrupt(_) => Err(DwarfError::new(DwarfErrorKind::CorruptedData)),
        }
    }

    /// Resolves a debug-info section offset into the unit holding it and
    /// the unit-relative offset, failing with the offset when no parsed
    /// unit holds it.
    pub fn find_unit_offset(&self, offset: usize) -> (r: Result<(usize, usize), DwarfError>)
        ensures
            find_unit_offset_spec(self.units_spec(), offset) matches Ok(t) ==> (r matches Ok(got)
                && got.0 == t.0 && got.1 == t.1 && got.0 < self.units_spec().len()
                && self.units_spec()[got.0 as int] matches UnitSlot::Present(_)),
            find_unit_offset_spec(self.units_spec(), offset) matches Err(k) ==> (r matches Err(e)
                && e@ == k),
    {
        proof {
            use_type_invariant(self);
        }
        let index = match search_slots(&self.units, offset) {
            Ok(idx) => idx,
            Err(0) => {
                return Err(DwarfError::new(DwarfErrorKind::InvalidUnitRef(offset)));
            },
            Err(next_idx) => next_idx - 1,
        };
        match &self.units[index] {
            UnitSlot::Present(u) => {
                if u.header_offset <= offset && offset < u.end_offset {
                    Ok((index, offset - u.header_offset))
                } else {
                    Err(DwarfError::new(DwarfErrorKind::InvalidUnitRef(offset)))
                }
            },
            UnitSlot::Corrupt(_) => Err(DwarfError::new(DwarfErrorKind::CorruptedData)),
            UnitSlot::Empty(_) => Err(DwarfError::new(DwarfErrorKind::InvalidUnitRef(offset))),
        }
    }
}

/// Finds the slot starting at `key` in slots strictly ascending by header
/// offset: the exact index on a hit, the insertion point on a miss.
fn search_slots(units: &Vec<UnitSlot>, key: usize) -> (r: Result<usize, usize>)
    requires
        slots_wf(units@),
    ensures
        match r {
            Ok(i) => i < units@.len() && slot_offset(units@[i as int]) == key && i
                == num_slots_below(units@, key),
            Err(i) => i <= units@.len() && i == num_slots_below(units@, key) && (forall|j: int|
                0 <= j < units@.len() ==> slot_offset(#[trigger] units@[j]) != key),
        },
{
    let mut lo: usize = 0;
    let mut hi: usize = units.len();
    while lo < hi
        invariant
            lo <= hi <= units@.len(),
            slots_wf(units@),
            forall|j: int| 0 <= j < lo ==> slot_offset(#[trigger] units@[j]) < key,
            forall|j: int| hi <= j < units@.len() ==> slot_offset(#[trigger] units@[j]) > key,
        decreases hi - lo,
    {
        let mid = lo + (hi - lo) / 2;
        let mid_offset = slot_offset_exec(&units[mid]);
        if mid_offset < key {
            lo = mid + 1;
        } else if mid_offset > key {
            hi = mid;
        } else {
            proof {
                lemma_num_slots_below_split(units@, key, mid as int);
            }
            return Ok(mid);
        }
    }
    proof {
        lemma_num_slots_below_split(units@, key, lo as int);
    }
    Err(lo)
}

/// The section offset of a slot's unit header.
fn slot_offset_exec(slot: &UnitSlot) -> (r: usize)
    ensures
        r == slot_offset(*slot),
{
    match slot {
        UnitSlot::Present(u) => u.header_offset,
        UnitSlot::Empty(offset) => *offset,
        UnitSlot::Corrupt(offset) => *offset,
    }
}

} // verus!
