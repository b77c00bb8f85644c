//! The function builder: walks a unit's DIE tree depth-first and
//! reconstructs its functions, their inlinees, and their line records.

use vstd::prelude::*;
use vstd::multiset::Multiset;
use vstd::pervasive::VecAdditionalExecFns;
use vstd::slice::slice_to_vec;

use crate::addr::apply_address_offset;
use crate::addr::shifted_addr;
use crate::base::AddrRange;
use crate::base::range_len_sum;
use crate::base::ranges_sorted_by_begin;
use crate::base::FileInfo;
use crate::base::Function;
use crate::base::Language;
use crate::base::LineInfo;
use crate::base::Name;
use crate::base::NameMangling;
use crate::base::ObjectKind;
use crate::die::parse_ranges;
use crate::die::parse_ranges_spec;
use crate::die::DieData;
use crate::die::DieTag;
use crate::error::DwarfError;
use crate::error::DwarfErrorKind;
use crate::line::get_rows_spec;
use crate::line::rows_strictly_sorted;
use crate::line::DwarfRow;
use crate::line::SequenceModel;
use crate::names::first_symbol_at;
use crate::names::map_of;
use crate::names::resolved_bytes;
use crate::names::resolved_chars;
use crate::names::BcSymbolMap;
use crate::names::SymbolMapEntry;
use crate::resolve::resolve_name_spec;
use crate::resolve::NAME_RESOLUTION_FUEL;
use crate::resolve::DwarfUnit;
use crate::unit::DwarfData;
use crate::unit::UnitData;
use crate::unit::UnitSlot;

verus! {

/// The set of `(address, size)` pairs of top-level functions already
/// emitted, shared across all units of a session to deduplicate functions
/// that link-time merging placed into several units.
#[derive(Debug)]
pub struct SeenRanges {
    entries: Vec<(u64, u64)>,
}

impl View for SeenRanges {
    type V = Set<(u64, u64)>;

    closed spec fn view(&self) -> Set<(u64, u64)> {
        self.entries@.to_set()
    }
}

impl SeenRanges {
    /// An empty set.
    pub fn new() -> (r: SeenRanges)
        ensures
            r@ == Set::<(u64, u64)>::empty(),
    {
        let r = SeenRanges { entries: Vec::new() };
        proof {
            assert(r@ =~= Set::<(u64, u64)>::empty());
        }
        r
    }

    /// Inserts a pair, reporting whether it was newly added.
    pub fn insert(&mut self, pair: (u64, u64)) -> (r: bool)
        ensures
            r == !old(self)@.contains(pair),
            final (self)@ == old(self)@.insert(pair),
    {
        let mut k: usize = 0;
        while k < self.entries.len()
            invariant
                k <= self.entries@.len(),
                forall|j: int| 0 <= j < k ==> self.entries@[j] != pair,
            decreases self.entries@.len() - k,
        {
            let e = self.entries[k];
            if e.0 == pair.0 && e.1 == pair.1 {
                proof {
                    assert(self.entries@[k as int] == pair);
                    assert(self@.contains(pair));
                    assert(self@ =~= self@.insert(pair));
                }
                return false;
            }
            k = k + 1;
        }
        proof {
            assert(!self@.contains(pair));
        }
        let ghost pre = self.entries@;
        self.entries.push(pair);
        proof {
            assert forall|q: (u64, u64)| self.entries@.contains(q) <==> (pre.contains(q) || q
                == pair) by {
                if pre.contains(q) {
                    let i = choose|i: int| 0 <= i < pre.len() && pre[i] == q;
                    assert(self.entries@[i] == q);
                    assert(self.entries@.contains(q));
                }
                if q == pair {
                    assert(self.entries@[pre.len() as int] == q);
                    assert(self.entries@.contains(q));
                }
                if self.entries@.contains(q) {
                    let i = choose|i: int|
                        0 <= i < self.entries@.len() && self.entries@[i] == q;
                    if i < pre.len() {
                        assert(pre[i] == q);
                        assert(pre.contains(q));
                    } else {
                        assert(q == pair);
                    }
                }
            }
            assert(self@ =~= pre.to_set().insert(pair));
        }
        true
    }
}

/// The sum of the range lengths, each length and the sum computed with
/// wrapping arithmetic, as the emitted function sizes are.
pub open spec fn wrapping_range_sum(rs: Seq<AddrRange>) -> u64
    decreases rs.len(),
{
    if rs.len() == 0 {
        0
    } else {
        wrapping_range_sum(rs.drop_last()).wrapping_add(
            rs.last().end.wrapping_sub(rs.last().begin),
        )
    }
}

/// For well-formed ranges whose total length fits an address, the wrapping
/// sum is the mathematical sum of the range lengths.
pub proof fn lemma_wrapping_sum_is_sum(rs: Seq<AddrRange>)
    requires
        forall|i: int| 0 <= i < rs.len() ==> (#[trigger] rs[i]).begin <= rs[i].end,
        range_len_sum(rs) <= u64::MAX,
    ensures
        wrapping_range_sum(rs) == range_len_sum(rs),
    decreases rs.len(),
{
    if rs.len() > 0 {
        assert(rs.drop_last().len() == rs.len() - 1);
        assert(forall|i: int|
            0 <= i < rs.drop_last().len() ==> (#[trigger] rs.drop_last()[i]).begin
                == rs[i].begin && rs.drop_last()[i].end == rs[i].end);
        lemma_range_len_sum_nonneg(rs.drop_last());
        lemma_wrapping_sum_is_sum(rs.drop_last());
    }
}

/// The sum of well-formed range lengths is not negative.
proof fn lemma_range_len_sum_nonneg(rs: Seq<AddrRange>)
    requires
        forall|i: int| 0 <= i < rs.len() ==> (#[trigger] rs[i]).begin <= rs[i].end,
    ensures
        range_len_sum(rs) >= 0,
    decreases rs.len(),
{
    if rs.len() > 0 {
        assert(forall|i: int|
            0 <= i < rs.drop_last().len() ==> (#[trigger] rs.drop_last()[i]).begin
                <= rs.drop_last()[i].end);
        lemma_range_len_sum_nonneg(rs.drop_last());
    }
}

/// The index of the first range with the smallest begin address.
pub open spec fn first_min_index(rs: Seq<AddrRange>) -> int
    decreases rs.len(),
{
    if rs.len() <= 1 {
        0
    } else {
        let m = first_min_index(rs.drop_last());
        if rs.last().begin < rs[m].begin {
            rs.len() - 1
        } else {
            m
        }
    }
}

/// The first minimal index lies within the sequence.
proof fn lemma_first_min_bounds(rs: Seq<AddrRange>)
    requires
        rs.len() > 0,
    ensures
        0 <= first_min_index(rs) < rs.len(),
    decreases rs.len(),
{
    if rs.len() > 1 {
        lemma_first_min_bounds(rs.drop_last());
    }
}

/// An index that is minimal, and strictly below everything before it, is
/// the first minimal index.
proof fn lemma_first_min_is(rs: Seq<AddrRange>, m: int)
    requires
        0 <= m < rs.len(),
        forall|j: int| 0 <= j < m ==> (#[trigger] rs[j]).begin > rs[m].begin,
        forall|j: int| 0 <= j < rs.len() ==> rs[m].begin <= (#[trigger] rs[j]).begin,
    ensures
        first_min_index(rs) == m,
    decreases rs.len(),
{
    if rs.len() > 1 {
        if m == rs.len() - 1 {
            lemma_first_min_bounds(rs.drop_last());
            let m2 = first_min_index(rs.drop_last());
            assert(rs.drop_last()[m2] == rs[m2]);
            assert(rs[m2].begin > rs[m].begin);
        } else {
            assert(forall|j: int|
                0 <= j < m ==> (#[trigger] rs.drop_last()[j]).begin > rs.drop_last()[m].begin);
            assert(forall|j: int|
                0 <= j < rs.drop_last().len() ==> rs.drop_last()[m].begin
                    <= (#[trigger] rs.drop_last()[j]).begin);
            lemma_first_min_is(rs.drop_last(), m);
        }
    }
}

/// The ranges sorted by begin address: repeatedly the first minimal range,
/// ties kept in their arriving order.
pub open spec fn sort_by_begin(rs: Seq<AddrRange>) -> Seq<AddrRange>
    decreases rs.len(),
{
    if rs.len() == 0 {
        Seq::empty()
    } else {
        let m = first_min_index(rs);
        if 0 <= m < rs.len() {
            seq![rs[m]] + sort_by_begin(rs.remove(m))
        } else {
            rs
        }
    }
}

/// Sorts the range buffer by begin address: the same ranges, in order.
pub fn sort_ranges(v: &mut Vec<AddrRange>)
    ensures
        final (v)@ == sort_by_begin(old(v)@),
        final (v)@.to_multiset() == old(v)@.to_multiset(),
        final (v)@.len() == old(v)@.len(),
        ranges_sorted_by_begin(final (v)@),
{
    let mut out: Vec<AddrRange> = Vec::new();
    proof {
        v@.to_multiset_ensures();
        out@.to_multiset_ensures();
        assert(out@.to_multiset().add(v@.to_multiset()) =~= old(v)@.to_multiset());
        assert(out@ + sort_by_begin(v@) =~= sort_by_begin(old(v)@));
    }
    while v.len() > 0
        invariant
            out@.to_multiset().add(v@.to_multiset()) == old(v)@.to_multiset(),
            out@.len() + v@.len() == old(v)@.len(),
            out@ + sort_by_begin(v@) == sort_by_begin(old(v)@),
            ranges_sorted_by_begin(out@),
            forall|i: int, j: int|
                0 <= i < out@.len() && 0 <= j < v@.len() ==> (#[trigger] out@[i]).begin
                    <= (#[trigger] v@[j]).begin,
        decreases v@.len(),
    {
        let mut min_idx: usize = 0;
        let mut k: usize = 1;
        while k < v.len()
            invariant
                min_idx < k <= v@.len(),
                v@.len() > 0,
                forall|j: int| 0 <= j < k ==> v@[min_idx as int].begin <= (#[trigger] v@[j]).begin,
                forall|j: int|
                    0 <= j < min_idx ==> (#[trigger] v@[j]).begin > v@[min_idx as int].begin,
            decreases v@.len() - k,
        {
            if v[k].begin < v[min_idx].begin {
                min_idx = k;
            }
            k = k + 1;
        }
        let ghost pre_v = v@;
        let ghost pre_out = out@;
        proof {
            lemma_first_min_bounds(pre_v);
            lemma_first_min_is(pre_v, min_idx as int);
        }
        let x = v.remove(min_idx);
        out.push(x);
        proof {
            assert(sort_by_begin(pre_v) == seq![x] + sort_by_begin(pre_v.remove(min_idx as int)));
            assert(out@ + sort_by_begin(v@) =~= pre_out + sort_by_begin(pre_v));
        }
        proof {
            pre_v.to_multiset_ensures();
            pre_out.to_multiset_ensures();
            assert(v@.to_multiset() =~= pre_v.to_multiset().remove(x));
            assert(out@.to_multiset() =~= pre_out.to_multiset().insert(x));
            assert(pre_v.to_multiset().contains(x)) by {
                assert(pre_v.contains(x));
            }
            assert(out@.to_multiset().add(v@.to_multiset()) =~= pre_out.to_multiset().add(
                pre_v.to_multiset(),
            ));
            assert forall|j: int| 0 <= j < v@.len() implies x.begin <= (#[trigger] v@[j]).begin by {
                if j < min_idx {
                    assert(v@[j] == pre_v[j]);
                } else {
                    assert(v@[j] == pre_v[j + 1]);
                }
            }
        }
    }
    proof {
        v@.to_multiset_ensures();
        assert(v@.to_multiset() =~= Multiset::<AddrRange>::empty());
        assert(out@.to_multiset().add(Multiset::<AddrRange>::empty()) =~= out@.to_multiset());
        assert(out@.to_multiset() =~= old(v)@.to_multiset());
    }
    *v = out;
}

/// Sums the lengths of the ranges in the buffer, wrapping around.
pub fn sum_range_lengths(v: &Vec<AddrRange>) -> (r: u64)
    ensures
        r == wrapping_range_sum(v@),
{
    let mut sum: u64 = 0;
    let mut k: usize = 0;
    proof {
        assert(v@.take(0) =~= Seq::<AddrRange>::empty());
    }
    while k < v.len()
        invariant
            k <= v@.len(),
            sum == wrapping_range_sum(v@.take(k as int)),
        decreases v@.len() - k,
    {
        proof {
            assert(v@.take(k + 1).drop_last() =~= v@.take(k as int));
            assert(v@.take(k + 1).last() == v@[k as int]);
        }
        let range = v[k];
        sum = sum.wrapping_add(range.end.wrapping_sub(range.begin));
        k = k + 1;
    }
    proof {
        assert(v@.take(v@.len() as int) =~= v@);
    }
    sum
}

/// Sorts a function's parsed range buffer and derives its start address
/// and size: the start is the first sorted range's begin after the global
/// address offset was applied, the size is the sum of the range lengths.
pub fn prepare_function_ranges(range_buf: &mut Vec<AddrRange>, address_offset: i64) -> (r: (
    u64,
    u64,
))
    requires
        old(range_buf)@.len() > 0,
    ensures
        final (range_buf)@ == sort_by_begin(old(range_buf)@),
        final (range_buf)@.to_multiset() == old(range_buf)@.to_multiset(),
        final (range_buf)@.len() == old(range_buf)@.len(),
        ranges_sorted_by_begin(final (range_buf)@),
        r.0 == shifted_addr(final (range_buf)@[0].begin, address_offset),
        r.1 == wrapping_range_sum(final (range_buf)@),
{
    sort_ranges(range_buf);
    let address = apply_address_offset(range_buf[0].begin, address_offset);
    let size = sum_range_lengths(range_buf);
    (address, size)
}

/// The value of a line record: its plain fields, the file fragments as
/// byte sequences.
pub struct LineRecModel {
    /// The first instruction address the record covers.
    pub address: u64,
    /// The number of bytes the record covers.
    pub size: Option<u64>,
    /// The directory fragment of the source file.
    pub file_dir: Seq<u8>,
    /// The name fragment of the source file.
    pub file_name: Seq<u8>,
    /// The source line.
    pub line: u64,
}

/// The value of a concrete line record.
pub open spec fn line_rec_model(l: LineInfo) -> LineRecModel {
    LineRecModel {
        address: l.address,
        size: l.size,
        file_dir: l.file.dir@,
        file_name: l.file.name@,
        line: l.line,
    }
}

/// The values of a list of line records.
pub open spec fn lines_model(ls: Seq<LineInfo>) -> Seq<LineRecModel> {
    ls.map_values(|l: LineInfo| line_rec_model(l))
}

/// The directory bytes a file index resolves to through the unit's file
/// table and bitcode symbol map, empty when the index is out of bounds.
pub open spec fn file_dir_of(bc: Option<BcSymbolMap>, files: Seq<FileInfo>, idx: u64) -> Seq<u8> {
    if idx < files.len() {
        resolved_bytes(bc, files[idx as int].dir@)
    } else {
        Seq::empty()
    }
}

/// The name bytes a file index resolves to, empty when out of bounds.
pub open spec fn file_name_of(bc: Option<BcSymbolMap>, files: Seq<FileInfo>, idx: u64) -> Seq<u8> {
    if idx < files.len() {
        resolved_bytes(bc, files[idx as int].name@)
    } else {
        Seq::empty()
    }
}

/// The line a row carries, zero when it carries none.
pub open spec fn row_line(row: DwarfRow) -> u64 {
    match row.line {
        Some(l) => l,
        None => 0,
    }
}

/// The record a range's first covering row produces: the address clipped
/// up to the range's begin, the size moved along with it.
pub open spec fn first_record(
    range: AddrRange,
    row: DwarfRow,
    bc: Option<BcSymbolMap>,
    files: Seq<FileInfo>,
    off: i64,
) -> LineRecModel {
    LineRecModel {
        address: shifted_addr(range.begin, off),
        size: match row.size {
            Some(s) => Some(s.wrapping_add(row.address).wrapping_sub(range.begin)),
            None => None,
        },
        file_dir: file_dir_of(bc, files, row.file_index),
        file_name: file_name_of(bc, files, row.file_index),
        line: row_line(row),
    }
}

/// The record a later row opens.
pub open spec fn record_of_row(
    row: DwarfRow,
    bc: Option<BcSymbolMap>,
    files: Seq<FileInfo>,
    off: i64,
) -> LineRecModel {
    LineRecModel {
        address: shifted_addr(row.address, off),
        size: row.size,
        file_dir: file_dir_of(bc, files, row.file_index),
        file_name: file_name_of(bc, files, row.file_index),
        line: row_line(row),
    }
}

/// A collapsed row grows the open record by the row's size.
pub open spec fn grow_record(last: LineRecModel, row: DwarfRow) -> LineRecModel {
    LineRecModel {
        size: match last.size {
            Some(s) => Some(
                s.wrapping_add(
                    match row.size {
                        Some(rs) => rs,
                        None => 0,
                    },
                ),
            ),
            None => None,
        },
        ..last
    }
}

/// The last record of a range is clipped to the range's end.
pub open spec fn clip_record(last: LineRecModel, end_shifted: u64) -> LineRecModel {
    LineRecModel {
        size: match last.size {
            Some(_) => Some(end_shifted.wrapping_sub(last.address)),
            None => None,
        },
        ..last
    }
}

/// Folds the rows from `k` on into records: rows sharing file and line
/// with the open record collapse into it, any other row closes it and
/// opens a new one, and the record left open at the end is clipped to the
/// range's end.
pub open spec fn collapse_from(
    rows: Seq<DwarfRow>,
    k: int,
    last_file: u64,
    last: LineRecModel,
    bc: Option<BcSymbolMap>,
    files: Seq<FileInfo>,
    off: i64,
    end_shifted: u64,
) -> Seq<LineRecModel>
    decreases rows.len() - k,
{
    if k >= rows.len() {
        seq![clip_record(last, end_shifted)]
    } else {
        let row = rows[k];
        if last_file == row.file_index && last.line == row_line(row) {
            collapse_from(rows, k + 1, last_file, grow_record(last, row), bc, files, off, end_shifted)
        } else {
            seq![last] + collapse_from(
                rows,
                k + 1,
                row.file_index,
                record_of_row(row, bc, files, off),
                bc,
                files,
                off,
                end_shifted,
            )
        }
    }
}

/// The records one range resolves to: nothing when no rows cover it.
pub open spec fn resolve_range_records(
    seqs: Seq<SequenceModel>,
    files: Seq<FileInfo>,
    bc: Option<BcSymbolMap>,
    off: i64,
    range: AddrRange,
) -> Seq<LineRecModel> {
    let rows = get_rows_spec(seqs, range);
    if rows.len() == 0 {
        Seq::empty()
    } else {
        collapse_from(
            rows,
            1,
            rows[0].file_index,
            first_record(range, rows[0], bc, files, off),
            bc,
            files,
            off,
            shifted_addr(range.end, off),
        )
    }
}

/// The records the ranges from `i` on resolve to, in range order.
pub open spec fn resolve_records_from(
    seqs: Seq<SequenceModel>,
    files: Seq<FileInfo>,
    bc: Option<BcSymbolMap>,
    off: i64,
    ranges: Seq<AddrRange>,
    i: int,
) -> Seq<LineRecModel>
    decreases ranges.len() - i,
{
    if i >= ranges.len() {
        Seq::empty()
    } else {
        resolve_range_records(seqs, files, bc, off, ranges[i]) + resolve_records_from(
            seqs,
            files,
            bc,
            off,
            ranges,
            i + 1,
        )
    }
}

/// Appending a record appends its value.
proof fn lemma_lines_model_push(ls: Seq<LineInfo>, x: LineInfo)
    ensures
        lines_model(ls.push(x)) == lines_model(ls).push(line_rec_model(x)),
{
    assert(lines_model(ls.push(x)) =~= lines_model(ls).push(line_rec_model(x)));
}

/// Copies a file record.
fn clone_file_info(f: &FileInfo) -> (r: FileInfo)
    ensures
        r.dir@ == f.dir@,
        r.name@ == f.name@,
{
    FileInfo { dir: slice_to_vec(f.dir.as_slice()), name: slice_to_vec(f.name.as_slice()) }
}

impl DwarfUnit {
    /// The walk of `dies` through the first `n` entries, in this unit's
    /// context over the given data, starting from the recorded pairs.
    pub open spec fn build_fold_of(
        &self,
        data: DwarfData,
        bc: Option<BcSymbolMap>,
        dies: Seq<DieData>,
        n: int,
        seen0: Set<(u64, u64)>,
    ) -> Result<BuildState, DwarfErrorKind> {
        build_fold(
            dies,
            n,
            data.units_spec(),
            self.index as int,
            self.language,
            bc,
            data.symbol_map_spec().entries_spec(),
            self.prefer_dwarf_names,
            self.comp_dir@,
            data.kind_spec() == ObjectKind::Relocatable,
            data.address_offset_spec(),
            seen0,
        )
    }

    /// The recorded pairs walking `dies` in this unit's context reaches,
    /// also when the walk fails.
    pub open spec fn build_seen_of(
        &self,
        data: DwarfData,
        bc: Option<BcSymbolMap>,
        dies: Seq<DieData>,
        seen0: Set<(u64, u64)>,
    ) -> Set<(u64, u64)> {
        build_fold_seen(
            dies,
            dies.len() as int,
            data.units_spec(),
            self.index as int,
            self.language,
            bc,
            data.symbol_map_spec().entries_spec(),
            self.prefer_dwarf_names,
            self.comp_dir@,
            data.kind_spec() == ObjectKind::Relocatable,
            data.address_offset_spec(),
            seen0,
        )
    }

    /// The recorded pairs after `n` steps of this unit's walk.
    pub open spec fn fold_seen_of(
        &self,
        data: DwarfData,
        bc: Option<BcSymbolMap>,
        dies: Seq<DieData>,
        n: int,
        seen0: Set<(u64, u64)>,
    ) -> Set<(u64, u64)> {
        build_fold_seen(
            dies,
            n,
            data.units_spec(),
            self.index as int,
            self.language,
            bc,
            data.symbol_map_spec().entries_spec(),
            self.prefer_dwarf_names,
            self.comp_dir@,
            data.kind_spec() == ObjectKind::Relocatable,
            data.address_offset_spec(),
            seen0,
        )
    }

    /// What walking `dies` in this unit's context emits.
    pub open spec fn build_result_of(
        &self,
        data: DwarfData,
        bc: Option<BcSymbolMap>,
        dies: Seq<DieData>,
        seen0: Set<(u64, u64)>,
    ) -> Result<(Seq<FunSkel>, Set<(u64, u64)>), DwarfErrorKind> {
        build_result(
            dies,
            data.units_spec(),
            self.index as int,
            self.language,
            bc,
            data.symbol_map_spec().entries_spec(),
            self.prefer_dwarf_names,
            self.comp_dir@,
            data.kind_spec() == ObjectKind::Relocatable,
            data.address_offset_spec(),
            seen0,
        )
    }

    /// Resolves the line records of a DIE's sorted range list.
    ///
    /// For each range, the covering rows are fetched from the prepared line
    /// program; the first row is clipped up to the range's begin, runs of
    /// rows sharing file and line are collapsed into one record, and the
    /// last record is clipped to the range's end. Sizes are computed with
    /// wrapping arithmetic, so malformed ranges cannot make the resolution
    /// fail.
    #[verifier::rlimit(80)]
    pub fn resolve_lines(
        &self,
        bcsymbolmap: Option<&BcSymbolMap>,
        address_offset: i64,
        ranges: &Vec<AddrRange>,
    ) -> (r: Vec<LineInfo>)
        ensures
            self.line_program is None ==> r@.len() == 0,
            ranges@.len() == 0 ==> r@.len() == 0,
            self.line_program matches Some(lp) ==> lines_model(r@) == resolve_records_from(
                lp.sequences_spec(),
                lp.files_spec(),
                map_of(bcsymbolmap),
                address_offset,
                ranges@,
                0,
            ),
            (address_offset == 0 && ranges@.len() == 1) ==> (forall|i: int, j: int|
                0 <= i < j < r@.len() ==> (#[trigger] r@[i].address) < (#[trigger] r@[j].address)),
            (address_offset == 0 && ranges@.len() == 1 && ranges@[0].begin <= ranges@[0].end)
                ==> (forall|i: int|
                0 <= i < r@.len() ==> ((#[trigger] r@[i]).size matches Some(sz) ==> r@[i].address
                    + sz <= ranges@[0].end)),
    {
        let ghost single = (address_offset == 0 && ranges@.len() == 1);
        let ghost bounded = (single && ranges@[0].begin <= ranges@[0].end);
        let line_program = match &self.line_program {
            Some(p) => p,
            None => {
                return Vec::new();
            },
        };
        let mut lines: Vec<LineInfo> = Vec::new();
        let ghost target = resolve_records_from(
            line_program.sequences_spec(),
            line_program.files_spec(),
            map_of(bcsymbolmap),
            address_offset,
            ranges@,
            0,
        );
        proof {
            assert(lines_model(lines@) + target =~= target);
        }
        let mut ri: usize = 0;
        while ri < ranges.len()
            invariant
                ranges@.len() == 0 ==> lines@.len() == 0,
                self.line_program == Some(*line_program),
                target == resolve_records_from(
                    line_program.sequences_spec(),
                    line_program.files_spec(),
                    map_of(bcsymbolmap),
                    address_offset,
                    ranges@,
                    0,
                ),
                lines_model(lines@) + resolve_records_from(
                    line_program.sequences_spec(),
                    line_program.files_spec(),
                    map_of(bcsymbolmap),
                    address_offset,
                    ranges@,
                    ri as int,
                ) == target,
                single == (address_offset == 0 && ranges@.len() == 1),
                single ==> (forall|i: int, j: int|
                    0 <= i < j < lines@.len() ==> (#[trigger] lines@[i].address)
                        < (#[trigger] lines@[j].address)),
                single ==> (ri == 0 ==> lines@.len() == 0),
                bounded == (single && ranges@[0].begin <= ranges@[0].end),
                bounded ==> (forall|i: int|
                    0 <= i < lines@.len() ==> ((#[trigger] lines@[i]).size matches Some(sz)
                        ==> lines@[i].address + sz <= ranges@[0].end)),
            decreases ranges@.len() - ri,
        {
            let range = ranges[ri];
            ri = ri + 1;
            let rows: &[DwarfRow] = line_program.get_rows(&range);
            let ghost files = line_program.files_spec();
            let ghost bc = map_of(bcsymbolmap);
            let ghost seqs = line_program.sequences_spec();
            let ghost end_shifted = shifted_addr(range.end, address_offset);
            if rows.len() == 0 {
                proof {
                    assert(resolve_range_records(seqs, files, bc, address_offset, range)
                        =~= Seq::<LineRecModel>::empty());
                    assert(resolve_records_from(seqs, files, bc, address_offset, ranges@, ri - 1)
                        == resolve_records_from(seqs, files, bc, address_offset, ranges@, ri as int));
                }
                continue ;
            }
            let first = rows[0];
            let mut last_file: u64 = first.file_index;
            let mut last_info = LineInfo {
                address: apply_address_offset(range.begin, address_offset),
                size: match first.size {
                    Some(s) => Some(s.wrapping_add(first.address).wrapping_sub(range.begin)),
                    None => None,
                },
                file: match self.resolve_file(bcsymbolmap, first.file_index) {
                    Some(f) => f,
                    None => FileInfo::empty(),
                },
                line: match first.line {
                    Some(l) => l,
                    None => 0,
                },
            };
            proof {
                assert(line_rec_model(last_info).file_dir =~= file_dir_of(
                    bc,
                    files,
                    rows@[0].file_index,
                ));
                assert(line_rec_model(last_info).file_name =~= file_name_of(
                    bc,
                    files,
                    rows@[0].file_index,
                ));
                assert(line_rec_model(last_info) == first_record(
                    range,
                    rows@[0],
                    bc,
                    files,
                    address_offset,
                ));
                assert(resolve_records_from(seqs, files, bc, address_offset, ranges@, ri - 1)
                    == resolve_range_records(seqs, files, bc, address_offset, range)
                    + resolve_records_from(seqs, files, bc, address_offset, ranges@, ri as int));
                if bounded && 1 < rows@.len() {
                    assert(rows@[0].size == Some((rows@[1].address - rows@[0].address) as u64));
                    if let Some(fs) = first.size {
                        assert(fs == rows@[1].address - rows@[0].address);
                        assert(fs.wrapping_add(first.address) == rows@[1].address);
                        assert(rows@[1].address > range.begin);
                        assert(fs.wrapping_add(first.address).wrapping_sub(range.begin)
                            == rows@[1].address - range.begin);
                    }
                }
            }
            let mut k: usize = 1;
            while k < rows.len()
                invariant
                    1 <= k <= rows@.len(),
                    self.line_program == Some(*line_program),
                    files == line_program.files_spec(),
                    bc == map_of(bcsymbolmap),
                    seqs == line_program.sequences_spec(),
                    lines_model(lines@) + collapse_from(
                        rows@,
                        k as int,
                        last_file,
                        line_rec_model(last_info),
                        bc,
                        files,
                        address_offset,
                        end_shifted,
                    ) + resolve_records_from(seqs, files, bc, address_offset, ranges@, ri as int)
                        == target,
                    end_shifted == shifted_addr(range.end, address_offset),
                    single == (address_offset == 0 && ranges@.len() == 1),
                    bounded == (single && ranges@[0].begin <= ranges@[0].end),
                    single ==> range == ranges@[0],
                    single ==> rows_strictly_sorted(rows@),
                    single ==> (forall|i: int, j: int|
                        0 <= i < j < lines@.len() ==> (#[trigger] lines@[i].address)
                            < (#[trigger] lines@[j].address)),
                    single ==> (forall|i: int|
                        0 <= i < lines@.len() ==> (#[trigger] lines@[i].address)
                            < last_info.address),
                    single && k < rows@.len() ==> last_info.address < rows@[k as int].address,
                    bounded ==> (forall|i: int|
                        0 <= i < rows@.len() ==> (#[trigger] rows@[i].address) < range.end),
                    bounded ==> (forall|i: int|
                        0 <= i < rows@.len() - 1 ==> (#[trigger] rows@[i]).size == Some(
                            (rows@[i + 1].address - rows@[i].address) as u64,
                        )),
                    bounded ==> (forall|i: int|
                        0 <= i < lines@.len() ==> ((#[trigger] lines@[i]).size matches Some(sz)
                            ==> lines@[i].address + sz <= last_info.address)),
                    bounded && k < rows@.len() ==> (last_info.size matches Some(sz)
                        ==> last_info.address + sz == rows@[k as int].address),
                    bounded ==> last_info.address <= range.end,
                decreases rows@.len() - k,
            {
                let row = rows[k];
                k = k + 1;
                let line: u64 = match row.line {
                    Some(l) => l,
                    None => 0,
                };
                if last_file == row.file_index && last_info.line == line {
                    // The rows collapse into one record; the record's size
                    // grows by the collapsed row's.
                    proof {
                        if bounded && k < rows@.len() {
                            assert(rows@[k - 1].size == Some(
                                (rows@[k as int].address - rows@[k - 1].address) as u64,
                            ));
                            if let Some(sz) = last_info.size {
                                assert(last_info.address + sz == rows@[k - 1].address);
                                assert(sz.wrapping_add(
                                    (rows@[k as int].address - rows@[k - 1].address) as u64,
                                ) == rows@[k as int].address - last_info.address);
                            }
                        }
                    }
                    last_info.size = match last_info.size {
                        Some(s) => Some(
                            s.wrapping_add(
                                match row.size {
                                    Some(rs) => rs,
                                    None => 0,
                                },
                            ),
                        ),
                        None => None,
                    };
                    continue ;
                }
                let ghost pre_lines = lines@;
                let ghost pre_last = line_rec_model(last_info);
                lines.push(last_info);
                last_file = row.file_index;
                last_info = LineInfo {
                    address: apply_address_offset(row.address, address_offset),
                    size: row.size,
                    file: match self.resolve_file(bcsymbolmap, row.file_index) {
                        Some(f) => f,
                        None => FileInfo::empty(),
                    },
                    line,
                };
                proof {
                    lemma_lines_model_push(pre_lines, lines@[pre_lines.len() as int]);
                    assert(line_rec_model(last_info).file_dir =~= file_dir_of(
                        bc,
                        files,
                        rows@[k - 1].file_index,
                    ));
                    assert(line_rec_model(last_info).file_name =~= file_name_of(
                        bc,
                        files,
                        rows@[k - 1].file_index,
                    ));
                    assert(line_rec_model(last_info) == record_of_row(
                        rows@[k - 1],
                        bc,
                        files,
                        address_offset,
                    ));
                    assert(lines_model(lines@) + collapse_from(
                        rows@,
                        k as int,
                        last_file,
                        line_rec_model(last_info),
                        bc,
                        files,
                        address_offset,
                        end_shifted,
                    ) =~= lines_model(pre_lines) + (seq![pre_last] + collapse_from(
                        rows@,
                        k as int,
                        last_file,
                        line_rec_model(last_info),
                        bc,
                        files,
                        address_offset,
                        end_shifted,
                    )));
                    if bounded && k < rows@.len() {
                        assert(rows@[k - 1].size == Some(
                            (rows@[k as int].address - rows@[k - 1].address) as u64,
                        ));
                    }
                }
            }
            let range_end = apply_address_offset(range.end, address_offset);
            proof {
                if bounded {
                    assert(range_end == range.end);
                    assert(range_end.wrapping_sub(last_info.address) == range.end
                        - last_info.address);
                }
            }
            let ghost pre_clip = line_rec_model(last_info);
            last_info.size = match last_info.size {
                Some(_) => Some(range_end.wrapping_sub(last_info.address)),
                None => None,
            };
            let ghost pre_lines = lines@;
            lines.push(last_info);
            proof {
                lemma_lines_model_push(pre_lines, lines@[pre_lines.len() as int]);
                assert(line_rec_model(last_info) == clip_record(pre_clip, end_shifted));
                assert(collapse_from(
                    rows@,
                    rows@.len() as int,
                    last_file,
                    pre_clip,
                    bc,
                    files,
                    address_offset,
                    end_shifted,
                ) =~= seq![clip_record(pre_clip, end_shifted)]);
                assert(lines_model(lines@) =~= lines_model(pre_lines).push(
                    clip_record(pre_clip, end_shifted),
                ));
                assert(lines_model(lines@) + resolve_records_from(
                    seqs,
                    files,
                    bc,
                    address_offset,
                    ranges@,
                    ri as int,
                ) =~= lines_model(pre_lines) + collapse_from(
                    rows@,
                    rows@.len() as int,
                    last_file,
                    pre_clip,
                    bc,
                    files,
                    address_offset,
                    end_shifted,
                ) + resolve_records_from(seqs, files, bc, address_offset, ranges@, ri as int));
            }
        }
        lines
    }
}

/// A call-site line record.
pub open spec fn call_record(
    address: u64,
    size: u64,
    fd: Seq<u8>,
    fnm: Seq<u8>,
    line: u64,
) -> LineRecModel {
    LineRecModel { address, size: Some(size), file_dir: fd, file_name: fnm, line }
}

/// The bytes a record covers, zero when its size is unknown.
pub open spec fn rec_end_of(rec: LineRecModel) -> u64 {
    rec.address.wrapping_add(
        match rec.size {
            Some(sz) => sz,
            None => 0,
        },
    )
}

/// When no record starts at the range's begin, a call-site record is put
/// in front of the next one.
pub open spec fn splice_leading(
    lines: Seq<LineRecModel>,
    index: int,
    rb: u64,
    re: u64,
    fd: Seq<u8>,
    fnm: Seq<u8>,
    line: u64,
) -> (Seq<LineRecModel>, int) {
    if 0 <= index < lines.len() && lines[index].address > rb {
        let next_addr = lines[index].address;
        let capped = if re < next_addr {
            re
        } else {
            next_addr
        };
        (lines.insert(index, call_record(rb, capped.wrapping_sub(rb), fd, fnm, line)), index + 1)
    } else {
        (lines, index)
    }
}

/// Walks the records overlapping one inlinee range: records before the
/// range are passed over, records inside it are re-pointed at the call
/// site, a record reaching into it from before is split, and a record
/// reaching past its end is split with the tail keeping the original
/// location, which ends the walk.
pub open spec fn splice_walk(
    lines: Seq<LineRecModel>,
    index: int,
    rb: u64,
    re: u64,
    fd: Seq<u8>,
    fnm: Seq<u8>,
    line: u64,
) -> (Seq<LineRecModel>, int)
    decreases lines.len() - index,
{
    if !(0 <= index < lines.len()) {
        (lines, index)
    } else {
        let rec = lines[index];
        if rec.address >= re {
            (lines, index)
        } else {
            let i1 = index + 1;
            let rec_end = rec_end_of(rec);
            if rec_end <= rb {
                splice_walk(lines, i1, rb, re, fd, fnm, line)
            } else if rec_end > re {
                let l1 = lines.update(
                    index,
                    LineRecModel { size: Some(re.wrapping_sub(rec.address)), ..rec },
                );
                let tail = LineRecModel {
                    address: re,
                    size: Some(rec_end.wrapping_sub(re)),
                    file_dir: rec.file_dir,
                    file_name: rec.file_name,
                    line: rec.line,
                };
                if rec.address < rb {
                    let max_size = rb.wrapping_sub(rec.address);
                    let shorten = match l1[index].size {
                        Some(ps) => ps > max_size,
                        None => true,
                    };
                    let l2 = if shorten {
                        l1.update(index, LineRecModel { size: Some(max_size), ..l1[index] })
                    } else {
                        l1
                    };
                    let capped = if rec_end < re {
                        rec_end
                    } else {
                        re
                    };
                    let l3 = l2.insert(
                        i1,
                        call_record(rb, capped.wrapping_sub(rb), fd, fnm, line),
                    );
                    (l3.insert(i1 + 1, tail), i1 + 1)
                } else {
                    let l2 = l1.update(
                        index,
                        LineRecModel {
                            address: rec.address,
                            size: l1[index].size,
                            file_dir: fd,
                            file_name: fnm,
                            line,
                        },
                    );
                    (l2.insert(i1, tail), i1)
                }
            } else {
                if rec.address < rb {
                    let max_size = rb.wrapping_sub(rec.address);
                    let shorten = match rec.size {
                        Some(ps) => ps > max_size,
                        None => true,
                    };
                    let l2 = if shorten {
                        lines.update(index, LineRecModel { size: Some(max_size), ..rec })
                    } else {
                        lines
                    };
                    let capped = if rec_end < re {
                        rec_end
                    } else {
                        re
                    };
                    let l3 = l2.insert(
                        i1,
                        call_record(rb, capped.wrapping_sub(rb), fd, fnm, line),
                    );
                    splice_walk(l3, i1 + 1, rb, re, fd, fnm, line)
                } else {
                    let l2 = lines.update(
                        index,
                        LineRecModel {
                            address: rec.address,
                            size: rec.size,
                            file_dir: fd,
                            file_name: fnm,
                            line,
                        },
                    );
                    splice_walk(l2, i1, rb, re, fd, fnm, line)
                }
            }
        }
    }
}

/// Splices one inlinee range: the leading gap record, the walk over the
/// overlapping records, and a trailing gap record when the range is not
/// fully covered.
pub open spec fn splice_range_step(
    lines: Seq<LineRecModel>,
    index: int,
    range: AddrRange,
    off: i64,
    fd: Seq<u8>,
    fnm: Seq<u8>,
    line: u64,
) -> (Seq<LineRecModel>, int) {
    let rb = shifted_addr(range.begin, off);
    let re = shifted_addr(range.end, off);
    let led = splice_leading(lines, index, rb, re, fd, fnm, line);
    let walked = splice_walk(led.0, led.1, rb, re, fd, fnm, line);
    let l2 = walked.0;
    let i2 = walked.1;
    if i2 > 0 && i2 <= l2.len() {
        let prev = l2[i2 - 1];
        let prev_end = rec_end_of(prev);
        if prev_end < re {
            (l2.insert(i2, call_record(prev_end, re.wrapping_sub(prev_end), fd, fnm, line)), i2 + 1)
        } else {
            (l2, i2)
        }
    } else {
        (l2, i2)
    }
}

/// Splices every inlinee range from `i` on, the record index advancing
/// monotonically across ranges.
pub open spec fn splice_ranges_from(
    lines: Seq<LineRecModel>,
    index: int,
    ranges: Seq<AddrRange>,
    i: int,
    off: i64,
    fd: Seq<u8>,
    fnm: Seq<u8>,
    line: u64,
) -> (Seq<LineRecModel>, int)
    decreases ranges.len() - i,
{
    if i >= ranges.len() {
        (lines, index)
    } else {
        let st = splice_range_step(lines, index, ranges[i], off, fd, fnm, line);
        splice_ranges_from(st.0, st.1, ranges, i + 1, off, fd, fnm, line)
    }
}

/// Splices an inlinee's call site into its parent's line records.
///
/// For each inlinee range, the parent records overlapping the range are
/// re-pointed at the call site's file and line; a record reaching into the
/// range from before is split, a record reaching past its end is split and
/// the tail keeps the original location, and gaps at the start and end of
/// the range are filled with call-site records. Records are only modified
/// or inserted, never removed.
/// Appending, inserting or updating a record does the same to its value.
proof fn lemma_lines_model_insert(ls: Seq<LineInfo>, i: int, x: LineInfo)
    requires
        0 <= i <= ls.len(),
    ensures
        lines_model(ls.insert(i, x)) == lines_model(ls).insert(i, line_rec_model(x)),
{
    assert(lines_model(ls.insert(i, x)) =~= lines_model(ls).insert(i, line_rec_model(x)));
}

/// Updating a record updates its value.
proof fn lemma_lines_model_update(ls: Seq<LineInfo>, i: int, x: LineInfo)
    requires
        0 <= i < ls.len(),
    ensures
        lines_model(ls.update(i, x)) == lines_model(ls).update(i, line_rec_model(x)),
{
    assert(lines_model(ls.update(i, x)) =~= lines_model(ls).update(i, line_rec_model(x)));
}

#[verifier::rlimit(100)]
pub fn splice_inline_lines(
    lines: &mut Vec<LineInfo>,
    ranges: &Vec<AddrRange>,
    address_offset: i64,
    file: &FileInfo,
    line: u64,
)
    ensures
        final (lines)@.len() >= old(lines)@.len(),
        lines_model(final (lines)@) == splice_ranges_from(
            lines_model(old(lines)@),
            0,
            ranges@,
            0,
            address_offset,
            file.dir@,
            file.name@,
            line,
        ).0,
{
    let mut index: usize = 0;
    let mut ri: usize = 0;
    while ri < ranges.len()
        invariant
            lines@.len() >= old(lines)@.len(),
            index <= lines@.len(),
            splice_ranges_from(
                lines_model(lines@),
                index as int,
                ranges@,
                ri as int,
                address_offset,
                file.dir@,
                file.name@,
                line,
            ) == splice_ranges_from(
                lines_model(old(lines)@),
                0,
                ranges@,
                0,
                address_offset,
                file.dir@,
                file.name@,
                line,
            ),
        decreases ranges@.len() - ri,
    {
        let ghost l0 = lines_model(lines@);
        let ghost i0 = index as int;
        let range = ranges[ri];
        ri = ri + 1;
        let range_begin = apply_address_offset(range.begin, address_offset);
        let range_end = apply_address_offset(range.end, address_offset);
        let ghost fd = file.dir@;
        let ghost fnm = file.name@;
        let ghost led = splice_leading(l0, i0, range_begin, range_end, fd, fnm, line);

        // A record covering the start of the range, or a fresh call-site
        // record when none starts there.
        if index < lines.len() {
            let next_address = lines[index].address;
            if next_address > range_begin {
                let capped_end = if range_end < next_address {
                    range_end
                } else {
                    next_address
                };
                let line_info = LineInfo {
                    address: range_begin,
                    size: Some(capped_end.wrapping_sub(range_begin)),
                    file: clone_file_info(file),
                    line,
                };
                proof {
                    lemma_lines_model_insert(lines@, index as int, line_info);
                    assert(line_rec_model(line_info) == call_record(
                        range_begin,
                        capped_end.wrapping_sub(range_begin),
                        fd,
                        fnm,
                        line,
                    ));
                }
                lines.insert(index, line_info);
                index = index + 1;
            }
        }
        proof {
            assert(lines_model(lines@) == led.0);
            assert(index as int == led.1);
        }
        let ghost walk_target = splice_walk(
            lines_model(lines@),
            index as int,
            range_begin,
            range_end,
            fd,
            fnm,
            line,
        );

        while index < lines.len()
            invariant
                lines@.len() >= old(lines)@.len(),
                index <= lines@.len(),
                fd == file.dir@,
                fnm == file.name@,
                walk_target == splice_walk(
                    lines_model(lines@),
                    index as int,
                    range_begin,
                    range_end,
                    file.dir@,
                    file.name@,
                    line,
                ),
            ensures
                lines@.len() >= old(lines)@.len(),
                index <= lines@.len(),
                walk_target == splice_walk(
                    lines_model(lines@),
                    index as int,
                    range_begin,
                    range_end,
                    file.dir@,
                    file.name@,
                    line,
                ),
                splice_walk(
                    lines_model(lines@),
                    index as int,
                    range_begin,
                    range_end,
                    file.dir@,
                    file.name@,
                    line,
                ) == (lines_model(lines@), index as int),
            decreases lines@.len() - index,
        {
            let ghost wl = lines_model(lines@);
            let ghost wi = index as int;
            let record_address = lines[index].address;
            let record_size = lines[index].size;

            // Records past the range belong to the enclosing function or a
            // later inlinee.
            if record_address >= range_end {
                break ;
            }
            index = index + 1;

            let record_end = record_address.wrapping_add(
                match record_size {
                    Some(s) => s,
                    None => 0,
                },
            );
            if record_end <= range_begin {
                continue ;
            }

            // A record reaching past the range keeps its tail under the
            // original location.
            let split: Option<LineInfo> = if record_end > range_end {
                let rec_line = lines[index - 1].line;
                let rec_file_kept = clone_file_info(&lines[index - 1].file);
                let rec_file_tail = clone_file_info(&lines[index - 1].file);
                let shortened = LineInfo {
                    address: record_address,
                    size: Some(range_end.wrapping_sub(record_address)),
                    file: rec_file_kept,
                    line: rec_line,
                };
                proof {
                    lemma_lines_model_update(lines@, index - 1, shortened);
                }
                lines.set(index - 1, shortened);
                Some(
                    LineInfo {
                        address: range_end,
                        size: Some(record_end.wrapping_sub(range_end)),
                        file: rec_file_tail,
                        line: rec_line,
                    },
                )
            } else {
                None
            };

            if record_address < range_begin {
                // The record started before the range: shorten it up to the
                // range and insert a call-site record for the overlap.
                let max_size = range_begin.wrapping_sub(record_address);
                let shorten = match lines[index - 1].size {
                    Some(prev_size) => prev_size > max_size,
                    None => true,
                };
                if shorten {
                    let rec_line = lines[index - 1].line;
                    let rec_file = clone_file_info(&lines[index - 1].file);
                    let shortened = LineInfo {
                        address: record_address,
                        size: Some(max_size),
                        file: rec_file,
                        line: rec_line,
                    };
                    proof {
                        lemma_lines_model_update(lines@, index - 1, shortened);
                    }
                    lines.set(index - 1, shortened);
                }
                let capped_end = if record_end < range_end {
                    record_end
                } else {
                    range_end
                };
                let line_info = LineInfo {
                    address: range_begin,
                    size: Some(capped_end.wrapping_sub(range_begin)),
                    file: clone_file_info(file),
                    line,
                };
                proof {
                    lemma_lines_model_insert(lines@, index as int, line_info);
                }
                lines.insert(index, line_info);
                let grown_len = lines.len();
                assert(index < grown_len);
                index = index + 1;
            } else {
                let cur_size = lines[index - 1].size;
                let repointed = LineInfo {
                    address: record_address,
                    size: cur_size,
                    file: clone_file_info(file),
                    line,
                };
                proof {
                    lemma_lines_model_update(lines@, index - 1, repointed);
                }
                lines.set(index - 1, repointed);
            }

            // The split tail goes right after the record it came from; the
            // next iteration stops at it, and a later range may split it
            // further.
            match split {
                Some(split_rec) => {
                    proof {
                        lemma_lines_model_insert(lines@, index as int, split_rec);
                    }
                    lines.insert(index, split_rec);
                    proof {
                        assert(splice_walk(
                            lines_model(lines@),
                            index as int,
                            range_begin,
                            range_end,
                            fd,
                            fnm,
                            line,
                        ) == (lines_model(lines@), index as int));
                        assert(walk_target == splice_walk(wl, wi, range_begin, range_end, fd, fnm, line));
                        assert(splice_walk(wl, wi, range_begin, range_end, fd, fnm, line) == (
                            lines_model(lines@),
                            index as int,
                        ));
                    }
                    break ;
                },
                None => {
                    proof {
                        assert(splice_walk(wl, wi, range_begin, range_end, fd, fnm, line)
                            == splice_walk(
                            lines_model(lines@),
                            index as int,
                            range_begin,
                            range_end,
                            fd,
                            fnm,
                            line,
                        ));
                    }
                },
            }
        }

        // The range is not fully covered by the parent: a trailing
        // call-site record covers the rest.
        let ghost walked = splice_walk(led.0, led.1, range_begin, range_end, fd, fnm, line);
        proof {
            assert(walked == (lines_model(lines@), index as int));
        }
        if index > 0 && index <= lines.len() {
            let prev_address = lines[index - 1].address;
            let prev_size = lines[index - 1].size;
            let record_end = prev_address.wrapping_add(
                match prev_size {
                    Some(s) => s,
                    None => 0,
                },
            );
            if record_end < range_end {
                let line_info = LineInfo {
                    address: record_end,
                    size: Some(range_end.wrapping_sub(record_end)),
                    file: clone_file_info(file),
                    line,
                };
                proof {
                    lemma_lines_model_insert(lines@, index as int, line_info);
                }
                lines.insert(index, line_info);
                let grown_len = lines.len();
                assert(index < grown_len);
                index = index + 1;
            }
        }
        proof {
            assert((lines_model(lines@), index as int) == splice_range_step(
                l0,
                i0,
                range,
                address_offset,
                fd,
                fnm,
                line,
            ));
        }
    }
}

/// The skeleton of a reconstructed function: every field but its line
/// records, with its inlinees as skeletons in turn.
pub struct FunSkel {
    /// The start address, after the global address offset was applied.
    pub address: u64,
    /// The sum of the range lengths.
    pub size: u64,
    /// The characters of the name.
    pub name_text: Seq<char>,
    /// Whether the name is mangled.
    pub name_mangling: NameMangling,
    /// The language of the name.
    pub name_language: Language,
    /// The compilation directory of the owning unit.
    pub comp_dir: Seq<u8>,
    /// Whether the function is an inlined call.
    pub inline: bool,
    /// The skeletons of the functions inlined into this one.
    pub inlinees: Seq<FunSkel>,
}

/// The skeleton whose fields are all empty.
pub open spec fn empty_skel() -> FunSkel {
    FunSkel {
        address: 0,
        size: 0,
        name_text: Seq::empty(),
        name_mangling: NameMangling::Unknown,
        name_language: Language::Unknown,
        comp_dir: Seq::empty(),
        inline: false,
        inlinees: Seq::empty(),
    }
}

/// The skeleton of a concrete function.
pub open spec fn fun_skel(f: Function) -> FunSkel
    decreases f,
{
    FunSkel {
        address: f.address,
        size: f.size,
        name_text: f.name.text@,
        name_mangling: f.name.mangling,
        name_language: f.name.language,
        comp_dir: f.compilation_dir@,
        inline: f.inline,
        inlinees: Seq::new(
            f.inlinees@.len(),
            |i: int|
                if 0 <= i < f.inlinees@.len() {
                    fun_skel(f.inlinees@[i])
                } else {
                    empty_skel()
                },
        ),
    }
}

/// The skeletons of a list of functions.
pub open spec fn skels(fs: Seq<Function>) -> Seq<FunSkel> {
    Seq::new(fs.len(), |i: int| fun_skel(fs[i]))
}

/// The skeletons of the builder's stack, with their depths.
pub open spec fn stack_skels(st: Seq<StackEntry>) -> Seq<(u32, FunSkel)> {
    Seq::new(st.len(), |i: int| (st[i].depth, fun_skel(st[i].fun)))
}

/// The state of the DIE walk: the pending stack, the skipped-subtree
/// marker, the functions emitted so far, and the recorded pairs.
pub struct BuildState {
    /// Pending functions, outermost first.
    pub stack: Seq<(u32, FunSkel)>,
    /// When set, every DIE strictly deeper is inside a skipped subtree.
    pub skipped: Option<u32>,
    /// Functions emitted so far.
    pub out: Seq<FunSkel>,
    /// The `(address, size)` pairs of top-level functions recorded so far.
    pub seen: Set<(u64, u64)>,
}

/// Flushes every pending skeleton at or below `depth`: a popped skeleton
/// joins the next pending one's inlinees, or the output when none is
/// pending.
pub open spec fn flush_spec(stack: Seq<(u32, FunSkel)>, depth: u32, out: Seq<FunSkel>) -> (
    Seq<(u32, FunSkel)>,
    Seq<FunSkel>,
)
    decreases stack.len(),
{
    if stack.len() == 0 {
        (stack, out)
    } else {
        let top = stack.last();
        if top.0 >= depth {
            let rest = stack.drop_last();
            if rest.len() > 0 {
                let parent = rest.last();
                let parent2 = (
                    parent.0,
                    FunSkel { inlinees: parent.1.inlinees.push(top.1), ..parent.1 },
                );
                flush_spec(rest.drop_last().push(parent2), depth, out)
            } else {
                flush_spec(rest, depth, out.push(top.1))
            }
        } else {
            (stack, out)
        }
    }
}

/// The name a function skeleton gets: the symbol table's entry at the
/// function's exact start address for top-level functions of units whose
/// producer is trusted, the resolved DWARF name otherwise, and the empty
/// unmangled name failing both.
pub open spec fn skel_name(
    units: Seq<UnitSlot>,
    ui: int,
    di: int,
    language: Language,
    bc: Option<BcSymbolMap>,
    symbols: Seq<SymbolMapEntry>,
    prefer_dwarf: bool,
    inline: bool,
    address: u64,
) -> (Seq<char>, NameMangling, Language) {
    let sym: Option<(Seq<char>, NameMangling, Language)> = if prefer_dwarf || inline {
        None
    } else {
        match first_symbol_at(symbols, address) {
            None => None,
            Some(i) => match symbols[i].name {
                None => None,
                Some(n) => Some((resolved_chars(bc, n@), NameMangling::Mangled, language)),
            },
        }
    };
    match sym {
        Some(t) => t,
        None => match resolve_name_spec(units, ui, di, language, bc, NAME_RESOLUTION_FUEL as nat) {
            Ok(rep_opt) => match rep_opt {
                Some(rep) => (rep.text, rep.mangling, rep.language),
                None => (Seq::empty(), NameMangling::Unmangled, language),
            },
            Err(_) => (Seq::empty(), NameMangling::Unmangled, language),
        },
    }
}

/// Walks one DIE: inside a skipped subtree nothing happens; otherwise the
/// stack is flushed to the DIE's depth, non-function entries pass, a
/// function without ranges (or a top-level function whose pair was already
/// recorded) skips its subtree, an inlined function without a parent is an
/// error, and any other function is pushed as pending.
pub open spec fn build_step(
    st: BuildState,
    die: DieData,
    di: int,
    units: Seq<UnitSlot>,
    ui: int,
    language: Language,
    bc: Option<BcSymbolMap>,
    symbols: Seq<SymbolMapEntry>,
    prefer_dwarf: bool,
    comp_dir: Seq<u8>,
    relocatable: bool,
    off: i64,
) -> Result<BuildState, DwarfErrorKind> {
    let depth = die.depth;
    if st.skipped matches Some(sk) && depth > sk {
        Ok(st)
    } else {
        let flushed = flush_spec(st.stack, depth, st.out);
        let st1 = BuildState { stack: flushed.0, skipped: None, out: flushed.1, seen: st.seen };
        if die.tag == DieTag::Other {
            Ok(st1)
        } else {
            let inline = die.tag == DieTag::InlinedSubroutine;
            match parse_ranges_spec(die.attrs@, relocatable) {
                Err(k) => Err(k),
                Ok(t) => {
                    if t.0.len() == 0 {
                        Ok(BuildState { skipped: Some(depth), ..st1 })
                    } else {
                        let sorted = sort_by_begin(t.0);
                        let address = shifted_addr(sorted[0].begin, off);
                        let size = wrapping_range_sum(sorted);
                        if !inline && st1.seen.contains((address, size)) {
                            Ok(BuildState { skipped: Some(depth), ..st1 })
                        } else if inline && st1.stack.len() == 0 {
                            Err(DwarfErrorKind::UnexpectedInline)
                        } else {
                            let seen2 = if inline {
                                st1.seen
                            } else {
                                st1.seen.insert((address, size))
                            };
                            let nm = skel_name(
                                units,
                                ui,
                                di,
                                language,
                                bc,
                                symbols,
                                prefer_dwarf,
                                inline,
                                address,
                            );
                            let f = FunSkel {
                                address,
                                size,
                                name_text: nm.0,
                                name_mangling: nm.1,
                                name_language: nm.2,
                                comp_dir,
                                inline,
                                inlinees: Seq::empty(),
                            };
                            Ok(
                                BuildState {
                                    stack: st1.stack.push((depth, f)),
                                    skipped: None,
                                    out: st1.out,
                                    seen: seen2,
                                },
                            )
                        }
                    }
                },
            }
        }
    }
}

/// Walks the first `n` DIEs of a unit, starting from the given recorded
/// pairs.
pub open spec fn build_fold(
    dies: Seq<DieData>,
    n: int,
    units: Seq<UnitSlot>,
    ui: int,
    language: Language,
    bc: Option<BcSymbolMap>,
    symbols: Seq<SymbolMapEntry>,
    prefer_dwarf: bool,
    comp_dir: Seq<u8>,
    relocatable: bool,
    off: i64,
    seen0: Set<(u64, u64)>,
) -> Result<BuildState, DwarfErrorKind>
    decreases n,
{
    if n <= 0 {
        Ok(BuildState { stack: Seq::empty(), skipped: None, out: Seq::empty(), seen: seen0 })
    } else {
        match build_fold(
            dies,
            n - 1,
            units,
            ui,
            language,
            bc,
            symbols,
            prefer_dwarf,
            comp_dir,
            relocatable,
            off,
            seen0,
        ) {
            Err(k) => Err(k),
            Ok(st) => build_step(
                st,
                dies[n - 1],
                n - 1,
                units,
                ui,
                language,
                bc,
                symbols,
                prefer_dwarf,
                comp_dir,
                relocatable,
                off,
            ),
        }
    }
}

/// What walking a whole unit emits: the skeletons of its functions in
/// emission order and the recorded pairs, or the error the walk raised.
pub open spec fn build_result(
    dies: Seq<DieData>,
    units: Seq<UnitSlot>,
    ui: int,
    language: Language,
    bc: Option<BcSymbolMap>,
    symbols: Seq<SymbolMapEntry>,
    prefer_dwarf: bool,
    comp_dir: Seq<u8>,
    relocatable: bool,
    off: i64,
    seen0: Set<(u64, u64)>,
) -> Result<(Seq<FunSkel>, Set<(u64, u64)>), DwarfErrorKind> {
    match build_fold(
        dies,
        dies.len() as int,
        units,
        ui,
        language,
        bc,
        symbols,
        prefer_dwarf,
        comp_dir,
        relocatable,
        off,
        seen0,
    ) {
        Err(k) => Err(k),
        Ok(st) => Ok((flush_spec(st.stack, 0, st.out).1, st.seen)),
    }
}

/// The recorded pairs the walk has reached after `n` DIEs: the failing
/// step keeps the pairs recorded before it, and they persist from there.
pub open spec fn build_fold_seen(
    dies: Seq<DieData>,
    n: int,
    units: Seq<UnitSlot>,
    ui: int,
    language: Language,
    bc: Option<BcSymbolMap>,
    symbols: Seq<SymbolMapEntry>,
    prefer_dwarf: bool,
    comp_dir: Seq<u8>,
    relocatable: bool,
    off: i64,
    seen0: Set<(u64, u64)>,
) -> Set<(u64, u64)>
    decreases n,
{
    if n <= 0 {
        seen0
    } else {
        match build_fold(
            dies,
            n - 1,
            units,
            ui,
            language,
            bc,
            symbols,
            prefer_dwarf,
            comp_dir,
            relocatable,
            off,
            seen0,
        ) {
            Err(_) => build_fold_seen(
                dies,
                n - 1,
                units,
                ui,
                language,
                bc,
                symbols,
                prefer_dwarf,
                comp_dir,
                relocatable,
                off,
                seen0,
            ),
            Ok(st) => match build_step(
                st,
                dies[n - 1],
                n - 1,
                units,
                ui,
                language,
                bc,
                symbols,
                prefer_dwarf,
                comp_dir,
                relocatable,
                off,
            ) {
                Err(_) => st.seen,
                Ok(st2) => st2.seen,
            },
        }
    }
}

/// While the walk is error-free, the reached pairs are the walk state's.
proof fn lemma_fold_seen_ok(
    dies: Seq<DieData>,
    n: int,
    units: Seq<UnitSlot>,
    ui: int,
    language: Language,
    bc: Option<BcSymbolMap>,
    symbols: Seq<SymbolMapEntry>,
    prefer_dwarf: bool,
    comp_dir: Seq<u8>,
    relocatable: bool,
    off: i64,
    seen0: Set<(u64, u64)>,
    st: BuildState,
)
    requires
        n >= 0,
        build_fold(
            dies,
            n,
            units,
            ui,
            language,
            bc,
            symbols,
            prefer_dwarf,
            comp_dir,
            relocatable,
            off,
            seen0,
        ) == Ok::<BuildState, DwarfErrorKind>(st),
    ensures
        build_fold_seen(
            dies,
            n,
            units,
            ui,
            language,
            bc,
            symbols,
            prefer_dwarf,
            comp_dir,
            relocatable,
            off,
            seen0,
        ) == st.seen,
    decreases n,
{
    if n > 0 {
        let prev = build_fold(
            dies,
            n - 1,
            units,
            ui,
            language,
            bc,
            symbols,
            prefer_dwarf,
            comp_dir,
            relocatable,
            off,
            seen0,
        );
        match prev {
            Ok(p) => {},
            Err(_) => {
                assert(false);
            },
        }
    }
}

/// Once the walk fails, the reached pairs stay where the failure left
/// them.
proof fn lemma_fold_seen_err_persists(
    dies: Seq<DieData>,
    n: int,
    units: Seq<UnitSlot>,
    ui: int,
    language: Language,
    bc: Option<BcSymbolMap>,
    symbols: Seq<SymbolMapEntry>,
    prefer_dwarf: bool,
    comp_dir: Seq<u8>,
    relocatable: bool,
    off: i64,
    seen0: Set<(u64, u64)>,
)
    requires
        0 <= n <= dies.len(),
        build_fold(
            dies,
            n,
            units,
            ui,
            language,
            bc,
            symbols,
            prefer_dwarf,
            comp_dir,
            relocatable,
            off,
            seen0,
        ) is Err,
    ensures
        build_fold_seen(
            dies,
            dies.len() as int,
            units,
            ui,
            language,
            bc,
            symbols,
            prefer_dwarf,
            comp_dir,
            relocatable,
            off,
            seen0,
        ) == build_fold_seen(
            dies,
            n,
            units,
            ui,
            language,
            bc,
            symbols,
            prefer_dwarf,
            comp_dir,
            relocatable,
            off,
            seen0,
        ),
    decreases dies.len() - n,
{
    if n < dies.len() {
        lemma_fold_seen_err_persists(
            dies,
            n + 1,
            units,
            ui,
            language,
            bc,
            symbols,
            prefer_dwarf,
            comp_dir,
            relocatable,
            off,
            seen0,
        );
    }
}

/// An error while walking a prefix decides the whole walk.
proof fn lemma_build_fold_err(
    dies: Seq<DieData>,
    n: int,
    units: Seq<UnitSlot>,
    ui: int,
    language: Language,
    bc: Option<BcSymbolMap>,
    symbols: Seq<SymbolMapEntry>,
    prefer_dwarf: bool,
    comp_dir: Seq<u8>,
    relocatable: bool,
    off: i64,
    seen0: Set<(u64, u64)>,
    k: DwarfErrorKind,
)
    requires
        0 <= n <= dies.len(),
        build_fold(
            dies,
            n,
            units,
            ui,
            language,
            bc,
            symbols,
            prefer_dwarf,
            comp_dir,
            relocatable,
            off,
            seen0,
        ) == Err::<BuildState, DwarfErrorKind>(k),
    ensures
        build_fold(
            dies,
            dies.len() as int,
            units,
            ui,
            language,
            bc,
            symbols,
            prefer_dwarf,
            comp_dir,
            relocatable,
            off,
            seen0,
        ) == Err::<BuildState, DwarfErrorKind>(k),
    decreases dies.len() - n,
{
    if n < dies.len() {
        lemma_build_fold_err(
            dies,
            n + 1,
            units,
            ui,
            language,
            bc,
            symbols,
            prefer_dwarf,
            comp_dir,
            relocatable,
            off,
            seen0,
            k,
        );
    }
}

/// One pending function on the builder's stack, keyed by the depth of its
/// DIE in the unit's tree.
#[derive(Debug)]
pub struct StackEntry {
    /// The depth of the function's DIE.
    pub depth: u32,
    /// The function under construction.
    pub fun: Function,
}

/// The bookkeeping invariant of an emission: every top-level (non-inline)
/// function reconstructed so far — already emitted or still pending on the
/// stack — has its `(address, size)` pair recorded in `seen` and not in the
/// snapshot `seen0` taken before the unit was walked, and no two of them
/// share a pair.
pub open spec fn emission_inv(
    out: Seq<Function>,
    stack: Seq<StackEntry>,
    seen: Set<(u64, u64)>,
    seen0: Set<(u64, u64)>,
) -> bool {
    &&& (forall|i: int, j: int|
        0 <= i < j < out.len() && !out[i].inline && !out[j].inline ==> ((#[trigger] out[i]).address,
        out[i].size) != ((#[trigger] out[j]).address, out[j].size))
    &&& (forall|i: int, j: int|
        0 <= i < j < stack.len() && !stack[i].fun.inline && !stack[j].fun.inline ==> ((
        #[trigger] stack[i]).fun.address, stack[i].fun.size) != ((#[trigger] stack[j]).fun.address,
        stack[j].fun.size))
    &&& (forall|i: int, j: int|
        0 <= i < out.len() && 0 <= j < stack.len() && !out[i].inline && !stack[j].fun.inline ==> ((
        #[trigger] out[i]).address, out[i].size) != ((#[trigger] stack[j]).fun.address,
        stack[j].fun.size))
    &&& (forall|i: int|
        0 <= i < out.len() && !out[i].inline ==> seen.contains(
            ((#[trigger] out[i]).address, out[i].size),
        ) && !seen0.contains((out[i].address, out[i].size)))
    &&& (forall|i: int|
        0 <= i < stack.len() && !stack[i].fun.inline ==> seen.contains(
            ((#[trigger] stack[i]).fun.address, stack[i].fun.size),
        ) && !seen0.contains((stack[i].fun.address, stack[i].fun.size)))
}

/// Flushes every pending function at or below the current depth: a popped
/// function becomes an inlinee of the next pending function, or an emitted
/// function when none is pending.
fn flush_stack(
    stack: &mut Vec<StackEntry>,
    depth: u32,
    out: &mut Vec<Function>,
    Ghost(seen): Ghost<Set<(u64, u64)>>,
    Ghost(seen0): Ghost<Set<(u64, u64)>>,
)
    requires
        emission_inv(old(out)@, old(stack)@, seen, seen0),
    ensures
        emission_inv(final (out)@, final (stack)@, seen, seen0),
        final (out)@.len() >= old(out)@.len(),
        stack_skels(final (stack)@) == flush_spec(
            stack_skels(old(stack)@),
            depth,
            skels(old(out)@),
        ).0,
        skels(final (out)@) == flush_spec(stack_skels(old(stack)@), depth, skels(old(out)@)).1,
{
    let mut keep = stack.len() > 0 && stack[stack.len() - 1].depth >= depth;
    while keep
        invariant
            keep ==> stack@.len() > 0,
            emission_inv(out@, stack@, seen, seen0),
            out@.len() >= old(out)@.len(),
            flush_spec(stack_skels(stack@), depth, skels(out@)) == flush_spec(
                stack_skels(old(stack)@),
                depth,
                skels(old(out)@),
            ),
            keep == (stack@.len() > 0 && stack@.last().depth >= depth),
        decreases stack@.len(),
    {
        let ghost pre_stack = stack@;
        let ghost pre_out = out@;
        let entry = stack.pop().unwrap();
        if stack.len() > 0 {
            let mut parent = stack.pop().unwrap();
            let ghost parent_before = parent;
            parent.fun.inlinees.push(entry.fun);
            let ghost pre = stack@;
            stack.push(parent);
            proof {
                assert(fun_skel(parent.fun).inlinees =~= fun_skel(parent_before.fun).inlinees.push(
                    fun_skel(entry.fun),
                )) by {
                    assert(parent.fun.inlinees@ == parent_before.fun.inlinees@.push(entry.fun));
                }
                assert(fun_skel(parent.fun) == FunSkel {
                    inlinees: fun_skel(parent_before.fun).inlinees.push(fun_skel(entry.fun)),
                    ..fun_skel(parent_before.fun)
                });
                assert(stack_skels(stack@) =~= stack_skels(pre_stack).drop_last().drop_last().push(
                    (
                        parent_before.depth,
                        FunSkel {
                            inlinees: fun_skel(parent_before.fun).inlinees.push(
                                fun_skel(entry.fun),
                            ),
                            ..fun_skel(parent_before.fun)
                        },
                    ),
                ));
                assert(flush_spec(stack_skels(stack@), depth, skels(out@)) == flush_spec(
                    stack_skels(pre_stack),
                    depth,
                    skels(pre_out),
                ));
                assert forall|i: int|
                    0 <= i < stack@.len() && !stack@[i].fun.inline implies seen.contains(
                    ((#[trigger] stack@[i]).fun.address, stack@[i].fun.size),
                ) && !seen0.contains((stack@[i].fun.address, stack@[i].fun.size)) by {
                    if i < pre.len() {
                        assert(stack@[i] == pre[i]);
                    }
                }
            }
        } else {
            out.push(entry.fun);
            proof {
                assert(stack_skels(stack@) =~= stack_skels(pre_stack).drop_last());
                assert(skels(out@) =~= skels(pre_out).push(fun_skel(entry.fun)));
                assert(flush_spec(stack_skels(stack@), depth, skels(out@)) == flush_spec(
                    stack_skels(pre_stack),
                    depth,
                    skels(pre_out),
                ));
            }
        }
        keep = stack.len() > 0 && stack[stack.len() - 1].depth >= depth;
    }
    proof {
        if stack@.len() > 0 {
            assert(stack_skels(stack@).last() == (stack@.last().depth, fun_skel(
                stack@.last().fun,
            )));
        }
        assert(flush_spec(stack_skels(stack@), depth, skels(out@)) == (
            stack_skels(stack@),
            skels(out@),
        ));
    }
}

impl DwarfUnit {
    /// Collects all functions of this compilation unit by walking its DIE
    /// tree depth-first, reusing the range buffer and the set of already
    /// emitted `(address, size)` pairs across units.
    ///
    /// Top-level functions whose `(address, size)` pair was already seen are
    /// skipped with their whole subtree, so no two top-level functions of
    /// the emission share a pair; the pairs of the returned functions are
    /// recorded in the set and were new to it.
    pub fn functions(
        &self,
        bcsymbolmap: Option<&BcSymbolMap>,
        data: &DwarfData,
        unit: &UnitData,
        range_buf: &mut Vec<AddrRange>,
        seen_ranges: &mut SeenRanges,
    ) -> (r: Result<Vec<Function>, DwarfError>)
        ensures
            old(seen_ranges)@.subset_of(final (seen_ranges)@),
            r matches Ok(fs) ==> ({
                &&& (forall|i: int, j: int|
                    0 <= i < j < fs@.len() && !fs@[i].inline && !fs@[j].inline ==> ((
                    #[trigger] fs@[i]).address, fs@[i].size) != ((#[trigger] fs@[j]).address,
                    fs@[j].size))
                &&& (forall|i: int|
                    0 <= i < fs@.len() && !fs@[i].inline ==> final (seen_ranges)@.contains(
                        ((#[trigger] fs@[i]).address, fs@[i].size),
                    ) && !old(seen_ranges)@.contains((fs@[i].address, fs@[i].size)))
            }),
            ({
                let b = self.build_result_of(*data, map_of(bcsymbolmap), unit.dies@, old(seen_ranges)@);
                &&& (b matches Ok(t) ==> r matches Ok(fs) && skels(fs@) == t.0 && final (
                seen_ranges)@ == t.1)
                &&& (b matches Err(k) ==> r matches Err(e) && e@ == k)
            }),
            final (seen_ranges)@ == self.build_seen_of(
                *data,
                map_of(bcsymbolmap),
                unit.dies@,
                old(seen_ranges)@,
            ),
    {
        let ghost seen0 = seen_ranges@;
        let mut functions: Vec<Function> = Vec::new();
        let mut stack: Vec<StackEntry> = Vec::new();
        let mut skipped_depth: Option<u32> = None;

        proof {
            assert(stack_skels(stack@) =~= Seq::<(u32, FunSkel)>::empty());
            assert(skels(functions@) =~= Seq::<FunSkel>::empty());
        }
        let mut d: usize = 0;
        while d < unit.dies.len()
            invariant
                d <= unit.dies@.len(),
                emission_inv(functions@, stack@, seen_ranges@, seen0),
                seen0.subset_of(seen_ranges@),
                seen0 == old(seen_ranges)@,
                self.build_fold_of(*data, map_of(bcsymbolmap), unit.dies@, d as int, seen0) == Ok::<
                    BuildState,
                    DwarfErrorKind,
                >(
                    (BuildState {
                        stack: stack_skels(stack@),
                        skipped: skipped_depth,
                        out: skels(functions@),
                        seen: seen_ranges@,
                    }),
                ),
            decreases unit.dies@.len() - d,
        {
            let ghost pre_state = BuildState {
                stack: stack_skels(stack@),
                skipped: skipped_depth,
                out: skels(functions@),
                seen: seen_ranges@,
            };
            let ghost sdie = unit.dies@[d as int];
            let ghost sdi = d as int;
            let die = &unit.dies[d];
            let depth = die.depth;
            d = d + 1;

            // Inside a skipped subtree every entry is ignored; outside one,
            // the marker is reset.
            match skipped_depth {
                Some(skipped) => {
                    if depth > skipped {
                        proof {
                            assert(self.step_of(pre_state, sdie, sdi, *data, map_of(bcsymbolmap)) == Ok::<
                                BuildState,
                                DwarfErrorKind,
                            >(pre_state));
                        }
                        continue ;
                    } else {
                        skipped_depth = None;
                    }
                },
                None => {},
            }

            // Pending functions deeper than this entry get no more
            // inlinees: they move to their parent or to the output.
            flush_stack(
                &mut stack,
                depth,
                &mut functions,
                Ghost(seen_ranges@),
                Ghost(seen0),
            );
            let ghost st1 = BuildState {
                stack: flush_spec(pre_state.stack, depth as u32, pre_state.out).0,
                skipped: None,
                out: flush_spec(pre_state.stack, depth as u32, pre_state.out).1,
                seen: pre_state.seen,
            };
            proof {
                assert(stack_skels(stack@) == st1.stack);
                assert(skels(functions@) == st1.out);
            }

            let inline = match die.tag {
                DieTag::Subprogram => false,
                DieTag::InlinedSubroutine => true,
                DieTag::Other => {
                    proof {
                        assert(self.step_of(pre_state, sdie, sdi, *data, map_of(bcsymbolmap)) == Ok::<
                            BuildState,
                            DwarfErrorKind,
                        >(st1));
                    }
                    continue ;
                },
            };

            range_buf.clear();
            let (call_line, call_file) = match parse_ranges(die, data.kind(), range_buf) {
                Ok(t) => t,
                Err(e) => {
                    proof {
                        assert(self.step_of(pre_state, sdie, sdi, *data, map_of(bcsymbolmap)) == Err::<
                            BuildState,
                            DwarfErrorKind,
                        >(e@));
                        self.lemma_fold_err_of(*data, map_of(bcsymbolmap), unit.dies@, d as int, seen0, e@);
                        assert(self.fold_seen_of(*data, map_of(bcsymbolmap), unit.dies@, d as int, seen0)
                            == pre_state.seen);
                        self.lemma_seen_err_of(*data, map_of(bcsymbolmap), unit.dies@, d as int, seen0);
                    }
                    return Err(e);
                },
            };

            // An empty range set marks a function eliminated by the linker;
            // its surviving inlinees must be suppressed with it.
            if range_buf.len() == 0 {
                skipped_depth = Some(depth);
                proof {
                    assert(self.step_of(pre_state, sdie, sdi, *data, map_of(bcsymbolmap)) == Ok::<
                        BuildState,
                        DwarfErrorKind,
                    >((BuildState { skipped: Some(depth), ..st1 })));
                }
                continue ;
            }

            let (function_address, function_size) = prepare_function_ranges(
                range_buf,
                data.address_offset(),
            );

            // Link-time merging can place one function into several units:
            // a top-level pair that was already emitted is skipped with its
            // subtree.
            if !inline {
                let fresh = seen_ranges.insert((function_address, function_size));
                if !fresh {
                    skipped_depth = Some(depth);
                    proof {
                        assert(seen_ranges@ =~= pre_state.seen);
                        assert(self.step_of(pre_state, sdie, sdi, *data, map_of(bcsymbolmap)) == Ok::<
                            BuildState,
                            DwarfErrorKind,
                        >((BuildState { skipped: Some(depth), ..st1 })));
                    }
                    continue ;
                }
            }

            let symbol_name = if self.prefer_dwarf_names || inline {
                None
            } else {
                self.resolve_symbol_name(bcsymbolmap, data.symbol_map(), function_address)
            };
            let name = match symbol_name {
                Some(n) => n,
                None => match self.resolve_dwarf_name(bcsymbolmap, data, d - 1) {
                    Some(n) => n,
                    None => Name::new(String::new(), NameMangling::Unmangled, self.language),
                },
            };
            proof {
                assert(name.text@ == skel_name(
                    data.units_spec(),
                    self.index as int,
                    sdi,
                    self.language,
                    map_of(bcsymbolmap),
                    data.symbol_map_spec().entries_spec(),
                    self.prefer_dwarf_names,
                    inline,
                    function_address,
                ).0);
            }

            let lines = if inline {
                Vec::new()
            } else {
                self.resolve_lines(bcsymbolmap, data.address_offset(), range_buf)
            };

            if inline {
                // An inlined function must always have a parent; its range
                // reads as the call site in the parent's line records.
                if stack.len() == 0 {
                    proof {
                        assert(self.step_of(pre_state, sdie, sdi, *data, map_of(bcsymbolmap)) == Err::<
                            BuildState,
                            DwarfErrorKind,
                        >(DwarfErrorKind::UnexpectedInline));
                        self.lemma_fold_err_of(
                            *data,
                            map_of(bcsymbolmap),
                            unit.dies@,
                            d as int,
                            seen0,
                            DwarfErrorKind::UnexpectedInline,
                        );
                        assert(self.fold_seen_of(*data, map_of(bcsymbolmap), unit.dies@, d as int, seen0)
                            == pre_state.seen);
                        self.lemma_seen_err_of(*data, map_of(bcsymbolmap), unit.dies@, d as int, seen0);
                    }
                    return Err(DwarfError::new(DwarfErrorKind::UnexpectedInline));
                }
                match (call_line, call_file) {
                    (Some(line), Some(file_id)) => {
                        let file = match self.resolve_file(bcsymbolmap, file_id) {
                            Some(f) => f,
                            None => FileInfo::empty(),
                        };
                        let ghost pre_splice = stack@;
                        let mut parent = stack.pop().unwrap();
                        let ghost parent_before = parent;
                        splice_inline_lines(
                            &mut parent.fun.lines,
                            range_buf,
                            data.address_offset(),
                            &file,
                            line,
                        );
                        let ghost pre = stack@;
                        stack.push(parent);
                        proof {
                            assert(fun_skel(parent.fun).inlinees =~= fun_skel(
                                parent_before.fun,
                            ).inlinees);
                            assert(fun_skel(parent.fun) == fun_skel(parent_before.fun));
                            assert(stack_skels(stack@) =~= stack_skels(pre_splice));
                            assert forall|i: int|
                                0 <= i < stack@.len() && !stack@[i].fun.inline implies seen_ranges@
                                .contains(
                                ((#[trigger] stack@[i]).fun.address, stack@[i].fun.size),
                            ) && !seen0.contains((stack@[i].fun.address, stack@[i].fun.size)) by {
                                if i < pre.len() {
                                    assert(stack@[i] == pre[i]);
                                }
                            }
                        }
                    },
                    _ => {},
                }
            }

            let function = Function {
                address: function_address,
                size: function_size,
                name,
                compilation_dir: slice_to_vec(self.compilation_dir()),
                lines,
                inlinees: Vec::new(),
                inline,
            };
            let ghost pre_push = stack@;
            stack.push(StackEntry { depth, fun: function });
            proof {
                assert(fun_skel(function).inlinees =~= Seq::<FunSkel>::empty());
                assert(stack_skels(stack@) =~= stack_skels(pre_push).push(
                    (depth, fun_skel(function)),
                ));
                assert(self.step_of(pre_state, sdie, sdi, *data, map_of(bcsymbolmap)) == Ok::<
                    BuildState,
                    DwarfErrorKind,
                >(
                    (BuildState {
                        stack: stack_skels(stack@),
                        skipped: None,
                        out: st1.out,
                        seen: seen_ranges@,
                    }),
                ));
            }
        }

        // The walk is over: flush everything that is still pending.
        let ghost end_state = BuildState {
            stack: stack_skels(stack@),
            skipped: skipped_depth,
            out: skels(functions@),
            seen: seen_ranges@,
        };
        flush_stack(&mut stack, 0, &mut functions, Ghost(seen_ranges@), Ghost(seen0));
        proof {
            assert(self.build_fold_of(*data, map_of(bcsymbolmap), unit.dies@, unit.dies@.len() as int, seen0) == Ok::<
                BuildState,
                DwarfErrorKind,
            >(end_state));
            assert(skels(functions@) == flush_spec(end_state.stack, 0, end_state.out).1);
            assert(self.build_result_of(*data, map_of(bcsymbolmap), unit.dies@, seen0) == Ok::<
                (Seq<FunSkel>, Set<(u64, u64)>),
                DwarfErrorKind,
            >((flush_spec(end_state.stack, 0, end_state.out).1, end_state.seen)));
            lemma_fold_seen_ok(
                unit.dies@,
                unit.dies@.len() as int,
                data.units_spec(),
                self.index as int,
                self.language,
                map_of(bcsymbolmap),
                data.symbol_map_spec().entries_spec(),
                self.prefer_dwarf_names,
                self.comp_dir@,
                data.kind_spec() == ObjectKind::Relocatable,
                data.address_offset_spec(),
                seen0,
                end_state,
            );
        }
        Ok(functions)
    }

    /// One step of the walk, in this unit's context.
    pub open spec fn step_of(
        &self,
        st: BuildState,
        die: DieData,
        di: int,
        data: DwarfData,
        bc: Option<BcSymbolMap>,
    ) -> Result<BuildState, DwarfErrorKind> {
        build_step(
            st,
            die,
            di,
            data.units_spec(),
            self.index as int,
            self.language,
            bc,
            data.symbol_map_spec().entries_spec(),
            self.prefer_dwarf_names,
            self.comp_dir@,
            data.kind_spec() == ObjectKind::Relocatable,
            data.address_offset_spec(),
        )
    }

    /// Once this unit's walk fails, the reached pairs stay where the
    /// failure left them.
    pub proof fn lemma_seen_err_of(
        &self,
        data: DwarfData,
        bc: Option<BcSymbolMap>,
        dies: Seq<DieData>,
        n: int,
        seen0: Set<(u64, u64)>,
    )
        requires
            0 <= n <= dies.len(),
            self.build_fold_of(data, bc, dies, n, seen0) is Err,
        ensures
            self.build_seen_of(data, bc, dies, seen0) == self.fold_seen_of(
                data,
                bc,
                dies,
                n,
                seen0,
            ),
    {
        lemma_fold_seen_err_persists(
            dies,
            n,
            data.units_spec(),
            self.index as int,
            self.language,
            bc,
            data.symbol_map_spec().entries_spec(),
            self.prefer_dwarf_names,
            self.comp_dir@,
            data.kind_spec() == ObjectKind::Relocatable,
            data.address_offset_spec(),
            seen0,
        );
    }

    /// An error at step `n` of this unit's walk decides the whole walk.
    pub proof fn lemma_fold_err_of(
        &self,
        data: DwarfData,
        bc: Option<BcSymbolMap>,
        dies: Seq<DieData>,
        n: int,
        seen0: Set<(u64, u64)>,
        k: DwarfErrorKind,
    )
        requires
            0 <= n <= dies.len(),
            self.build_fold_of(data, bc, dies, n, seen0) == Err::<BuildState, DwarfErrorKind>(k),
        ensures
            self.build_result_of(data, bc, dies, seen0) == Err::<
                (Seq<FunSkel>, Set<(u64, u64)>),
                DwarfErrorKind,
            >(k),
    {
        lemma_build_fold_err(
            dies,
            n,
            data.units_spec(),
            self.index as int,
            self.language,
            bc,
            data.symbol_map_spec().entries_spec(),
            self.prefer_dwarf_names,
            self.comp_dir@,
            data.kind_spec() == ObjectKind::Relocatable,
            data.address_offset_spec(),
            seen0,
            k,
        );
    }
}

} // verus!
