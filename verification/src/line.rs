//! The line-program index of one compilation unit.
//!
//! The raw line-number state machine of a unit is replayed into a flat list
//! of rows; [`DwarfLineProgram::prepare`] folds that list into sorted
//! sequences with per-row sizes filled in, and [`DwarfLineProgram::get_rows`]
//! answers range queries against them.

use vstd::prelude::*;
use vstd::pervasive::VecAdditionalExecFns;
use vstd::slice::slice_subrange;

use crate::base::AddrRange;
use crate::base::FileInfo;

verus! {

/// One replayed row of the raw line-number state machine.
#[derive(Clone, Copy, Debug, PartialEq, Eq)]
pub struct LineProgramRow {
    /// The instruction address the state machine reached.
    pub address: u64,
    /// The index of the source file in the line-program file table.
    pub file_index: u64,
    /// The source line, absent when the state machine carried none.
    pub line: Option<u64>,
    /// Whether this row ends the current sequence.
    pub end_sequence: bool,
}

/// A prepared row: an address with its file, line, and the number of bytes
/// up to the next row, absent only for the last row of a sequence that was
/// never closed from above.
#[derive(Clone, Copy, Debug, PartialEq, Eq)]
pub struct DwarfRow {
    /// The instruction address.
    pub address: u64,
    /// The index of the source file in the line-program file table.
    pub file_index: u64,
    /// The source line, absent when the raw row carried none.
    pub line: Option<u64>,
    /// The number of bytes this row covers.
    pub size: Option<u64>,
}

/// A maximal run of rows representing contiguous code.
#[derive(Clone, Debug)]
pub struct DwarfSequence {
    /// The address of the first row.
    pub start: u64,
    /// The first address past the sequence.
    pub end: u64,
    /// The rows, strictly ascending by address.
    pub rows: Vec<DwarfRow>,
}

/// The mathematical value of a sequence.
pub struct SequenceModel {
    /// The address of the first row.
    pub start: u64,
    /// The first address past the sequence.
    pub end: u64,
    /// The rows, strictly ascending by address.
    pub rows: Seq<DwarfRow>,
}

impl View for DwarfSequence {
    type V = SequenceModel;

    open spec fn view(&self) -> SequenceModel {
        SequenceModel { start: self.start, end: self.end, rows: self.rows@ }
    }
}

/// Whether the rows are strictly ascending by address.
pub open spec fn rows_strictly_sorted(rows: Seq<DwarfRow>) -> bool {
    forall|i: int, j: int| 0 <= i < j < rows.len() ==> rows[i].address < rows[j].address
}

/// What every closed sequence satisfies: at least one row, rows strictly
/// ascending, the start at the first row, the end not before the last, and
/// every row's size reaching exactly to the next row, the last row staying
/// within the sequence.
pub open spec fn sequence_wf(s: SequenceModel) -> bool {
    &&& s.rows.len() > 0
    &&& rows_strictly_sorted(s.rows)
    &&& s.start == s.rows[0].address
    &&& s.end >= s.rows.last().address
    &&& (forall|i: int|
        0 <= i < s.rows.len() - 1 ==> (#[trigger] s.rows[i]).size == Some(
            (s.rows[i + 1].address - s.rows[i].address) as u64,
        ))
    &&& (s.rows.last().size matches Some(sz) ==> s.rows.last().address + sz <= s.end)
}

/// Whether the sequences are sorted by their start addresses.
pub open spec fn seqs_sorted_by_start(ss: Seq<SequenceModel>) -> bool {
    forall|i: int, j: int| 0 <= i <= j < ss.len() ==> ss[i].start <= ss[j].start
}

/// How many rows have an address below `key`.
pub open spec fn num_rows_below(rows: Seq<DwarfRow>, key: u64) -> int
    decreases rows.len(),
{
    if rows.len() == 0 {
        0
    } else {
        num_rows_below(rows.drop_last(), key) + if rows.last().address < key {
            1int
        } else {
            0int
        }
    }
}

/// `x + 1`, stopping at the top of the address space.
pub open spec fn sat_inc(x: u64) -> u64 {
    if x == u64::MAX {
        u64::MAX
    } else {
        (x + 1) as u64
    }
}

/// The folding state while the replayed rows are prepared: the sequences
/// closed so far, the rows of the currently open sequence, and the address
/// of the last accepted row.
pub struct PrepState {
    /// Sequences closed so far, in order of closing.
    pub seqs: Seq<SequenceModel>,
    /// The rows of the currently open sequence.
    pub rows: Seq<DwarfRow>,
    /// The address of the last row accepted into the open sequence, zero
    /// after a sequence was closed.
    pub prev_address: u64,
}

/// The state before any row was folded.
pub open spec fn prep_init() -> PrepState {
    PrepState { seqs: Seq::empty(), rows: Seq::empty(), prev_address: 0 }
}

/// Folds one replayed row into the preparation state.
///
/// A row at address zero is dropped (it marks code eliminated by the
/// linker). Otherwise the previous row's size is fixed up, an end-of-
/// sequence row closes the open sequence, a row below the previous address
/// is invalid and skipped, a row at the previous address overwrites file and
/// line in place, and any other row is appended.
pub open spec fn prep_step(st: PrepState, row: LineProgramRow) -> PrepState {
    if row.address == 0 {
        st
    } else {
        let rows1 = if st.rows.len() > 0 && row.address >= st.rows.last().address {
            st.rows.update(
                st.rows.len() - 1,
                DwarfRow {
                    size: Some((row.address - st.rows.last().address) as u64),
                    ..st.rows.last()
                },
            )
        } else {
            st.rows
        };
        if row.end_sequence {
            if rows1.len() > 0 {
                PrepState {
                    seqs: st.seqs.push(
                        SequenceModel {
                            start: rows1[0].address,
                            end: if row.address > st.prev_address {
                                row.address
                            } else {
                                sat_inc(st.prev_address)
                            },
                            rows: rows1,
                        },
                    ),
                    rows: Seq::empty(),
                    prev_address: 0,
                }
            } else {
                PrepState { seqs: st.seqs, rows: rows1, prev_address: 0 }
            }
        } else if row.address < st.prev_address {
            PrepState { seqs: st.seqs, rows: rows1, prev_address: st.prev_address }
        } else {
            if rows1.len() > 0 && rows1.last().address == row.address {
                PrepState {
                    seqs: st.seqs,
                    rows: rows1.update(
                        rows1.len() - 1,
                        DwarfRow { file_index: row.file_index, line: row.line, ..rows1.last() },
                    ),
                    prev_address: row.address,
                }
            } else {
                PrepState {
                    seqs: st.seqs,
                    rows: rows1.push(
                        DwarfRow {
                            address: row.address,
                            file_index: row.file_index,
                            line: row.line,
                            size: None,
                        },
                    ),
                    prev_address: row.address,
                }
            }
        }
    }
}

/// Folds all replayed rows, in order.
pub open spec fn prep_fold(input: Seq<LineProgramRow>) -> PrepState
    decreases input.len(),
{
    if input.len() == 0 {
        prep_init()
    } else {
        prep_step(prep_fold(input.drop_last()), input.last())
    }
}

/// The sequences the fold produces, a final unterminated run closed with an
/// end one past its last address.
pub open spec fn prep_final(input: Seq<LineProgramRow>) -> Seq<SequenceModel> {
    let st = prep_fold(input);
    if st.rows.len() > 0 {
        st.seqs.push(
            SequenceModel {
                start: st.rows[0].address,
                end: sat_inc(st.prev_address),
                rows: st.rows,
            },
        )
    } else {
        st.seqs
    }
}

/// What holds of every reachable preparation state.
pub open spec fn prep_state_wf(st: PrepState) -> bool {
    &&& (forall|k: int| 0 <= k < st.seqs.len() ==> sequence_wf(#[trigger] st.seqs[k]))
    &&& rows_strictly_sorted(st.rows)
    &&& (st.rows.len() > 0 ==> st.prev_address == st.rows.last().address)
    &&& (st.rows.len() == 0 ==> st.prev_address == 0)
    &&& (forall|i: int|
        0 <= i < st.rows.len() - 1 ==> (#[trigger] st.rows[i]).size == Some(
            (st.rows[i + 1].address - st.rows[i].address) as u64,
        ))
    &&& (st.rows.len() > 0 ==> (st.rows.last().size is None || st.rows.last().size == Some(0u64)))
}

/// One step of the fold keeps the state well-formed.
proof fn lemma_prep_step_wf(st: PrepState, row: LineProgramRow)
    requires
        prep_state_wf(st),
    ensures
        prep_state_wf(prep_step(st, row)),
{
    let st2 = prep_step(st, row);
    if row.address == 0 {
    } else {
        let rows1 = if st.rows.len() > 0 && row.address >= st.rows.last().address {
            st.rows.update(
                st.rows.len() - 1,
                DwarfRow {
                    size: Some((row.address - st.rows.last().address) as u64),
                    ..st.rows.last()
                },
            )
        } else {
            st.rows
        };
        assert(rows1.len() == st.rows.len());
        assert(forall|i: int| 0 <= i < rows1.len() ==> (#[trigger] rows1[i]).address == st.rows[i].address);
        assert(rows_strictly_sorted(rows1));
        assert(forall|i: int|
            0 <= i < rows1.len() - 1 ==> (#[trigger] rows1[i]).size == Some(
                (rows1[i + 1].address - rows1[i].address) as u64,
            ));
        if row.end_sequence {
            if rows1.len() > 0 {
                let closed = st2.seqs.last();
                assert(closed.rows == rows1);
                if st.rows.len() > 0 && row.address >= st.rows.last().address {
                    assert(rows1.last().size == Some((row.address - st.rows.last().address) as u64));
                    assert(closed.end >= row.address);
                } else {
                    assert(rows1 == st.rows);
                }
                assert(sequence_wf(closed));
                assert(forall|k: int|
                    0 <= k < st.seqs.len() ==> #[trigger] st2.seqs[k] == st.seqs[k]);
            }
        } else if row.address < st.prev_address {
            assert(rows1 == st.rows);
        } else {
            if rows1.len() > 0 && rows1.last().address == row.address {
                assert(st.prev_address == st.rows.last().address);
                assert(rows1.last().size == Some(0u64));
                assert(forall|i: int|
                    0 <= i < st2.rows.len() ==> (#[trigger] st2.rows[i]).address == rows1[i].address);
                assert(forall|i: int|
                    0 <= i < st2.rows.len() - 1 ==> #[trigger] st2.rows[i] == rows1[i]);
            } else {
                if st.rows.len() > 0 {
                    assert(row.address >= st.prev_address);
                    assert(row.address > st.rows.last().address || row.address == st.rows.last().address);
                    assert(row.address != st.rows.last().address);
                }
                assert(forall|i: int|
                    0 <= i < rows1.len() ==> #[trigger] st2.rows[i] == rows1[i]);
            }
        }
    }
}

/// Every state the fold reaches is well-formed.
pub proof fn lemma_prep_fold_wf(input: Seq<LineProgramRow>)
    ensures
        prep_state_wf(prep_fold(input)),
    decreases input.len(),
{
    if input.len() > 0 {
        lemma_prep_fold_wf(input.drop_last());
        lemma_prep_step_wf(prep_fold(input.drop_last()), input.last());
    }
}

/// Every sequence the preparation emits is well-formed.
pub proof fn lemma_prep_final_wf(input: Seq<LineProgramRow>)
    ensures
        forall|k: int| 0 <= k < prep_final(input).len() ==> sequence_wf(
            #[trigger] prep_final(input)[k],
        ),
{
    lemma_prep_fold_wf(input);
    let st = prep_fold(input);
    let fin = prep_final(input);
    assert forall|k: int| 0 <= k < fin.len() implies sequence_wf(#[trigger] fin[k]) by {
        if k < st.seqs.len() {
            assert(sequence_wf(st.seqs[k]));
        }
    }
}

/// A line program with no end-of-sequence marker: the last run is closed one
/// byte past its last row, so that row covers exactly one byte.
pub proof fn lemma_unterminated_sequence_size(input: Seq<LineProgramRow>)
    requires
        prep_fold(input).rows.len() > 0,
        prep_fold(input).prev_address < u64::MAX,
    ensures
        prep_final(input).len() > 0,
        prep_final(input).last().end - prep_final(input).last().rows.last().address == 1,
{
    lemma_prep_fold_wf(input);
}

/// Feeding a row at the address of the previous row overwrites the previous
/// row's file and line in place: only the last pair survives, and no row is
/// added.
pub proof fn lemma_duplicate_row_overwrites(st: PrepState, row: LineProgramRow)
    requires
        prep_state_wf(st),
        st.rows.len() > 0,
        row.address == st.rows.last().address,
        row.address != 0,
        !row.end_sequence,
    ensures
        prep_step(st, row).rows.len() == st.rows.len(),
        prep_step(st, row).rows.last().address == row.address,
        prep_step(st, row).rows.last().file_index == row.file_index,
        prep_step(st, row).rows.last().line == row.line,
        forall|k: int| 0 <= k < st.rows.len() - 1 ==> prep_step(st, row).rows[k] == st.rows[k],
{
}

/// Converts the concrete sequences into their models.
pub open spec fn seq_views(ss: Seq<DwarfSequence>) -> Seq<SequenceModel> {
    ss.map_values(|s: DwarfSequence| s@)
}

/// What a range query returns: the first sequence overlapping the queried
/// range contributes the run of rows from the one covering the query's begin
/// through the last row before the query's end. A sequence whose rows all
/// lie above the query's begin is skipped.
pub open spec fn get_rows_spec(ss: Seq<SequenceModel>, range: AddrRange) -> Seq<DwarfRow>
    decreases ss.len(),
{
    if ss.len() == 0 {
        Seq::empty()
    } else {
        let s = ss[0];
        if s.end <= range.begin || s.start > range.end {
            get_rows_spec(ss.drop_first(), range)
        } else {
            let nb = num_rows_below(s.rows, range.begin);
            let hit = nb < s.rows.len() && s.rows[nb].address == range.begin;
            if hit || nb > 0 {
                let from = if hit {
                    nb
                } else {
                    nb - 1
                };
                let len = num_rows_below(s.rows.skip(from), range.end);
                s.rows.subrange(from, from + len)
            } else {
                get_rows_spec(ss.drop_first(), range)
            }
        }
    }
}

/// In strictly sorted rows, the rows counted below a key are exactly those
/// before the insertion point, and the count is within bounds.
proof fn lemma_sorted_num_below(rows: Seq<DwarfRow>, key: u64)
    requires
        rows_strictly_sorted(rows),
    ensures
        0 <= num_rows_below(rows, key) <= rows.len(),
        forall|i: int|
            0 <= i < rows.len() ==> ((#[trigger] rows[i].address) < key <==> i < num_rows_below(
                rows,
                key,
            )),
    decreases rows.len(),
{
    if rows.len() > 0 {
        assert(rows_strictly_sorted(rows.drop_last()));
        lemma_sorted_num_below(rows.drop_last(), key);
        let nb = num_rows_below(rows.drop_last(), key);
        if rows.last().address < key {
            assert forall|i: int| 0 <= i < rows.len() - 1 implies rows[i].address < key by {
                assert(rows[i].address < rows.last().address);
            }
            assert forall|i: int| 0 <= i < rows.len() - 1 implies rows.drop_last()[i].address
                < key by {
                assert(rows.drop_last()[i] == rows[i]);
            }
            assert(nb == rows.len() - 1);
        }
        assert forall|i: int|
            0 <= i < rows.len() implies ((#[trigger] rows[i].address) < key <==> i
            < num_rows_below(rows, key)) by {
            if i < rows.len() - 1 {
                assert(rows.drop_last()[i] == rows[i]);
            }
        }
    }
}

/// The rows a range query returns are strictly sorted; all their addresses
/// lie below the query's end, and all but the first lie above its begin.
proof fn lemma_get_rows_in_range(ss: Seq<SequenceModel>, range: AddrRange)
    requires
        forall|k: int| 0 <= k < ss.len() ==> sequence_wf(#[trigger] ss[k]),
    ensures
        rows_strictly_sorted(get_rows_spec(ss, range)),
        forall|i: int|
            1 <= i < get_rows_spec(ss, range).len() ==> (#[trigger] get_rows_spec(ss, range)[
                i].address) > range.begin,
        forall|i: int|
            0 <= i < get_rows_spec(ss, range).len() ==> (#[trigger] get_rows_spec(ss, range)[
                i].address) < range.end,
        forall|i: int|
            0 <= i < get_rows_spec(ss, range).len() - 1 ==> (#[trigger] get_rows_spec(ss, range)[
                i]).size == Some(
                (get_rows_spec(ss, range)[i + 1].address - get_rows_spec(ss, range)[
                    i].address) as u64,
            ),
    decreases ss.len(),
{
    if ss.len() == 0 {
    } else {
        let s = ss[0];
        assert(sequence_wf(s));
        assert(forall|k: int|
            0 <= k < ss.drop_first().len() ==> sequence_wf(#[trigger] ss.drop_first()[k]));
        if s.end <= range.begin || s.start > range.end {
            lemma_get_rows_in_range(ss.drop_first(), range);
        } else {
            let nb = num_rows_below(s.rows, range.begin);
            lemma_sorted_num_below(s.rows, range.begin);
            let hit = nb < s.rows.len() && s.rows[nb].address == range.begin;
            if hit || nb > 0 {
                let from = if hit {
                    nb
                } else {
                    nb - 1
                };
                let tail = s.rows.skip(from);
                assert(rows_strictly_sorted(tail));
                lemma_sorted_num_below(tail, range.end);
                let len = num_rows_below(tail, range.end);
                let r = s.rows.subrange(from, from + len);
                assert(rows_strictly_sorted(r));
                assert forall|i: int| 0 <= i < r.len() implies (#[trigger] r[i].address)
                    < range.end by {
                    assert(r[i] == tail[i]);
                }
                assert forall|i: int|
                    0 <= i < r.len() - 1 implies (#[trigger] r[i]).size == Some(
                    (r[i + 1].address - r[i].address) as u64,
                ) by {
                    assert(r[i] == s.rows[from + i]);
                    assert(r[i + 1] == s.rows[from + i + 1]);
                    assert(from + i < s.rows.len() - 1);
                }
                assert forall|i: int| 1 <= i < r.len() implies (#[trigger] r[i].address)
                    > range.begin by {
                    let idx = from + i;
                    assert(r[i] == s.rows[idx]);
                    if hit {
                        assert(s.rows[nb].address < s.rows[idx].address);
                    } else {
                        assert(idx >= nb);
                        assert(!(s.rows[idx].address < range.begin));
                        if s.rows[idx].address == range.begin {
                            if idx > nb {
                                assert(!(s.rows[nb].address < range.begin));
                                assert(s.rows[nb].address < s.rows[idx].address);
                                assert(false);
                            } else {
                                assert(!hit);
                                assert(false);
                            }
                        }
                    }
                }
            } else {
                lemma_get_rows_in_range(ss.drop_first(), range);
            }
        }
    }
}

/// How many rows below a partition index are smaller than `key`.
proof fn lemma_num_rows_below_split(rows: Seq<DwarfRow>, key: u64, k: int)
    requires
        0 <= k <= rows.len(),
        forall|j: int| 0 <= j < k ==> rows[j].address < key,
        forall|j: int| k <= j < rows.len() ==> rows[j].address >= key,
    ensures
        num_rows_below(rows, key) == k,
    decreases rows.len(),
{
    if rows.len() == 0 {
    } else if k == rows.len() {
        lemma_num_rows_below_split(rows.drop_last(), key, k - 1);
    } else {
        lemma_num_rows_below_split(rows.drop_last(), key, k);
    }
}

/// Finds the row at `key` in strictly sorted rows: the exact index on a
/// hit, the insertion point on a miss.
fn search_rows(rows: &Vec<DwarfRow>, key: u64) -> (r: Result<usize, usize>)
    requires
        rows_strictly_sorted(rows@),
    ensures
        match r {
            Ok(i) => i < rows@.len() && rows@[i as int].address == key && i == num_rows_below(
                rows@,
                key,
            ),
            Err(i) => i <= rows@.len() && i == num_rows_below(rows@, key) && (forall|j: int|
                0 <= j < rows@.len() ==> rows@[j].address != key),
        },
{
    let mut lo: usize = 0;
    let mut hi: usize = rows.len();
    while lo < hi
        invariant
            lo <= hi <= rows@.len(),
            rows_strictly_sorted(rows@),
            forall|j: int| 0 <= j < lo ==> rows@[j].address < key,
            forall|j: int| hi <= j < rows@.len() ==> rows@[j].address > key,
        decreases hi - lo,
    {
        let mid = lo + (hi - lo) / 2;
        if rows[mid].address < key {
            lo = mid + 1;
        } else if rows[mid].address > key {
            hi = mid;
        } else {
            proof {
                lemma_num_rows_below_split(rows@, key, mid as int);
            }
            return Ok(mid);
        }
    }
    proof {
        lemma_num_rows_below_split(rows@, key, lo as int);
    }
    Err(lo)
}

/// The insertion point for `key` in the strictly sorted tail starting at
/// `from`.
fn search_rows_tail(rows: &Vec<DwarfRow>, from: usize, key: u64) -> (r: usize)
    requires
        rows_strictly_sorted(rows@),
        from <= rows@.len(),
    ensures
        r <= rows@.len() - from,
        r == num_rows_below(rows@.skip(from as int), key),
{
    let mut lo: usize = from;
    let mut hi: usize = rows.len();
    while lo < hi
        invariant
            from <= lo <= hi <= rows@.len(),
            rows_strictly_sorted(rows@),
            forall|j: int| from <= j < lo ==> rows@[j].address < key,
            forall|j: int| hi <= j < rows@.len() ==> rows@[j].address >= key,
        decreases hi - lo,
    {
        let mid = lo + (hi - lo) / 2;
        if rows[mid].address < key {
            lo = mid + 1;
        } else {
            hi = mid;
        }
    }
    proof {
        let tail = rows@.skip(from as int);
        lemma_num_rows_below_split(tail, key, lo - from);
    }
    lo - from
}

/// Relies on `dmsort::sort_by_key`: reorders the vector into one sorted by
/// the start address; the multiset of sequences is unchanged.
#[verifier::external_body]
fn sort_sequences_by_start(v: &mut Vec<DwarfSequence>)
    ensures
        seq_views(final (v)@).to_multiset() == seq_views(old(v)@).to_multiset(),
        forall|i: int, j: int| 0 <= i <= j < final (v)@.len() ==> final (v)@[i].start <= final (v)@[j].start,
{
    dmsort::sort_by_key(v.as_mut_slice(), |x| x.start);
}

/// A prepared line program: the file table of the unit's line-program
/// header, and the sequences of rows, sorted by start address.
#[derive(Debug)]
pub struct DwarfLineProgram {
    files: Vec<FileInfo>,
    sequences: Vec<DwarfSequence>,
}

impl DwarfLineProgram {
    /// The file table, indexed by the file indices the rows carry.
    pub closed spec fn files_spec(&self) -> Seq<FileInfo> {
        self.files@
    }

    /// The models of the prepared sequences.
    pub closed spec fn sequences_spec(&self) -> Seq<SequenceModel> {
        seq_views(self.sequences@)
    }

    #[verifier::type_invariant]
    closed spec fn wf(self) -> bool {
        forall|k: int| 0 <= k < self.sequences@.len() ==> sequence_wf(
            #[trigger] self.sequences@[k]@,
        )
    }

    /// Replays the rows of one unit's line program into sorted sequences
    /// with per-row sizes filled in.
    pub fn prepare(input: &Vec<LineProgramRow>, files: Vec<FileInfo>) -> (r: DwarfLineProgram)
        ensures
            r.files_spec() == files@,
            r.sequences_spec().to_multiset() == prep_final(input@).to_multiset(),
            seqs_sorted_by_start(r.sequences_spec()),
            forall|k: int| 0 <= k < r.sequences_spec().len() ==> sequence_wf(
                #[trigger] r.sequences_spec()[k],
            ),
    {
        let mut sequences: Vec<DwarfSequence> = Vec::new();
        let mut sequence_rows: Vec<DwarfRow> = Vec::new();
        let mut prev_address: u64 = 0;
        let mut i: usize = 0;
        while i < input.len()
            invariant
                i <= input@.len(),
                seq_views(sequences@) == prep_fold(input@.take(i as int)).seqs,
                sequence_rows@ == prep_fold(input@.take(i as int)).rows,
                prev_address == prep_fold(input@.take(i as int)).prev_address,
            decreases input@.len() - i,
        {
            proof {
                assert(input@.take(i + 1).drop_last() =~= input@.take(i as int));
                assert(input@.take(i + 1).last() == input@[i as int]);
                lemma_prep_fold_wf(input@.take(i as int));
            }
            let ghost st = prep_fold(input@.take(i as int));
            let ghost st2 = prep_step(st, input@[i as int]);
            let row = input[i];
            i = i + 1;
            if row.address == 0 {
                continue ;
            }
            if sequence_rows.len() > 0 {
                let n = sequence_rows.len();
                let last = sequence_rows[n - 1];
                if row.address >= last.address {
                    let mut updated = last;
                    updated.size = Some(row.address - last.address);
                    sequence_rows.set(n - 1, updated);
                }
            }
            if row.end_sequence {
                if sequence_rows.len() > 0 {
                    let end = if row.address > prev_address {
                        row.address
                    } else {
                        if prev_address == u64::MAX {
                            u64::MAX
                        } else {
                            prev_address + 1
                        }
                    };
                    let start = sequence_rows[0].address;
                    let closed_rows = sequence_rows;
                    sequence_rows = Vec::new();
                    sequences.push(DwarfSequence { start, end, rows: closed_rows });
                    proof {
                        assert(seq_views(sequences@) =~= st2.seqs);
                    }
                }
                prev_address = 0;
            } else if row.address < prev_address {
            } else {
                let mut duplicate = false;
                if sequence_rows.len() > 0 {
                    let n = sequence_rows.len();
                    let last = sequence_rows[n - 1];
                    if last.address == row.address {
                        let mut updated = last;
                        updated.file_index = row.file_index;
                        updated.line = row.line;
                        sequence_rows.set(n - 1, updated);
                        duplicate = true;
                    }
                }
                if !duplicate {
                    sequence_rows.push(
                        DwarfRow {
                            address: row.address,
                            file_index: row.file_index,
                            line: row.line,
                            size: None,
                        },
                    );
                }
                prev_address = row.address;
            }
        }
        proof {
            assert(input@.take(input@.len() as int) =~= input@);
        }
        if sequence_rows.len() > 0 {
            let start = sequence_rows[0].address;
            let end = if prev_address == u64::MAX {
                u64::MAX
            } else {
                prev_address + 1
            };
            sequences.push(DwarfSequence { start, end, rows: sequence_rows });
            proof {
                assert(seq_views(sequences@) =~= prep_final(input@));
            }
        } else {
            proof {
                assert(seq_views(sequences@) =~= prep_final(input@));
            }
        }
        let ghost pre_sort = sequences@;
        proof {
            lemma_prep_final_wf(input@);
        }
        sort_sequences_by_start(&mut sequences);
        proof {
            seq_views(pre_sort).to_multiset_ensures();
            seq_views(sequences@).to_multiset_ensures();
            assert forall|k: int| 0 <= k < sequences@.len() implies sequence_wf(
                #[trigger] sequences@[k]@,
            ) by {
                let x = sequences@[k]@;
                assert(seq_views(sequences@)[k] == x);
                assert(seq_views(sequences@).contains(x));
                assert(seq_views(pre_sort).to_multiset().count(x) > 0);
                assert(seq_views(pre_sort).contains(x));
                let j = choose|j: int| 0 <= j < seq_views(pre_sort).len() && seq_views(
                    pre_sort,
                )[j] == x;
                assert(prep_final(input@)[j] == x);
            }
            assert forall|i: int, j: int|
                0 <= i <= j < seq_views(sequences@).len() implies seq_views(sequences@)[i].start
                <= seq_views(sequences@)[j].start by {
                assert(seq_views(sequences@)[i] == sequences@[i]@);
                assert(seq_views(sequences@)[j] == sequences@[j]@);
            }
        }
        DwarfLineProgram { files: files, sequences }
    }

    /// Returns the rows covering the queried range: from the row covering
    /// the query's begin through the last row starting before its end, out
    /// of the first sequence overlapping the range.
    pub fn get_rows<'a>(&'a self, range: &AddrRange) -> (r: &'a [DwarfRow])
        ensures
            r@ == get_rows_spec(self.sequences_spec(), *range),
            rows_strictly_sorted(r@),
            forall|i: int| 1 <= i < r@.len() ==> (#[trigger] r@[i].address) > range.begin,
            forall|i: int| 0 <= i < r@.len() ==> (#[trigger] r@[i].address) < range.end,
            forall|i: int|
                0 <= i < r@.len() - 1 ==> (#[trigger] r@[i]).size == Some(
                    (r@[i + 1].address - r@[i].address) as u64,
                ),
    {
        proof {
            use_type_invariant(self);
            assert(self.sequences_spec().skip(0) =~= self.sequences_spec());
            lemma_get_rows_in_range(self.sequences_spec(), *range);
        }
        let mut k: usize = 0;
        while k < self.sequences.len()
            invariant
                k <= self.sequences@.len(),
                forall|j: int| 0 <= j < self.sequences@.len() ==> sequence_wf(
                    #[trigger] self.sequences@[j]@,
                ),
                get_rows_spec(self.sequences_spec(), *range) == get_rows_spec(
                    self.sequences_spec().skip(k as int),
                    *range,
                ),
            decreases self.sequences@.len() - k,
        {
            proof {
                assert(self.sequences_spec().skip(k as int).drop_first() =~= self.sequences_spec()
                    .skip(k + 1));
                assert(self.sequences_spec().skip(k as int)[0] == self.sequences@[k as int]@);
            }
            let seq = &self.sequences[k];
            if seq.end <= range.begin || seq.start > range.end {
                k = k + 1;
                continue ;
            }
            let from_result = search_rows(&seq.rows, range.begin);
            let from = match from_result {
                Ok(idx) => idx,
                Err(0) => {
                    k = k + 1;
                    continue ;
                },
                Err(next_idx) => next_idx - 1,
            };
            let len = search_rows_tail(&seq.rows, from, range.end);
            let n = seq.rows.len();
            assert(from + len <= n);
            let out = slice_subrange(seq.rows.as_slice(), from, from + len);
            proof {
                assert(out@ =~= get_rows_spec(self.sequences_spec().skip(k as int), *range));
                assert forall|j: int|
                    0 <= j < self.sequences_spec().len() implies sequence_wf(
                    #[trigger] self.sequences_spec()[j],
                ) by {
                    assert(self.sequences_spec()[j] == self.sequences@[j]@);
                }
                lemma_get_rows_in_range(self.sequences_spec(), *range);
            }
            return out;
        }
        proof {
            assert(self.sequences_spec().skip(self.sequences@.len() as int) =~= Seq::<
                SequenceModel,
            >::empty());
        }
        empty_rows()
    }

    /// The number of entries in the file table.
    pub fn file_count(&self) -> (r: usize)
        ensures
            r == self.files_spec().len(),
    {
        self.files.len()
    }

    /// Resolves a file entry of the line-program file table by its index.
    pub fn file(&self, file_id: u64) -> (r: Option<&FileInfo>)
        ensures
            file_id < self.files_spec().len() ==> (r matches Some(f) && *f
                == self.files_spec()[file_id as int]),
            file_id >= self.files_spec().len() ==> r is None,
    {
        if file_id < self.files.len() as u64 {
            Some(&self.files[file_id as usize])
        } else {
            None
        }
    }
}

/// An empty slice of rows.
fn empty_rows<'a>() -> (r: &'a [DwarfRow])
    ensures
        r@.len() == 0,
{
    let v: &[DwarfRow] = &[];
    v
}

} // verus!
