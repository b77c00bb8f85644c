//! The debug session: lazy iterators over the functions and source files
//! of the parsed debugging information.

use vstd::prelude::*;
use vstd::slice::slice_to_vec;

use crate::base::AddrRange;
use crate::base::FileEntry;
use crate::base::Function;
use crate::base::ObjectKind;
use crate::builder::build_fold_seen;
use crate::builder::build_result;
use crate::builder::fun_skel;
use crate::builder::skels;
use crate::builder::FunSkel;
use crate::builder::SeenRanges;
use crate::die::AttrName;
use crate::error::DwarfError;
use crate::error::DwarfErrorKind;
use crate::names::map_of;
use crate::names::resolved_bytes;
use crate::names::BcSymbolMap;
use crate::resolve::first_attr_index;
use crate::resolve::prefer_dwarf_names_spec;
use crate::resolve::unit_language_spec;
use crate::resolve::DwarfUnit;
use crate::unit::DwarfData;
use crate::unit::UnitData;
use crate::unit::UnitSlot;

verus! {

/// One item of a session's function emission: a reconstructed function's
/// skeleton, or the error a unit failed with.
pub enum EmitItem {
    /// A reconstructed function.
    Fun(FunSkel),
    /// A unit whose data could not be read.
    Failed(DwarfErrorKind),
}

/// The skeletons of emitted functions, as emission items.
pub open spec fn fun_items(fs: Seq<FunSkel>) -> Seq<EmitItem> {
    fs.map_values(|f: FunSkel| EmitItem::Fun(f))
}

/// What one unit contributes to the emission, and the recorded pairs it
/// leaves behind: an error item for a unit that failed to parse or that
/// lacks a top-level entry, nothing for an empty or eliminated unit, and
/// the walked functions otherwise.
pub open spec fn unit_emission(
    data: DwarfData,
    bc: Option<BcSymbolMap>,
    i: int,
    seen: Set<(u64, u64)>,
) -> (Seq<EmitItem>, Set<(u64, u64)>) {
    match data.units_spec()[i] {
        UnitSlot::Corrupt(_) => (seq![EmitItem::Failed(DwarfErrorKind::CorruptedData)], seen),
        UnitSlot::Empty(_) => (Seq::empty(), seen),
        UnitSlot::Present(u) => {
            if u.dies@.len() == 0 {
                (seq![EmitItem::Failed(DwarfErrorKind::CorruptedData)], seen)
            } else {
                let top_attrs = u.dies@[0].attrs@;
                let skip = data.kind_spec() != ObjectKind::Relocatable && u.low_pc == 0
                    && first_attr_index(top_attrs, AttrName::Ranges) is None;
                if skip {
                    (Seq::empty(), seen)
                } else {
                    let language = unit_language_spec(top_attrs);
                    let prefer = prefer_dwarf_names_spec(top_attrs);
                    let comp_dir = match u.comp_dir {
                        Some(d) => resolved_bytes(bc, d@),
                        None => Seq::<u8>::empty(),
                    };
                    let reloc = data.kind_spec() == ObjectKind::Relocatable;
                    match build_result(
                        u.dies@,
                        data.units_spec(),
                        i,
                        language,
                        bc,
                        data.symbol_map_spec().entries_spec(),
                        prefer,
                        comp_dir,
                        reloc,
                        data.address_offset_spec(),
                        seen,
                    ) {
                        Ok(t) => (fun_items(t.0), t.1),
                        Err(k) => (
                            seq![EmitItem::Failed(k)],
                            build_fold_seen(
                                u.dies@,
                                u.dies@.len() as int,
                                data.units_spec(),
                                i,
                                language,
                                bc,
                                data.symbol_map_spec().entries_spec(),
                                prefer,
                                comp_dir,
                                reloc,
                                data.address_offset_spec(),
                                seen,
                            ),
                        ),
                    }
                }
            }
        },
    }
}

/// The emission of the units from `i` on, threading the recorded pairs
/// from unit to unit.
pub open spec fn emission_from(
    data: DwarfData,
    bc: Option<BcSymbolMap>,
    i: int,
    seen: Set<(u64, u64)>,
) -> Seq<EmitItem>
    decreases data.units_spec().len() - i,
{
    if !(0 <= i < data.units_spec().len()) {
        Seq::empty()
    } else {
        let ue = unit_emission(data, bc, i, seen);
        ue.0 + emission_from(data, bc, i + 1, ue.1)
    }
}

/// Everything a session's function iterator emits, in order.
pub open spec fn session_emission(s: DwarfDebugSession) -> Seq<EmitItem> {
    emission_from(s.data_spec(), s.bcsymbolmap_spec(), 0, Set::empty())
}

/// A debugging session over parsed DWARF data.
#[derive(Debug)]
pub struct DwarfDebugSession {
    data: DwarfData,
    bcsymbolmap: Option<BcSymbolMap>,
}

impl DwarfDebugSession {
    /// The parsed debugging information.
    pub closed spec fn data_spec(&self) -> DwarfData {
        self.data
    }

    /// The loaded bitcode symbol map.
    pub closed spec fn bcsymbolmap_spec(&self) -> Option<BcSymbolMap> {
        self.bcsymbolmap
    }

    /// Creates a session over parsed debugging information.
    pub fn new(data: DwarfData) -> (r: DwarfDebugSession)
        ensures
            r.data_spec() == data,
    {
        DwarfDebugSession { data, bcsymbolmap: None }
    }

    /// Loads a bitcode symbol map into this session: file and function
    /// names yielded from now on are passed through it.
    pub fn load_symbolmap(&mut self, symbolmap: Option<BcSymbolMap>)
        ensures
            final (self).data_spec() == old(self).data_spec(),
    {
        self.bcsymbolmap = symbolmap;
    }

    /// Returns an iterator over all source files of this session.
    pub fn files<'s>(&'s self) -> (r: DwarfFileIterator<'s>)
        ensures
            r.session_spec() == *self,
            r.emitted_spec() == Seq::<FileItem>::empty(),
            r.files_wf(),
    {
        let r = DwarfFileIterator {
            units: DwarfUnitIterator { session: self, index: 0 },
            files: DwarfUnitFileIterator { unit: None, index: 0 },
            finished: false,
            emitted: Ghost(Seq::empty()),
        };
        proof {
            assert(r.emitted@ + sub_items(r.files.unit, 0, self.bcsymbolmap_spec()) + files_from(
                self.data_spec(),
                self.bcsymbolmap_spec(),
                0,
            ) =~= files_from(self.data_spec(), self.bcsymbolmap_spec(), 0));
        }
        r
    }

    /// Returns an iterator over all functions of this session, in unit
    /// order, depth-first within a unit.
    pub fn functions<'s>(&'s self) -> (r: DwarfFunctionIterator<'s>)
        ensures
            r.session_spec() == *self,
            r.yielded_spec() == Seq::<Function>::empty(),
            r.emitted_spec() == Seq::<EmitItem>::empty(),
            r.wf(),
            r.stream_wf(),
    {
        let r = DwarfFunctionIterator {
            units: DwarfUnitIterator { session: self, index: 0 },
            buffer: Vec::new(),
            range_buf: Vec::new(),
            seen_ranges: SeenRanges::new(),
            finished: false,
            yielded: Ghost(Seq::empty()),
            emitted: Ghost(Seq::empty()),
        };
        proof {
            assert(r.pending() =~= Seq::<Function>::empty());
            assert(skels(r.buffer@) =~= Seq::<FunSkel>::empty());
            assert(fun_items(Seq::<FunSkel>::empty()) =~= Seq::<EmitItem>::empty());
            assert(r.emitted@ + fun_items(skels(r.buffer@)) + stream_of(*self, 0, r.seen_ranges@)
                =~= stream_of(*self, 0, Set::<(u64, u64)>::empty()));
        }
        r
    }

    /// Looks up a file's source contents by its full canonicalized path.
    /// This session holds no source content: the result is always empty.
    pub fn source_by_path(&self, path: &str) -> (r: Result<Option<String>, DwarfError>)
        ensures
            r matches Ok(o) && o is None,
    {
        let _ = path;
        Ok(None)
    }
}

/// An iterator over the parsed compilation units of a session.
struct DwarfUnitIterator<'s> {
    session: &'s DwarfDebugSession,
    index: usize,
}

/// The value of a file entry: its plain byte fields.
pub struct FileEntryModel {
    /// The compilation directory of the owning unit.
    pub comp_dir: Seq<u8>,
    /// The directory fragment.
    pub dir: Seq<u8>,
    /// The name fragment.
    pub name: Seq<u8>,
}

/// One item of a session's file enumeration: a file entry, or the error a
/// unit failed with.
pub enum FileItem {
    /// A file entry of a unit's line program.
    Entry(FileEntryModel),
    /// A unit whose data could not be read.
    Failed(DwarfErrorKind),
}

/// The value of a concrete file entry.
pub open spec fn file_entry_model(e: FileEntry) -> FileEntryModel {
    FileEntryModel { comp_dir: e.compilation_dir@, dir: e.info.dir@, name: e.info.name@ }
}

/// The file entries one unit contributes: its line program's file table in
/// index order, each carrying the unit's compilation directory, names
/// passed through the bitcode symbol map.
pub open spec fn unit_file_items(data: DwarfData, bc: Option<BcSymbolMap>, i: int) -> Seq<
    FileItem,
> {
    match data.units_spec()[i] {
        UnitSlot::Corrupt(_) => seq![FileItem::Failed(DwarfErrorKind::CorruptedData)],
        UnitSlot::Empty(_) => Seq::empty(),
        UnitSlot::Present(u) => {
            if u.dies@.len() == 0 {
                seq![FileItem::Failed(DwarfErrorKind::CorruptedData)]
            } else {
                let top_attrs = u.dies@[0].attrs@;
                let skip = data.kind_spec() != ObjectKind::Relocatable && u.low_pc == 0
                    && first_attr_index(top_attrs, AttrName::Ranges) is None;
                if skip {
                    Seq::empty()
                } else {
                    let comp_dir = match u.comp_dir {
                        Some(d) => resolved_bytes(bc, d@),
                        None => Seq::<u8>::empty(),
                    };
                    match u.line_program {
                        None => Seq::empty(),
                        Some(p) => Seq::new(
                            p.files@.len(),
                            |k: int|
                                FileItem::Entry(
                                    FileEntryModel {
                                        comp_dir: comp_dir,
                                        dir: resolved_bytes(bc, p.files@[k].dir@),
                                        name: resolved_bytes(bc, p.files@[k].name@),
                                    },
                                ),
                        ),
                    }
                }
            }
        },
    }
}

/// The file enumeration of the units from `i` on.
pub open spec fn files_from(data: DwarfData, bc: Option<BcSymbolMap>, i: int) -> Seq<FileItem>
    decreases data.units_spec().len() - i,
{
    if !(0 <= i < data.units_spec().len()) {
        Seq::empty()
    } else {
        unit_file_items(data, bc, i) + files_from(data, bc, i + 1)
    }
}

/// Every file entry a session's file iterator yields, in order.
pub open spec fn session_files(s: DwarfDebugSession) -> Seq<FileItem> {
    files_from(s.data_spec(), s.bcsymbolmap_spec(), 0)
}

/// The emission of a session's units from `i` on, under `seen` recorded
/// pairs.
pub open spec fn stream_of(s: DwarfDebugSession, i: int, seen: Set<(u64, u64)>) -> Seq<
    EmitItem,
> {
    emission_from(s.data_spec(), s.bcsymbolmap_spec(), i, seen)
}

impl<'s> DwarfUnitIterator<'s> {

    /// Yields the next unit that parsed and was not eliminated, prepared
    /// for the function builder, together with its raw data. Skipped units
    /// contribute nothing to the emission; a failing unit contributes one
    /// error item; a yielded unit contributes its own emission.
    fn next(&mut self) -> (r: Option<Result<(DwarfUnit, &'s UnitData), DwarfError>>)
        ensures
            final (self).session == old(self).session,
            final (self).index >= old(self).index,
            r is Some ==> final (self).index > old(self).index,
            r is Some ==> old(self).index < old(self).session.data.units_spec().len() && final (
            self).index <= old(self).session.data.units_spec().len(),
            r is None ==> (forall|seen: Set<(u64, u64)>|
                (#[trigger] stream_of(*old(self).session, old(self).index as int, seen)) == Seq::<
                    EmitItem,
                >::empty()),
            r is None ==> files_from(
                old(self).session.data_spec(),
                old(self).session.bcsymbolmap_spec(),
                old(self).index as int,
            ) == Seq::<FileItem>::empty(),
            r matches Some(Err(e)) ==> files_from(
                old(self).session.data_spec(),
                old(self).session.bcsymbolmap_spec(),
                old(self).index as int,
            ) == seq![FileItem::Failed(e@)] + files_from(
                old(self).session.data_spec(),
                old(self).session.bcsymbolmap_spec(),
                final (self).index as int,
            ),
            r matches Some(Ok(p)) ==> files_from(
                old(self).session.data_spec(),
                old(self).session.bcsymbolmap_spec(),
                old(self).index as int,
            ) == unit_file_items(
                old(self).session.data_spec(),
                old(self).session.bcsymbolmap_spec(),
                final (self).index - 1,
            ) + files_from(
                old(self).session.data_spec(),
                old(self).session.bcsymbolmap_spec(),
                final (self).index as int,
            ),
            r matches Some(Err(e)) ==> (forall|seen: Set<(u64, u64)>|
                (#[trigger] stream_of(*old(self).session, old(self).index as int, seen)) == seq![
                    EmitItem::Failed(e@),
                ] + stream_of(*old(self).session, final (self).index as int, seen)),
            r matches Some(Ok(p)) ==> ({
                let fi = final (self).index as int;
                &&& old(self).session.data_spec().units_spec()[fi - 1] == UnitSlot::Present(*(p.1))
                &&& p.1.dies@.len() > 0
                &&& p.0.index == fi - 1
                &&& p.0.language == unit_language_spec(p.1.dies@[0].attrs@)
                &&& p.0.prefer_dwarf_names == prefer_dwarf_names_spec(p.1.dies@[0].attrs@)
                &&& p.0.comp_dir@ == (match p.1.comp_dir {
                    Some(d) => resolved_bytes(old(self).session.bcsymbolmap_spec(), d@),
                    None => Seq::<u8>::empty(),
                })
                &&& !(old(self).session.data_spec().kind_spec() != ObjectKind::Relocatable
                    && p.1.low_pc == 0 && first_attr_index(
                    p.1.dies@[0].attrs@,
                    AttrName::Ranges,
                ) is None)
                &&& (p.0.line_program is Some <==> p.1.line_program is Some)
                &&& (p.1.line_program matches Some(raw) ==> p.0.line_program matches Some(lp)
                    && lp.files_spec().len() == raw.files@.len() && (forall|k: int|
                    0 <= k < raw.files@.len() ==> (#[trigger] lp.files_spec()[k]).dir@
                        == raw.files@[k].dir@ && lp.files_spec()[k].name@
                        == raw.files@[k].name@))
                &&& (forall|seen: Set<(u64, u64)>|
                    (#[trigger] stream_of(*old(self).session, old(self).index as int, seen)) == ({
                        let ue = unit_emission(
                            old(self).session.data_spec(),
                            old(self).session.bcsymbolmap_spec(),
                            fi - 1,
                            seen,
                        );
                        ue.0 + stream_of(*old(self).session, fi, ue.1)
                    }))
            }),
    {
        let total = self.session.data.unit_count();
        while self.index < total
            invariant
                total == self.session.data.units_spec().len(),
                self.session == old(self).session,
                self.index >= old(self).index,
                forall|seen: Set<(u64, u64)>|
                    (#[trigger] stream_of(*self.session, old(self).index as int, seen)) == stream_of(
                        *self.session,
                        self.index as int,
                        seen,
                    ),
                files_from(
                    self.session.data_spec(),
                    self.session.bcsymbolmap_spec(),
                    old(self).index as int,
                ) == files_from(
                    self.session.data_spec(),
                    self.session.bcsymbolmap_spec(),
                    self.index as int,
                ),
            decreases total - self.index,
        {
            let idx = self.index;
            self.index = idx + 1;

            let unit = match self.session.data.get_unit(idx) {
                Ok(Some(u)) => u,
                Ok(None) => {
                    proof {
                        assert forall|seen: Set<(u64, u64)>|
                            (#[trigger] stream_of(*self.session, idx as int, seen)) == stream_of(
                                *self.session,
                                idx + 1,
                                seen,
                            ) by {
                            assert(unit_emission(
                                self.session.data_spec(),
                                self.session.bcsymbolmap_spec(),
                                idx as int,
                                seen,
                            ) == (Seq::<EmitItem>::empty(), seen));
                            assert(Seq::<EmitItem>::empty() + stream_of(*self.session, idx + 1, seen)
                                =~= stream_of(*self.session, idx + 1, seen));
                        }
                        assert(unit_file_items(
                            self.session.data_spec(),
                            self.session.bcsymbolmap_spec(),
                            idx as int,
                        ) =~= Seq::<FileItem>::empty());
                        assert(files_from(
                            self.session.data_spec(),
                            self.session.bcsymbolmap_spec(),
                            idx as int,
                        ) =~= files_from(
                            self.session.data_spec(),
                            self.session.bcsymbolmap_spec(),
                            idx + 1,
                        ));
                    }
                    continue ;
                },
                Err(e) => {
                    proof {
                        assert forall|seen: Set<(u64, u64)>|
                            (#[trigger] stream_of(*self.session, idx as int, seen)) == seq![
                                EmitItem::Failed(e@),
                            ] + stream_of(*self.session, idx + 1, seen) by {
                            assert(unit_emission(
                                self.session.data_spec(),
                                self.session.bcsymbolmap_spec(),
                                idx as int,
                                seen,
                            ).0 == seq![EmitItem::Failed(DwarfErrorKind::CorruptedData)]);
                        }
                        assert(unit_file_items(
                            self.session.data_spec(),
                            self.session.bcsymbolmap_spec(),
                            idx as int,
                        ) == seq![FileItem::Failed(DwarfErrorKind::CorruptedData)]);
                    }
                    return Some(Err(e));
                },
            };
            let bcsymbolmap = self.session.bcsymbolmap.as_ref();
            proof {
                assert(map_of(bcsymbolmap) == self.session.bcsymbolmap);
            }
            match DwarfUnit::from_unit(unit, idx, self.session.data.kind(), bcsymbolmap) {
                Ok(Some(du)) => {
                    proof {
                        assert forall|seen: Set<(u64, u64)>|
                            (#[trigger] stream_of(*self.session, idx as int, seen)) == ({
                                let ue = unit_emission(
                                    self.session.data_spec(),
                                    self.session.bcsymbolmap_spec(),
                                    idx as int,
                                    seen,
                                );
                                ue.0 + stream_of(*self.session, idx + 1, ue.1)
                            }) by {}
                    }
                    return Some(Ok((du, unit)));
                },
                Ok(None) => {
                    proof {
                        assert forall|seen: Set<(u64, u64)>|
                            (#[trigger] stream_of(*self.session, idx as int, seen)) == stream_of(
                                *self.session,
                                idx + 1,
                                seen,
                            ) by {
                            assert(unit_emission(
                                self.session.data_spec(),
                                self.session.bcsymbolmap_spec(),
                                idx as int,
                                seen,
                            ) == (Seq::<EmitItem>::empty(), seen));
                            assert(Seq::<EmitItem>::empty() + stream_of(*self.session, idx + 1, seen)
                                =~= stream_of(*self.session, idx + 1, seen));
                        }
                        assert(unit_file_items(
                            self.session.data_spec(),
                            self.session.bcsymbolmap_spec(),
                            idx as int,
                        ) =~= Seq::<FileItem>::empty());
                        assert(files_from(
                            self.session.data_spec(),
                            self.session.bcsymbolmap_spec(),
                            idx as int,
                        ) =~= files_from(
                            self.session.data_spec(),
                            self.session.bcsymbolmap_spec(),
                            idx + 1,
                        ));
                    }
                    continue ;
                },
                Err(e) => {
                    proof {
                        assert forall|seen: Set<(u64, u64)>|
                            (#[trigger] stream_of(*self.session, idx as int, seen)) == seq![
                                EmitItem::Failed(e@),
                            ] + stream_of(*self.session, idx + 1, seen) by {
                            assert(unit_emission(
                                self.session.data_spec(),
                                self.session.bcsymbolmap_spec(),
                                idx as int,
                                seen,
                            ).0 == seq![EmitItem::Failed(DwarfErrorKind::CorruptedData)]);
                        }
                        assert(unit_file_items(
                            self.session.data_spec(),
                            self.session.bcsymbolmap_spec(),
                            idx as int,
                        ) == seq![FileItem::Failed(DwarfErrorKind::CorruptedData)]);
                    }
                    return Some(Err(e));
                },
            }
        }
        proof {
            assert forall|seen: Set<(u64, u64)>|
                (#[trigger] stream_of(*self.session, old(self).index as int, seen)) == Seq::<
                    EmitItem,
                >::empty() by {
                assert(stream_of(*self.session, self.index as int, seen) =~= Seq::<
                    EmitItem,
                >::empty());
            }
            assert(files_from(
                self.session.data_spec(),
                self.session.bcsymbolmap_spec(),
                self.index as int,
            ) =~= Seq::<FileItem>::empty());
        }
        None
    }
}

/// An iterator over the functions of a session.
pub struct DwarfFunctionIterator<'s> {
    units: DwarfUnitIterator<'s>,
    buffer: Vec<Function>,
    range_buf: Vec<AddrRange>,
    seen_ranges: SeenRanges,
    finished: bool,
    yielded: Ghost<Seq<Function>>,
    emitted: Ghost<Seq<EmitItem>>,
}

impl<'s> DwarfFunctionIterator<'s> {
    /// The session this iterator draws from.
    pub closed spec fn session_spec(&self) -> DwarfDebugSession {
        *self.units.session
    }

    /// The functions yielded so far.
    pub closed spec fn yielded_spec(&self) -> Seq<Function> {
        self.yielded@
    }

    /// The emission items yielded so far: function skeletons and unit
    /// failures, in order.
    pub closed spec fn emitted_spec(&self) -> Seq<EmitItem> {
        self.emitted@
    }

    /// What ties the iterator to its session's emission: the items
    /// yielded so far, the buffered functions, and the emission of the
    /// units not yet walked together make up the whole emission.
    pub closed spec fn stream_wf(&self) -> bool {
        &&& (!self.finished ==> self.emitted@ + fun_items(skels(self.buffer@)) + stream_of(
            *self.units.session,
            self.units.index as int,
            self.seen_ranges@,
        ) == session_emission(*self.units.session))
        &&& (self.finished ==> self.buffer@.len() == 0 && self.emitted@ == session_emission(
            *self.units.session,
        ))
    }

    /// The functions already built and not yet yielded.
    pub closed spec fn buffer_spec(&self) -> Seq<Function> {
        self.buffer@
    }

    /// The recorded `(address, size)` pairs of top-level functions.
    pub closed spec fn seen_spec(&self) -> Set<(u64, u64)> {
        self.seen_ranges@
    }

    /// Everything this iterator has built: first the yielded functions,
    /// then the buffered ones.
    pub open spec fn pending(&self) -> Seq<Function> {
        self.yielded_spec() + self.buffer_spec()
    }

    /// What holds of the iterator throughout: no two top-level
    /// (non-inline) functions it has built share an `(address, size)`
    /// pair, and every such pair is recorded.
    pub open spec fn wf(&self) -> bool {
        &&& (forall|i: int, j: int|
            0 <= i < j < self.pending().len() && !self.pending()[i].inline
                && !self.pending()[j].inline ==> ((#[trigger] self.pending()[i]).address,
            self.pending()[i].size) != ((#[trigger] self.pending()[j]).address,
            self.pending()[j].size))
        &&& (forall|i: int|
            0 <= i < self.pending().len() && !self.pending()[i].inline
                ==> self.seen_spec().contains(
                ((#[trigger] self.pending()[i]).address, self.pending()[i].size),
            ))
    }

    /// Yields the next reconstructed function, an error for a unit whose
    /// data could not be read (iteration then continues past that unit),
    /// or nothing once every unit is drained — and from then on, forever.
    /// The items yielded over a whole drain are exactly the session's
    /// emission.
    #[verifier::rlimit(100)]
    pub fn next(&mut self) -> (r: Option<Result<Function, DwarfError>>)
        requires
            old(self).wf(),
            old(self).stream_wf(),
        ensures
            final (self).wf(),
            final (self).stream_wf(),
            final (self).session_spec() == old(self).session_spec(),
            r matches Some(Ok(f)) ==> final (self).yielded_spec() == old(
                self,
            ).yielded_spec().push(f) && final (self).emitted_spec() == old(
                self,
            ).emitted_spec().push(EmitItem::Fun(fun_skel(f))),
            r matches Some(Err(e)) ==> final (self).yielded_spec() == old(self).yielded_spec()
                && final (self).emitted_spec() == old(self).emitted_spec().push(
                EmitItem::Failed(e@),
            ),
            r is None ==> final (self).yielded_spec() == old(self).yielded_spec() && final (
            self).emitted_spec() == old(self).emitted_spec() && final (self).emitted_spec()
                == session_emission(old(self).session_spec()),
    {
        if self.finished {
            return None;
        }
        if self.buffer.len() > 0 {
            let ghost pre = self.pending();
            let ghost pre_emitted = self.emitted@;
            let ghost pre_buffer = self.buffer@;
            let f = self.buffer.remove(0);
            self.yielded = Ghost(self.yielded@.push(f));
            self.emitted = Ghost(self.emitted@.push(EmitItem::Fun(fun_skel(f))));
            proof {
                assert(self.pending() =~= pre);
                lemma_yield_front(pre_emitted, pre_buffer);
                assert(self.emitted@ + fun_items(skels(self.buffer@)) == pre_emitted + fun_items(
                    skels(pre_buffer),
                ));
            }
            return Some(Ok(f));
        }
        let total = self.units.session.data.unit_count();
        while self.units.index < total
            invariant
                total == self.units.session.data.units_spec().len(),
                self.wf(),
                self.buffer@.len() == 0,
                !self.finished,
                self.units.session == old(self).units.session,
                self.yielded@ == old(self).yielded@,
                self.emitted@ == old(self).emitted@,
                self.emitted@ + stream_of(
                    *self.units.session,
                    self.units.index as int,
                    self.seen_ranges@,
                ) == session_emission(*self.units.session),
            decreases total - self.units.index,
        {
            let session = self.units.session;
            let ghost seen_pre = self.seen_ranges@;
            let ghost idx0 = self.units.index as int;
            proof {
                assert(fun_items(skels(self.buffer@)) =~= Seq::<EmitItem>::empty());
            }
            let pair = match self.units.next() {
                Some(Ok(p)) => p,
                Some(Err(e)) => {
                    self.emitted = Ghost(self.emitted@.push(EmitItem::Failed(e@)));
                    proof {
                        assert(self.emitted@ + stream_of(
                            *session,
                            self.units.index as int,
                            self.seen_ranges@,
                        ) =~= old(self).emitted@ + (seq![EmitItem::Failed(e@)] + stream_of(
                            *session,
                            self.units.index as int,
                            self.seen_ranges@,
                        )));
                        assert(fun_items(skels(self.buffer@)) =~= Seq::<EmitItem>::empty());
                        assert(self.emitted@ + fun_items(skels(self.buffer@)) + stream_of(
                            *session,
                            self.units.index as int,
                            self.seen_ranges@,
                        ) =~= self.emitted@ + stream_of(
                            *session,
                            self.units.index as int,
                            self.seen_ranges@,
                        ));
                    }
                    return Some(Err(e));
                },
                None => {
                    proof {
                        assert(stream_of(*session, idx0, seen_pre) =~= Seq::<EmitItem>::empty());
                        assert(self.emitted@ + Seq::<EmitItem>::empty() =~= self.emitted@);
                    }
                    self.finished = true;
                    return None;
                },
            };
            let (du, unit) = pair;
            let ghost fi = self.units.index as int;
            let ghost ue = unit_emission(
                session.data_spec(),
                session.bcsymbolmap_spec(),
                fi - 1,
                seen_pre,
            );
            let bcref = session.bcsymbolmap.as_ref();
            proof {
                assert(map_of(bcref) == session.bcsymbolmap_spec());
                assert(du.index as int == fi - 1);
            }
            let built = du.functions(
                bcref,
                &session.data,
                unit,
                &mut self.range_buf,
                &mut self.seen_ranges,
            );
            proof {
                let b = du.build_result_of(
                    session.data_spec(),
                    session.bcsymbolmap_spec(),
                    unit.dies@,
                    seen_pre,
                );
                match b {
                    Ok(t) => {
                        assert(ue == (fun_items(t.0), t.1));
                    },
                    Err(k) => {
                        assert(ue.0 == seq![EmitItem::Failed(k)]);
                        assert(ue.1 == du.build_seen_of(
                            session.data_spec(),
                            session.bcsymbolmap_spec(),
                            unit.dies@,
                            seen_pre,
                        ));
                    },
                }
            }
            let fs = match built {
                Ok(fs) => fs,
                Err(e) => {
                    self.emitted = Ghost(self.emitted@.push(EmitItem::Failed(e@)));
                    proof {
                        assert(self.emitted@ + stream_of(
                            *session,
                            fi,
                            self.seen_ranges@,
                        ) =~= old(self).emitted@ + (ue.0 + stream_of(
                            *session,
                            fi,
                            ue.1,
                        )));
                        assert(fun_items(skels(self.buffer@)) =~= Seq::<EmitItem>::empty());
                        assert(self.emitted@ + fun_items(skels(self.buffer@)) + stream_of(
                            *session,
                            fi,
                            self.seen_ranges@,
                        ) =~= self.emitted@ + stream_of(*session, fi, self.seen_ranges@));
                    }
                    return Some(Err(e));
                },
            };
            self.buffer = fs;
            proof {
                assert(fun_items(skels(self.buffer@)) == ue.0);
                assert(self.emitted@ + fun_items(skels(self.buffer@)) + stream_of(
                    *session,
                    fi,
                    self.seen_ranges@,
                ) =~= self.emitted@ + (ue.0 + stream_of(*session, fi, ue.1)));
                assert forall|i: int, j: int|
                    0 <= i < j < self.pending().len() && !self.pending()[i].inline
                        && !self.pending()[j].inline implies ((#[trigger] self.pending()[
                    i]).address, self.pending()[i].size) != ((#[trigger] self.pending()[j]).address,
                self.pending()[j].size) by {
                    let y = self.yielded@;
                    if j < y.len() {
                    } else if i < y.len() {
                        assert(seen_pre.contains((self.pending()[i].address, self.pending()[i].size)));
                        assert(!seen_pre.contains(
                            (self.pending()[j].address, self.pending()[j].size),
                        ));
                    } else {
                        assert(self.pending()[i] == self.buffer@[i - y.len()]);
                        assert(self.pending()[j] == self.buffer@[j - y.len()]);
                    }
                }
                assert forall|i: int|
                    0 <= i < self.pending().len() && !self.pending()[i].inline implies self
                    .seen_spec().contains(
                    ((#[trigger] self.pending()[i]).address, self.pending()[i].size),
                ) by {
                    let y = self.yielded@;
                    if i >= y.len() {
                        assert(self.pending()[i] == self.buffer@[i - y.len()]);
                    }
                }
            }
            if self.buffer.len() > 0 {
                let ghost pre = self.pending();
                let ghost pre_emitted = self.emitted@;
                let ghost pre_buffer = self.buffer@;
                let f = self.buffer.remove(0);
                self.yielded = Ghost(self.yielded@.push(f));
                self.emitted = Ghost(self.emitted@.push(EmitItem::Fun(fun_skel(f))));
                proof {
                    assert(self.pending() =~= pre);
                    lemma_yield_front(pre_emitted, pre_buffer);
                    assert(self.emitted@ + fun_items(skels(self.buffer@)) == pre_emitted
                        + fun_items(skels(pre_buffer)));
                }
                return Some(Ok(f));
            }
        }
        proof {
            assert(self.units.index as int >= self.units.session.data.units_spec().len());
            assert(stream_of(*self.units.session, self.units.index as int, self.seen_ranges@)
                =~= Seq::<EmitItem>::empty());
            assert(self.emitted@ + Seq::<EmitItem>::empty() =~= self.emitted@);
        }
        self.finished = true;
        None
    }

}

/// Yielding the front buffered function moves its skeleton from the
/// buffered items to the emitted ones.
proof fn lemma_yield_front(emitted: Seq<EmitItem>, buffer: Seq<Function>)
    requires
        buffer.len() > 0,
    ensures
        emitted.push(EmitItem::Fun(fun_skel(buffer[0]))) + fun_items(skels(buffer.remove(0)))
            == emitted + fun_items(skels(buffer)),
{
    assert(skels(buffer.remove(0)) =~= skels(buffer).drop_first());
    assert(fun_items(skels(buffer).drop_first()) =~= fun_items(skels(buffer)).drop_first());
    assert(fun_items(skels(buffer))[0] == EmitItem::Fun(fun_skel(buffer[0])));
    assert(emitted.push(EmitItem::Fun(fun_skel(buffer[0]))) + fun_items(skels(buffer.remove(0)))
        =~= emitted + fun_items(skels(buffer)));
}

/// What an iterator has emitted so far is a prefix of its session's
/// emission.
pub proof fn lemma_emission_prefix(it: &DwarfFunctionIterator)
    requires
        it.stream_wf(),
    ensures
        it.emitted_spec() == session_emission(it.session_spec()).take(
            it.emitted_spec().len() as int,
        ),
{
    let total = session_emission(it.session_spec());
    let a = it.emitted_spec();
    if it.finished {
        assert(a =~= total.take(a.len() as int));
    } else {
        let b = fun_items(skels(it.buffer@));
        let c = stream_of(*it.units.session, it.units.index as int, it.seen_ranges@);
        assert(a + b + c == total);
        assert forall|i: int| 0 <= i < a.len() implies total[i] == a[i] by {
            assert((a + b + c)[i] == a[i]);
        }
        assert(a =~= total.take(a.len() as int));
    }
}

/// The emission is deterministic: two iterators over one session that
/// have emitted equally many items have emitted the same items; in
/// particular two whole drains yield identical sequences.
pub proof fn lemma_emission_deterministic(
    it1: &DwarfFunctionIterator,
    it2: &DwarfFunctionIterator,
)
    requires
        it1.stream_wf(),
        it2.stream_wf(),
        it1.session_spec() == it2.session_spec(),
        it1.emitted_spec().len() == it2.emitted_spec().len(),
    ensures
        it1.emitted_spec() == it2.emitted_spec(),
{
    lemma_emission_prefix(it1);
    lemma_emission_prefix(it2);
}

/// Across one emission no two top-level (non-inline) functions share an
/// `(address, size)` pair: the functions yielded so far are pairwise
/// distinct in their pairs.
pub proof fn lemma_emission_pairs_distinct(it: DwarfFunctionIterator)
    requires
        it.wf(),
    ensures
        forall|i: int, j: int|
            0 <= i < j < it.yielded_spec().len() && !it.yielded_spec()[i].inline
                && !it.yielded_spec()[j].inline ==> ((#[trigger] it.yielded_spec()[i]).address,
            it.yielded_spec()[i].size) != ((#[trigger] it.yielded_spec()[j]).address,
            it.yielded_spec()[j].size),
{
    assert forall|i: int, j: int|
        0 <= i < j < it.yielded_spec().len() && !it.yielded_spec()[i].inline
            && !it.yielded_spec()[j].inline implies ((#[trigger] it.yielded_spec()[i]).address,
        it.yielded_spec()[i].size) != ((#[trigger] it.yielded_spec()[j]).address,
        it.yielded_spec()[j].size) by {
        assert(it.pending()[i] == it.yielded_spec()[i]);
        assert(it.pending()[j] == it.yielded_spec()[j]);
    }
}

/// The file entries still to come from the unit a sub-iterator holds.
pub open spec fn sub_items(unit: Option<DwarfUnit>, index: int, bc: Option<BcSymbolMap>) -> Seq<
    FileItem,
> {
    match unit {
        None => Seq::empty(),
        Some(du) => match du.line_program {
            None => Seq::empty(),
            Some(lp) => {
                let n = lp.files_spec().len() as int;
                if 0 <= index && index < n {
                    Seq::new(
                        (n - index) as nat,
                        |k: int|
                            FileItem::Entry(
                                FileEntryModel {
                                    comp_dir: du.comp_dir@,
                                    dir: resolved_bytes(bc, lp.files_spec()[index + k].dir@),
                                    name: resolved_bytes(bc, lp.files_spec()[index + k].name@),
                                },
                            ),
                    )
                } else {
                    Seq::empty()
                }
            },
        },
    }
}

/// What a file iterator has yielded so far is a prefix of its session's
/// file enumeration: two iterators over one session that have yielded
/// equally many items have yielded the same items.
pub proof fn lemma_files_prefix(it: &DwarfFileIterator)
    requires
        it.files_wf(),
    ensures
        it.emitted_spec() == session_files(it.session_spec()).take(it.emitted_spec().len() as int),
{
    let total = session_files(it.session_spec());
    let a = it.emitted_spec();
    if it.finished {
        assert(a =~= total.take(a.len() as int));
    } else {
        let b = sub_items(
            it.files.unit,
            it.files.index as int,
            (*it.units.session).bcsymbolmap_spec(),
        );
        let c = files_from(
            (*it.units.session).data_spec(),
            (*it.units.session).bcsymbolmap_spec(),
            it.units.index as int,
        );
        assert(a + b + c == total);
        assert forall|i: int| 0 <= i < a.len() implies total[i] == a[i] by {
            assert((a + b + c)[i] == a[i]);
        }
        assert(a =~= total.take(a.len() as int));
    }
}

/// An iterator over the files of one prepared unit.
struct DwarfUnitFileIterator {
    unit: Option<DwarfUnit>,
    index: usize,
}

impl DwarfUnitFileIterator {
    /// Yields the next file of the unit's line-program file table, each
    /// entry carrying the unit's compilation directory.
    fn next(&mut self, bcsymbolmap: Option<&BcSymbolMap>) -> (r: Option<FileEntry>)
        ensures
            r is Some ==> final (self).index == old(self).index + 1,
            r is None ==> *final (self) == *old(self),
            final (self).unit == old(self).unit,
            r is None ==> sub_items(
                old(self).unit,
                old(self).index as int,
                map_of(bcsymbolmap),
            ) == Seq::<FileItem>::empty(),
            r matches Some(e) ==> sub_items(
                old(self).unit,
                old(self).index as int,
                map_of(bcsymbolmap),
            ) == seq![FileItem::Entry(file_entry_model(e))] + sub_items(
                old(self).unit,
                final (self).index as int,
                map_of(bcsymbolmap),
            ),
    {
        let unit = match &self.unit {
            Some(u) => u,
            None => {
                return None;
            },
        };
        let count = match &unit.line_program {
            Some(lp) => lp.file_count(),
            None => {
                return None;
            },
        };
        if self.index >= count {
            return None;
        }
        let entry = match unit.resolve_file(bcsymbolmap, self.index as u64) {
            Some(info) => FileEntry { compilation_dir: slice_to_vec(unit.compilation_dir()), info },
            None => {
                proof {
                    assert(false);
                }
                return None;
            },
        };
        self.index = self.index + 1;
        proof {
            assert(sub_items(self.unit, old(self).index as int, map_of(bcsymbolmap))
                =~= seq![FileItem::Entry(file_entry_model(entry))] + sub_items(
                self.unit,
                self.index as int,
                map_of(bcsymbolmap),
            ));
        }
        Some(entry)
    }
}

/// An iterator over the source files of a session.
pub struct DwarfFileIterator<'s> {
    units: DwarfUnitIterator<'s>,
    files: DwarfUnitFileIterator,
    finished: bool,
    emitted: Ghost<Seq<FileItem>>,
}

impl<'s> DwarfFileIterator<'s> {
    /// The session this iterator draws from.
    pub closed spec fn session_spec(&self) -> DwarfDebugSession {
        *self.units.session
    }

    /// Whether the iterator has been drained.
    pub closed spec fn finished_spec(&self) -> bool {
        self.finished
    }

    /// The file items yielded so far: file entries and unit failures, in
    /// order.
    pub closed spec fn emitted_spec(&self) -> Seq<FileItem> {
        self.emitted@
    }

    /// What ties the iterator to its session's file enumeration: the
    /// items yielded so far, the rest of the current unit's table, and the
    /// tables of the units not yet visited together make up the whole
    /// enumeration.
    pub closed spec fn files_wf(&self) -> bool {
        &&& (!self.finished ==> self.emitted@ + sub_items(
            self.files.unit,
            self.files.index as int,
            (*self.units.session).bcsymbolmap_spec(),
        ) + files_from(
            (*self.units.session).data_spec(),
            (*self.units.session).bcsymbolmap_spec(),
            self.units.index as int,
        ) == session_files(*self.units.session))
        &&& (self.finished ==> self.emitted@ == session_files(*self.units.session))
    }

    /// Yields the next file entry, an error for a unit whose data could
    /// not be read, or nothing once every unit is drained — and from then
    /// on, forever. The items yielded over a whole drain are exactly the
    /// session's file enumeration.
    #[verifier::rlimit(100)]
    pub fn next(&mut self) -> (r: Option<Result<FileEntry, DwarfError>>)
        requires
            old(self).files_wf(),
        ensures
            final (self).files_wf(),
            final (self).session_spec() == old(self).session_spec(),
            old(self).finished_spec() ==> r is None && *final (self) == *old(self),
            r matches Some(Ok(e)) ==> final (self).emitted_spec() == old(
                self,
            ).emitted_spec().push(FileItem::Entry(file_entry_model(e))),
            r matches Some(Err(e)) ==> final (self).emitted_spec() == old(
                self,
            ).emitted_spec().push(FileItem::Failed(e@)),
            r is None ==> final (self).emitted_spec() == old(self).emitted_spec() && final (
            self).emitted_spec() == session_files(old(self).session_spec()),
    {
        if self.finished {
            return None;
        }
        let total = self.units.session.data.unit_count();
        loop
            invariant_except_break
                self.emitted@ + sub_items(
                    self.files.unit,
                    self.files.index as int,
                    (*self.units.session).bcsymbolmap_spec(),
                ) + files_from(
                    (*self.units.session).data_spec(),
                    (*self.units.session).bcsymbolmap_spec(),
                    self.units.index as int,
                ) == session_files(*self.units.session),
            invariant
                total == self.units.session.data.units_spec().len(),
                self.units.session == old(self).units.session,
                !old(self).finished,
                !self.finished,
                self.emitted@ == old(self).emitted@,
            ensures
                self.units.session == old(self).units.session,
                self.emitted@ == old(self).emitted@,
                self.emitted@ == session_files(*self.units.session),
            decreases total - self.units.index,
        {
            let session = self.units.session;
            let bcref = session.bcsymbolmap.as_ref();
            proof {
                assert(map_of(bcref) == session.bcsymbolmap_spec());
            }
            let ghost pre_emitted = self.emitted@;
            let ghost pre_sub = sub_items(
                self.files.unit,
                self.files.index as int,
                session.bcsymbolmap_spec(),
            );
            if let Some(entry) = self.files.next(bcref) {
                self.emitted = Ghost(
                    self.emitted@.push(FileItem::Entry(file_entry_model(entry))),
                );
                proof {
                    assert(self.emitted@ + sub_items(
                        self.files.unit,
                        self.files.index as int,
                        session.bcsymbolmap_spec(),
                    ) =~= pre_emitted + pre_sub);
                }
                return Some(Ok(entry));
            }
            let ghost idx0 = self.units.index as int;
            let unit = match self.units.next() {
                Some(Ok((du, unit))) => {
                    proof {
                        assert(pre_sub =~= Seq::<FileItem>::empty());
                    }
                    (du, unit)
                },
                Some(Err(e)) => {
                    self.emitted = Ghost(self.emitted@.push(FileItem::Failed(e@)));
                    proof {
                        assert(pre_sub =~= Seq::<FileItem>::empty());
                        assert(self.emitted@ + sub_items(
                            self.files.unit,
                            self.files.index as int,
                            session.bcsymbolmap_spec(),
                        ) + files_from(
                            session.data_spec(),
                            session.bcsymbolmap_spec(),
                            self.units.index as int,
                        ) =~= pre_emitted + (seq![FileItem::Failed(e@)] + files_from(
                            session.data_spec(),
                            session.bcsymbolmap_spec(),
                            self.units.index as int,
                        )));
                    }
                    return Some(Err(e));
                },
                None => {
                    proof {
                        assert(pre_sub =~= Seq::<FileItem>::empty());
                        assert(files_from(
                            session.data_spec(),
                            session.bcsymbolmap_spec(),
                            idx0,
                        ) =~= Seq::<FileItem>::empty());
                        assert(self.emitted@ + pre_sub + files_from(
                            session.data_spec(),
                            session.bcsymbolmap_spec(),
                            idx0,
                        ) =~= self.emitted@);
                    }
                    break ;
                },
            };
            let (du, raw_unit) = unit;
            let ghost fi = self.units.index as int;
            proof {
                assert(sub_items(Some(du), 0, session.bcsymbolmap_spec()) =~= unit_file_items(
                    session.data_spec(),
                    session.bcsymbolmap_spec(),
                    fi - 1,
                ));
            }
            self.files = DwarfUnitFileIterator { unit: Some(du), index: 0 };
        }
        self.finished = true;
        None
    }

}

} // verus!
