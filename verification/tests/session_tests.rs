//! End-to-end tests for the debug session: unit walking, function
//! reconstruction, inline splicing, deduplication, and error surfacing.

use dwarfinfo::base::FileInfo;
use dwarfinfo::base::Function;
use dwarfinfo::base::Language;
use dwarfinfo::base::NameMangling;
use dwarfinfo::base::ObjectKind;
use dwarfinfo::die::AttrName;
use dwarfinfo::die::AttrValue;
use dwarfinfo::die::DieAttr;
use dwarfinfo::die::DieData;
use dwarfinfo::die::DieReference;
use dwarfinfo::die::DieTag;
use dwarfinfo::error::DwarfErrorKind;
use dwarfinfo::line::LineProgramRow;
use dwarfinfo::names::BcSymbolMap;
use dwarfinfo::names::BcSymbolMapEntry;
use dwarfinfo::names::SymbolMap;
use dwarfinfo::names::SymbolMapEntry;
use dwarfinfo::session::DwarfDebugSession;
use dwarfinfo::unit::DwarfData;
use dwarfinfo::unit::LineProgramData;
use dwarfinfo::unit::UnitData;
use dwarfinfo::unit::UnitSlot;

fn attr(name: AttrName, value: AttrValue) -> DieAttr {
    DieAttr { name, value }
}

fn die(tag: DieTag, offset: usize, depth: u32, attrs: Vec<DieAttr>) -> DieData {
    DieData { offset, depth, tag, attrs }
}

fn root_die() -> DieData {
    die(DieTag::Other, 1, 0, vec![])
}

fn row(address: u64, file_index: u64, line: u64) -> LineProgramRow {
    LineProgramRow { address, file_index, line: Some(line), end_sequence: false }
}

fn end_row(address: u64) -> LineProgramRow {
    LineProgramRow { address, file_index: 0, line: None, end_sequence: true }
}

fn file_table() -> Vec<FileInfo> {
    vec![
        FileInfo { dir: b"".to_vec(), name: b"f0.c".to_vec() },
        FileInfo { dir: b"".to_vec(), name: b"f1.c".to_vec() },
        FileInfo { dir: b"".to_vec(), name: b"f2.c".to_vec() },
    ]
}

fn session_of(units: Vec<UnitSlot>, symbols: Vec<SymbolMapEntry>) -> DwarfDebugSession {
    let data =
        DwarfData::new(units, SymbolMap::new(symbols), 0, ObjectKind::Linked).expect("valid data");
    DwarfDebugSession::new(data)
}

fn collect(session: &DwarfDebugSession) -> Vec<Result<Function, DwarfErrorKind>> {
    let mut out = Vec::new();
    let mut it = session.functions();
    while let Some(item) = it.next() {
        out.push(item.map_err(|e| e.kind()));
    }
    out
}

/// One non-inline function with two line records.
fn single_function_unit() -> UnitSlot {
    UnitSlot::Present(UnitData {
        header_offset: 0,
        end_offset: 100,
        low_pc: 0x1000,
        comp_dir: Some(b"/src".to_vec()),
        line_program: Some(LineProgramData {
            rows: vec![row(0x1000, 1, 10), row(0x1008, 1, 11), end_row(0x1010)],
            files: file_table(),
        }),
        dies: vec![
            root_die(),
            die(
                DieTag::Subprogram,
                10,
                1,
                vec![
                    attr(AttrName::LowPc, AttrValue::Addr(0x1000)),
                    attr(AttrName::HighPc, AttrValue::Addr(0x1010)),
                    attr(AttrName::Name, AttrValue::Bytes(b"f".to_vec())),
                ],
            ),
        ],
    })
}

#[test]
fn single_function_with_two_lines() {
    let session = session_of(vec![single_function_unit()], vec![]);
    let fs = collect(&session);
    assert_eq!(fs.len(), 1);
    let f = fs[0].as_ref().unwrap();
    assert_eq!(f.address, 0x1000);
    assert_eq!(f.size, 0x10);
    assert_eq!(f.name.text, "f");
    assert_eq!(f.name.mangling, NameMangling::Unmangled);
    assert!(!f.inline);
    assert_eq!(f.compilation_dir, b"/src".to_vec());
    assert_eq!(f.lines.len(), 2);
    assert_eq!(f.lines[0].address, 0x1000);
    assert_eq!(f.lines[0].size, Some(8));
    assert_eq!(f.lines[0].line, 10);
    assert_eq!(f.lines[0].file.name, b"f1.c".to_vec());
    assert_eq!(f.lines[1].address, 0x1008);
    assert_eq!(f.lines[1].size, Some(8));
    assert_eq!(f.lines[1].line, 11);
    assert!(f.inlinees.is_empty());
}

#[test]
fn symbol_table_name_wins_for_noninline_functions() {
    let session = session_of(
        vec![single_function_unit()],
        vec![SymbolMapEntry { address: 0x1000, name: Some(String::from("sym_f")) }],
    );
    let fs = collect(&session);
    let f = fs[0].as_ref().unwrap();
    assert_eq!(f.name.text, "sym_f");
    assert_eq!(f.name.mangling, NameMangling::Mangled);
}

/// An inlined call: the parent's line records read as the call site over
/// the inlinee's range.
#[test]
fn inlined_call_splices_parent_lines() {
    let unit = UnitSlot::Present(UnitData {
        header_offset: 0,
        end_offset: 100,
        low_pc: 0x2000,
        comp_dir: None,
        line_program: Some(LineProgramData {
            rows: vec![row(0x2000, 1, 20), row(0x2010, 1, 21), end_row(0x2020)],
            files: file_table(),
        }),
        dies: vec![
            root_die(),
            die(
                DieTag::Subprogram,
                10,
                1,
                vec![
                    attr(AttrName::LowPc, AttrValue::Addr(0x2000)),
                    attr(AttrName::HighPc, AttrValue::Addr(0x2020)),
                    attr(AttrName::Name, AttrValue::Bytes(b"outer".to_vec())),
                ],
            ),
            die(
                DieTag::InlinedSubroutine,
                20,
                2,
                vec![
                    attr(AttrName::LowPc, AttrValue::Addr(0x2008)),
                    attr(AttrName::HighPc, AttrValue::Addr(0x2014)),
                    attr(AttrName::CallFile, AttrValue::FileIndex(2)),
                    attr(AttrName::CallLine, AttrValue::Udata(99)),
                    attr(AttrName::Name, AttrValue::Bytes(b"inner".to_vec())),
                ],
            ),
        ],
    });
    let session = session_of(vec![unit], vec![]);
    let fs = collect(&session);
    assert_eq!(fs.len(), 1);
    let outer = fs[0].as_ref().unwrap();
    assert_eq!(outer.name.text, "outer");
    assert_eq!(outer.address, 0x2000);
    assert_eq!(outer.size, 0x20);

    // The spliced line records: original, call site over [0x2008, 0x2014),
    // the tail of the second original record.
    let got: Vec<(u64, Option<u64>, u64, Vec<u8>)> = outer
        .lines
        .iter()
        .map(|l| (l.address, l.size, l.line, l.file.name.clone()))
        .collect();
    assert_eq!(
        got,
        vec![
            (0x2000, Some(0x8), 20, b"f1.c".to_vec()),
            (0x2008, Some(0x8), 99, b"f2.c".to_vec()),
            (0x2010, Some(0x4), 99, b"f2.c".to_vec()),
            (0x2014, Some(0xC), 21, b"f1.c".to_vec()),
        ]
    );

    // The inlinee carries no line records of its own, and its range lies
    // inside the parent.
    assert_eq!(outer.inlinees.len(), 1);
    let inner = &outer.inlinees[0];
    assert_eq!(inner.name.text, "inner");
    assert!(inner.inline);
    assert_eq!(inner.address, 0x2008);
    assert_eq!(inner.size, 0xC);
    assert!(inner.lines.is_empty());
    assert!(inner.address >= outer.address);
    assert!(inner.address + inner.size <= outer.address + outer.size);

    // Every line record stays within the function.
    for l in &outer.lines {
        assert!(l.address + l.size.unwrap() <= outer.address + outer.size);
    }
    // Line records are strictly address-sorted.
    for w in outer.lines.windows(2) {
        assert!(w[0].address < w[1].address);
    }
}

/// A linker-eliminated stub suppresses its surviving inlinees.
#[test]
fn eliminated_stub_prunes_inlinees() {
    let unit = UnitSlot::Present(UnitData {
        header_offset: 0,
        end_offset: 100,
        low_pc: 0x3000,
        comp_dir: None,
        line_program: None,
        dies: vec![
            root_die(),
            die(
                DieTag::Subprogram,
                10,
                1,
                vec![attr(AttrName::LowPc, AttrValue::Addr(0))],
            ),
            die(
                DieTag::InlinedSubroutine,
                20,
                2,
                vec![
                    attr(AttrName::LowPc, AttrValue::Addr(0x3000)),
                    attr(AttrName::HighPc, AttrValue::Addr(0x3008)),
                ],
            ),
        ],
    });
    let session = session_of(vec![unit], vec![]);
    let fs = collect(&session);
    assert!(fs.is_empty());
}

/// The same function in two units is emitted once.
#[test]
fn duplicate_toplevel_across_units_is_emitted_once() {
    let unit_at = |header_offset: usize| {
        UnitSlot::Present(UnitData {
            header_offset,
            end_offset: header_offset + 100,
            low_pc: 0x4000,
            comp_dir: None,
            line_program: None,
            dies: vec![
                die(DieTag::Other, 1, 0, vec![]),
                die(
                    DieTag::Subprogram,
                    10,
                    1,
                    vec![
                        attr(AttrName::LowPc, AttrValue::Addr(0x4000)),
                        attr(AttrName::HighPc, AttrValue::Addr(0x4040)),
                        attr(AttrName::Name, AttrValue::Bytes(b"g".to_vec())),
                    ],
                ),
            ],
        })
    };
    let session = session_of(vec![unit_at(0), unit_at(100)], vec![]);
    let fs = collect(&session);
    assert_eq!(fs.len(), 1);
    let g = fs[0].as_ref().unwrap();
    assert_eq!((g.address, g.size), (0x4000, 0x40));
}

/// An inverted range fails its unit; iteration continues with the next.
#[test]
fn inverted_range_yields_error_then_continues() {
    let bad = UnitSlot::Present(UnitData {
        header_offset: 0,
        end_offset: 100,
        low_pc: 0x6000,
        comp_dir: None,
        line_program: None,
        dies: vec![
            root_die(),
            die(
                DieTag::Subprogram,
                10,
                1,
                vec![
                    attr(AttrName::LowPc, AttrValue::Addr(0x6010)),
                    attr(AttrName::HighPc, AttrValue::Addr(0x6000)),
                ],
            ),
        ],
    });
    let mut good_unit = single_function_unit();
    if let UnitSlot::Present(u) = &mut good_unit {
        u.header_offset = 100;
        u.end_offset = 200;
    }
    let session = session_of(vec![bad, good_unit], vec![]);
    let fs = collect(&session);
    assert_eq!(fs.len(), 2);
    assert_eq!(fs[0].as_ref().unwrap_err(), &DwarfErrorKind::InvertedFunctionRange);
    assert_eq!(fs[1].as_ref().unwrap().name.text, "f");
}

/// An inline record without a parent is a hard error.
#[test]
fn unexpected_inline_is_an_error() {
    let unit = UnitSlot::Present(UnitData {
        header_offset: 0,
        end_offset: 100,
        low_pc: 0x7000,
        comp_dir: None,
        line_program: None,
        dies: vec![
            root_die(),
            die(
                DieTag::InlinedSubroutine,
                10,
                1,
                vec![
                    attr(AttrName::LowPc, AttrValue::Addr(0x7000)),
                    attr(AttrName::HighPc, AttrValue::Addr(0x7008)),
                ],
            ),
        ],
    });
    let session = session_of(vec![unit], vec![]);
    let fs = collect(&session);
    assert_eq!(fs[0].as_ref().unwrap_err(), &DwarfErrorKind::UnexpectedInline);
}

/// A corrupt unit reports corrupted data; empty units are skipped.
#[test]
fn corrupt_and_empty_units() {
    let mut good_unit = single_function_unit();
    if let UnitSlot::Present(u) = &mut good_unit {
        u.header_offset = 200;
        u.end_offset = 300;
    }
    let session = session_of(
        vec![UnitSlot::Empty(0), UnitSlot::Corrupt(100), good_unit],
        vec![],
    );
    let fs = collect(&session);
    assert_eq!(fs.len(), 2);
    assert_eq!(fs[0].as_ref().unwrap_err(), &DwarfErrorKind::CorruptedData);
    assert_eq!(fs[1].as_ref().unwrap().name.text, "f");
}

/// A multi-range function: ranges are sorted before aggregation, the size
/// is the sum of the range lengths.
#[test]
fn multi_range_function_size_is_range_sum() {
    let unit = UnitSlot::Present(UnitData {
        header_offset: 0,
        end_offset: 100,
        low_pc: 0x100,
        comp_dir: None,
        line_program: None,
        dies: vec![
            root_die(),
            die(
                DieTag::Subprogram,
                10,
                1,
                vec![attr(
                    AttrName::Ranges,
                    AttrValue::RangeList(vec![
                        dwarfinfo::die::RangeListItem::Span(dwarfinfo::base::AddrRange {
                            begin: 0x200,
                            end: 0x210,
                        }),
                        dwarfinfo::die::RangeListItem::Span(dwarfinfo::base::AddrRange {
                            begin: 0x100,
                            end: 0x120,
                        }),
                    ]),
                )],
            ),
        ],
    });
    let session = session_of(vec![unit], vec![]);
    let fs = collect(&session);
    let f = fs[0].as_ref().unwrap();
    assert_eq!(f.address, 0x100);
    assert_eq!(f.size, 0x30);
}

/// A cross-unit abstract-origin reference resolves the name, and a lossy
/// byte sequence decodes with a replacement character.
#[test]
fn cross_unit_name_resolution() {
    let named = UnitSlot::Present(UnitData {
        header_offset: 0,
        end_offset: 100,
        low_pc: 0x8000,
        comp_dir: None,
        line_program: None,
        dies: vec![
            root_die(),
            die(
                DieTag::Subprogram,
                40,
                1,
                vec![
                    attr(AttrName::LowPc, AttrValue::Addr(0x8000)),
                    attr(AttrName::HighPc, AttrValue::Addr(0x8010)),
                    attr(AttrName::LinkageName, AttrValue::Bytes(vec![0x66, 0xFF])),
                ],
            ),
        ],
    });
    let referring = UnitSlot::Present(UnitData {
        header_offset: 100,
        end_offset: 200,
        low_pc: 0x9000,
        comp_dir: None,
        line_program: None,
        dies: vec![
            root_die(),
            die(
                DieTag::Subprogram,
                10,
                1,
                vec![
                    attr(AttrName::LowPc, AttrValue::Addr(0x9000)),
                    attr(AttrName::HighPc, AttrValue::Addr(0x9010)),
                    attr(AttrName::AbstractOrigin, AttrValue::Ref(DieReference::DebugInfo(40))),
                ],
            ),
        ],
    });
    let session = session_of(vec![named, referring], vec![]);
    let fs = collect(&session);
    assert_eq!(fs.len(), 2);
    let by_origin = fs[1].as_ref().unwrap();
    assert_eq!(by_origin.name.text, "f\u{FFFD}");
    assert_eq!(by_origin.name.mangling, NameMangling::Mangled);
}

/// Two runs of the function iterator on one session yield the same
/// sequence.
#[test]
fn iterating_twice_yields_identical_sequences() {
    let session = session_of(vec![single_function_unit()], vec![]);
    let a = collect(&session);
    let b = collect(&session);
    assert_eq!(a.len(), b.len());
    for (x, y) in a.iter().zip(b.iter()) {
        let x = x.as_ref().unwrap();
        let y = y.as_ref().unwrap();
        assert_eq!(x.address, y.address);
        assert_eq!(x.size, y.size);
        assert_eq!(x.name.text, y.name.text);
        assert_eq!(x.lines.len(), y.lines.len());
        assert_eq!(x.inlinees.len(), y.inlinees.len());
    }
}

/// The file iterator enumerates every unit's file table.
#[test]
fn file_iterator_lists_unit_files() {
    let session = session_of(vec![single_function_unit()], vec![]);
    let mut it = session.files();
    let mut names: Vec<Vec<u8>> = Vec::new();
    while let Some(entry) = it.next() {
        let entry = entry.unwrap();
        assert_eq!(entry.compilation_dir, b"/src".to_vec());
        names.push(entry.info.name);
    }
    assert_eq!(names, vec![b"f0.c".to_vec(), b"f1.c".to_vec(), b"f2.c".to_vec()]);
}

/// The session serves no source content.
#[test]
fn source_by_path_is_empty() {
    let session = session_of(vec![], vec![]);
    assert!(session.source_by_path("/src/f1.c").unwrap().is_none());
}

/// The language of the unit is taken from its top-level entry.
#[test]
fn unit_language_reaches_function_names() {
    let unit = UnitSlot::Present(UnitData {
        header_offset: 0,
        end_offset: 100,
        low_pc: 0x1000,
        comp_dir: None,
        line_program: None,
        dies: vec![
            die(
                DieTag::Other,
                1,
                0,
                vec![attr(AttrName::Language, AttrValue::Lang(0x001c))],
            ),
            die(
                DieTag::Subprogram,
                10,
                1,
                vec![
                    attr(AttrName::LowPc, AttrValue::Addr(0x1000)),
                    attr(AttrName::HighPc, AttrValue::Addr(0x1010)),
                    attr(AttrName::Name, AttrValue::Bytes(b"f".to_vec())),
                ],
            ),
        ],
    });
    let session = session_of(vec![unit], vec![]);
    let fs = collect(&session);
    assert_eq!(fs[0].as_ref().unwrap().name.language, Language::Rust);
}

/// A unit whose producer mangles names lossily prefers DWARF names over
/// the symbol table.
#[test]
fn dart_vm_units_prefer_dwarf_names() {
    let unit = UnitSlot::Present(UnitData {
        header_offset: 0,
        end_offset: 100,
        low_pc: 0x1000,
        comp_dir: None,
        line_program: None,
        dies: vec![
            die(
                DieTag::Other,
                1,
                0,
                vec![attr(AttrName::Producer, AttrValue::Bytes(b"Dart VM".to_vec()))],
            ),
            die(
                DieTag::Subprogram,
                10,
                1,
                vec![
                    attr(AttrName::LowPc, AttrValue::Addr(0x1000)),
                    attr(AttrName::HighPc, AttrValue::Addr(0x1010)),
                    attr(AttrName::Name, AttrValue::Bytes(b"dart_name".to_vec())),
                ],
            ),
        ],
    });
    let session = session_of(
        vec![unit],
        vec![SymbolMapEntry { address: 0x1000, name: Some(String::from("sym")) }],
    );
    let fs = collect(&session);
    assert_eq!(fs[0].as_ref().unwrap().name.text, "dart_name");
}

/// A unit without a top-level entry reports corrupted data.
#[test]
fn unit_without_top_die_is_corrupted() {
    let unit = UnitSlot::Present(UnitData {
        header_offset: 0,
        end_offset: 100,
        low_pc: 0x1000,
        comp_dir: None,
        line_program: None,
        dies: vec![],
    });
    let session = session_of(vec![unit], vec![]);
    let fs = collect(&session);
    assert_eq!(fs[0].as_ref().unwrap_err(), &DwarfErrorKind::CorruptedData);
}

/// In a relocatable object a function placed at address zero survives.
#[test]
fn relocatable_objects_keep_zero_addresses() {
    let unit = UnitSlot::Present(UnitData {
        header_offset: 0,
        end_offset: 100,
        low_pc: 0,
        comp_dir: None,
        line_program: None,
        dies: vec![
            root_die(),
            die(
                DieTag::Subprogram,
                10,
                1,
                vec![
                    attr(AttrName::LowPc, AttrValue::Addr(0)),
                    attr(AttrName::HighPc, AttrValue::Addr(0x10)),
                    attr(AttrName::Name, AttrValue::Bytes(b"h".to_vec())),
                ],
            ),
        ],
    });
    let data = DwarfData::new(
        vec![unit],
        SymbolMap::new(vec![]),
        0,
        ObjectKind::Relocatable,
    )
    .unwrap();
    let session = DwarfDebugSession::new(data);
    let fs = collect(&session);
    assert_eq!(fs.len(), 1);
    let h = fs[0].as_ref().unwrap();
    assert_eq!((h.address, h.size), (0, 0x10));
}

/// The global address offset shifts every emitted address.
#[test]
fn address_offset_shifts_emitted_functions() {
    let data = DwarfData::new(
        vec![single_function_unit()],
        SymbolMap::new(vec![]),
        0x100,
        ObjectKind::Linked,
    )
    .unwrap();
    let session = DwarfDebugSession::new(data);
    let fs = collect(&session);
    let f = fs[0].as_ref().unwrap();
    assert_eq!(f.address, 0xF00);
    assert_eq!(f.lines[0].address, 0xF00);
}

/// A loaded bitcode symbol map substitutes hidden names everywhere names
/// are resolved.
#[test]
fn loaded_symbol_map_substitutes_names() {
    let data = DwarfData::new(
        vec![single_function_unit()],
        SymbolMap::new(vec![]),
        0,
        ObjectKind::Linked,
    )
    .unwrap();
    let mut session = DwarfDebugSession::new(data);
    session.load_symbolmap(Some(BcSymbolMap::new(vec![
        BcSymbolMapEntry { name: b"f".to_vec(), replacement: String::from("renamed_f") },
        BcSymbolMapEntry { name: b"/src".to_vec(), replacement: String::from("/home/user") },
    ])));
    let fs = collect(&session);
    let f = fs[0].as_ref().unwrap();
    assert_eq!(f.name.text, "renamed_f");
    assert_eq!(f.compilation_dir, b"/home/user".to_vec());
}
