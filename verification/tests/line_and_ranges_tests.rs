//! Tests for the line-program index and the range parsing of a DIE.

use dwarfinfo::base::AddrRange;
use dwarfinfo::base::FileInfo;
use dwarfinfo::base::ObjectKind;
use dwarfinfo::die::parse_ranges;
use dwarfinfo::die::AttrName;
use dwarfinfo::die::AttrValue;
use dwarfinfo::die::DieAttr;
use dwarfinfo::die::DieData;
use dwarfinfo::die::DieTag;
use dwarfinfo::die::RangeListItem;
use dwarfinfo::error::DwarfErrorKind;
use dwarfinfo::line::DwarfLineProgram;
use dwarfinfo::line::LineProgramRow;

fn row(address: u64, file_index: u64, line: u64) -> LineProgramRow {
    LineProgramRow { address, file_index, line: Some(line), end_sequence: false }
}

fn end_row(address: u64) -> LineProgramRow {
    LineProgramRow { address, file_index: 0, line: None, end_sequence: true }
}

fn die(tag: DieTag, offset: usize, depth: u32, attrs: Vec<DieAttr>) -> DieData {
    DieData { offset, depth, tag, attrs }
}

fn attr(name: AttrName, value: AttrValue) -> DieAttr {
    DieAttr { name, value }
}

#[test]
fn prepare_fills_row_sizes() {
    let rows = vec![row(0x1000, 1, 10), row(0x1008, 1, 11), end_row(0x1010)];
    let lp = DwarfLineProgram::prepare(&rows, vec![]);
    let got = lp.get_rows(&AddrRange { begin: 0x1000, end: 0x1010 });
    assert_eq!(got.len(), 2);
    assert_eq!(got[0].address, 0x1000);
    assert_eq!(got[0].size, Some(8));
    assert_eq!(got[0].line, Some(10));
    assert_eq!(got[1].address, 0x1008);
    assert_eq!(got[1].size, Some(8));
    assert_eq!(got[1].line, Some(11));
}

#[test]
fn unterminated_sequence_covers_one_byte() {
    // No end-of-sequence marker: the last row is closed one byte past its
    // address and still answers overlapping queries.
    let rows = vec![row(0x2000, 1, 5), row(0x2004, 1, 6)];
    let lp = DwarfLineProgram::prepare(&rows, vec![]);
    let got = lp.get_rows(&AddrRange { begin: 0x2004, end: 0x2005 });
    assert_eq!(got.len(), 1);
    assert_eq!(got[0].address, 0x2004);
    assert_eq!(got[0].size, None);
    let both = lp.get_rows(&AddrRange { begin: 0x2000, end: 0x2005 });
    assert_eq!(both.len(), 2);
}

#[test]
fn duplicate_address_keeps_last_file_and_line() {
    let rows = vec![row(0x3000, 1, 1), row(0x3000, 2, 2), row(0x3004, 1, 3), end_row(0x3008)];
    let lp = DwarfLineProgram::prepare(&rows, vec![]);
    let got = lp.get_rows(&AddrRange { begin: 0x3000, end: 0x3008 });
    assert_eq!(got.len(), 2);
    assert_eq!(got[0].file_index, 2);
    assert_eq!(got[0].line, Some(2));
}

#[test]
fn zero_address_rows_are_dropped() {
    let rows = vec![
        LineProgramRow { address: 0, file_index: 1, line: Some(7), end_sequence: false },
        row(0x4000, 1, 8),
        end_row(0x4008),
    ];
    let lp = DwarfLineProgram::prepare(&rows, vec![]);
    let got = lp.get_rows(&AddrRange { begin: 0x4000, end: 0x4008 });
    assert_eq!(got.len(), 1);
    assert_eq!(got[0].address, 0x4000);
}

#[test]
fn backwards_row_is_skipped() {
    let rows = vec![row(0x5000, 1, 1), row(0x4000, 1, 2), end_row(0x5008)];
    let lp = DwarfLineProgram::prepare(&rows, vec![]);
    let got = lp.get_rows(&AddrRange { begin: 0x5000, end: 0x5008 });
    assert_eq!(got.len(), 1);
    assert_eq!(got[0].line, Some(1));
}

#[test]
fn sequences_are_sorted_before_queries() {
    // Two overlapping sequences arrive out of order; queries must see the
    // one with the lower start first.
    let rows = vec![
        row(0x1800, 5, 50),
        end_row(0x1900),
        row(0x1000, 6, 60),
        row(0x1700, 6, 61),
        end_row(0x2000),
    ];
    let lp = DwarfLineProgram::prepare(&rows, vec![]);
    let got = lp.get_rows(&AddrRange { begin: 0x1850, end: 0x1860 });
    assert_eq!(got.len(), 1);
    assert_eq!(got[0].file_index, 6);
    assert_eq!(got[0].line, Some(61));
}

#[test]
fn file_table_is_kept() {
    let files = vec![
        FileInfo { dir: b"".to_vec(), name: b"a.c".to_vec() },
        FileInfo { dir: b"sub".to_vec(), name: b"b.c".to_vec() },
    ];
    let lp = DwarfLineProgram::prepare(&vec![], files);
    assert_eq!(lp.file_count(), 2);
    assert_eq!(lp.file(1).unwrap().name, b"b.c".to_vec());
    assert!(lp.file(2).is_none());
}

#[test]
fn low_and_high_pc_synthesise_a_range() {
    let d = die(
        DieTag::Subprogram,
        10,
        1,
        vec![
            attr(AttrName::LowPc, AttrValue::Addr(0x1000)),
            attr(AttrName::HighPc, AttrValue::Addr(0x1010)),
        ],
    );
    let mut buf: Vec<AddrRange> = Vec::new();
    let (line, file) = parse_ranges(&d, ObjectKind::Linked, &mut buf).unwrap();
    assert_eq!(line, None);
    assert_eq!(file, None);
    assert_eq!(buf, vec![AddrRange { begin: 0x1000, end: 0x1010 }]);
}

#[test]
fn relative_high_pc_is_added_to_low_pc() {
    let d = die(
        DieTag::Subprogram,
        10,
        1,
        vec![
            attr(AttrName::LowPc, AttrValue::Addr(0x6000)),
            attr(AttrName::HighPc, AttrValue::Udata(0x10)),
        ],
    );
    let mut buf: Vec<AddrRange> = Vec::new();
    parse_ranges(&d, ObjectKind::Linked, &mut buf).unwrap();
    assert_eq!(buf, vec![AddrRange { begin: 0x6000, end: 0x6010 }]);
}

#[test]
fn inverted_range_is_an_error() {
    let d = die(
        DieTag::Subprogram,
        10,
        1,
        vec![
            attr(AttrName::LowPc, AttrValue::Addr(0x6010)),
            attr(AttrName::HighPc, AttrValue::Addr(0x6000)),
        ],
    );
    let mut buf: Vec<AddrRange> = Vec::new();
    let err = parse_ranges(&d, ObjectKind::Linked, &mut buf).unwrap_err();
    assert_eq!(err.kind(), DwarfErrorKind::InvertedFunctionRange);
}

#[test]
fn empty_and_zero_ranges_vanish() {
    // low_pc == high_pc marks an empty entry.
    let empty = die(
        DieTag::Subprogram,
        10,
        1,
        vec![
            attr(AttrName::LowPc, AttrValue::Addr(0x1000)),
            attr(AttrName::HighPc, AttrValue::Addr(0x1000)),
        ],
    );
    let mut buf: Vec<AddrRange> = Vec::new();
    parse_ranges(&empty, ObjectKind::Linked, &mut buf).unwrap();
    assert!(buf.is_empty());

    // A zero low_pc outside relocatable objects marks eliminated code.
    let eliminated = die(
        DieTag::Subprogram,
        10,
        1,
        vec![
            attr(AttrName::LowPc, AttrValue::Addr(0)),
            attr(AttrName::HighPc, AttrValue::Addr(0x10)),
        ],
    );
    let mut buf: Vec<AddrRange> = Vec::new();
    parse_ranges(&eliminated, ObjectKind::Linked, &mut buf).unwrap();
    assert!(buf.is_empty());

    // In a relocatable object the same DIE keeps its range.
    let mut buf: Vec<AddrRange> = Vec::new();
    parse_ranges(&eliminated, ObjectKind::Relocatable, &mut buf).unwrap();
    assert_eq!(buf, vec![AddrRange { begin: 0, end: 0x10 }]);
}

#[test]
fn zero_based_list_entries_are_dropped_unless_relocatable() {
    let items = vec![
        RangeListItem::Span(AddrRange { begin: 0, end: 0x10 }),
        RangeListItem::Span(AddrRange { begin: 0x100, end: 0x200 }),
    ];
    let d = die(
        DieTag::Subprogram,
        10,
        1,
        vec![attr(AttrName::Ranges, AttrValue::RangeList(items.clone()))],
    );
    let mut buf: Vec<AddrRange> = Vec::new();
    parse_ranges(&d, ObjectKind::Linked, &mut buf).unwrap();
    assert_eq!(buf, vec![AddrRange { begin: 0x100, end: 0x200 }]);

    let d2 = die(
        DieTag::Subprogram,
        10,
        1,
        vec![attr(AttrName::Ranges, AttrValue::RangeList(items))],
    );
    let mut buf: Vec<AddrRange> = Vec::new();
    parse_ranges(&d2, ObjectKind::Relocatable, &mut buf).unwrap();
    assert_eq!(
        buf,
        vec![AddrRange { begin: 0, end: 0x10 }, AddrRange { begin: 0x100, end: 0x200 }]
    );
}

#[test]
fn invalid_list_entries_are_skipped_and_corrupt_ones_fail() {
    let d = die(
        DieTag::Subprogram,
        10,
        1,
        vec![attr(
            AttrName::Ranges,
            AttrValue::RangeList(vec![
                RangeListItem::InvalidAddressRange,
                RangeListItem::Span(AddrRange { begin: 0x10, end: 0x20 }),
            ]),
        )],
    );
    let mut buf: Vec<AddrRange> = Vec::new();
    parse_ranges(&d, ObjectKind::Linked, &mut buf).unwrap();
    assert_eq!(buf, vec![AddrRange { begin: 0x10, end: 0x20 }]);

    let corrupt = die(
        DieTag::Subprogram,
        10,
        1,
        vec![attr(AttrName::Ranges, AttrValue::RangeList(vec![RangeListItem::Corrupt]))],
    );
    let mut buf: Vec<AddrRange> = Vec::new();
    let err = parse_ranges(&corrupt, ObjectKind::Linked, &mut buf).unwrap_err();
    assert_eq!(err.kind(), DwarfErrorKind::CorruptedData);
}

#[test]
fn call_site_attributes_are_collected() {
    let d = die(
        DieTag::InlinedSubroutine,
        10,
        2,
        vec![
            attr(AttrName::CallLine, AttrValue::Udata(99)),
            attr(AttrName::CallFile, AttrValue::FileIndex(2)),
            attr(AttrName::LowPc, AttrValue::Addr(0x2008)),
            attr(AttrName::HighPc, AttrValue::Addr(0x2014)),
        ],
    );
    let mut buf: Vec<AddrRange> = Vec::new();
    let (line, file) = parse_ranges(&d, ObjectKind::Linked, &mut buf).unwrap();
    assert_eq!(line, Some(99));
    assert_eq!(file, Some(2));
}

#[test]
fn unsupported_attribute_form_is_corrupted_data() {
    let d = die(
        DieTag::Subprogram,
        10,
        1,
        vec![attr(AttrName::LowPc, AttrValue::Unsupported)],
    );
    let mut buf: Vec<AddrRange> = Vec::new();
    let err = parse_ranges(&d, ObjectKind::Linked, &mut buf).unwrap_err();
    assert_eq!(err.kind(), DwarfErrorKind::CorruptedData);
}
