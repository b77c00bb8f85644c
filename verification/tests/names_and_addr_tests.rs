//! Tests for the small helpers: language mapping, address adjustment,
//! name pass-through, the symbol table, errors, and range aggregation.

use dwarfinfo::addr::apply_address_offset;
use dwarfinfo::base::AddrRange;
use dwarfinfo::base::Language;
use dwarfinfo::builder::prepare_function_ranges;
use dwarfinfo::builder::SeenRanges;
use dwarfinfo::error::DwarfError;
use dwarfinfo::error::DwarfErrorKind;
use dwarfinfo::names::bytes_to_string_lossy;
use dwarfinfo::names::language_from_dwarf;
use dwarfinfo::names::resolve_byte_name;
use dwarfinfo::names::resolve_cow_name;
use dwarfinfo::names::BcSymbolMap;
use dwarfinfo::names::BcSymbolMapEntry;
use dwarfinfo::names::SymbolMap;
use dwarfinfo::names::SymbolMapEntry;

#[test]
fn language_codes_map_to_languages() {
    assert_eq!(language_from_dwarf(0x0001), Language::C);
    assert_eq!(language_from_dwarf(0x0002), Language::C);
    assert_eq!(language_from_dwarf(0x000c), Language::C);
    assert_eq!(language_from_dwarf(0x001d), Language::C);
    assert_eq!(language_from_dwarf(0x0004), Language::Cpp);
    assert_eq!(language_from_dwarf(0x0019), Language::Cpp);
    assert_eq!(language_from_dwarf(0x001a), Language::Cpp);
    assert_eq!(language_from_dwarf(0x0021), Language::Cpp);
    assert_eq!(language_from_dwarf(0x0013), Language::D);
    assert_eq!(language_from_dwarf(0x0016), Language::Go);
    assert_eq!(language_from_dwarf(0x0010), Language::ObjC);
    assert_eq!(language_from_dwarf(0x0011), Language::ObjCpp);
    assert_eq!(language_from_dwarf(0x001c), Language::Rust);
    assert_eq!(language_from_dwarf(0x001e), Language::Swift);
    assert_eq!(language_from_dwarf(0x9999), Language::Unknown);
}

#[test]
fn address_offset_shifts_and_wraps() {
    assert_eq!(apply_address_offset(0x1000, 0x10), 0x0FF0);
    assert_eq!(apply_address_offset(0x1000, -0x10), 0x1010);
    assert_eq!(apply_address_offset(0x0, 0x1), u64::MAX);
    assert_eq!(apply_address_offset(u64::MAX, -0x1), 0x0);
}

#[test]
fn name_passthrough_is_identity_without_map_data() {
    let map = BcSymbolMap::empty();
    assert!(map.resolve_opt(b"anything").is_none());
    assert_eq!(resolve_byte_name(Some(&map), b"bytes"), b"bytes");
    assert_eq!(resolve_byte_name(None, b"bytes"), b"bytes");
    assert_eq!(resolve_cow_name(Some(&map), String::from("n")), "n");
    assert_eq!(resolve_cow_name(None, String::from("n")), "n");
}

#[test]
fn symbol_map_substitutes_known_names() {
    let map = BcSymbolMap::new(vec![
        BcSymbolMapEntry {
            name: b"__hidden#1_".to_vec(),
            replacement: String::from("original_fn"),
        },
        BcSymbolMapEntry { name: b"__hidden#1_".to_vec(), replacement: String::from("shadowed") },
    ]);
    // The first matching entry wins.
    assert_eq!(map.resolve_opt(b"__hidden#1_"), Some("original_fn"));
    assert!(map.resolve_opt(b"__hidden#2_").is_none());
    assert_eq!(resolve_byte_name(Some(&map), b"__hidden#1_"), b"original_fn");
    assert_eq!(
        resolve_cow_name(Some(&map), String::from("__hidden#1_")),
        "original_fn"
    );
    let copy = map.duplicate();
    assert_eq!(copy.resolve_opt(b"__hidden#1_"), Some("original_fn"));
}

#[test]
fn lossy_decoding_replaces_invalid_sequences() {
    assert_eq!(bytes_to_string_lossy(b"plain"), "plain");
    assert_eq!(bytes_to_string_lossy(&[0x66, 0xFF]), "f\u{FFFD}");
    assert_eq!(bytes_to_string_lossy(b""), "");
}

#[test]
fn symbol_lookup_is_by_exact_start_address() {
    let map = SymbolMap::new(vec![
        SymbolMapEntry { address: 0x100, name: Some(String::from("a")) },
        SymbolMapEntry { address: 0x200, name: None },
        SymbolMapEntry { address: 0x200, name: Some(String::from("shadowed")) },
    ]);
    assert_eq!(map.lookup_exact(0x100).unwrap().name.as_deref(), Some("a"));
    // The first entry at the address wins, even without a name.
    assert!(map.lookup_exact(0x200).unwrap().name.is_none());
    assert!(map.lookup_exact(0x150).is_none());
}

#[test]
fn errors_carry_their_kind_and_a_message() {
    let e = DwarfError::new(DwarfErrorKind::InvalidUnitRef(7));
    assert_eq!(e.kind(), DwarfErrorKind::InvalidUnitRef(7));
    assert!(!e.message().is_empty());
    let e2: DwarfError = DwarfErrorKind::UnexpectedInline.into();
    assert_eq!(e2.kind(), DwarfErrorKind::UnexpectedInline);
    assert!(!DwarfErrorKind::CorruptedData.message().is_empty());
}

#[test]
fn range_buffer_is_sorted_before_aggregation() {
    let mut buf = vec![
        AddrRange { begin: 0x200, end: 0x210 },
        AddrRange { begin: 0x100, end: 0x120 },
        AddrRange { begin: 0x180, end: 0x188 },
    ];
    let (address, size) = prepare_function_ranges(&mut buf, 0);
    assert_eq!(
        buf,
        vec![
            AddrRange { begin: 0x100, end: 0x120 },
            AddrRange { begin: 0x180, end: 0x188 },
            AddrRange { begin: 0x200, end: 0x210 },
        ]
    );
    assert_eq!(address, 0x100);
    assert_eq!(size, 0x20 + 0x8 + 0x10);
}

#[test]
fn aggregation_applies_the_address_offset() {
    let mut buf = vec![AddrRange { begin: 0x1000, end: 0x1010 }];
    let (address, size) = prepare_function_ranges(&mut buf, 0x100);
    assert_eq!(address, 0xF00);
    assert_eq!(size, 0x10);
}

#[test]
fn seen_ranges_deduplicate_pairs() {
    let mut seen = SeenRanges::new();
    assert!(seen.insert((0x1000, 0x10)));
    assert!(!seen.insert((0x1000, 0x10)));
    assert!(seen.insert((0x1000, 0x20)));
    assert!(seen.insert((0x2000, 0x10)));
}
