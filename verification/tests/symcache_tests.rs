//! Tests for the symbol-cache lookup format.

use dwarfinfo::symcache::CacheError;
use dwarfinfo::symcache::CacheFileRecord;
use dwarfinfo::symcache::CacheFunctionRecord;
use dwarfinfo::symcache::CacheSourceLocation;
use dwarfinfo::symcache::Format;

fn sample_cache() -> Format {
    let strings = vec![
        String::from("inner"),
        String::from("outer_inline"),
        String::from("outer"),
        String::from("dir"),
        String::from("file.c"),
        String::from("/comp"),
    ];
    let functions = vec![
        CacheFunctionRecord { name_idx: 0 },
        CacheFunctionRecord { name_idx: 1 },
        CacheFunctionRecord { name_idx: 2 },
    ];
    let files = vec![CacheFileRecord {
        comp_dir_idx: Some(5),
        directory_idx: Some(3),
        path_name_idx: Some(4),
    }];
    // The trailing two source locations align with the two ranges; the
    // first two are reachable only through inline chains.
    let source_locations = vec![
        CacheSourceLocation {
            line: Some(10),
            file_idx: Some(0),
            function_idx: Some(2),
            inlined_into_idx: None,
        },
        CacheSourceLocation {
            line: Some(20),
            file_idx: Some(0),
            function_idx: Some(1),
            inlined_into_idx: Some(0),
        },
        CacheSourceLocation {
            line: Some(30),
            file_idx: Some(0),
            function_idx: Some(0),
            inlined_into_idx: Some(1),
        },
        CacheSourceLocation {
            line: Some(31),
            file_idx: Some(0),
            function_idx: Some(0),
            inlined_into_idx: Some(1),
        },
    ];
    let ranges = vec![0x0u32, 0x10u32];
    Format::new(ranges, source_locations, files, functions, strings, 0x5000).unwrap()
}

#[test]
fn exact_hit_walks_full_inline_chain() {
    let cache = sample_cache();
    let mut it = cache.lookup(0x5000);
    let first = it.next().unwrap().unwrap();
    assert_eq!(first.line(), Some(30));
    assert_eq!(first.function().unwrap().unwrap().name().unwrap(), "inner");
    let second = it.next().unwrap().unwrap();
    assert_eq!(second.line(), Some(20));
    assert_eq!(
        second.function().unwrap().unwrap().name().unwrap(),
        "outer_inline"
    );
    let third = it.next().unwrap().unwrap();
    assert_eq!(third.line(), Some(10));
    assert_eq!(third.function().unwrap().unwrap().name().unwrap(), "outer");
    assert!(it.next().unwrap().is_none());
}

#[test]
fn outermost_frame_is_the_noninline_function() {
    // The chain ends at the enclosing non-inline function's entry.
    let cache = sample_cache();
    let mut it = cache.lookup(0x5010);
    let mut last_name = String::new();
    while let Some(loc) = it.next().unwrap() {
        last_name = loc.function().unwrap().unwrap().name().unwrap().to_string();
    }
    assert_eq!(last_name, "outer");
}

#[test]
fn lookup_between_range_starts_uses_following_entry() {
    let cache = sample_cache();
    let mut it = cache.lookup(0x5004);
    let first = it.next().unwrap().unwrap();
    assert_eq!(first.line(), Some(31));
}

#[test]
fn lookup_below_address_offset_is_empty() {
    let cache = sample_cache();
    let mut it = cache.lookup(0x4FFF);
    assert!(it.next().unwrap().is_none());
}

#[test]
fn lookup_above_all_ranges_is_empty() {
    let cache = sample_cache();
    let mut it = cache.lookup(0x6000);
    assert!(it.next().unwrap().is_none());
}

#[test]
fn full_path_joins_all_fragments() {
    let cache = sample_cache();
    let mut it = cache.lookup(0x5000);
    let loc = it.next().unwrap().unwrap();
    let file = loc.file().unwrap().unwrap();
    assert_eq!(file.comp_dir().unwrap().unwrap(), "/comp");
    assert_eq!(file.directory().unwrap().unwrap(), "dir");
    assert_eq!(file.path_name().unwrap(), "file.c");
    assert_eq!(file.full_path().unwrap(), "/comp/dir/file.c");
}

#[test]
fn absolute_directory_overrides_earlier_fragments() {
    let strings = vec![String::from("/comp"), String::from("/usr/include"), String::from("x.h")];
    let files = vec![CacheFileRecord {
        comp_dir_idx: Some(0),
        directory_idx: Some(1),
        path_name_idx: Some(2),
    }];
    let locations = vec![CacheSourceLocation {
        line: None,
        file_idx: Some(0),
        function_idx: None,
        inlined_into_idx: None,
    }];
    let cache = Format::new(vec![0u32], locations, files, vec![], strings, 0).unwrap();
    let mut it = cache.lookup(0);
    let loc = it.next().unwrap().unwrap();
    let file = loc.file().unwrap().unwrap();
    assert_eq!(file.full_path().unwrap(), "/usr/include/x.h");
}

#[test]
fn dangling_references_are_reported() {
    let strings = vec![String::from("f")];
    let locations = vec![CacheSourceLocation {
        line: None,
        file_idx: Some(7),
        function_idx: Some(8),
        inlined_into_idx: Some(9),
    }];
    let cache = Format::new(vec![0u32], locations, vec![], vec![], strings, 0).unwrap();
    let mut it = cache.lookup(0);
    let loc = it.next().unwrap().unwrap();
    assert_eq!(
        loc.file().unwrap().unwrap_err(),
        CacheError::InvalidFileReference(7)
    );
    assert_eq!(
        loc.function().unwrap_err(),
        CacheError::InvalidFunctionReference(8)
    );
    assert_eq!(
        it.next().unwrap_err(),
        CacheError::InvalidSourceLocationReference(9)
    );
}

#[test]
fn dangling_string_reference_is_reported() {
    let locations = vec![CacheSourceLocation {
        line: None,
        file_idx: None,
        function_idx: Some(0),
        inlined_into_idx: None,
    }];
    let functions = vec![CacheFunctionRecord { name_idx: 42 }];
    let cache = Format::new(vec![0u32], locations, vec![], functions, vec![], 0).unwrap();
    let mut it = cache.lookup(0);
    let loc = it.next().unwrap().unwrap();
    let function = loc.function().unwrap().unwrap();
    assert_eq!(
        function.name().unwrap_err(),
        CacheError::InvalidStringReference(42)
    );
}

#[test]
fn malformed_tables_are_refused() {
    // Unsorted ranges.
    assert!(Format::new(
        vec![0x10u32, 0x0u32],
        vec![
            CacheSourceLocation {
                line: None,
                file_idx: None,
                function_idx: None,
                inlined_into_idx: None
            };
            2
        ],
        vec![],
        vec![],
        vec![],
        0
    )
    .is_none());
    // Fewer source locations than ranges.
    assert!(Format::new(vec![0x0u32, 0x10u32], vec![], vec![], vec![], vec![], 0).is_none());
}

#[test]
fn missing_fields_resolve_to_nothing() {
    let locations = vec![CacheSourceLocation {
        line: None,
        file_idx: None,
        function_idx: None,
        inlined_into_idx: None,
    }];
    let cache = Format::new(vec![0u32], locations, vec![], vec![], vec![], 0).unwrap();
    let mut it = cache.lookup(0);
    let loc = it.next().unwrap().unwrap();
    assert_eq!(loc.line(), None);
    assert!(loc.file().is_none());
    assert!(loc.function().unwrap().is_none());
    assert!(it.next().unwrap().is_none());
}

#[test]
fn lookup_beyond_the_32_bit_space_is_empty() {
    let locations = vec![CacheSourceLocation {
        line: None,
        file_idx: None,
        function_idx: None,
        inlined_into_idx: None,
    }];
    let cache = Format::new(vec![0u32], locations, vec![], vec![], vec![], 0x100).unwrap();
    let mut it = cache.lookup(0x100 + (u32::MAX as u64) + 1);
    assert!(it.next().unwrap().is_none());
}

#[test]
fn lookup_below_the_first_range_starts_at_its_entry() {
    // The preserved below-bounds behaviour: a probe below every range
    // start walks the first range's chain.
    let shifted = Format::new(
        vec![0x10u32, 0x20u32],
        vec![
            CacheSourceLocation {
                line: Some(1),
                file_idx: None,
                function_idx: None,
                inlined_into_idx: None,
            },
            CacheSourceLocation {
                line: Some(2),
                file_idx: None,
                function_idx: None,
                inlined_into_idx: None,
            },
        ],
        vec![],
        vec![],
        vec![],
        0,
    )
    .unwrap();
    let mut it = shifted.lookup(0x5);
    let first = it.next().unwrap().unwrap();
    assert_eq!(first.line(), Some(1));
}
