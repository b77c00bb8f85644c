//! The compact symbol-cache lookup format.
//!
//! A cache is a set of read-only tables: a sorted array of relative range
//! start addresses, a parallel array of source locations (the trailing
//! `ranges.len()` entries align one-to-one with the ranges, earlier entries
//! are reachable only through inline chains), and interned file, function and
//! string tables. [`Format::lookup`] resolves an instruction address to an
//! iterator over the inline chain at that address, innermost frame first.

use vstd::prelude::*;

verus! {

/// An error raised while reading records out of a symbol cache.
#[derive(Clone, Copy, Debug, PartialEq, Eq, Structural)]
pub enum CacheError {
    /// A file record referenced by index does not exist.
    InvalidFileReference(u32),
    /// A function record referenced by index does not exist.
    InvalidFunctionReference(u32),
    /// A source location referenced by index does not exist.
    InvalidSourceLocationReference(u32),
    /// A string referenced by index does not exist.
    InvalidStringReference(u32),
}

/// A raw file record: up to three path fragments, each an index into the
/// string table.
#[derive(Clone, Copy, Debug, PartialEq, Eq)]
pub struct CacheFileRecord {
    /// The compilation directory fragment.
    pub comp_dir_idx: Option<u32>,
    /// The parent directory fragment.
    pub directory_idx: Option<u32>,
    /// The file name fragment.
    pub path_name_idx: Option<u32>,
}

/// A raw function record: the index of its name in the string table.
#[derive(Clone, Copy, Debug, PartialEq, Eq)]
pub struct CacheFunctionRecord {
    /// The index of the (possibly mangled) name in the string table.
    pub name_idx: u32,
}

/// A raw source location: a `(function, file, line, inlined_into)` tuple
/// corresponding to an instruction in the executable.
#[derive(Clone, Copy, Debug, PartialEq, Eq)]
pub struct CacheSourceLocation {
    /// The source line, absent when no line information was recorded.
    pub line: Option<u32>,
    /// The index of the source file in the file table.
    pub file_idx: Option<u32>,
    /// The index of the function in the function table.
    pub function_idx: Option<u32>,
    /// The next outer frame of the inline chain.
    pub inlined_into_idx: Option<u32>,
}

/// Whether a sequence of relative addresses is strictly ascending.
pub open spec fn strictly_sorted_u32(s: Seq<u32>) -> bool {
    forall|i: int, j: int| 0 <= i < j < s.len() ==> s[i] < s[j]
}

/// How many entries of `s` are below `key`.
pub open spec fn num_below(s: Seq<u32>, key: u32) -> int
    decreases s.len(),
{
    if s.len() == 0 {
        0
    } else {
        num_below(s.drop_last(), key) + if s.last() < key {
            1int
        } else {
            0int
        }
    }
}

/// The relative address a probe translates to: `addr - addr_offset`, absent
/// when that underflows or does not fit the cache's 32-bit address space.
pub open spec fn rel_addr_of(addr_offset: u64, addr: u64) -> Option<u32> {
    if addr < addr_offset {
        None
    } else if addr - addr_offset > u32::MAX {
        None
    } else {
        Some((addr - addr_offset) as u32)
    }
}

/// The index into the source-location table where a lookup starts: the range
/// at or after the relative probe address, aligned to the trailing block of
/// the table. A probe above all ranges finds nothing.
pub open spec fn lookup_index(ranges: Seq<u32>, n_locs: int, rel: Option<u32>) -> Option<int> {
    match rel {
        None => None,
        Some(r) => {
            if num_below(ranges, r) == ranges.len() {
                None
            } else {
                Some(n_locs - ranges.len() + num_below(ranges, r))
            }
        },
    }
}

/// How many entries of `s` below index `k` are smaller than `key`, when `s`
/// is partitioned around `k`.
proof fn lemma_num_below_split(s: Seq<u32>, key: u32, k: int)
    requires
        0 <= k <= s.len(),
        forall|j: int| 0 <= j < k ==> s[j] < key,
        forall|j: int| k <= j < s.len() ==> s[j] >= key,
    ensures
        num_below(s, key) == k,
    decreases s.len(),
{
    if s.len() == 0 {
    } else if k == s.len() {
        lemma_num_below_split(s.drop_last(), key, k - 1);
    } else {
        lemma_num_below_split(s.drop_last(), key, k);
    }
}

/// Finds `key` in a strictly sorted vector: the exact index on a hit, the
/// insertion point on a miss.
fn binary_search_u32(v: &Vec<u32>, key: u32) -> (r: Result<usize, usize>)
    requires
        strictly_sorted_u32(v@),
    ensures
        match r {
            Ok(i) => i < v@.len() && v@[i as int] == key && i == num_below(v@, key),
            Err(i) => i <= v@.len() && i == num_below(v@, key) && (forall|j: int|
                0 <= j < v@.len() ==> v@[j] != key),
        },
{
    let mut lo: usize = 0;
    let mut hi: usize = v.len();
    while lo < hi
        invariant
            lo <= hi <= v@.len(),
            strictly_sorted_u32(v@),
            forall|j: int| 0 <= j < lo ==> v@[j] < key,
            forall|j: int| hi <= j < v@.len() ==> v@[j] > key,
        decreases hi - lo,
    {
        let mid = lo + (hi - lo) / 2;
        if v[mid] < key {
            lo = mid + 1;
        } else if v[mid] > key {
            hi = mid;
        } else {
            proof {
                lemma_num_below_split(v@, key, mid as int);
            }
            return Ok(mid);
        }
    }
    proof {
        lemma_num_below_split(v@, key, lo as int);
    }
    Err(lo)
}

/// What the result of joining two path fragments is. Relies on
/// `symbolic_common::join_path`, whose result depends on the two fragments
/// alone.
pub uninterp spec fn join_path_of(base: Seq<char>, other: Seq<char>) -> Seq<char>;

/// Relies on `symbolic_common::join_path`: joins two path fragments with a
/// platform-appropriate separator; an absolute second fragment replaces the
/// first, an empty fragment leaves the other unchanged.
#[verifier::external_body]
fn join_path(base: &str, other: &str) -> (r: String)
    ensures
        r@ == join_path_of(base@, other@),
        base@.len() == 0 ==> r@ == other@,
        other@.len() == 0 && base@.len() > 0 ==> r@ == base@,
{
    symbolic_common::join_path(base, other)
}

/// Whether an optional string-table index is in bounds of the table.
pub open spec fn frag_valid(idx: Option<u32>, table: Seq<String>) -> bool {
    match idx {
        None => true,
        Some(i) => i < table.len(),
    }
}

/// The characters an optional string-table index stands for, the empty
/// sequence when absent.
pub open spec fn frag_chars(idx: Option<u32>, table: Seq<String>) -> Seq<char> {
    match idx {
        None => Seq::empty(),
        Some(i) => table[i as int]@,
    }
}

/// An in-memory symbol cache, ready for lookups.
#[derive(Debug)]
pub struct Format {
    ranges: Vec<u32>,
    source_locations: Vec<CacheSourceLocation>,
    files: Vec<CacheFileRecord>,
    functions: Vec<CacheFunctionRecord>,
    string_table: Vec<String>,
    addr_offset: u64,
}

impl Format {
    /// The tables a cache must satisfy to answer lookups: ranges strictly
    /// ascending, and at least one source location per range, all
    /// addressable with 32-bit indices.
    pub open spec fn tables_wf(
        ranges: Seq<u32>,
        source_locations: Seq<CacheSourceLocation>,
    ) -> bool {
        &&& strictly_sorted_u32(ranges)
        &&& source_locations.len() >= ranges.len()
        &&& source_locations.len() <= u32::MAX
    }

    #[verifier::type_invariant]
    closed spec fn wf(self) -> bool {
        Format::tables_wf(self.ranges@, self.source_locations@)
    }

    /// The sorted relative range start addresses.
    pub closed spec fn ranges_spec(&self) -> Seq<u32> {
        self.ranges@
    }

    /// The source-location table.
    pub closed spec fn source_locations_spec(&self) -> Seq<CacheSourceLocation> {
        self.source_locations@
    }

    /// The file table.
    pub closed spec fn files_spec(&self) -> Seq<CacheFileRecord> {
        self.files@
    }

    /// The function table.
    pub closed spec fn functions_spec(&self) -> Seq<CacheFunctionRecord> {
        self.functions@
    }

    /// The string table.
    pub closed spec fn strings_spec(&self) -> Seq<String> {
        self.string_table@
    }

    /// The global offset translating runtime addresses into the cache's
    /// 32-bit relative address space.
    pub closed spec fn addr_offset_spec(&self) -> u64 {
        self.addr_offset
    }

    /// Assembles a cache from its tables, refusing tables that cannot answer
    /// lookups.
    pub fn new(
        ranges: Vec<u32>,
        source_locations: Vec<CacheSourceLocation>,
        files: Vec<CacheFileRecord>,
        functions: Vec<CacheFunctionRecord>,
        string_table: Vec<String>,
        addr_offset: u64,
    ) -> (r: Option<Format>)
        ensures
            r is Some <==> Format::tables_wf(ranges@, source_locations@),
            r matches Some(f) ==> {
                &&& f.ranges_spec() == ranges@
                &&& f.source_locations_spec() == source_locations@
                &&& f.files_spec() == files@
                &&& f.functions_spec() == functions@
                &&& f.strings_spec() == string_table@
                &&& f.addr_offset_spec() == addr_offset
            },
    {
        if source_locations.len() < ranges.len() {
            return None;
        }
        if source_locations.len() > u32::MAX as usize {
            return None;
        }
        let mut i: usize = 1;
        while i < ranges.len()
            invariant
                1 <= i,
                forall|a: int, b: int| 0 <= a < b < i && b < ranges@.len() ==> ranges@[a] < ranges@[b],
            decreases ranges@.len() - i,
        {
            if ranges[i - 1] >= ranges[i] {
                return None;
            }
            i = i + 1;
        }
        Some(
            Format {
                ranges,
                source_locations,
                files,
                functions,
                string_table,
                addr_offset,
            },
        )
    }

    /// Translates a runtime address into the cache's relative address space.
    fn offset_addr(&self, addr: u64) -> (r: Option<u32>)
        ensures
            r == rel_addr_of(self.addr_offset_spec(), addr),
    {
        if addr < self.addr_offset {
            None
        } else {
            let rel = addr - self.addr_offset;
            if rel > u32::MAX as u64 {
                None
            } else {
                Some(rel as u32)
            }
        }
    }

    /// Looks up an instruction address, yielding an iterator over the inline
    /// chain at that address, innermost frame first. The chain starts at
    /// the source location aligned with the range at or after the relative
    /// address: a probe below the first range starts at the first range's
    /// location, and a probe above all ranges (or below the address offset,
    /// or beyond the 32-bit relative space) yields an empty iterator.
    pub fn lookup<'a>(&'a self, addr: u64) -> (it: SourceLocationIter<'a>)
        ensures
            it.format == self,
            match lookup_index(
                self.ranges_spec(),
                self.source_locations_spec().len() as int,
                rel_addr_of(self.addr_offset_spec(), addr),
            ) {
                None => it.source_location_idx is None,
                Some(i) => it.source_location_idx == Some(i as u32),
            },
    {
        proof {
            use_type_invariant(self);
        }
        let source_location_start = self.source_locations.len() - self.ranges.len();
        let relative_addr = self.offset_addr(addr);
        let source_location_idx: Option<u32> = match relative_addr {
            None => None,
            Some(rel) => match binary_search_u32(&self.ranges, rel) {
                Ok(idx) => {
                    assert(source_location_start + idx < self.source_locations@.len());
                    Some((source_location_start + idx) as u32)
                },
                Err(idx) => {
                    if idx == self.ranges.len() {
                        None
                    } else {
                        assert(source_location_start + idx < self.source_locations@.len());
                        Some((source_location_start + idx) as u32)
                    }
                },
            },
        };
        SourceLocationIter { format: self, source_location_idx }
    }

    /// Resolves a file record by index.
    fn get_file<'a>(&'a self, file_idx: u32) -> (r: Result<File<'a>, CacheError>)
        ensures
            file_idx < self.files_spec().len() ==> (r matches Ok(f) && f.format == self && f.file
                == self.files_spec()[file_idx as int]),
            file_idx >= self.files_spec().len() ==> (r matches Err(e) && e
                == CacheError::InvalidFileReference(file_idx)),
    {
        if (file_idx as usize) < self.files.len() {
            Ok(File { format: self, file: self.files[file_idx as usize] })
        } else {
            Err(CacheError::InvalidFileReference(file_idx))
        }
    }

    /// Resolves a string by index into the string table.
    fn get_string<'a>(&'a self, idx: u32) -> (r: Result<&'a str, CacheError>)
        ensures
            idx < self.strings_spec().len() ==> (r matches Ok(s) && s@ == self.strings_spec()[idx as int]@),
            idx >= self.strings_spec().len() ==> (r matches Err(e) && e
                == CacheError::InvalidStringReference(idx)),
    {
        if (idx as usize) < self.string_table.len() {
            Ok(self.string_table[idx as usize].as_str())
        } else {
            Err(CacheError::InvalidStringReference(idx))
        }
    }
}

/// A probe whose relative address equals the start of a range is answered by
/// exactly the source location aligned with that range.
pub proof fn lemma_range_exact_hit(ranges: Seq<u32>, n_locs: int, rel: u32, k: int)
    requires
        strictly_sorted_u32(ranges),
        n_locs >= ranges.len(),
        0 <= k < ranges.len(),
        ranges[k] == rel,
    ensures
        lookup_index(ranges, n_locs, Some(rel)) == Some(n_locs - ranges.len() + k),
{
    assert forall|j: int| 0 <= j < k implies ranges[j] < rel by {}
    assert forall|j: int| k <= j < ranges.len() implies ranges[j] >= rel by {
        if j > k {
            assert(ranges[k] < ranges[j]);
        }
    }
    lemma_num_below_split(ranges, rel, k);
}

/// A source file of a symbol cache.
///
/// A file has up to three path fragments, in the order compilation
/// directory, directory, path name; a later absolute fragment overrides the
/// earlier ones. [`File::full_path`] yields the concatenated path.
#[derive(Clone, Copy, Debug)]
pub struct File<'a> {
    /// The cache the record lives in.
    pub format: &'a Format,
    /// The raw record.
    pub file: CacheFileRecord,
}

impl<'a> File<'a> {
    /// Resolves the compilation directory of this source file.
    pub fn comp_dir(&self) -> (r: Option<Result<&'a str, CacheError>>)
        ensures
            r is Some <==> self.file.comp_dir_idx is Some,
            self.file.comp_dir_idx matches Some(idx) ==> {
                &&& idx < self.format.strings_spec().len() ==> (r matches Some(Ok(s)) && s@
                    == self.format.strings_spec()[idx as int]@)
                &&& idx >= self.format.strings_spec().len() ==> (r matches Some(Err(e)) && e
                    == CacheError::InvalidStringReference(idx))
            },
    {
        match self.file.comp_dir_idx {
            None => None,
            Some(idx) => Some(self.format.get_string(idx)),
        }
    }

    /// Resolves the parent directory of this source file.
    pub fn directory(&self) -> (r: Option<Result<&'a str, CacheError>>)
        ensures
            r is Some <==> self.file.directory_idx is Some,
            self.file.directory_idx matches Some(idx) ==> {
                &&& idx < self.format.strings_spec().len() ==> (r matches Some(Ok(s)) && s@
                    == self.format.strings_spec()[idx as int]@)
                &&& idx >= self.format.strings_spec().len() ==> (r matches Some(Err(e)) && e
                    == CacheError::InvalidStringReference(idx))
            },
    {
        match self.file.directory_idx {
            None => None,
            Some(idx) => Some(self.format.get_string(idx)),
        }
    }

    /// Resolves the file name fragment of this source file, the empty string
    /// when the record carries none.
    pub fn path_name(&self) -> (r: Result<&'a str, CacheError>)
        ensures
            frag_valid(self.file.path_name_idx, self.format.strings_spec()) ==> (r matches Ok(s)
                && s@ == frag_chars(self.file.path_name_idx, self.format.strings_spec())),
            !frag_valid(self.file.path_name_idx, self.format.strings_spec())
                ==> (r matches Err(e) && e == CacheError::InvalidStringReference(
                self.file.path_name_idx.unwrap(),
            )),
    {
        match self.file.path_name_idx {
            Some(idx) => self.format.get_string(idx),
            None => {
                let r = "";
                proof {
                    reveal_strlit("");
                }
                Ok(r)
            },
        }
    }

    /// Resolves and concatenates the full path from its fragments.
    ///
    /// The fragments are resolved in the order compilation directory,
    /// directory, path name; the first fragment whose string reference is
    /// invalid is reported.
    pub fn full_path(&self) -> (r: Result<String, CacheError>)
        ensures
            ({
                let t = self.format.strings_spec();
                let cd = self.file.comp_dir_idx;
                let dir = self.file.directory_idx;
                let nm = self.file.path_name_idx;
                &&& frag_valid(cd, t) && frag_valid(dir, t) && frag_valid(nm, t) ==> (r matches Ok(p)
                    && p@ == join_path_of(
                    join_path_of(frag_chars(cd, t), frag_chars(dir, t)),
                    frag_chars(nm, t),
                ))
                &&& !frag_valid(cd, t) ==> (r matches Err(e) && e
                    == CacheError::InvalidStringReference(cd.unwrap()))
                &&& frag_valid(cd, t) && !frag_valid(dir, t) ==> (r matches Err(e) && e
                    == CacheError::InvalidStringReference(dir.unwrap()))
                &&& frag_valid(cd, t) && frag_valid(dir, t) && !frag_valid(nm, t) ==> (r matches Err(
                    e,
                ) && e == CacheError::InvalidStringReference(nm.unwrap()))
            }),
    {
        let empty = "";
        proof {
            reveal_strlit("");
            assert(empty@ =~= Seq::<char>::empty());
        }
        let comp_dir: &str = match self.comp_dir() {
            Some(Ok(s)) => s,
            Some(Err(e)) => {
                return Err(e);
            },
            None => empty,
        };
        let directory: &str = match self.directory() {
            Some(Ok(s)) => s,
            Some(Err(e)) => {
                return Err(e);
            },
            None => empty,
        };
        let path_name: &str = match self.path_name() {
            Ok(s) => s,
            Err(e) => {
                return Err(e);
            },
        };
        let prefix = join_path(comp_dir, directory);
        let full_path = join_path(prefix.as_str(), path_name);
        Ok(full_path)
    }
}

/// A function record of a symbol cache.
#[derive(Clone, Copy, Debug)]
pub struct Function<'a> {
    /// The cache the record lives in.
    pub format: &'a Format,
    /// The raw record.
    pub function: CacheFunctionRecord,
}

impl<'a> Function<'a> {
    /// The (possibly mangled) name of this function.
    pub fn name(&self) -> (r: Result<&'a str, CacheError>)
        ensures
            self.function.name_idx < self.format.strings_spec().len() ==> (r matches Ok(s) && s@
                == self.format.strings_spec()[self.function.name_idx as int]@),
            self.function.name_idx >= self.format.strings_spec().len() ==> (r matches Err(e) && e
                == CacheError::InvalidStringReference(self.function.name_idx)),
    {
        self.format.get_string(self.function.name_idx)
    }
}

/// An iterator over the source locations of an inline chain, innermost frame
/// first.
#[derive(Clone, Copy, Debug)]
pub struct SourceLocationIter<'a> {
    /// The cache the chain lives in.
    pub format: &'a Format,
    /// The index of the next source location, absent when the chain ended.
    pub source_location_idx: Option<u32>,
}

impl<'a> SourceLocationIter<'a> {
    /// Yields the next source location in the inline chain, or `None` once
    /// the chain has ended. A dangling chain reference is reported as an
    /// error and the iterator stays where it was.
    pub fn next(&mut self) -> (r: Result<Option<SourceLocation<'a>>, CacheError>)
        ensures
            final (self).format == old(self).format,
            match old(self).source_location_idx {
                None => (r matches Ok(o) && o is None && final (self).source_location_idx is None),
                Some(idx) => {
                    &&& idx < old(self).format.source_locations_spec().len() ==> {
                        &&& r matches Ok(o)
                        &&& o matches Some(loc)
                        &&& loc.format == old(self).format
                        &&& loc.location == old(self).format.source_locations_spec()[idx as int]
                        &&& final (self).source_location_idx == old(
                            self,
                        ).format.source_locations_spec()[idx as int].inlined_into_idx
                    }
                    &&& idx >= old(self).format.source_locations_spec().len() ==> {
                        &&& (r matches Err(e) && e == CacheError::InvalidSourceLocationReference(idx))
                        &&& final (self).source_location_idx == old(self).source_location_idx
                    }
                },
            },
    {
        match self.source_location_idx {
            None => Ok(None),
            Some(idx) => {
                if (idx as usize) < self.format.source_locations.len() {
                    let location = self.format.source_locations[idx as usize];
                    self.source_location_idx = location.inlined_into_idx;
                    Ok(Some(SourceLocation { format: self.format, location }))
                } else {
                    Err(CacheError::InvalidSourceLocationReference(idx))
                }
            },
        }
    }
}

/// A source location of a symbol cache: a `(function, file, line)` tuple
/// corresponding to an instruction in the executable.
#[derive(Clone, Copy, Debug)]
pub struct SourceLocation<'a> {
    /// The cache the record lives in.
    pub format: &'a Format,
    /// The raw record.
    pub location: CacheSourceLocation,
}

impl<'a> SourceLocation<'a> {
    /// The source line corresponding to the instruction, absent when no line
    /// information was recorded.
    pub fn line(&self) -> (r: Option<u32>)
        ensures
            r == self.location.line,
    {
        self.location.line
    }

    /// The source file corresponding to the instruction.
    pub fn file(&self) -> (r: Option<Result<File<'a>, CacheError>>)
        ensures
            r is Some <==> self.location.file_idx is Some,
            self.location.file_idx matches Some(idx) ==> {
                &&& idx < self.format.files_spec().len() ==> (r matches Some(Ok(f)) && f.format
                    == self.format && f.file == self.format.files_spec()[idx as int])
                &&& idx >= self.format.files_spec().len() ==> (r matches Some(Err(e)) && e
                    == CacheError::InvalidFileReference(idx))
            },
    {
        match self.location.file_idx {
            None => None,
            Some(idx) => Some(self.format.get_file(idx)),
        }
    }

    /// The function corresponding to the instruction.
    pub fn function(&self) -> (r: Result<Option<Function<'a>>, CacheError>)
        ensures
            self.location.function_idx is None ==> (r matches Ok(o) && o is None),
            self.location.function_idx matches Some(idx) ==> {
                &&& idx < self.format.functions_spec().len() ==> (r matches Ok(o) && o matches Some(
                    f,
                ) && f.format == self.format && f.function
                    == self.format.functions_spec()[idx as int])
                &&& idx >= self.format.functions_spec().len() ==> (r matches Err(e) && e
                    == CacheError::InvalidFunctionReference(idx))
            },
    {
        let function_idx = match self.location.function_idx {
            Some(idx) => idx,
            None => {
                return Ok(None);
            },
        };
        if (function_idx as usize) < self.format.functions.len() {
            Ok(
                Some(
                    Function {
                        format: self.format,
                        function: self.format.functions[function_idx as usize],
                    },
                ),
            )
        } else {
            Err(CacheError::InvalidFunctionReference(function_idx))
        }
    }
}

} // verus!
