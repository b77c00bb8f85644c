//! A DWARF debug-session core: reconstructs functions, inlined call sites,
//! line records and source files from DWARF debugging information, and
//! answers address lookups against a compact symbol-cache format.
//!
//! The debugging information is held as plain values: compilation units
//! with their DIEs in depth-first order and decoded attribute payloads, and
//! the replayed rows of each unit's line program. [`session::DwarfDebugSession`]
//! walks those units lazily and emits [`base::Function`] values;
//! [`symcache::Format`] answers address lookups over the compact cache
//! tables.

pub mod addr;
pub mod base;
pub mod builder;
pub mod die;
pub mod error;
pub mod line;
pub mod names;
pub mod resolve;
pub mod session;
pub mod symcache;
pub mod unit;
