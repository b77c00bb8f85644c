//! Global address-offset adjustment.
//!
//! Container formats supply a signed global shift that is applied to every
//! raw DWARF address before it becomes user-visible: `visible = raw - shift`,
//! computed modulo 2^64.

use vstd::prelude::*;

verus! {

/// The mathematical value of `raw - shift` reduced into the `u64` range.
pub open spec fn shifted_addr(raw: u64, shift: i64) -> u64 {
    if raw - shift < 0 {
        (raw - shift + 0x1_0000_0000_0000_0000) as u64
    } else if raw - shift > u64::MAX {
        (raw - shift - 0x1_0000_0000_0000_0000) as u64
    } else {
        (raw - shift) as u64
    }
}

/// Applies the global address offset to a raw address, wrapping around on
/// overflow in either direction.
pub fn apply_address_offset(raw: u64, shift: i64) -> (r: u64)
    ensures
        r == shifted_addr(raw, shift),
{
    if shift >= 0 {
        raw.wrapping_sub(shift as u64)
    } else {
        let back: u64 = ((-(shift as i128)) as u64);
        raw.wrapping_add(back)
    }
}

} // verus!
