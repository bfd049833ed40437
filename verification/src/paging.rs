//! The boot code identity-maps the low part of physical memory. Any
//! physical address the kernel wants to access directly (RAM, or MMIO such
//! as the linear framebuffer) must fall below this bound.

use vstd::prelude::*;

verus! {

pub const IDENTITY_MAP_END: u64 = 4 * 1024 * 1024 * 1024;

/// Whether the whole range of `len` bytes at `addr` is identity-mapped.
pub fn is_identity_mapped(addr: u64, len: u64) -> (r: bool)
    ensures
        r <==> addr + len <= IDENTITY_MAP_END,
{
    match addr.checked_add(len) {
        Some(end) => end <= IDENTITY_MAP_END,
        None => false,
    }
}

/// A range inside an identity-mapped range is identity-mapped.
pub proof fn law_subrange_is_mapped(addr: u64, len: u64, inner: u64, inner_len: u64)
    requires
        addr + len <= IDENTITY_MAP_END,
        addr <= inner,
        inner + inner_len <= addr + len,
    ensures
        inner + inner_len <= IDENTITY_MAP_END,
{
}

} // verus!
