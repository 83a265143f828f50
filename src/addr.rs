use vstd::prelude::*;

verus! {

/// Size of one page of an address space, in bytes.
pub const PAGE_SIZE: usize = 4096;

/// Start of the page that holds `a`.
pub open spec fn page_floor(a: int) -> int {
    a - a % (PAGE_SIZE as int)
}

/// Relies on `memory_addr::align_down_4k`: `addr & !(4096 - 1)`, which clears
/// the offset of `addr` within its 4 KiB page.
pub assume_specification[ memory_addr::align_down_4k ](addr: usize) -> (r: usize)
    ensures
        r as int == page_floor(addr as int),
;

/// Relies on `memory_addr::is_aligned_4k`: `addr & (4096 - 1) == 0`, that is
/// `addr % 4096 == 0`.
pub assume_specification[ memory_addr::is_aligned_4k ](addr: usize) -> (r: bool)
    ensures
        r == (addr % PAGE_SIZE == 0),
;

/// Readable access.
pub const FLAG_READ: u8 = 1;
/// Writable access.
pub const FLAG_WRITE: u8 = 2;
/// Executable access.
pub const FLAG_EXECUTE: u8 = 4;
/// Access from user mode.
pub const FLAG_USER: u8 = 8;
/// Every access kind: what guest memory and emulated device pages get.
pub const FLAGS_ALL: u8 = 15;

/// Every access kind in `access` is granted by `granted`.
pub open spec fn flags_allow(granted: u8, access: u8) -> bool {
    access & granted == access
}

/// Tells whether the access flags `access` are a subset of `granted`.
pub fn allows(granted: u8, access: u8) -> (r: bool)
    ensures
        r == flags_allow(granted, access),
{
    access & granted == access
}

} // verus!
