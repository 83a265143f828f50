//! Firmware console I/O through the modern debug-console calls. Where the
//! firmware does not take a write, the caller falls back on the legacy call.
use vstd::prelude::*;

verus! {

/// Most bytes that one firmware console call moves.
pub const MAX_RW_SIZE: usize = 256;

/// Relies on `sbi_rt::console_write`: asks the firmware to write `num_bytes`
/// bytes found at physical address `phys_addr`, and returns the `value` it
/// reports (the count written on success). Nothing about that count is
/// promised here.
#[verifier::external_body]
fn sbi_console_write(num_bytes: usize, phys_addr: usize) -> (r: usize) {
    sbi_rt::console_write(sbi_rt::Physical::new(num_bytes, phys_addr, 0)).value
}

/// Relies on `sbi_rt::console_write_byte`: writes one byte and returns the
/// `value` that the firmware reports.
#[verifier::external_body]
fn sbi_console_write_byte(c: u8) -> (r: usize) {
    sbi_rt::console_write_byte(c).value
}

/// Relies on `sbi_rt::console_read`: asks the firmware to read at most
/// `num_bytes` bytes into the memory at physical address `phys_addr`, which
/// is `buf`'s, and returns the `value` it reports. The firmware may change
/// the bytes of `buf`, never its length.
#[verifier::external_body]
fn sbi_console_read(buf: &mut [u8], num_bytes: usize, phys_addr: usize) -> (r: usize)
    ensures
        final(buf)@.len() == old(buf)@.len(),
{
    let _ = buf;
    sbi_rt::console_read(sbi_rt::Physical::new(num_bytes, phys_addr, 0)).value
}

/// The smaller of `remaining` and `MAX_RW_SIZE`.
pub open spec fn chunk_of(remaining: int) -> int {
    if remaining < MAX_RW_SIZE { remaining } else { MAX_RW_SIZE as int }
}

/// How many bytes one modern console call is asked to move out of
/// `remaining`.
pub fn chunk_len(remaining: usize) -> (r: usize)
    ensures
        r == chunk_of(remaining as int),
{
    if remaining < MAX_RW_SIZE {
        remaining
    } else {
        MAX_RW_SIZE
    }
}

/// Where writing `total` bytes goes on after the firmware reported
/// `written` for the chunk asked from `offset` on: the next offset, or
/// `None` when the report is zero (or beyond the chunk) and the rest must go
/// through the legacy call.
pub fn next_offset(total: usize, offset: usize, written: usize) -> (r: Option<usize>)
    requires
        offset < total,
    ensures
        (0 < written <= chunk_of(total - offset)) ==> r == Some((offset + written) as usize),
        !(0 < written <= chunk_of(total - offset)) ==> r is None,
{
    let chunk = chunk_len(total - offset);
    if written == 0 || written > chunk {
        None
    } else {
        Some(offset + written)
    }
}

/// Writes one byte to the console through the modern call. Returns `true`
/// when the firmware reported zero, so that the byte must be written again
/// through the legacy call.
pub fn putchar(c: u8) -> (r: bool) {
    sbi_console_write_byte(c) == 0
}

/// Writes `bytes`, which lie at physical address `phys_addr`, to the
/// console in chunks of at most `MAX_RW_SIZE` bytes through the modern call,
/// until the firmware reports nothing written. Returns the offset from which
/// the rest must go byte by byte through the legacy call: `bytes.len()` when
/// everything was written.
pub fn write_bytes(bytes: &[u8], phys_addr: usize) -> (r: usize)
    requires
        phys_addr + bytes@.len() <= usize::MAX,
    ensures
        r <= bytes@.len(),
{
    let total = bytes.len();
    let mut offset: usize = 0;
    while offset < total
        invariant
            offset <= total,
            total == bytes@.len(),
            phys_addr + total <= usize::MAX,
        decreases total - offset,
    {
        let written = sbi_console_write(chunk_len(total - offset), phys_addr + offset);
        match next_offset(total, offset, written) {
            Some(next) => {
                offset = next;
            },
            None => {
                return offset;
            },
        }
    }
    offset
}

/// Reads from the console into `buf`, which lies at physical address
/// `phys_addr`: at most `MAX_RW_SIZE` bytes are asked for. Returns what the
/// firmware reports.
pub fn read_bytes(buf: &mut [u8], phys_addr: usize) -> (r: usize)
    ensures
        final(buf)@.len() == old(buf)@.len(),
{
    let n = chunk_len(buf.len());
    sbi_console_read(buf, n, phys_addr)
}

} // verus!
