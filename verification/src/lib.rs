//! Memory-management core of a minimal operating environment: a physical
//! frame allocator fed by a firmware memory map, a bitmap page allocator
//! over a fixed heap range, a three-level page-table builder, and a
//! four-level mapper that loads an executable image's segments into a
//! freshly built address space.
//!
//! Hardware access (register writes, memory-mapped devices, firmware
//! calls) stays outside this crate; everything here works on plain
//! values and carries a proved contract.

pub mod csr_stuff;
pub mod elf;
pub mod elf_mapper;
pub mod frame_allocator;
pub mod heap_alloc;
pub mod mmu;
pub mod sv39_paging;
pub mod uart;

use crate::uart::UartWriter;
use vstd::prelude::*;

verus! {

/// Writes a message to the console: every byte of it is appended, in
/// order, to what the transceiver has sent so far. Formatting happens
/// before this call; the wire protocol after it.
pub fn print(writer: &mut UartWriter, msg: &[u8])
    ensures
        final(writer).written@ == old(writer).written@ + msg@,
        final(writer).incoming@ == old(writer).incoming@,
        final(writer).uart_addr == old(writer).uart_addr,
{
    writer.write_bytes(msg);
}

} // verus!
