//! Memory layout and timing constants.
use vstd::prelude::*;

verus! {

/// Size of a page and of a physical frame, in bytes.
pub const PAGE_SIZE: usize = 0x1000;

/// `PAGE_SIZE` as an address-width integer.
pub const PAGE_SIZE_U64: u64 = 0x1000;

/// log2 of `PAGE_SIZE`.
pub const PAGE_SIZE_BITS: usize = 12;

/// Width of a physical address under Sv39.
pub const PA_WIDTH_SV39: u64 = 56;

/// Width of a physical page number under Sv39.
pub const PPN_WIDTH_SV39: u64 = 44;

/// Width of a virtual address under Sv39.
pub const VA_WIDTH_SV39: u64 = 39;

/// Width of a virtual page number under Sv39.
pub const VPN_WIDTH_SV39: u64 = 27;

/// Offset between a kernel virtual address and the physical address it maps.
pub const KERNEL_ADDR_OFFSET: u64 = 0xffff_ffc0_0000_0000;

/// First virtual page number of the kernel half of the address space.
pub const KERNEL_PGNUM_OFFSET: u64 = 0xffff_ffc0_0000_0000 >> 12;

/// Index, in a root page table, of the first entry of the kernel half.
pub const KERNEL_ROOT_INDEX: usize = 256;

/// Virtual address of the trampoline page, the highest page of the address space.
pub const TRAMPOLINE: u64 = 0xffff_ffff_ffff_f000;

/// Virtual address of the page that holds a process's trap context: the
/// highest page of the user half.
pub const TRAP_CONTEXT: u64 = 0x3f_ffff_f000;

/// Size of a user stack, in bytes.
pub const USER_STACK_SIZE: u64 = 0x2000;

/// Size of a kernel stack, in bytes.
pub const KERNEL_STACK_SIZE: u64 = 0x2000;

/// Frequency of the machine timer, in ticks per second.
pub const CLOCK_FREQ: u64 = 12_500_000;

/// Timer interrupts per second.
pub const TICKS_PER_SEC: u64 = 100;

/// Milliseconds per second.
pub const MSEC_PER_SEC: u64 = 1000;

} // verus!
