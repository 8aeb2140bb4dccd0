//! Core of a small RISC-V (Sv39) teaching kernel, modelled as verified Rust:
//! physical frame allocation, a three-level page table, address spaces built
//! from ELF images, a FIFO scheduler and the process lifecycle.
use vstd::prelude::*;

pub mod config;
pub mod address;
pub mod frame;
pub mod pte;
pub mod page_table;
pub mod map_area;
pub mod memory_set;
pub mod elf;
pub mod context;
pub mod pid;
pub mod manager;
pub mod task;
pub mod kernel;
pub mod syscall;
pub mod inode;

verus! {

} // verus!
