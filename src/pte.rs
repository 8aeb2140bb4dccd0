//! Page-table entries and their flags.
//!
//! An entry is one machine word: the physical page number in bits 10..54 and
//! eight flag bits {V, R, W, X, U, G, A, D} in bits 0..8.
use vstd::prelude::*;
use crate::address::PhysPageNum;
use crate::frame::ppn_limit;

verus! {

/// Valid.
pub const PTE_V: u8 = 0x01;
/// Readable.
pub const PTE_R: u8 = 0x02;
/// Writable.
pub const PTE_W: u8 = 0x04;
/// Executable.
pub const PTE_X: u8 = 0x08;
/// Accessible from user mode.
pub const PTE_U: u8 = 0x10;
/// Global.
pub const PTE_G: u8 = 0x20;
/// Accessed.
pub const PTE_A: u8 = 0x40;
/// Dirty.
pub const PTE_D: u8 = 0x80;

/// A set of page-table-entry flags, one bit each.
#[derive(Copy, Clone, Debug, PartialEq, Eq, Structural)]
pub struct PTEFlags(pub u8);

impl PTEFlags {
    /// The flags whose bits are `bits`.
    pub fn from_bits(bits: u8) -> (r: PTEFlags)
        ensures
            r.0 == bits,
    {
        PTEFlags(bits)
    }

    /// The bits of these flags.
    pub fn bits(&self) -> (r: u8)
        ensures
            r == self.0,
    {
        self.0
    }

    /// Whether every bit of `other` is set here.
    pub fn contains(&self, other: PTEFlags) -> (r: bool)
        ensures
            r == (self.0 & other.0 == other.0),
    {
        self.0 & other.0 == other.0
    }

    /// The flags set here or in `other`.
    pub fn union(&self, other: PTEFlags) -> (r: PTEFlags)
        ensures
            r.0 == self.0 | other.0,
    {
        PTEFlags(self.0 | other.0)
    }
}

/// The physical page number held in the entry `bits`.
pub open spec fn spec_pte_ppn(bits: u64) -> u64 {
    (bits >> 10u64) & 0xfff_ffff_ffffu64
}

/// The flags held in the entry `bits`.
pub open spec fn spec_pte_flags(bits: u64) -> u8 {
    (bits & 0xffu64) as u8
}

/// The entry `bits` is valid.
pub open spec fn spec_pte_valid(bits: u64) -> bool {
    bits & 1u64 != 0
}

/// A page-table entry.
#[derive(Copy, Clone, Debug, PartialEq, Eq, Structural)]
pub struct PageTableEntry {
    pub bits: u64,
}

proof fn lemma_pte_fields(p: u64, f: u64)
    requires
        p < 0x1000_0000_0000u64,
        f < 256,
    ensures
        spec_pte_ppn((p << 10u64) | f) == p,
        ((p << 10u64) | f) & 0xffu64 == f,
        spec_pte_valid((p << 10u64) | f) == (f & 1u64 != 0),
{
    assert((((p << 10u64) | f) >> 10u64) & 0xfff_ffff_ffffu64 == p) by (bit_vector)
        requires
            p < 0x1000_0000_0000u64,
            f < 256u64,
    ;
    assert(((p << 10u64) | f) & 0xffu64 == f) by (bit_vector)
        requires
            f < 256u64,
    ;
    assert((((p << 10u64) | f) & 1u64 != 0) == (f & 1u64 != 0)) by (bit_vector)
        requires
            f < 256u64,
    ;
}

proof fn lemma_valid_flag(bits: u64)
    ensures
        spec_pte_valid(bits) == (spec_pte_flags(bits) & PTE_V != 0),
{
    assert((bits & 1u64 != 0) == (((bits & 0xffu64) as u8) & 1u8 != 0)) by (bit_vector);
}

impl PageTableEntry {
    /// The physical page number of this entry.
    pub open spec fn spec_ppn(self) -> u64 {
        spec_pte_ppn(self.bits)
    }

    /// The flags of this entry.
    pub open spec fn spec_flags(self) -> u8 {
        spec_pte_flags(self.bits)
    }

    /// This entry is valid.
    pub open spec fn spec_valid(self) -> bool {
        spec_pte_valid(self.bits)
    }

    /// The entry that maps to `ppn` with `flags`.
    pub fn new(ppn: PhysPageNum, flags: PTEFlags) -> (r: PageTableEntry)
        requires
            ppn.0 < ppn_limit(),
        ensures
            r.bits == (ppn.0 << 10u64) | flags.0 as u64,
            r.spec_ppn() == ppn.0,
            r.spec_flags() == flags.0,
            r.spec_valid() == (flags.0 & PTE_V != 0),
    {
        proof {
            lemma_pte_fields(ppn.0, flags.0 as u64);
            lemma_valid_flag((ppn.0 << 10u64) | flags.0 as u64);
        }
        PageTableEntry { bits: (ppn.0 << 10) | flags.0 as u64 }
    }

    /// The empty entry: no flag set.
    pub fn empty() -> (r: PageTableEntry)
        ensures
            r.bits == 0,
            !r.spec_valid(),
    {
        assert(0u64 & 1u64 == 0) by (bit_vector);
        PageTableEntry { bits: 0 }
    }

    /// The physical page number of this entry.
    pub fn ppn(&self) -> (r: PhysPageNum)
        ensures
            r.0 == self.spec_ppn(),
            r.0 < ppn_limit(),
    {
        let b = self.bits;
        assert((b >> 10u64) & 0xfff_ffff_ffffu64 < 0x1000_0000_0000u64) by (bit_vector);
        PhysPageNum((self.bits >> 10) & 0xfff_ffff_ffff)
    }

    /// The flags of this entry.
    pub fn flags(&self) -> (r: PTEFlags)
        ensures
            r.0 == self.spec_flags(),
    {
        let b = self.bits;
        assert(b & 0xffu64 < 256u64) by (bit_vector);
        PTEFlags((self.bits & 0xff) as u8)
    }

    /// Whether the entry is valid.
    pub fn is_valid(&self) -> (r: bool)
        ensures
            r == self.spec_valid(),
            r == (self.spec_flags() & PTE_V != 0),
    {
        proof {
            lemma_valid_flag(self.bits);
        }
        self.bits & 1 != 0
    }

    /// Whether the entry allows reads.
    pub fn readable(&self) -> (r: bool)
        ensures
            r == (self.spec_flags() & PTE_R != 0),
    {
        self.flags().0 & PTE_R != 0
    }

    /// Whether the entry allows writes.
    pub fn writable(&self) -> (r: bool)
        ensures
            r == (self.spec_flags() & PTE_W != 0),
    {
        self.flags().0 & PTE_W != 0
    }

    /// Whether the entry allows execution.
    pub fn executable(&self) -> (r: bool)
        ensures
            r == (self.spec_flags() & PTE_X != 0),
    {
        self.flags().0 & PTE_X != 0
    }
}

} // verus!
