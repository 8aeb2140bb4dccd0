//! Physical and virtual addresses and page numbers.
//!
//! The four types are distinct newtypes over `u64`. Page numbers and
//! addresses convert by shifting by `PAGE_SIZE_U64_BITS`.
use vstd::prelude::*;
use crate::config::{KERNEL_ADDR_OFFSET, PAGE_SIZE_U64};

verus! {

/// A physical address.
#[derive(Copy, Clone, Debug, PartialEq, Eq, Structural)]
pub struct PhysAddr(pub u64);

/// A virtual address.
#[derive(Copy, Clone, Debug, PartialEq, Eq, Structural)]
pub struct VirtAddr(pub u64);

/// A physical page number: a physical address without its page offset.
#[derive(Copy, Clone, Debug, PartialEq, Eq, Structural)]
pub struct PhysPageNum(pub u64);

/// A virtual page number: a virtual address without its page offset.
#[derive(Copy, Clone, Debug, PartialEq, Eq, Structural)]
pub struct VirtPageNum(pub u64);

/// Number of addressable bytes below the canonical hole of Sv39 (2^38).
pub open spec fn half_span() -> int {
    0x40_0000_0000
}

/// A 64-bit value is a canonical Sv39 address when bits 63..38 all equal bit 38,
/// that is, when it lies in the lowest or the highest 2^38 bytes.
pub open spec fn is_canonical_va(v: u64) -> bool {
    v < half_span() || v >= 0x1_0000_0000_0000_0000int - half_span()
}

/// The three 9-bit page-table indices of a virtual page number, root level first.
pub open spec fn spec_indexes(vpn: u64) -> Seq<u64> {
    seq![(vpn >> 18u64) & 511u64, (vpn >> 9u64) & 511u64, vpn & 511u64]
}

/// The virtual page number whose three 9-bit indices are `idx`.
pub open spec fn spec_from_indexes(idx: Seq<u64>) -> u64 {
    (idx[0] << 18u64) | (idx[1] << 9u64) | idx[2]
}

/// A virtual page number fits the 27 bits that Sv39 translates.
pub open spec fn is_sv39_vpn(vpn: u64) -> bool {
    vpn < 0x800_0000
}

proof fn lemma_page_offset(v: u64)
    ensures
        v & 4095u64 == v % 4096,
{
    assert(v & 4095u64 == v % 4096) by (bit_vector);
}

/// Splitting a 27-bit virtual page number into its three 9-bit indices and
/// joining them again gives back the same page number.
pub proof fn lemma_indexes_round_trip(vpn: u64)
    requires
        is_sv39_vpn(vpn),
    ensures
        spec_from_indexes(spec_indexes(vpn)) == vpn,
        spec_indexes(vpn)[0] < 512,
        spec_indexes(vpn)[1] < 512,
        spec_indexes(vpn)[2] < 512,
{
    assert(((((vpn >> 18u64) & 511u64) << 18u64) | (((vpn >> 9u64) & 511u64) << 9u64)
        | (vpn & 511u64)) == vpn) by (bit_vector)
        requires
            vpn < 0x800_0000u64,
    ;
    assert((vpn >> 18u64) & 511u64 < 512) by (bit_vector);
    assert((vpn >> 9u64) & 511u64 < 512) by (bit_vector);
    assert(vpn & 511u64 < 512) by (bit_vector);
}

/// Joining three 9-bit indices into a page number and splitting it again gives
/// back the same indices.
pub proof fn lemma_from_indexes_round_trip(i0: u64, i1: u64, i2: u64)
    requires
        i0 < 512,
        i1 < 512,
        i2 < 512,
    ensures
        is_sv39_vpn(spec_from_indexes(seq![i0, i1, i2])),
        spec_indexes(spec_from_indexes(seq![i0, i1, i2])) == seq![i0, i1, i2],
{
    let v = (i0 << 18u64) | (i1 << 9u64) | i2;
    assert(spec_from_indexes(seq![i0, i1, i2]) == v);
    assert(v < 0x800_0000u64 && (v >> 18u64) & 511u64 == i0 && (v >> 9u64) & 511u64 == i1
        && v & 511u64 == i2) by (bit_vector)
        requires
            i0 < 512u64,
            i1 < 512u64,
            i2 < 512u64,
            v == (i0 << 18u64) | (i1 << 9u64) | i2,
    ;
    assert(spec_indexes(v) =~= seq![i0, i1, i2]);
}

/// Converts a kernel virtual address to the physical address it maps.
pub fn kva2pa(vaddr: VirtAddr) -> (r: PhysAddr)
    requires
        vaddr.0 >= KERNEL_ADDR_OFFSET,
    ensures
        r.0 == vaddr.0 - KERNEL_ADDR_OFFSET,
{
    PhysAddr(vaddr.0 - KERNEL_ADDR_OFFSET)
}

/// Converts a physical address to the kernel virtual address that maps it.
pub fn pa2kva(paddr: PhysAddr) -> (r: VirtAddr)
    requires
        paddr.0 + KERNEL_ADDR_OFFSET <= u64::MAX,
    ensures
        r.0 == paddr.0 + KERNEL_ADDR_OFFSET,
{
    VirtAddr(paddr.0 + KERNEL_ADDR_OFFSET)
}

impl PhysAddr {
    /// Keeps the low 56 bits of `v`, the width of a physical address.
    pub fn new(v: u64) -> (r: PhysAddr)
        ensures
            r.0 == v % 0x100_0000_0000_0000,
    {
        assert(v & 0xff_ffff_ffff_ffffu64 == v % 0x100_0000_0000_0000) by (bit_vector);
        PhysAddr(v & 0xff_ffff_ffff_ffff)
    }

    /// The page that holds this address.
    pub fn floor(&self) -> (r: PhysPageNum)
        ensures
            r.0 == self.0 / PAGE_SIZE_U64,
    {
        PhysPageNum(self.0 / PAGE_SIZE_U64)
    }

    /// The first page at or above this address.
    pub fn ceil(&self) -> (r: PhysPageNum)
        ensures
            r.0 == (self.0 + PAGE_SIZE_U64 - 1) / PAGE_SIZE_U64 as int,
    {
        if self.0 == 0 {
            PhysPageNum(0)
        } else {
            PhysPageNum((self.0 - 1) / PAGE_SIZE_U64 + 1)
        }
    }

    /// The offset of this address within its page.
    pub fn page_offset(&self) -> (r: u64)
        ensures
            r == self.0 % PAGE_SIZE_U64,
    {
        proof {
            lemma_page_offset(self.0);
        }
        self.0 & (PAGE_SIZE_U64 - 1)
    }

    /// Whether this address is the first byte of a page.
    pub fn aligned(&self) -> (r: bool)
        ensures
            r == (self.0 % PAGE_SIZE_U64 == 0),
    {
        self.page_offset() == 0
    }
}

impl VirtAddr {
    /// The address `v`, if it is canonical: bits 63..38 are all equal.
    pub fn new(v: u64) -> (r: Option<VirtAddr>)
        ensures
            r == (if is_canonical_va(v) { Some(VirtAddr(v)) } else { None::<VirtAddr> }),
    {
        if v < 0x40_0000_0000 || v >= 0xffff_ffc0_0000_0000 {
            Some(VirtAddr(v))
        } else {
            None
        }
    }

    /// The page that holds this address.
    pub fn floor(&self) -> (r: VirtPageNum)
        ensures
            r.0 == self.0 / PAGE_SIZE_U64,
    {
        VirtPageNum(self.0 / PAGE_SIZE_U64)
    }

    /// The first page at or above this address.
    pub fn ceil(&self) -> (r: VirtPageNum)
        ensures
            r.0 == (self.0 + PAGE_SIZE_U64 - 1) / PAGE_SIZE_U64 as int,
    {
        if self.0 == 0 {
            VirtPageNum(0)
        } else {
            VirtPageNum((self.0 - 1) / PAGE_SIZE_U64 + 1)
        }
    }

    /// The offset of this address within its page.
    pub fn page_offset(&self) -> (r: u64)
        ensures
            r == self.0 % PAGE_SIZE_U64,
    {
        proof {
            lemma_page_offset(self.0);
        }
        self.0 & (PAGE_SIZE_U64 - 1)
    }

    /// Whether this address is the first byte of a page.
    pub fn aligned(&self) -> (r: bool)
        ensures
            r == (self.0 % PAGE_SIZE_U64 == 0),
    {
        self.page_offset() == 0
    }

    /// The page that starts at this address.
    pub fn to_vpn(&self) -> (r: VirtPageNum)
        requires
            self.0 % PAGE_SIZE_U64 == 0,
        ensures
            r.0 * PAGE_SIZE_U64 == self.0,
    {
        self.floor()
    }
}

impl PhysPageNum {
    /// Keeps the low 44 bits of `v`, the width of a physical page number.
    pub fn new(v: u64) -> (r: PhysPageNum)
        ensures
            r.0 == v % 0x1000_0000_0000,
    {
        assert(v & 0xfff_ffff_ffffu64 == v % 0x1000_0000_0000) by (bit_vector);
        PhysPageNum(v & 0xfff_ffff_ffff)
    }

    /// The first address of this page.
    pub fn addr(&self) -> (r: PhysAddr)
        requires
            self.0 < 0x10_0000_0000_0000,
        ensures
            r.0 == self.0 * PAGE_SIZE_U64,
    {
        PhysAddr(self.0 * PAGE_SIZE_U64)
    }
}

impl VirtPageNum {
    /// The first address of this page.
    pub fn addr(&self) -> (r: VirtAddr)
        requires
            self.0 < 0x10_0000_0000_0000,
        ensures
            r.0 == self.0 * PAGE_SIZE_U64,
    {
        VirtAddr(self.0 * PAGE_SIZE_U64)
    }

    /// The three 9-bit page-table indices of this page number, root level first.
    pub fn indexes(&self) -> (r: [u64; 3])
        ensures
            r@ == spec_indexes(self.0),
            r[0] < 512,
            r[1] < 512,
            r[2] < 512,
    {
        let v = self.0;
        assert((v >> 18u64) & 511u64 < 512) by (bit_vector);
        assert((v >> 9u64) & 511u64 < 512) by (bit_vector);
        assert(v & 511u64 < 512) by (bit_vector);
        let r = [(v >> 18) & 511, (v >> 9) & 511, v & 511];
        assert(r@ =~= spec_indexes(v));
        r
    }

    /// The page number whose three 9-bit page-table indices are `idx`.
    pub fn from_indexes(idx: [u64; 3]) -> (r: VirtPageNum)
        requires
            idx[0] < 512,
            idx[1] < 512,
            idx[2] < 512,
        ensures
            r.0 == spec_from_indexes(idx@),
            is_sv39_vpn(r.0),
    {
        proof {
            lemma_from_indexes_round_trip(idx[0], idx[1], idx[2]);
            assert(idx@ =~= seq![idx[0], idx[1], idx[2]]);
        }
        VirtPageNum((idx[0] << 18) | (idx[1] << 9) | idx[2])
    }
}

} // verus!
