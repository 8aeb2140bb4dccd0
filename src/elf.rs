//! ELF images, as the address-space builder reads them.
//!
//! The program headers are decoded outside the library into `ElfSegment`
//! values; the library checks them against the image bytes and the address
//! space layout before it maps anything.
use vstd::prelude::*;
use crate::map_area::{MAP_R, MAP_U, MAP_W, MAP_X};

verus! {

/// The four bytes every ELF image starts with.
pub open spec fn elf_magic() -> Seq<u8> {
    seq![0x7fu8, 0x45u8, 0x4cu8, 0x46u8]
}

/// Number of pages in the user half of the address space (2^26).
pub const USER_PAGES: u64 = 0x400_0000;

/// One program header of an ELF image.
#[derive(Copy, Clone, Debug, PartialEq, Eq, Structural)]
pub struct ElfSegment {
    /// The segment is of type `LOAD`.
    pub is_load: bool,
    /// Virtual address of the segment's first byte.
    pub vaddr: u64,
    /// Size of the segment in memory.
    pub mem_size: u64,
    /// Offset of the segment's bytes in the image.
    pub offset: u64,
    /// Number of bytes of the segment stored in the image.
    pub file_size: u64,
    /// The segment may be read.
    pub readable: bool,
    /// The segment may be written.
    pub writable: bool,
    /// The segment may be executed.
    pub executable: bool,
}

/// The parts of an ELF image that an address space is built from.
pub struct ElfImage {
    /// Address of the first instruction.
    pub entry: u64,
    /// The program headers, in order.
    pub segments: Vec<ElfSegment>,
}

/// The `LOAD` segments of `segs`, in order.
pub open spec fn loads(segs: Seq<ElfSegment>) -> Seq<ElfSegment> {
    segs.filter(|s: ElfSegment| s.is_load)
}

/// First page of a segment.
pub open spec fn seg_start(s: ElfSegment) -> int {
    s.vaddr as int / 4096
}

/// The page just past a segment.
pub open spec fn seg_end(s: ElfSegment) -> int {
    (s.vaddr + s.mem_size + 4095) / 4096
}

/// Permission of the area that holds a segment: user-accessible, plus the
/// segment's read, write and execute flags.
pub open spec fn seg_perm(s: ElfSegment) -> u8 {
    MAP_U | (if s.readable { MAP_R } else { 0u8 }) | (if s.writable { MAP_W } else { 0u8 }) | (if s.executable {
        MAP_X
    } else {
        0u8
    })
}

/// A `LOAD` segment can be mapped from an image of `len` bytes: it lies in the
/// user half, holds its stored bytes, and those bytes are in the image.
pub open spec fn seg_ok(s: ElfSegment, len: int) -> bool {
    &&& s.vaddr + s.mem_size <= u64::MAX
    &&& seg_end(s) <= USER_PAGES
    &&& s.file_size <= s.mem_size
    &&& s.offset + s.file_size <= len
}

/// The `LOAD` segments can all be mapped, and no two share a page.
pub open spec fn loads_ok(segs: Seq<ElfSegment>, len: int) -> bool {
    &&& forall|i: int| 0 <= i < loads(segs).len() ==> seg_ok(#[trigger] loads(segs)[i], len)
    &&& forall|i: int, j: int| 0 <= i < j < loads(segs).len() ==> seg_end(#[trigger] loads(segs)[i]) <= seg_start(
        #[trigger] loads(segs)[j]) || seg_end(loads(segs)[j]) <= seg_start(loads(segs)[i])
}

/// The largest end page of `segs`, or 0 when there is none.
pub open spec fn max_end(segs: Seq<ElfSegment>) -> int
    decreases segs.len(),
{
    if segs.len() == 0 {
        0
    } else {
        let m = max_end(segs.drop_last());
        if seg_end(segs.last()) > m { seg_end(segs.last()) } else { m }
    }
}

/// Number of pages that `segs` span, all of them.
pub open spec fn pages_of_segs(segs: Seq<ElfSegment>) -> int
    decreases segs.len(),
{
    if segs.len() == 0 {
        0
    } else {
        pages_of_segs(segs.drop_last()) + (seg_end(segs.last()) - seg_start(segs.last()))
    }
}

/// The `LOAD` segments of `segs`, in order.
pub fn collect_loads(segs: &Vec<ElfSegment>) -> (r: Vec<ElfSegment>)
    ensures
        r@ == loads(segs@),
{
    let mut r: Vec<ElfSegment> = Vec::new();
    let mut i: usize = 0;
    proof {
        reveal(Seq::filter);
        assert(segs@.subrange(0, 0) =~= Seq::<ElfSegment>::empty());
    }
    while i < segs.len()
        invariant
            i <= segs@.len(),
            r@ == loads(segs@.subrange(0, i as int)),
        decreases segs@.len() - i,
    {
        proof {
            reveal(Seq::filter);
            assert(segs@.subrange(0, i + 1).drop_last() =~= segs@.subrange(0, i as int));
            assert(segs@.subrange(0, i + 1).last() == segs@[i as int]);
        }
        if segs[i].is_load {
            r.push(segs[i]);
        }
        i = i + 1;
    }
    proof {
        assert(segs@.subrange(0, segs@.len() as int) =~= segs@);
    }
    r
}

/// Whether every segment of `segs` can be mapped from an image of `len`
/// bytes and no two of them share a page.
pub fn segs_ok(segs: &Vec<ElfSegment>, len: usize) -> (r: bool)
    ensures
        r == ({
            &&& forall|i: int| 0 <= i < segs@.len() ==> seg_ok(#[trigger] segs@[i], len as int)
            &&& forall|i: int, j: int| 0 <= i < j < segs@.len() ==> seg_end(#[trigger] segs@[i]) <= seg_start(
                #[trigger] segs@[j]) || seg_end(segs@[j]) <= seg_start(segs@[i])
        }),
{
    let n = segs.len();
    let mut i: usize = 0;
    while i < n
        invariant
            i <= n,
            n == segs@.len(),
            forall|k: int| 0 <= k < i ==> seg_ok(#[trigger] segs@[k], len as int),
        decreases n - i,
    {
        let s = segs[i];
        if s.mem_size > u64::MAX - s.vaddr {
            return false;
        }
        let end = s.vaddr + s.mem_size;
        if end / 4096 + (if end % 4096 == 0 { 0 } else { 1 }) > USER_PAGES {
            assert(!seg_ok(segs@[i as int], len as int));
            return false;
        }
        if s.file_size > s.mem_size {
            return false;
        }
        if s.file_size as u128 + s.offset as u128 > len as u128 {
            return false;
        }
        i = i + 1;
    }
    let mut i: usize = 0;
    while i < n
        invariant
            i <= n,
            n == segs@.len(),
            forall|k: int| 0 <= k < n ==> seg_ok(#[trigger] segs@[k], len as int),
            forall|a: int, b: int| 0 <= a < b < n && a < i ==> seg_end(#[trigger] segs@[a]) <= seg_start(
                #[trigger] segs@[b]) || seg_end(segs@[b]) <= seg_start(segs@[a]),
        decreases n - i,
    {
        let mut j: usize = i + 1;
        while j < n
            invariant
                i < n,
                i + 1 <= j <= n,
                n == segs@.len(),
                forall|k: int| 0 <= k < n ==> seg_ok(#[trigger] segs@[k], len as int),
                forall|a: int, b: int| 0 <= a < b < n && a < i ==> seg_end(#[trigger] segs@[a]) <= seg_start(
                    #[trigger] segs@[b]) || seg_end(segs@[b]) <= seg_start(segs@[a]),
                forall|b: int| i < b < j ==> seg_end(#[trigger] segs@[i as int]) <= seg_start(segs@[b]) || seg_end(
                    segs@[b]) <= seg_start(segs@[i as int]),
            decreases n - j,
        {
            let a = segs[i];
            let b = segs[j];
            let a_start = a.vaddr / 4096;
            let a_end = (a.vaddr + a.mem_size) / 4096 + (if (a.vaddr + a.mem_size) % 4096 == 0 { 0 } else { 1 });
            let b_start = b.vaddr / 4096;
            let b_end = (b.vaddr + b.mem_size) / 4096 + (if (b.vaddr + b.mem_size) % 4096 == 0 { 0 } else { 1 });
            if !(a_end <= b_start || b_end <= a_start) {
                assert(seg_end(segs@[i as int]) == a_end);
                assert(seg_end(segs@[j as int]) == b_end);
                return false;
            }
            proof {
                assert(seg_end(segs@[i as int]) == a_end);
                assert(seg_end(segs@[j as int]) == b_end);
            }
            j = j + 1;
        }
        i = i + 1;
    }
    true
}

/// Number of pages that `segs` span; every segment lies in the user half.
pub fn pages_needed(segs: &Vec<ElfSegment>) -> (r: u128)
    requires
        forall|i: int| 0 <= i < segs@.len() ==> seg_ok(#[trigger] segs@[i], usize::MAX as int),
    ensures
        r == pages_of_segs(segs@),
        r <= segs@.len() * 0x400_0000,
{
    let mut r: u128 = 0;
    let mut i: usize = 0;
    while i < segs.len()
        invariant
            i <= segs@.len(),
            forall|k: int| 0 <= k < segs@.len() ==> seg_ok(#[trigger] segs@[k], usize::MAX as int),
            r == pages_of_segs(segs@.subrange(0, i as int)),
            r <= i * 0x400_0000,
        decreases segs@.len() - i,
    {
        let s = segs[i];
        proof {
            assert(segs@.subrange(0, i + 1).drop_last() =~= segs@.subrange(0, i as int));
            assert(seg_ok(segs@[i as int], usize::MAX as int));
        }
        let end = s.vaddr + s.mem_size;
        let e = end / 4096 + (if end % 4096 == 0 { 0 } else { 1 });
        let b = s.vaddr / 4096;
        r = r + (e - b) as u128;
        i = i + 1;
    }
    proof {
        assert(segs@.subrange(0, segs@.len() as int) =~= segs@);
    }
    r
}

/// Whether `data` starts with the ELF magic bytes.
pub fn has_elf_magic(data: &[u8]) -> (r: bool)
    ensures
        r == (data@.len() >= 4 && data@.subrange(0, 4) == elf_magic()),
{
    if data.len() < 4 {
        return false;
    }
    let r = data[0] == 0x7f && data[1] == 0x45 && data[2] == 0x4c && data[3] == 0x46;
    proof {
        if r {
            assert(data@.subrange(0, 4) =~= elf_magic());
        } else {
            assert(data@.subrange(0, 4)[0] == data@[0]);
            assert(data@.subrange(0, 4)[1] == data@[1]);
            assert(data@.subrange(0, 4)[2] == data@[2]);
            assert(data@.subrange(0, 4)[3] == data@[3]);
        }
    }
    r
}

} // verus!
