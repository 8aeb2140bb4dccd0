//! Map areas: runs of contiguous virtual pages that share a mapping policy
//! and a permission set.
use vstd::prelude::*;
use crate::address::{spec_indexes, VirtAddr, VirtPageNum, PhysPageNum};
use crate::config::PAGE_SIZE;
use crate::frame::{frame_alloc, frame_dealloc, ppn_limit, AllocView, FrameTracker, StackFrameAllocator};
use crate::page_table::{alloc_only, fresh, lemma_fresh_concat, lemma_fresh_swap, map_post, new_frames, same_page, unmap_post, PageTable};
use crate::pte::{PTEFlags, PTE_V};

verus! {

/// Readable.
pub const MAP_R: u8 = 0x02;
/// Writable.
pub const MAP_W: u8 = 0x04;
/// Executable.
pub const MAP_X: u8 = 0x08;
/// Accessible from user mode.
pub const MAP_U: u8 = 0x10;

/// Number of pages that Sv39 can tell apart (2^27).
pub open spec fn sv39_pages() -> int {
    0x800_0000
}

/// The permission of a map area: the R, W, X and U bits of a page-table entry.
#[derive(Copy, Clone, Debug, PartialEq, Eq, Structural)]
pub struct MapPermission(pub u8);

impl MapPermission {
    /// The permission with the bits `bits`; bits other than R, W, X and U are dropped.
    pub fn from_bits_truncate(bits: u8) -> (r: MapPermission)
        ensures
            r.0 == bits & 0x1e,
    {
        MapPermission(bits & 0x1e)
    }

    /// The bits of this permission.
    pub fn bits(&self) -> (r: u8)
        ensures
            r == self.0,
    {
        self.0
    }

    /// This permission with the bits of `other` added.
    pub fn union(&self, other: MapPermission) -> (r: MapPermission)
        ensures
            r.0 == self.0 | other.0,
    {
        MapPermission(self.0 | other.0)
    }
}

/// How the pages of an area find their frames.
#[derive(Copy, Clone, Debug, PartialEq, Eq, Structural)]
pub enum MapType {
    /// Each page maps to the frame with the same number (kernel mappings).
    Identical,
    /// Each page maps to a frame of its own, allocated when the area is mapped.
    Framed,
}

/// What an area is used for.
#[derive(Copy, Clone, Debug, PartialEq, Eq, Structural)]
pub enum AreaType {
    /// A segment of an ELF image: text, rodata, data or bss.
    Elf,
    /// A stack.
    Stack,
    /// The program break.
    Brk,
    /// A memory mapping.
    Mmap,
    /// The trap context.
    Trap,
    /// Shared memory.
    Shm,
    /// Physical frames, for the kernel.
    Physical,
    /// Memory-mapped I/O, for the kernel.
    Mmio,
}

/// Two page numbers share a leaf entry exactly when they agree modulo 2^27.
pub proof fn lemma_same_page_mod(a: u64, b: u64)
    ensures
        same_page(a, b) <==> a % 0x800_0000 == b % 0x800_0000,
{
    assert(((a >> 18u64) & 511u64 == (b >> 18u64) & 511u64 && (a >> 9u64) & 511u64 == (b >> 9u64)
        & 511u64 && a & 511u64 == b & 511u64) <==> (a & 0x7ff_ffffu64 == b & 0x7ff_ffffu64))
        by (bit_vector);
    assert(a & 0x7ff_ffffu64 == a % 0x800_0000) by (bit_vector);
    assert(b & 0x7ff_ffffu64 == b % 0x800_0000) by (bit_vector);
    if same_page(a, b) {
        assert(spec_indexes(a)[0] == spec_indexes(b)[0]);
        assert(spec_indexes(a)[1] == spec_indexes(b)[1]);
        assert(spec_indexes(a)[2] == spec_indexes(b)[2]);
    }
    if a % 0x800_0000 == b % 0x800_0000 {
        assert(spec_indexes(a) =~= spec_indexes(b));
    }
}

/// Distinct pages less than 2^27 apart never share a leaf entry.
pub proof fn lemma_near_pages_differ(a: u64, b: u64)
    requires
        a < b,
        b - a < sv39_pages(),
    ensures
        !same_page(a, b),
{
    lemma_same_page_mod(a, b);
    assert(a % 0x800_0000 != b % 0x800_0000) by (nonlinear_arith)
        requires
            a < b,
            b - a < 0x800_0000,
    ;
}

/// Two areas with the same pages, policy, permission and frames are mapped
/// through the same table alike.
pub proof fn lemma_same_layout_mapped(a: MapArea, b: MapArea, pt: PageTable)
    requires
        a.start() == b.start(),
        a.end() == b.end(),
        a.spec_map_type() == b.spec_map_type(),
        a.spec_perm() == b.spec_perm(),
        a.frames() == b.frames(),
        a.mapped_in(pt),
    ensures
        b.mapped_in(pt),
{
    assert forall|v: u64| b.start() <= v < b.end() implies (#[trigger] pt.spec_translate(v) matches Some(e)
        && e.spec_ppn() == b.target(v) && e.spec_flags() == b.spec_perm() | PTE_V) by {
        assert(a.target(v) == b.target(v));
    }
}

/// A mapped area does not end before it starts.
pub proof fn lemma_mapped_bounds(a: MapArea)
    requires
        a.is_mapped(),
    ensures
        a.start() <= a.end(),
{
}

/// A mapped framed area holds one frame per page.
pub proof fn lemma_mapped_frames(a: MapArea)
    requires
        a.is_mapped(),
        a.spec_map_type() == MapType::Framed,
    ensures
        a.frames().len() == a.page_count(),
        a.start() <= a.end(),
{
}

/// Some page of `[s, e)` shares `v`'s leaf entry.
pub open spec fn covers(s: u64, e: u64, v: u64) -> bool {
    exists|w: u64| s <= w < e && same_page(v, w)
}

/// A run of contiguous virtual pages with one mapping policy.
pub struct MapArea {
    vpn_range: (VirtPageNum, VirtPageNum),
    /// For a framed area, the frame behind each page, in page order.
    data_frames: Vec<FrameTracker>,
    /// The bytes held in each frame of `data_frames`.
    pages: Vec<Vec<u8>>,
    map_perm: MapPermission,
    map_type: MapType,
    area_type: AreaType,
}

impl MapArea {
    /// First page of the area.
    pub closed spec fn start(self) -> u64 {
        self.vpn_range.0.0
    }

    /// The page just past the area.
    pub closed spec fn end(self) -> u64 {
        self.vpn_range.1.0
    }

    /// How the area is mapped.
    pub closed spec fn spec_map_type(self) -> MapType {
        self.map_type
    }

    /// Permission of the area.
    pub closed spec fn spec_perm(self) -> u8 {
        self.map_perm.0
    }

    /// What the area is used for.
    pub closed spec fn spec_area_type(self) -> AreaType {
        self.area_type
    }

    /// Page numbers of the frames that the area owns.
    pub closed spec fn frames(self) -> Seq<u64> {
        self.data_frames@.map_values(|f: FrameTracker| f.ppn.0)
    }

    /// The bytes of the `i`-th page of a framed area.
    pub closed spec fn page(self, i: int) -> Seq<u8> {
        self.pages@[i]@
    }

    /// Number of pages.
    pub open spec fn page_count(self) -> int {
        self.end() - self.start()
    }

    /// The area holds no frame: it is not mapped.
    pub closed spec fn is_unmapped(self) -> bool {
        &&& self.data_frames@.len() == 0
        &&& self.pages@.len() == 0
    }

    /// The area's bookkeeping is consistent with every page mapped: a framed
    /// area holds one frame and one page of bytes per page.
    pub closed spec fn is_mapped(self) -> bool {
        &&& self.start() <= self.end()
        &&& self.map_type == MapType::Framed ==> {
            &&& self.data_frames@.len() == self.page_count()
            &&& self.pages@.len() == self.page_count()
            &&& forall|i: int| 0 <= i < self.page_count() ==> (#[trigger] self.pages@[i])@.len() == PAGE_SIZE
        }
        &&& self.map_type == MapType::Identical ==> self.is_unmapped()
    }

    /// The frame that page `v` of the area maps to.
    pub open spec fn target(self, v: u64) -> u64 {
        if self.spec_map_type() == MapType::Identical {
            v
        } else {
            self.frames()[v - self.start()]
        }
    }

    /// Every page of the area translates in `pt` to its frame, with the
    /// area's permission and the valid bit.
    pub open spec fn mapped_in(self, pt: PageTable) -> bool {
        forall|v: u64| self.start() <= v < self.end() ==> (#[trigger] pt.spec_translate(v) matches Some(e)
            && e.spec_ppn() == self.target(v) && e.spec_flags() == self.spec_perm() | PTE_V)
    }

    /// The first `n` pages of the area have their bookkeeping.
    pub closed spec fn mapped_upto(self, n: int) -> bool {
        &&& self.start() <= self.end()
        &&& self.map_type == MapType::Framed ==> {
            &&& self.data_frames@.len() == n
            &&& self.pages@.len() == n
            &&& forall|i: int| 0 <= i < n ==> (#[trigger] self.pages@[i])@.len() == PAGE_SIZE
        }
        &&& self.map_type == MapType::Identical ==> self.is_unmapped()
    }

    /// The frames of the area were free in `a` and are allocated, once each, in `b`.
    pub open spec fn frames_fresh(self, a: AllocView, b: AllocView) -> bool {
        &&& self.frames().no_duplicates()
        &&& forall|i: int| 0 <= i < self.frames().len() ==> a.is_free(#[trigger] self.frames()[i])
        &&& forall|i: int| 0 <= i < self.frames().len() ==> b.is_allocated(#[trigger] self.frames()[i])
    }

    /// Maps page `vpn`, the next page of the area, into `pt`; a framed area
    /// first takes a fresh frame for it. The area keeps its frames in page
    /// order, so pages are mapped from the first one up (`map` does so).
    fn map_one(&mut self, pt: &mut PageTable, vpn: VirtPageNum, allocator: &mut StackFrameAllocator)
        requires
            old(self).start() <= vpn.0 < old(self).end(),
            old(self).mapped_upto(vpn.0 - old(self).start()),
            old(pt).wf(),
            old(pt).owns_vpn(vpn.0),
            old(pt).spec_translate(vpn.0) is None,
            old(self).spec_map_type() == MapType::Identical ==> vpn.0 < ppn_limit(),
            old(allocator)@.wf(),
            old(allocator)@.free_count() >= 3,
        ensures
            final(self).mapped_upto(vpn.0 - old(self).start() + 1),
            final(self).start() == old(self).start(),
            final(self).end() == old(self).end(),
            final(self).spec_map_type() == old(self).spec_map_type(),
            final(self).spec_perm() == old(self).spec_perm(),
            final(self).spec_area_type() == old(self).spec_area_type(),
            forall|w: u64| old(self).start() <= w < vpn.0 ==> #[trigger] final(self).target(w) == old(self).target(w),
            old(self).spec_map_type() == MapType::Framed ==> {
                &&& final(self).frames() == old(self).frames().push(final(self).target(vpn.0))
                &&& old(allocator)@.is_free(final(self).target(vpn.0))
                &&& final(allocator)@.is_allocated(final(self).target(vpn.0))
            },
            old(self).spec_map_type() == MapType::Identical ==> final(self).frames() == old(self).frames(),
            final(pt).wf(),
            map_post(*old(pt), *final(pt), vpn.0, final(self).target(vpn.0), final(self).spec_perm()),
            final(pt).spec_shares_kernel() == old(pt).spec_shares_kernel(),
            final(pt).spec_root() == old(pt).spec_root(),
            forall|v: u64| #[trigger] final(pt).owns_vpn(v) == old(pt).owns_vpn(v),
            final(pt).node_count() >= old(pt).node_count(),
            final(pt).frame_ppns().subrange(0, old(pt).node_count() as int) == old(pt).frame_ppns(),
            forall|t: int| old(pt).node_count() <= t < final(pt).node_count()
                ==> old(allocator)@.is_free(#[trigger] final(pt).frame_ppns()[t]),
            old(self).spec_map_type() == MapType::Framed ==> fresh(seq![final(self).target(vpn.0)] + new_frames(
                *old(pt), *final(pt)), old(allocator)@, final(allocator)@),
            old(self).spec_map_type() == MapType::Identical ==> fresh(new_frames(*old(pt), *final(pt)), old(allocator)@,
                final(allocator)@),
            final(allocator)@.wf(),
            alloc_only(old(allocator)@, final(allocator)@),
            final(allocator)@.free_count() >= old(allocator)@.free_count() - 3,
    {
        let ghost o = *self;
        let ghost a0 = allocator@;
        let ppn: PhysPageNum;
        match self.map_type {
            MapType::Identical => {
                ppn = PhysPageNum(vpn.0);
            },
            MapType::Framed => {
                let frame = match frame_alloc(allocator) {
                    Some(f) => f,
                    None => {
                        proof {
                            assert(false);
                        }
                        FrameTracker::new(PhysPageNum(0))
                    },
                };
                ppn = frame.ppn;
                let mut bytes: Vec<u8> = Vec::new();
                let mut i: usize = 0;
                while i < PAGE_SIZE
                    invariant
                        i <= PAGE_SIZE,
                        bytes@.len() == i,
                    decreases PAGE_SIZE - i,
                {
                    bytes.push(0u8);
                    i = i + 1;
                }
                self.data_frames.push(frame);
                self.pages.push(bytes);
                proof {
                    assert(self.frames() =~= o.frames().push(ppn.0));
                    assert(self.target(vpn.0) == ppn.0);
                    assert forall|i: int| 0 <= i < vpn.0 - o.start() + 1
                        implies (#[trigger] self.pages@[i])@.len() == PAGE_SIZE by {
                        if i < vpn.0 - o.start() {
                            assert(self.pages@[i] == o.pages@[i]);
                        }
                    }
                }
            },
        }
        let ghost a1 = allocator@;
        pt.map(vpn, ppn, PTEFlags(self.map_perm.0), allocator);
        proof {
            crate::page_table::lemma_alloc_only_trans(a0, a1, allocator@);
            assert forall|t: int| old(pt).node_count() <= t < pt.node_count()
                implies a0.is_free(#[trigger] pt.frame_ppns()[t]) by {
                assert(a1.is_free(pt.frame_ppns()[t]));
            }
            if o.map_type == MapType::Framed {
                assert(allocator@.is_allocated(ppn.0));
                assert(fresh(seq![ppn.0], a0, a1));
                lemma_fresh_concat(seq![ppn.0], new_frames(*old(pt), *pt), a0, a1, allocator@);
            } else {
                assert(a1 == a0);
            }
        }
    }

    /// Maps every page of the area into `pt`.
    pub fn map(&mut self, pt: &mut PageTable, allocator: &mut StackFrameAllocator)
        requires
            old(self).is_unmapped(),
            old(self).start() <= old(self).end(),
            old(self).page_count() <= sv39_pages(),
            old(self).spec_map_type() == MapType::Identical ==> old(self).end() <= ppn_limit(),
            old(pt).wf(),
            forall|v: u64| old(self).start() <= v < old(self).end() ==> #[trigger] old(pt).owns_vpn(v),
            forall|v: u64| old(self).start() <= v < old(self).end() ==> #[trigger] old(pt).spec_translate(v) is None,
            old(allocator)@.wf(),
            old(allocator)@.free_count() >= 3 * old(self).page_count(),
        ensures
            final(self).is_mapped(),
            final(self).mapped_in(*final(pt)),
            final(self).start() == old(self).start(),
            final(self).end() == old(self).end(),
            final(self).spec_map_type() == old(self).spec_map_type(),
            final(self).spec_perm() == old(self).spec_perm(),
            final(self).spec_area_type() == old(self).spec_area_type(),
            final(self).frames_fresh(old(allocator)@, final(allocator)@),
            fresh(new_frames(*old(pt), *final(pt)) + final(self).frames(), old(allocator)@, final(allocator)@),
            final(pt).wf(),
            forall|v: u64| !covers(old(self).start(), old(self).end(), v)
                ==> #[trigger] final(pt).spec_translate(v) == old(pt).spec_translate(v),
            final(pt).spec_shares_kernel() == old(pt).spec_shares_kernel(),
            final(pt).spec_root() == old(pt).spec_root(),
            forall|v: u64| #[trigger] final(pt).owns_vpn(v) == old(pt).owns_vpn(v),
            final(pt).node_count() >= old(pt).node_count(),
            final(pt).frame_ppns().subrange(0, old(pt).node_count() as int) == old(pt).frame_ppns(),
            forall|t: int| old(pt).node_count() <= t < final(pt).node_count()
                ==> old(allocator)@.is_free(#[trigger] final(pt).frame_ppns()[t]),
            final(allocator)@.wf(),
            alloc_only(old(allocator)@, final(allocator)@),
            final(allocator)@.free_count() >= old(allocator)@.free_count() - 3 * old(self).page_count(),
    {
        let ghost o = *self;
        let ghost pt0 = *pt;
        let ghost a0 = allocator@;
        let start = self.vpn_range.0.0;
        let end = self.vpn_range.1.0;
        let mut vpn: u64 = start;
        proof {
            assert(self.frames() =~= Seq::<u64>::empty());
            assert(pt.frame_ppns().subrange(0, pt0.node_count() as int) =~= pt0.frame_ppns());
            assert(new_frames(pt0, *pt) + self.frames() =~= Seq::<u64>::empty());
        }
        while vpn < end
            invariant
                start == o.start(),
                end == o.end(),
                start <= vpn <= end,
                end - start <= sv39_pages(),
                self.start() == o.start(),
                self.end() == o.end(),
                self.spec_map_type() == o.spec_map_type(),
                self.spec_perm() == o.spec_perm(),
                self.spec_area_type() == o.spec_area_type(),
                self.mapped_upto(vpn - start),
                o.spec_map_type() == MapType::Identical ==> end <= ppn_limit(),
                pt.wf(),
                forall|v: u64| start <= v < vpn ==> (#[trigger] pt.spec_translate(v) matches Some(e)
                    && e.spec_ppn() == self.target(v) && e.spec_flags() == self.spec_perm() | PTE_V),
                forall|v: u64| vpn <= v < end ==> #[trigger] pt.owns_vpn(v),
                forall|v: u64| vpn <= v < end ==> #[trigger] pt.spec_translate(v) is None,
                forall|v: u64| !covers(start, vpn, v) ==> #[trigger] pt.spec_translate(v) == pt0.spec_translate(v),
                forall|v: u64| #[trigger] pt.owns_vpn(v) == pt0.owns_vpn(v),
                pt.spec_shares_kernel() == pt0.spec_shares_kernel(),
                pt.spec_root() == pt0.spec_root(),
                pt.node_count() >= pt0.node_count(),
                pt.frame_ppns().subrange(0, pt0.node_count() as int) == pt0.frame_ppns(),
                forall|t: int| pt0.node_count() <= t < pt.node_count()
                    ==> a0.is_free(#[trigger] pt.frame_ppns()[t]),
                o.spec_map_type() == MapType::Framed ==> self.frames_fresh(a0, allocator@),
                o.spec_map_type() == MapType::Identical ==> self.frames().len() == 0,
                fresh(new_frames(pt0, *pt) + self.frames(), a0, allocator@),
                allocator@.wf(),
                alloc_only(a0, allocator@),
                allocator@.free_count() >= a0.free_count() - 3 * (vpn - start),
                a0.free_count() >= 3 * (end - start),
            decreases end - vpn,
        {
            let ghost s1 = *self;
            let ghost pt1 = *pt;
            let ghost a1 = allocator@;
            assert(pt.owns_vpn(vpn));
            assert(pt.spec_translate(vpn) is None);
            self.map_one(pt, VirtPageNum(vpn), allocator);
            proof {
                crate::page_table::lemma_alloc_only_trans(a0, a1, allocator@);
                assert forall|v: u64| start <= v < vpn + 1 implies (#[trigger] pt.spec_translate(v) matches Some(e)
                    && e.spec_ppn() == self.target(v) && e.spec_flags() == self.spec_perm() | PTE_V) by {
                    if v < vpn {
                        lemma_near_pages_differ(v, vpn);
                        assert(!same_page(v, vpn));
                    }
                }
                assert forall|v: u64| vpn + 1 <= v < end implies #[trigger] pt.owns_vpn(v) by {
                    assert(pt1.owns_vpn(v));
                }
                assert forall|v: u64| vpn + 1 <= v < end implies #[trigger] pt.spec_translate(v) is None by {
                    lemma_near_pages_differ(vpn, v);
                    lemma_same_page_mod(vpn, v);
                    lemma_same_page_mod(v, vpn);
                    assert(pt1.spec_translate(v) is None);
                    assert(!same_page(v, vpn));
                }
                assert forall|v: u64| !covers(start, (vpn + 1) as u64, v)
                    implies #[trigger] pt.spec_translate(v) == pt0.spec_translate(v) by {
                    assert(!same_page(v, vpn));
                    assert(!covers(start, vpn, v));
                }
                assert(pt.frame_ppns().subrange(0, pt0.node_count() as int) =~= pt0.frame_ppns()) by {
                    assert(pt.frame_ppns().subrange(0, pt1.node_count() as int) =~= pt1.frame_ppns());
                    assert(pt1.frame_ppns().subrange(0, pt0.node_count() as int) =~= pt0.frame_ppns());
                }
                assert forall|t: int| pt0.node_count() <= t < pt.node_count()
                    implies a0.is_free(#[trigger] pt.frame_ppns()[t]) by {
                    if t < pt1.node_count() {
                        assert(pt.frame_ppns()[t] == pt1.frame_ppns()[t]);
                    } else {
                        assert(a1.is_free(pt.frame_ppns()[t]));
                    }
                }
                let np = new_frames(pt0, pt1);
                let ps = new_frames(pt1, *pt);
                assert(new_frames(pt0, *pt) =~= np + ps);
                if o.spec_map_type() == MapType::Framed {
                    let d = seq![self.target(vpn)];
                    lemma_fresh_concat(np + s1.frames(), d + ps, a0, a1, allocator@);
                    assert(np + s1.frames() + (d + ps) =~= np + (s1.frames() + d) + ps + Seq::<u64>::empty());
                    lemma_fresh_swap(np, s1.frames() + d, ps, Seq::<u64>::empty(), a0, allocator@);
                    assert(np + ps + (s1.frames() + d) + Seq::<u64>::empty() =~= new_frames(pt0, *pt) + self.frames());
                } else {
                    lemma_fresh_concat(np + s1.frames(), ps, a0, a1, allocator@);
                    assert(s1.frames() =~= Seq::<u64>::empty());
                    assert(self.frames() =~= Seq::<u64>::empty());
                    assert(np + s1.frames() + ps =~= new_frames(pt0, *pt) + self.frames());
                }
                if o.spec_map_type() == MapType::Framed {
                    let f = self.frames();
                    let new_ppn = self.target(vpn);
                    assert(f == s1.frames().push(new_ppn));
                    assert forall|i: int| 0 <= i < f.len() implies a0.is_free(#[trigger] f[i]) by {
                        if i < f.len() - 1 {
                            assert(f[i] == s1.frames()[i]);
                        }
                    }
                    assert forall|i: int| 0 <= i < f.len() implies allocator@.is_allocated(#[trigger] f[i]) by {
                        if i < f.len() - 1 {
                            assert(f[i] == s1.frames()[i]);
                            assert(a1.is_allocated(f[i]));
                        }
                    }
                    assert forall|i: int, j: int| 0 <= i < f.len() && 0 <= j < f.len() && i != j
                        implies f[i] != f[j] by {
                        if i < f.len() - 1 && j < f.len() - 1 {
                            assert(f[i] == s1.frames()[i] && f[j] == s1.frames()[j]);
                        } else if i < f.len() - 1 {
                            assert(a1.is_allocated(f[i]));
                            assert(a1.is_free(f[j]));
                        } else {
                            assert(a1.is_allocated(f[j]));
                            assert(a1.is_free(f[i]));
                        }
                    }
                } else {
                    assert(self.frames() == s1.frames());
                }
            }
            vpn = vpn + 1;
        }
        proof {
            assert(self.is_mapped());
        }
    }

    /// Byte `pos` of a framed area, counted from the first byte of its first page.
    pub open spec fn byte_at(self, pos: int) -> u8 {
        self.page(pos / PAGE_SIZE as int)[pos % PAGE_SIZE as int]
    }

    /// The frames of the area are allocated in `a`, once each.
    pub open spec fn frames_owned(self, a: AllocView) -> bool {
        &&& self.frames().no_duplicates()
        &&& forall|i: int| 0 <= i < self.frames().len() ==> a.is_allocated(#[trigger] self.frames()[i])
    }

    /// Copies `data` into the pages of a mapped framed area, starting `offset`
    /// bytes into its first page; the other bytes keep their values.
    pub fn copy_data(&mut self, data: &[u8], offset: usize)
        requires
            old(self).is_mapped(),
            old(self).spec_map_type() == MapType::Framed,
            offset + data@.len() <= old(self).page_count() * PAGE_SIZE,
            old(self).page_count() <= sv39_pages(),
        ensures
            final(self).is_mapped(),
            final(self).start() == old(self).start(),
            final(self).end() == old(self).end(),
            final(self).spec_map_type() == old(self).spec_map_type(),
            final(self).spec_perm() == old(self).spec_perm(),
            final(self).spec_area_type() == old(self).spec_area_type(),
            final(self).frames() == old(self).frames(),
            forall|pos: int| 0 <= pos < old(self).page_count() * PAGE_SIZE ==> #[trigger] final(self).byte_at(pos)
                == if offset <= pos < offset + data@.len() {
                    data@[pos - offset]
                } else {
                    old(self).byte_at(pos)
                },
    {
        let ghost o = *self;
        let len = data.len();
        let mut j: usize = 0;
        while j < len
            invariant
                j <= len,
                len == data@.len(),
                offset + len <= o.page_count() * PAGE_SIZE,
                o.page_count() <= sv39_pages(),
                o.is_mapped(),
                o.spec_map_type() == MapType::Framed,
                self.vpn_range == o.vpn_range,
                self.map_type == o.map_type,
                self.map_perm == o.map_perm,
                self.area_type == o.area_type,
                self.data_frames == o.data_frames,
                self.pages@.len() == o.pages@.len(),
                forall|i: int| 0 <= i < o.page_count() ==> (#[trigger] self.pages@[i])@.len() == PAGE_SIZE,
                forall|pos: int| 0 <= pos < o.page_count() * PAGE_SIZE ==> #[trigger] self.byte_at(pos)
                    == if offset <= pos < offset + j {
                        data@[pos - offset]
                    } else {
                        o.byte_at(pos)
                    },
            decreases len - j,
        {
            let pos: u64 = offset as u64 + j as u64;
            let p = (pos / 4096) as usize;
            let b = (pos % 4096) as usize;
            let ghost before = *self;
            self.pages[p][b] = data[j];
            proof {
                assert forall|i: int| 0 <= i < o.page_count() implies (#[trigger] self.pages@[i])@.len() == PAGE_SIZE by {
                    assert(before.pages@[i]@.len() == PAGE_SIZE);
                }
                assert forall|q: int| 0 <= q < o.page_count() * PAGE_SIZE implies #[trigger] self.byte_at(q)
                    == if offset <= q < offset + j + 1 {
                        data@[q - offset]
                    } else {
                        o.byte_at(q)
                    } by {
                    assert(before.byte_at(q) == if offset <= q < offset + j { data@[q - offset] } else { o.byte_at(q) });
                    if q == pos {
                        assert(self.byte_at(q) == data@[j as int]);
                    } else {
                        assert(q / 4096 != p || q % 4096 != b);
                        assert(self.byte_at(q) == before.byte_at(q));
                    }
                }
            }
            j = j + 1;
        }
    }

    /// Copies the bytes of every page of `other` into the same page of this
    /// area. Both are mapped, framed, and of the same length.
    pub fn copy_pages_from(&mut self, other: &MapArea)
        requires
            old(self).is_mapped(),
            other.is_mapped(),
            old(self).spec_map_type() == MapType::Framed,
            other.spec_map_type() == MapType::Framed,
            old(self).page_count() == other.page_count(),
        ensures
            final(self).is_mapped(),
            final(self).start() == old(self).start(),
            final(self).end() == old(self).end(),
            final(self).spec_map_type() == old(self).spec_map_type(),
            final(self).spec_perm() == old(self).spec_perm(),
            final(self).spec_area_type() == old(self).spec_area_type(),
            final(self).frames() == old(self).frames(),
            forall|i: int| 0 <= i < other.page_count() ==> #[trigger] final(self).page(i) == other.page(i),
    {
        let ghost o = *self;
        let n = self.pages.len();
        let mut i: usize = 0;
        while i < n
            invariant
                i <= n,
                n == o.page_count(),
                n == other.page_count(),
                other.is_mapped(),
                other.spec_map_type() == MapType::Framed,
                o.is_mapped(),
                o.spec_map_type() == MapType::Framed,
                self.vpn_range == o.vpn_range,
                self.map_type == o.map_type,
                self.map_perm == o.map_perm,
                self.area_type == o.area_type,
                self.data_frames == o.data_frames,
                self.pages@.len() == n,
                forall|t: int| 0 <= t < n ==> (#[trigger] self.pages@[t])@.len() == PAGE_SIZE,
                forall|t: int| 0 <= t < i ==> #[trigger] self.page(t) == other.page(t),
            decreases n - i,
        {
            let src = &other.pages[i];
            let mut copy: Vec<u8> = Vec::new();
            let mut b: usize = 0;
            while b < src.len()
                invariant
                    b <= src@.len(),
                    copy@ == src@.subrange(0, b as int),
                decreases src@.len() - b,
            {
                copy.push(src[b]);
                b = b + 1;
                proof {
                    assert(copy@ =~= src@.subrange(0, b as int));
                }
            }
            proof {
                assert(copy@ =~= src@);
                assert(other.pages@[i as int]@.len() == PAGE_SIZE);
            }
            let ghost before = *self;
            let ghost cv = copy@;
            assert(cv == other.page(i as int));
            self.pages.set(i, copy);
            proof {
                assert forall|t: int| 0 <= t < n implies (#[trigger] self.pages@[t])@.len() == PAGE_SIZE by {
                    if t != i {
                        assert(self.pages@[t] == before.pages@[t]);
                    }
                }
                assert forall|t: int| 0 <= t < i + 1 implies #[trigger] self.page(t) == other.page(t) by {
                    if t != i {
                        assert(self.pages@[t] == before.pages@[t]);
                        assert(before.page(t) == other.page(t));
                        assert(self.page(t) == before.page(t));
                    } else {
                        assert(self.pages@[t]@ == cv);
                    }
                }
            }
            i = i + 1;
        }
    }

    /// Byte `pos` of a mapped framed area.
    pub fn read_byte(&self, pos: u64) -> (r: u8)
        requires
            self.is_mapped(),
            self.spec_map_type() == MapType::Framed,
            self.page_count() <= sv39_pages(),
            pos < self.page_count() * PAGE_SIZE,
        ensures
            r == self.byte_at(pos as int),
    {
        self.pages[(pos / 4096) as usize][(pos % 4096) as usize]
    }

    /// Sets byte `pos` of a mapped framed area to `b`.
    pub fn write_byte(&mut self, pos: u64, b: u8)
        requires
            old(self).is_mapped(),
            old(self).spec_map_type() == MapType::Framed,
            old(self).page_count() <= sv39_pages(),
            pos < old(self).page_count() * PAGE_SIZE,
        ensures
            final(self).is_mapped(),
            final(self).start() == old(self).start(),
            final(self).end() == old(self).end(),
            final(self).spec_map_type() == old(self).spec_map_type(),
            final(self).spec_perm() == old(self).spec_perm(),
            final(self).spec_area_type() == old(self).spec_area_type(),
            final(self).frames() == old(self).frames(),
            forall|q: int| 0 <= q < old(self).page_count() * PAGE_SIZE ==> #[trigger] final(self).byte_at(q)
                == if q == pos { b } else { old(self).byte_at(q) },
    {
        let ghost o = *self;
        self.pages[(pos / 4096) as usize][(pos % 4096) as usize] = b;
        proof {
            assert forall|t: int| 0 <= t < o.page_count() implies (#[trigger] self.pages@[t])@.len() == PAGE_SIZE by {
                assert(o.pages@[t]@.len() == PAGE_SIZE);
            }
            assert forall|q: int| 0 <= q < o.page_count() * PAGE_SIZE implies #[trigger] self.byte_at(q)
                == if q == pos { b } else { o.byte_at(q) } by {
                if q != pos {
                    assert(q / 4096 != pos / 4096 || q % 4096 != pos % 4096);
                }
            }
        }
    }

    /// Unmaps every page of the area from `pt` and gives its frames back.
    pub fn unmap(&mut self, pt: &mut PageTable, allocator: &mut StackFrameAllocator)
        requires
            old(self).is_mapped(),
            old(self).page_count() <= sv39_pages(),
            old(pt).wf(),
            old(self).mapped_in(*old(pt)),
            old(allocator)@.wf(),
            old(self).frames_owned(old(allocator)@),
        ensures
            final(self).is_unmapped(),
            final(self).start() == old(self).start(),
            final(self).end() == old(self).end(),
            final(self).spec_map_type() == old(self).spec_map_type(),
            final(self).spec_perm() == old(self).spec_perm(),
            final(self).spec_area_type() == old(self).spec_area_type(),
            final(pt).wf(),
            forall|v: u64| old(self).start() <= v < old(self).end() ==> #[trigger] final(pt).spec_translate(v) is None,
            forall|v: u64| !covers(old(self).start(), old(self).end(), v)
                ==> #[trigger] final(pt).spec_translate(v) == old(pt).spec_translate(v),
            final(pt).spec_shares_kernel() == old(pt).spec_shares_kernel(),
            final(pt).spec_root() == old(pt).spec_root(),
            forall|v: u64| #[trigger] final(pt).owns_vpn(v) == old(pt).owns_vpn(v),
            final(pt).frame_ppns() == old(pt).frame_ppns(),
            final(allocator)@.wf(),
            forall|i: int| 0 <= i < old(self).frames().len() ==> final(allocator)@.is_free(#[trigger] old(self).frames()[i]),
            forall|q: u64| !old(self).frames().contains(q)
                ==> (#[trigger] old(allocator)@.is_allocated(q) <==> final(allocator)@.is_allocated(q)),
            forall|q: u64| #[trigger] old(allocator)@.is_free(q) ==> final(allocator)@.is_free(q),
            final(allocator)@.free_count() == old(allocator)@.free_count() + old(self).frames().len(),
    {
        let ghost o = *self;
        let ghost pt0 = *pt;
        let ghost a0 = allocator@;
        let start = self.vpn_range.0.0;
        let end = self.vpn_range.1.0;
        let mut vpn: u64 = start;
        while vpn < end
            invariant
                start == o.start(),
                end == o.end(),
                start <= vpn <= end,
                end - start <= sv39_pages(),
                *self == o,
                pt.wf(),
                forall|v: u64| vpn <= v < end ==> (#[trigger] pt.spec_translate(v)) == pt0.spec_translate(v),
                forall|v: u64| start <= v < end ==> (#[trigger] pt0.spec_translate(v)) is Some,
                forall|v: u64| start <= v < vpn ==> #[trigger] pt.spec_translate(v) is None,
                forall|v: u64| !covers(start, vpn, v) ==> #[trigger] pt.spec_translate(v) == pt0.spec_translate(v),
                forall|v: u64| #[trigger] pt.owns_vpn(v) == pt0.owns_vpn(v),
                pt.spec_shares_kernel() == pt0.spec_shares_kernel(),
                pt.spec_root() == pt0.spec_root(),
                pt.frame_ppns() == pt0.frame_ppns(),
            decreases end - vpn,
        {
            let ghost pt1 = *pt;
            assert(pt.spec_translate(vpn) == pt0.spec_translate(vpn));
            pt.unmap(VirtPageNum(vpn));
            proof {
                assert forall|v: u64| vpn + 1 <= v < end implies (#[trigger] pt.spec_translate(v)) == pt0.spec_translate(v) by {
                    lemma_near_pages_differ(vpn, v);
                    lemma_same_page_mod(vpn, v);
                    lemma_same_page_mod(v, vpn);
                    assert(pt1.spec_translate(v) == pt0.spec_translate(v));
                }
                assert forall|v: u64| start <= v < vpn + 1 implies #[trigger] pt.spec_translate(v) is None by {
                    if v < vpn {
                        lemma_near_pages_differ(v, vpn);
                    } else {
                        lemma_same_page_mod(v, vpn);
                    }
                }
                assert forall|v: u64| !covers(start, (vpn + 1) as u64, v)
                    implies #[trigger] pt.spec_translate(v) == pt0.spec_translate(v) by {
                    assert(!same_page(v, vpn));
                    assert(!covers(start, vpn, v));
                }
            }
            vpn = vpn + 1;
        }
        let ghost frames0 = o.frames();
        while self.data_frames.len() > 0
            invariant
                self.vpn_range == o.vpn_range,
                self.map_type == o.map_type,
                self.map_perm == o.map_perm,
                self.area_type == o.area_type,
                self.pages@.len() == self.data_frames@.len() || o.map_type == MapType::Identical,
                o.map_type == MapType::Identical ==> self.is_unmapped(),
                self.frames().len() <= frames0.len(),
                self.frames() == frames0.subrange(0, self.frames().len() as int),
                frames0 == o.frames(),
                frames0.no_duplicates(),
                allocator@.wf(),
                forall|i: int| 0 <= i < self.frames().len() ==> allocator@.is_allocated(#[trigger] frames0[i]),
                forall|i: int| self.frames().len() <= i < frames0.len() ==> allocator@.is_free(#[trigger] frames0[i]),
                forall|q: u64| !frames0.contains(q) ==> (#[trigger] a0.is_allocated(q) <==> allocator@.is_allocated(q)),
                forall|q: u64| #[trigger] a0.is_free(q) ==> allocator@.is_free(q),
                allocator@.free_count() == a0.free_count() + frames0.len() - self.frames().len(),
                a0.wf(),
                forall|i: int| 0 <= i < frames0.len() ==> a0.is_allocated(#[trigger] frames0[i]),
            decreases self.data_frames@.len(),
        {
            let ghost before = self.frames();
            let ghost df = self.data_frames@;
            let ghost a1 = allocator@;
            let frame = self.data_frames.pop().unwrap();
            self.pages.pop();
            let ghost k = before.len() - 1;
            proof {
                assert(self.data_frames@ =~= df.drop_last());
                assert(self.frames() =~= before.drop_last());
                assert(frame == df[k]);
                assert(before[k] == df[k].ppn.0);
                assert(before[k] == frames0[k]);
            }
            frame_dealloc(allocator, frame);
            proof {
                assert(self.frames() =~= frames0.subrange(0, self.frames().len() as int));
                assert forall|i: int| 0 <= i < self.frames().len() implies allocator@.is_allocated(#[trigger] frames0[i]) by {
                    assert(frames0[i] != frames0[k]);
                }
                assert forall|i: int| self.frames().len() <= i < frames0.len() implies allocator@.is_free(#[trigger] frames0[i]) by {
                    if i != k {
                        assert(frames0[i] != frames0[k]);
                        assert(a1.is_free(frames0[i]));
                        assert(!a1.is_allocated(frames0[i]) || !a1.is_free(frames0[i]));
                        assert(!allocator@.is_allocated(frames0[i]));
                    }
                }
                assert forall|q: u64| !frames0.contains(q) implies (#[trigger] a0.is_allocated(q) <==> allocator@.is_allocated(q)) by {
                    assert(q != frames0[k]);
                }
            }
        }
        proof {
            assert(self.frames().len() == 0);
            assert(self.frames() =~= Seq::<u64>::empty());
            assert forall|i: int| 0 <= i < frames0.len() implies allocator@.is_free(#[trigger] frames0[i]) by {}
        }
    }

    /// An unmapped area over the pages that `[start_va, end_va)` touches.
    pub fn new(start_va: VirtAddr, end_va: VirtAddr, map_type: MapType, map_perm: MapPermission,
        area_type: AreaType) -> (r: MapArea)
        ensures
            r.start() == start_va.0 / PAGE_SIZE as u64,
            r.end() == (end_va.0 + PAGE_SIZE - 1) / PAGE_SIZE as int,
            r.spec_map_type() == map_type,
            r.spec_perm() == map_perm.0,
            r.spec_area_type() == area_type,
            r.is_unmapped(),
    {
        let start_vpn = start_va.floor();
        let end_vpn = end_va.ceil();
        MapArea {
            vpn_range: (start_vpn, end_vpn),
            data_frames: Vec::new(),
            pages: Vec::new(),
            map_perm,
            map_type,
            area_type,
        }
    }

    /// An unmapped area with the range, type and permission of `another`.
    pub fn from_existed_map_area(another: &MapArea) -> (r: MapArea)
        ensures
            r.start() == another.start(),
            r.end() == another.end(),
            r.spec_map_type() == another.spec_map_type(),
            r.spec_perm() == another.spec_perm(),
            r.spec_area_type() == another.spec_area_type(),
            r.is_unmapped(),
    {
        MapArea {
            vpn_range: another.vpn_range,
            data_frames: Vec::new(),
            pages: Vec::new(),
            map_perm: another.map_perm,
            map_type: another.map_type,
            area_type: another.area_type,
        }
    }

    /// First page of the area.
    pub fn vpn_range_begin(&self) -> (r: VirtPageNum)
        ensures
            r.0 == self.start(),
    {
        self.vpn_range.0
    }

    /// The page just past the area.
    pub fn vpn_range_end(&self) -> (r: VirtPageNum)
        ensures
            r.0 == self.end(),
    {
        self.vpn_range.1
    }

    /// How the area is mapped.
    pub fn map_type(&self) -> (r: MapType)
        ensures
            r == self.spec_map_type(),
    {
        self.map_type
    }

    /// Permission of the area.
    pub fn map_perm(&self) -> (r: MapPermission)
        ensures
            r.0 == self.spec_perm(),
    {
        self.map_perm
    }

    /// What the area is used for.
    pub fn area_type(&self) -> (r: AreaType)
        ensures
            r == self.spec_area_type(),
    {
        self.area_type
    }
}

} // verus!
