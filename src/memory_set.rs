//! Address spaces: a page table and the map areas mapped through it.
use vstd::prelude::*;
use crate::address::{PhysPageNum, VirtAddr, VirtPageNum};
use crate::config::PAGE_SIZE;
use crate::frame::{ppn_limit, AllocView, StackFrameAllocator};
use crate::map_area::{covers, lemma_same_page_mod, sv39_pages, AreaType, MapArea, MapPermission, MapType};
use crate::page_table::{alloc_only, fresh, new_frames, lemma_alloc_only_trans, lemma_owns_same, lemma_same_page_translate, lemma_translated_owned, same_page, PageTable};
use crate::pte::{PTEFlags, PageTableEntry, PTE_R, PTE_V, PTE_X};
use crate::config::{PAGE_SIZE_U64, TRAMPOLINE};
use crate::elf::{collect_loads, elf_magic, has_elf_magic, loads, loads_ok, max_end, pages_needed, pages_of_segs, seg_end,
    seg_ok, seg_perm, seg_start, segs_ok, ElfImage, ElfSegment, USER_PAGES};
use crate::map_area::{MAP_R, MAP_U, MAP_W, MAP_X};

verus! {

broadcast use vstd::seq_lib::group_seq_properties;

/// The data frames of a run of areas, area after area.
pub open spec fn area_frames(areas: Seq<MapArea>) -> Seq<u64> {
    areas.map_values(|a: MapArea| a.frames()).flatten()
}

proof fn lemma_flatten_concat(a: Seq<Seq<u64>>, b: Seq<Seq<u64>>)
    ensures
        (a + b).flatten() == a.flatten() + b.flatten(),
    decreases b.len(),
{
    if b.len() == 0 {
        assert(a + b =~= a);
        assert(b.flatten() =~= Seq::<u64>::empty());
        assert(a.flatten() + b.flatten() =~= a.flatten());
    } else {
        let b1 = b.drop_last();
        lemma_flatten_concat(a, b1);
        assert(a + b =~= (a + b1).push(b.last()));
        assert(b =~= b1.push(b.last()));
        (a + b1).lemma_flatten_push(b.last());
        b1.lemma_flatten_push(b.last());
        assert((a + b).flatten() =~= a.flatten() + b.flatten());
    }
}


/// An address space copied by `from_existed_user_space` from one that owns its
/// frames shares none of them with it: every frame of the copy, page-table
/// frames included, was free when the copy began, so a write to a page of one
/// never reaches the other.
pub proof fn lemma_fork_no_aliasing(parent: MemorySet, child: MemorySet, a: AllocView)
    requires
        parent.all_owned(a),
        forall|k: int| 0 <= k < child.owned_frames().len() ==> a.is_free(#[trigger] child.owned_frames()[k]),
    ensures
        forall|i: int, j: int| 0 <= i < parent.owned_frames().len() && 0 <= j < child.owned_frames().len()
            ==> #[trigger] parent.owned_frames()[i] != #[trigger] child.owned_frames()[j],
{
    assert forall|i: int, j: int| 0 <= i < parent.owned_frames().len() && 0 <= j < child.owned_frames().len()
        implies #[trigger] parent.owned_frames()[i] != #[trigger] child.owned_frames()[j] by {
        assert(a.is_allocated(parent.owned_frames()[i]));
        assert(a.is_free(child.owned_frames()[j]));
    }
}

/// Where the kernel image's sections and physical memory lie, as the linker
/// and the board give them.
#[derive(Copy, Clone, Debug, PartialEq, Eq, Structural)]
pub struct KernelLayout {
    pub stext: u64,
    pub etext: u64,
    pub srodata: u64,
    pub erodata: u64,
    pub sdata: u64,
    pub edata: u64,
    pub sbss: u64,
    pub ebss: u64,
    pub ekernel: u64,
    pub memory_end: u64,
}

/// Page-table frames and area frames taken fresh keep the page table's frames
/// owned and apart from the areas'.
proof fn lemma_grow_pt_owned(p: Seq<u64>, np: Seq<u64>, d0: Seq<u64>, d: Seq<u64>, a0: AllocView, a1: AllocView)
    requires
        p.no_duplicates(),
        forall|i: int| 0 <= i < p.len() ==> a0.is_allocated(#[trigger] p[i]),
        forall|i: int, j: int| 0 <= i < p.len() && 0 <= j < d0.len() ==> #[trigger] p[i] != #[trigger] d0[j],
        forall|i: int| 0 <= i < d0.len() ==> a0.is_allocated(#[trigger] d0[i]),
        fresh(np + d, a0, a1),
        alloc_only(a0, a1),
    ensures
        (p + np).no_duplicates(),
        forall|i: int| 0 <= i < (p + np).len() ==> a1.is_allocated(#[trigger] (p + np)[i]),
        forall|i: int, j: int| 0 <= i < (p + np).len() && 0 <= j < (d0 + d).len() ==> #[trigger] (p + np)[i]
            != #[trigger] (d0 + d)[j],
{
    let f = np + d;
    assert forall|i: int| 0 <= i < np.len() implies a0.is_free(#[trigger] np[i]) && a1.is_allocated(np[i]) by {
        assert(f[i] == np[i]);
    }
    assert forall|i: int| 0 <= i < d.len() implies a0.is_free(#[trigger] d[i]) by {
        assert(f[np.len() + i] == d[i]);
    }
    assert(np.no_duplicates()) by {
        assert forall|i: int, j: int| 0 <= i < np.len() && 0 <= j < np.len() && i != j implies np[i] != np[j] by {
            assert(f[i] == np[i] && f[j] == np[j]);
        }
    }
    assert forall|i: int, j: int| 0 <= i < p.len() && 0 <= j < np.len() implies p[i] != np[j] by {
        assert(a0.is_allocated(p[i]));
        assert(a0.is_free(np[j]));
    }
    vstd::seq_lib::lemma_no_dup_in_concat(p, np);
    assert forall|i: int| 0 <= i < (p + np).len() implies a1.is_allocated(#[trigger] (p + np)[i]) by {
        if i < p.len() {
            assert(a0.is_allocated(p[i]));
        } else {
            assert((p + np)[i] == np[i - p.len()]);
        }
    }
    assert forall|i: int, j: int| 0 <= i < (p + np).len() && 0 <= j < (d0 + d).len() implies #[trigger] (p + np)[i]
        != #[trigger] (d0 + d)[j] by {
        let x = (p + np)[i];
        let y = (d0 + d)[j];
        if i < p.len() {
            assert(x == p[i]);
            if j < d0.len() {
                assert(y == d0[j]);
            } else {
                assert(y == d[j - d0.len()]);
                assert(a0.is_allocated(x));
                assert(a0.is_free(y));
            }
        } else {
            assert(x == np[i - p.len()]);
            if j < d0.len() {
                assert(y == d0[j]);
                assert(a0.is_allocated(y));
                assert(a0.is_free(x));
            } else {
                assert(y == d[j - d0.len()]);
                assert(f[i - p.len()] == x);
                assert(f[np.len() + j - d0.len()] == y);
            }
        }
    }
}

/// A `push` onto an address space whose page-table frames were free in `a0`
/// keeps them so.
pub proof fn lemma_pt_frames_fresh(before: MemorySet, after: MemorySet, a0: AllocView, a1: AllocView, a2: AllocView)
    requires
        forall|k: int| 0 <= k < before.spec_pt().frame_ppns().len() ==> a0.is_free(#[trigger] before.spec_pt().frame_ppns()[k]),
        after.spec_pt().frame_ppns() == before.spec_pt().frame_ppns() + new_frames(before.spec_pt(), after.spec_pt()),
        fresh(new_frames(before.spec_pt(), after.spec_pt()) + after.spec_areas().last().frames(), a1, a2),
        alloc_only(a0, a1),
    ensures
        forall|k: int| 0 <= k < after.spec_pt().frame_ppns().len() ==> a0.is_free(#[trigger] after.spec_pt().frame_ppns()[k]),
{
    let bp = before.spec_pt().frame_ppns();
    let np = new_frames(before.spec_pt(), after.spec_pt());
    assert forall|k: int| 0 <= k < after.spec_pt().frame_ppns().len() implies a0.is_free(#[trigger] after.spec_pt().frame_ppns()[k]) by {
        if k < bp.len() {
            assert(after.spec_pt().frame_ppns()[k] == bp[k]);
        } else {
            assert(after.spec_pt().frame_ppns()[k] == np[k - bp.len()]);
            assert((np + after.spec_areas().last().frames())[k - bp.len()] == np[k - bp.len()]);
            assert(a1.is_free(np[k - bp.len()]));
        }
    }
}

/// An address space whose page-table and area frames were all free in `a`
/// has all its owned frames free in `a`.
pub proof fn lemma_owned_free(ms: MemorySet, a: AllocView)
    requires
        forall|k: int| 0 <= k < ms.spec_pt().frame_ppns().len() ==> a.is_free(#[trigger] ms.spec_pt().frame_ppns()[k]),
        forall|k: int| 0 <= k < area_frames(ms.spec_areas()).len() ==> a.is_free(#[trigger] area_frames(ms.spec_areas())[k]),
    ensures
        forall|k: int| 0 <= k < ms.owned_frames().len() ==> a.is_free(#[trigger] ms.owned_frames()[k]),
{
    let p = ms.spec_pt().frame_ppns();
    assert forall|k: int| 0 <= k < ms.owned_frames().len() implies a.is_free(#[trigger] ms.owned_frames()[k]) by {
        if k >= p.len() {
            assert(ms.owned_frames()[k] == area_frames(ms.spec_areas())[k - p.len()]);
        }
    }
}

/// Start and end address of kernel section `i` of `l`, in mapping order.
pub open spec fn sec_raw(l: KernelLayout, i: int) -> (u64, u64) {
    if i == 0 {
        (l.stext, l.etext)
    } else if i == 1 {
        (l.srodata, l.erodata)
    } else if i == 2 {
        (l.sdata, l.edata)
    } else if i == 3 {
        (l.sbss, l.ebss)
    } else {
        (l.ekernel, l.memory_end)
    }
}

/// First page of kernel section `i`.
pub open spec fn sec_start(l: KernelLayout, i: int) -> u64 {
    sec_raw(l, i).0 / 4096
}

/// The page just past kernel section `i`.
pub open spec fn sec_end(l: KernelLayout, i: int) -> u64 {
    ((sec_raw(l, i).1 + 4095) / 4096) as u64
}

/// Permission of kernel section `i`: text R+X, read-only data R, the rest R+W.
pub open spec fn sec_perm(i: int) -> u8 {
    if i == 0 {
        MAP_R | MAP_X
    } else if i == 1 {
        MAP_R
    } else {
        MAP_R | MAP_W
    }
}

/// The first `i` sections are each ordered, follow one another, and end below
/// the trampoline's page.
pub open spec fn chain_upto(l: KernelLayout, i: int) -> bool {
    forall|k: int| 0 <= k < i ==> {
        &&& sec_start(l, k) <= #[trigger] sec_end(l, k)
        &&& sec_end(l, k) < 0x7ff_ffff
        &&& k > 0 ==> sec_end(l, k - 1) <= sec_start(l, k)
    }
}

/// All five sections are in order below the trampoline's page.
pub open spec fn layout_ok(l: KernelLayout) -> bool {
    chain_upto(l, 5)
}

/// Number of pages of the first `i` sections.
pub open spec fn pages_upto(l: KernelLayout, i: int) -> int
    decreases i,
{
    if i <= 0 {
        0
    } else {
        pages_upto(l, i - 1) + (sec_end(l, i - 1) - sec_start(l, i - 1))
    }
}

/// Number of pages of all five sections.
pub open spec fn layout_pages(l: KernelLayout) -> int {
    pages_upto(l, 5)
}

/// Every segment ends at or below the largest end page.
pub proof fn lemma_max_end_bounds(segs: Seq<ElfSegment>)
    ensures
        forall|k: int| 0 <= k < segs.len() ==> seg_end(#[trigger] segs[k]) <= max_end(segs),
    decreases segs.len(),
{
    if segs.len() > 0 {
        lemma_max_end_bounds(segs.drop_last());
        assert forall|k: int| 0 <= k < segs.len() implies seg_end(#[trigger] segs[k]) <= max_end(segs) by {
            if k < segs.len() - 1 {
                assert(segs[k] == segs.drop_last()[k]);
            }
        }
    }
}

/// Page `v` lies in area `a`.
pub open spec fn in_area(a: MapArea, v: u64) -> bool {
    a.start() <= v < a.end()
}

/// An address space.
pub struct MemorySet {
    page_table: PageTable,
    areas: Vec<MapArea>,
}

impl MemorySet {
    /// The page table.
    pub closed spec fn spec_pt(self) -> PageTable {
        self.page_table
    }

    /// The areas, in the order they were added.
    pub closed spec fn spec_areas(self) -> Seq<MapArea> {
        self.areas@
    }

    /// The translation of `vpn`.
    pub open spec fn spec_translate(self, vpn: u64) -> Option<PageTableEntry> {
        self.spec_pt().spec_translate(vpn)
    }

    /// The address space is well formed: its table is, and every area is
    /// mapped through it.
    pub open spec fn wf(self) -> bool {
        &&& self.spec_pt().wf()
        &&& forall|i: int| 0 <= i < self.spec_areas().len() ==> {
            &&& (#[trigger] self.spec_areas()[i]).is_mapped()
            &&& self.spec_areas()[i].mapped_in(self.spec_pt())
            &&& self.spec_areas()[i].page_count() <= sv39_pages()
        }
        &&& forall|i: int, j: int, v: u64|
            0 <= i < self.spec_areas().len() && 0 <= j < self.spec_areas().len() && i != j
                && #[trigger] in_area(self.spec_areas()[i], v)
                ==> !#[trigger] covers(self.spec_areas()[j].start(), self.spec_areas()[j].end(), v)
    }

    /// The data frames of the areas are allocated in `a`, once each.
    pub open spec fn frames_owned(self, a: AllocView) -> bool {
        &&& area_frames(self.spec_areas()).no_duplicates()
        &&& forall|i: int| 0 <= i < area_frames(self.spec_areas()).len()
            ==> a.is_allocated(#[trigger] area_frames(self.spec_areas())[i])
    }

    /// The page table's frames are allocated in `a`, once each, and none of
    /// them holds data of an area.
    pub open spec fn pt_owned(self, a: AllocView) -> bool {
        let p = self.spec_pt().frame_ppns();
        let d = area_frames(self.spec_areas());
        &&& p.no_duplicates()
        &&& forall|i: int| 0 <= i < p.len() ==> a.is_allocated(#[trigger] p[i])
        &&& forall|i: int, j: int| 0 <= i < p.len() && 0 <= j < d.len() ==> #[trigger] p[i] != #[trigger] d[j]
    }

    /// Every frame the address space owns: its page table's, then its areas'.
    pub open spec fn owned_frames(self) -> Seq<u64> {
        self.spec_pt().frame_ppns() + area_frames(self.spec_areas())
    }

    /// Every frame the address space owns is allocated in `a`, once.
    pub open spec fn all_owned(self, a: AllocView) -> bool {
        &&& self.owned_frames().no_duplicates()
        &&& forall|i: int| 0 <= i < self.owned_frames().len() ==> a.is_allocated(#[trigger] self.owned_frames()[i])
    }

    /// Owning the table's frames and the areas' frames is owning all frames.
    pub proof fn lemma_all_owned(self, a: AllocView)
        requires
            self.frames_owned(a),
            self.pt_owned(a),
        ensures
            self.all_owned(a),
    {
        let p = self.spec_pt().frame_ppns();
        let d = area_frames(self.spec_areas());
        vstd::seq_lib::lemma_no_dup_in_concat(p, d);
        assert forall|i: int| 0 <= i < self.owned_frames().len() implies a.is_allocated(#[trigger] self.owned_frames()[i]) by {
            if i >= p.len() {
                assert(self.owned_frames()[i] == d[i - p.len()]);
            }
        }
    }

    /// Every page of `[start, end)` can take a new mapping.
    pub open spec fn range_is_free(self, start: u64, end: u64) -> bool {
        &&& forall|v: u64| start <= v < end ==> #[trigger] self.spec_pt().owns_vpn(v)
        &&& forall|v: u64| start <= v < end ==> #[trigger] self.spec_pt().spec_translate(v) is None
    }

    /// An address space with an empty page table and no area.
    pub fn new_bare(allocator: &mut StackFrameAllocator) -> (r: MemorySet)
        requires
            old(allocator)@.wf(),
            old(allocator)@.free_count() >= 1,
        ensures
            r.wf(),
            r.spec_areas().len() == 0,
            !r.spec_pt().spec_shares_kernel(),
            forall|v: u64| #[trigger] r.spec_translate(v) is None,
            r.frames_owned(final(allocator)@),
            r.pt_owned(final(allocator)@),
            fresh(r.spec_pt().frame_ppns(), old(allocator)@, final(allocator)@),
            final(allocator)@.wf(),
            alloc_only(old(allocator)@, final(allocator)@),
            final(allocator)@.free_count() == old(allocator)@.free_count() - 1,
    {
        let r = MemorySet { page_table: PageTable::new(allocator), areas: Vec::new() };
        proof {
            assert(area_frames(r.spec_areas()) =~= Seq::<u64>::empty());
        }
        r
    }

    /// An address space for a process: no area, and the kernel's half of the
    /// address space shared from `kernel`.
    pub fn new_from_kernel(allocator: &mut StackFrameAllocator, kernel: &MemorySet) -> (r: MemorySet)
        requires
            old(allocator)@.wf(),
            old(allocator)@.free_count() >= 1,
            kernel.wf(),
        ensures
            r.wf(),
            r.spec_areas().len() == 0,
            r.spec_pt().spec_shares_kernel(),
            forall|k: int| crate::config::KERNEL_ROOT_INDEX <= k < 512 ==> #[trigger] r.spec_pt().root_entry(k)
                == kernel.spec_pt().root_entry(k),
            forall|v: u64| r.spec_pt().owns_vpn(v) ==> #[trigger] r.spec_translate(v) is None,
            r.frames_owned(final(allocator)@),
            r.pt_owned(final(allocator)@),
            fresh(r.spec_pt().frame_ppns(), old(allocator)@, final(allocator)@),
            final(allocator)@.wf(),
            alloc_only(old(allocator)@, final(allocator)@),
            final(allocator)@.free_count() == old(allocator)@.free_count() - 1,
    {
        let r = MemorySet { page_table: PageTable::new_from_kernel(allocator, &kernel.page_table), areas: Vec::new() };
        proof {
            assert(area_frames(r.spec_areas()) =~= Seq::<u64>::empty());
        }
        r
    }

    /// The `satp` value that selects this address space.
    pub fn token(&self) -> (r: u64)
        requires
            self.wf(),
        ensures
            r == (8u64 << 60u64) | self.spec_pt().spec_root(),
    {
        self.page_table.token()
    }

    /// The leaf entry that maps `vpn`, if any. A process's address space
    /// shares the kernel's half of the root with the kernel's table; pages of
    /// that half are resolved by the kernel's address space, and translate to
    /// nothing here.
    pub fn translate(&self, vpn: VirtPageNum) -> (r: Option<PageTableEntry>)
        requires
            self.wf(),
        ensures
            r == self.spec_translate(vpn.0),
    {
        self.page_table.translate(vpn)
    }

    proof fn lemma_push_frames_shape(areas: Seq<MapArea>, a: MapArea)
        ensures
            area_frames(areas.push(a)) == area_frames(areas) + a.frames(),
    {
        let f = |x: MapArea| x.frames();
        assert(areas.push(a).map_values(f) =~= areas.map_values(f).push(a.frames()));
        areas.map_values(f).lemma_flatten_push(a.frames());
    }

    proof fn lemma_push_frames(areas: Seq<MapArea>, a: MapArea, a0: AllocView, a1: AllocView)
        requires
            area_frames(areas).no_duplicates(),
            forall|i: int| 0 <= i < area_frames(areas).len() ==> a0.is_allocated(#[trigger] area_frames(areas)[i]),
            a.frames_fresh(a0, a1),
            alloc_only(a0, a1),
        ensures
            area_frames(areas.push(a)) == area_frames(areas) + a.frames(),
            area_frames(areas.push(a)).no_duplicates(),
            forall|i: int| 0 <= i < area_frames(areas.push(a)).len()
                ==> a1.is_allocated(#[trigger] area_frames(areas.push(a))[i]),
    {
        let f = |x: MapArea| x.frames();
        assert(areas.push(a).map_values(f) =~= areas.map_values(f).push(a.frames()));
        areas.map_values(f).lemma_flatten_push(a.frames());
        let old_f = area_frames(areas);
        let new_f = a.frames();
        assert forall|i: int, j: int| 0 <= i < old_f.len() && 0 <= j < new_f.len() implies old_f[i] != new_f[j] by {
            assert(a0.is_allocated(old_f[i]));
            assert(a0.is_free(new_f[j]));
        }
        vstd::seq_lib::lemma_no_dup_in_concat(old_f, new_f);
        let all = old_f + new_f;
        assert forall|i: int| 0 <= i < all.len() implies a1.is_allocated(#[trigger] all[i]) by {
            if i < old_f.len() {
                assert(a0.is_allocated(old_f[i]));
            } else {
                assert(all[i] == new_f[i - old_f.len()]);
            }
        }
    }

    /// Maps `area` into this address space and keeps it. When `data` is given
    /// the area must be framed, and `data` is copied into its pages starting
    /// `offset` bytes into the first page.
    pub fn push(&mut self, area: MapArea, data: Option<&[u8]>, offset: usize, allocator: &mut StackFrameAllocator)
        requires
            old(self).wf(),
            area.is_unmapped(),
            area.start() <= area.end(),
            area.page_count() <= sv39_pages(),
            area.spec_map_type() == MapType::Identical ==> area.end() <= ppn_limit(),
            old(self).range_is_free(area.start(), area.end()),
            data matches Some(d) ==> {
                &&& area.spec_map_type() == MapType::Framed
                &&& offset + d@.len() <= area.page_count() * PAGE_SIZE
            },
            old(allocator)@.wf(),
            old(allocator)@.free_count() >= 3 * area.page_count(),
            old(self).frames_owned(old(allocator)@),
            old(self).pt_owned(old(allocator)@),
        ensures
            final(self).wf(),
            final(self).frames_owned(final(allocator)@),
            final(self).pt_owned(final(allocator)@),
            final(self).spec_pt().frame_ppns() == old(self).spec_pt().frame_ppns() + new_frames(old(self).spec_pt(),
                final(self).spec_pt()),
            fresh(new_frames(old(self).spec_pt(), final(self).spec_pt()) + final(self).spec_areas().last().frames(),
                old(allocator)@, final(allocator)@),
            final(self).spec_areas().len() == old(self).spec_areas().len() + 1,
            forall|i: int| 0 <= i < old(self).spec_areas().len() ==> #[trigger] final(self).spec_areas()[i]
                == old(self).spec_areas()[i],
            ({
                let n = final(self).spec_areas().last();
                &&& n.start() == area.start()
                &&& n.end() == area.end()
                &&& n.spec_map_type() == area.spec_map_type()
                &&& n.spec_perm() == area.spec_perm()
                &&& n.spec_area_type() == area.spec_area_type()
                &&& n.frames_fresh(old(allocator)@, final(allocator)@)
                &&& data matches Some(d) ==> forall|pos: int| offset <= pos < offset + d@.len()
                    ==> #[trigger] n.byte_at(pos) == d@[pos - offset]
            }),
            forall|v: u64| !covers(area.start(), area.end(), v)
                ==> #[trigger] final(self).spec_translate(v) == old(self).spec_translate(v),
            final(self).spec_pt().spec_shares_kernel() == old(self).spec_pt().spec_shares_kernel(),
            final(self).spec_pt().spec_root() == old(self).spec_pt().spec_root(),
            forall|v: u64| #[trigger] final(self).spec_pt().owns_vpn(v) == old(self).spec_pt().owns_vpn(v),
            final(allocator)@.wf(),
            alloc_only(old(allocator)@, final(allocator)@),
            final(allocator)@.free_count() >= old(allocator)@.free_count() - 3 * area.page_count(),
    {
        let ghost o = *self;
        let ghost a0 = allocator@;
        let mut area = area;
        area.map(&mut self.page_table, allocator);
        let ghost mapped = area;
        match data {
            Some(d) => {
                area.copy_data(d, offset);
            },
            None => {},
        }
        proof {
            assert forall|i: int| 0 <= i < o.spec_areas().len() implies (#[trigger] o.spec_areas()[i]).mapped_in(
                self.page_table) by {
                let ai = o.spec_areas()[i];
                assert(ai.mapped_in(o.page_table));
                assert forall|v: u64| ai.start() <= v < ai.end() implies (#[trigger] self.page_table.spec_translate(v)
                    matches Some(e) && e.spec_ppn() == ai.target(v) && e.spec_flags() == ai.spec_perm()
                    | crate::pte::PTE_V) by {
                    assert(o.page_table.spec_translate(v) is Some);
                    if covers(area.start(), area.end(), v) {
                        let w = choose|w: u64| area.start() <= w < area.end() && same_page(v, w);
                        lemma_same_page_translate(o.page_table, v, w);
                        assert(o.spec_pt().spec_translate(w) is None);
                    }
                }
            }
            Self::lemma_push_frames(o.areas@, area, a0, allocator@);
            crate::map_area::lemma_same_layout_mapped(mapped, area, self.page_table);
            assert(self.page_table.frame_ppns() =~= o.page_table.frame_ppns() + new_frames(o.page_table, self.page_table));
            lemma_grow_pt_owned(o.page_table.frame_ppns(), new_frames(o.page_table, self.page_table),
                area_frames(o.areas@), area.frames(), a0, allocator@);
        }
        self.areas.push(area);
        proof {
            assert(self.areas@ == o.areas@.push(area));
            let n = o.spec_areas().len() as int;
            assert forall|i: int, j: int, v: u64|
                0 <= i < self.spec_areas().len() && 0 <= j < self.spec_areas().len() && i != j
                    && #[trigger] in_area(self.spec_areas()[i], v)
                    implies !#[trigger] covers(self.spec_areas()[j].start(), self.spec_areas()[j].end(), v) by {
                if i < n && j < n {
                    assert(self.spec_areas()[i] == o.spec_areas()[i]);
                    assert(self.spec_areas()[j] == o.spec_areas()[j]);
                } else if i < n {
                    let ai = o.spec_areas()[i];
                    assert(ai.mapped_in(o.page_table));
                    assert(o.page_table.spec_translate(v) is Some);
                    if covers(area.start(), area.end(), v) {
                        let w = choose|w: u64| area.start() <= w < area.end() && same_page(v, w);
                        lemma_same_page_translate(o.page_table, v, w);
                        assert(o.spec_pt().spec_translate(w) is None);
                    }
                } else {
                    let aj = o.spec_areas()[j];
                    assert(self.spec_areas()[j] == aj);
                    if covers(aj.start(), aj.end(), v) {
                        let w = choose|w: u64| aj.start() <= w < aj.end() && same_page(v, w);
                        assert(aj.mapped_in(o.page_table));
                        assert(o.page_table.spec_translate(w) is Some);
                        lemma_same_page_translate(o.page_table, v, w);
                        assert(o.spec_pt().spec_translate(v) is None);
                    }
                }
            }
            assert forall|i: int| 0 <= i < self.spec_areas().len() implies {
                &&& (#[trigger] self.spec_areas()[i]).is_mapped()
                &&& self.spec_areas()[i].mapped_in(self.spec_pt())
                &&& self.spec_areas()[i].page_count() <= sv39_pages()
            } by {
                if i < o.spec_areas().len() {
                    assert(self.spec_areas()[i] == o.spec_areas()[i]);
                    assert(o.spec_areas()[i].is_mapped());
                }
            }
        }
    }

    /// Maps a framed area over the pages that `[start_va, end_va)` touches.
    pub fn insert_framed_area(&mut self, start_va: VirtAddr, end_va: VirtAddr, permission: MapPermission,
        area_type: AreaType, allocator: &mut StackFrameAllocator)
        requires
            old(self).wf(),
            ({
                let s = start_va.0 / PAGE_SIZE as u64;
                let e = (end_va.0 + PAGE_SIZE - 1) / PAGE_SIZE as int;
                &&& s <= e <= s + sv39_pages()
                &&& old(self).range_is_free(s, e as u64)
                &&& old(allocator)@.free_count() >= 3 * (e - s)
            }),
            old(allocator)@.wf(),
            old(self).frames_owned(old(allocator)@),
            old(self).pt_owned(old(allocator)@),
        ensures
            final(self).wf(),
            final(self).frames_owned(final(allocator)@),
            final(self).pt_owned(final(allocator)@),
            final(self).spec_areas().len() == old(self).spec_areas().len() + 1,
            forall|i: int| 0 <= i < old(self).spec_areas().len() ==> #[trigger] final(self).spec_areas()[i]
                == old(self).spec_areas()[i],
            ({
                let n = final(self).spec_areas().last();
                &&& n.start() == start_va.0 / PAGE_SIZE as u64
                &&& n.end() == (end_va.0 + PAGE_SIZE - 1) / PAGE_SIZE as int
                &&& n.spec_map_type() == MapType::Framed
                &&& n.spec_perm() == permission.0
                &&& n.spec_area_type() == area_type
                &&& n.frames_fresh(old(allocator)@, final(allocator)@)
                &&& n.mapped_in(final(self).spec_pt())
            }),
            forall|v: u64| !covers(start_va.0 / PAGE_SIZE as u64, ((end_va.0 + PAGE_SIZE - 1) / PAGE_SIZE as int) as u64, v)
                ==> #[trigger] final(self).spec_translate(v) == old(self).spec_translate(v),
            final(self).spec_pt().spec_shares_kernel() == old(self).spec_pt().spec_shares_kernel(),
            final(self).spec_pt().spec_root() == old(self).spec_pt().spec_root(),
            final(allocator)@.free_count() >= old(allocator)@.free_count() - 3 * (((end_va.0 + PAGE_SIZE - 1)
                / PAGE_SIZE as int) - start_va.0 / PAGE_SIZE as u64),
            forall|x: int| 0 <= x < final(self).owned_frames().len() ==> old(self).owned_frames().contains(
                #[trigger] final(self).owned_frames()[x]) || old(allocator)@.is_free(final(self).owned_frames()[x]),
            final(allocator)@.wf(),
            alloc_only(old(allocator)@, final(allocator)@),
    {
        let ghost o = *self;
        let ghost a0 = allocator@;
        let area = MapArea::new(start_va, end_va, MapType::Framed, permission, area_type);
        self.push(area, None, 0, allocator);
        proof {
            let p = o.spec_pt().frame_ppns();
            let np = new_frames(o.spec_pt(), self.spec_pt());
            let d0 = area_frames(o.spec_areas());
            let d = self.spec_areas().last().frames();
            let f = np + d;
            assert(self.spec_areas() =~= o.spec_areas().push(self.spec_areas().last()));
            Self::lemma_push_frames_shape(o.spec_areas(), self.spec_areas().last());
            assert(self.owned_frames() =~= p + np + (d0 + d));
            assert forall|x: int| 0 <= x < self.owned_frames().len() implies o.owned_frames().contains(
                #[trigger] self.owned_frames()[x]) || a0.is_free(self.owned_frames()[x]) by {
                let g = self.owned_frames()[x];
                if x < p.len() {
                    assert(o.owned_frames()[x] == g);
                } else if x < p.len() + np.len() {
                    assert(f[x - p.len()] == g);
                } else if x < p.len() + np.len() + d0.len() {
                    assert(o.owned_frames()[x - np.len()] == g);
                } else {
                    assert(f[x - p.len() - d0.len()] == g);
                }
            }
        }
    }

    /// The total number of pages of `areas`.
    pub open spec fn pages_of(areas: Seq<MapArea>) -> int
        decreases areas.len(),
    {
        if areas.len() == 0 {
            0
        } else {
            Self::pages_of(areas.drop_last()) + areas.last().page_count()
        }
    }

    proof fn lemma_pages_of_prefix(areas: Seq<MapArea>, i: int)
        requires
            0 <= i < areas.len(),
            forall|k: int| 0 <= k < areas.len() ==> (#[trigger] areas[k]).start() <= areas[k].end(),
        ensures
            Self::pages_of(areas.subrange(0, i + 1)) == Self::pages_of(areas.subrange(0, i)) + areas[i].page_count(),
            Self::pages_of(areas.subrange(0, i)) <= Self::pages_of(areas),
            Self::pages_of(areas.subrange(0, i)) >= 0,
        decreases areas.len(),
    {
        assert(areas.subrange(0, i + 1).drop_last() =~= areas.subrange(0, i));
        Self::lemma_pages_of_nonneg(areas.subrange(0, i));
        if i == areas.len() - 1 {
            assert(areas.subrange(0, i + 1) =~= areas);
        } else {
            Self::lemma_pages_of_prefix(areas.drop_last(), i);
            assert(areas.drop_last().subrange(0, i) =~= areas.subrange(0, i));
            Self::lemma_pages_of_nonneg(areas.drop_last());
        }
    }

    proof fn lemma_pages_of_nonneg(areas: Seq<MapArea>)
        requires
            forall|k: int| 0 <= k < areas.len() ==> (#[trigger] areas[k]).start() <= areas[k].end(),
        ensures
            Self::pages_of(areas) >= 0,
        decreases areas.len(),
    {
        if areas.len() > 0 {
            Self::lemma_pages_of_nonneg(areas.drop_last());
            assert(areas.last() == areas[areas.len() - 1]);
        }
    }

    /// Number of pages of all the areas.
    pub fn total_pages(&self) -> (r: u128)
        requires
            self.wf(),
        ensures
            r == Self::pages_of(self.spec_areas()),
            r <= 0x800_0000_0000_0000_0000_0000,
    {
        let mut r: u128 = 0;
        let mut i: usize = 0;
        proof {
            assert forall|k: int| 0 <= k < self.spec_areas().len() implies (#[trigger] self.spec_areas()[k]).start()
                <= self.spec_areas()[k].end() by {
                crate::map_area::lemma_mapped_bounds(self.spec_areas()[k]);
            }
            assert(self.spec_areas().subrange(0, 0) =~= Seq::<MapArea>::empty());
        }
        while i < self.areas.len()
            invariant
                i <= self.spec_areas().len(),
                self.wf(),
                forall|k: int| 0 <= k < self.spec_areas().len() ==> (#[trigger] self.spec_areas()[k]).start()
                    <= self.spec_areas()[k].end(),
                r == Self::pages_of(self.spec_areas().subrange(0, i as int)),
                r <= i * 0x800_0000,
            decreases self.spec_areas().len() - i,
        {
            proof {
                Self::lemma_pages_of_prefix(self.spec_areas(), i as int);
                assert(self.spec_areas()[i as int].page_count() <= sv39_pages());
            }
            let a = &self.areas[i];
            r = r + (a.vpn_range_end().0 - a.vpn_range_begin().0) as u128;
            i = i + 1;
        }
        proof {
            assert(self.spec_areas().subrange(0, i as int) =~= self.spec_areas());
            assert(r <= 0x800_0000_0000_0000_0000_0000) by (nonlinear_arith)
                requires
                    r <= i * 0x800_0000,
                    i <= 0xffff_ffff_ffff_ffff,
            ;
        }
        r
    }

    /// A copy of the user address space `user_space`: the same areas, each
    /// backed by fresh frames holding the same bytes. When `user_space` shares
    /// the kernel's half, the copy shares it from `kernel`.
    pub fn from_existed_user_space(user_space: &MemorySet, kernel: &MemorySet, allocator: &mut StackFrameAllocator)
        -> (r: MemorySet)
        requires
            user_space.wf(),
            kernel.wf(),
            forall|i: int| 0 <= i < user_space.spec_areas().len()
                ==> (#[trigger] user_space.spec_areas()[i]).spec_map_type() == MapType::Framed,
            old(allocator)@.wf(),
            old(allocator)@.free_count() >= 1 + 3 * Self::pages_of(user_space.spec_areas()),
        ensures
            r.wf(),
            r.frames_owned(final(allocator)@),
            r.spec_areas().len() == user_space.spec_areas().len(),
            forall|i: int| 0 <= i < r.spec_areas().len() ==> {
                let a = #[trigger] r.spec_areas()[i];
                let b = user_space.spec_areas()[i];
                &&& a.start() == b.start()
                &&& a.end() == b.end()
                &&& a.spec_map_type() == b.spec_map_type()
                &&& a.spec_perm() == b.spec_perm()
                &&& a.spec_area_type() == b.spec_area_type()
                &&& forall|k: int| 0 <= k < b.page_count() ==> #[trigger] a.page(k) == b.page(k)
            },
            forall|k: int| 0 <= k < area_frames(r.spec_areas()).len()
                ==> old(allocator)@.is_free(#[trigger] area_frames(r.spec_areas())[k]),
            final(allocator)@.free_count() >= old(allocator)@.free_count() - 1 - 3 * Self::pages_of(
                user_space.spec_areas()),
            r.pt_owned(final(allocator)@),
            forall|k: int| 0 <= k < r.spec_pt().frame_ppns().len()
                ==> old(allocator)@.is_free(#[trigger] r.spec_pt().frame_ppns()[k]),
            final(allocator)@.wf(),
            alloc_only(old(allocator)@, final(allocator)@),
    {
        let ghost a0 = allocator@;
        let ghost parent = user_space.spec_areas();
        proof {
            assert forall|k: int| 0 <= k < parent.len() implies (#[trigger] parent[k]).start() <= parent[k].end() by {
                crate::map_area::lemma_mapped_bounds(parent[k]);
            }
            Self::lemma_pages_of_nonneg(parent);
        }
        let mut memory_set = if user_space.page_table.shares_kernel_half() {
            MemorySet::new_from_kernel(allocator, kernel)
        } else {
            MemorySet::new_bare(allocator)
        };
        let n = user_space.areas.len();
        let mut i: usize = 0;
        while i < n
            invariant
                i <= n,
                n == parent.len(),
                parent == user_space.spec_areas(),
                user_space.wf(),
                forall|k: int| 0 <= k < parent.len() ==> (#[trigger] parent[k]).spec_map_type() == MapType::Framed,
                memory_set.wf(),
                memory_set.frames_owned(allocator@),
                memory_set.pt_owned(allocator@),
                forall|k: int| 0 <= k < memory_set.spec_pt().frame_ppns().len()
                    ==> a0.is_free(#[trigger] memory_set.spec_pt().frame_ppns()[k]),
                memory_set.spec_pt().spec_shares_kernel() == user_space.spec_pt().spec_shares_kernel(),
                memory_set.spec_areas().len() == i,
                forall|v: u64| !(exists|k: int| 0 <= k < i && #[trigger] covers(parent[k].start(), parent[k].end(), v))
                    ==> memory_set.spec_pt().owns_vpn(v) ==> #[trigger] memory_set.spec_translate(v) is None,
                forall|k: int| 0 <= k < i ==> {
                    let a = #[trigger] memory_set.spec_areas()[k];
                    let b = parent[k];
                    &&& a.start() == b.start()
                    &&& a.end() == b.end()
                    &&& a.spec_map_type() == b.spec_map_type()
                    &&& a.spec_perm() == b.spec_perm()
                    &&& a.spec_area_type() == b.spec_area_type()
                    &&& forall|t: int| 0 <= t < b.page_count() ==> #[trigger] a.page(t) == b.page(t)
                },
                forall|k: int| 0 <= k < area_frames(memory_set.spec_areas()).len()
                    ==> a0.is_free(#[trigger] area_frames(memory_set.spec_areas())[k]),
                allocator@.wf(),
                alloc_only(a0, allocator@),
                allocator@.free_count() >= 3 * (Self::pages_of(parent) - Self::pages_of(parent.subrange(0, i as int))),
                allocator@.free_count() >= a0.free_count() - 1 - 3 * Self::pages_of(parent.subrange(0, i as int)),
                a0 == old(allocator)@,
            decreases n - i,
        {
            let src = &user_space.areas[i];
            let ghost srcv = *src;
            proof {
                assert forall|k: int| 0 <= k < parent.len() implies (#[trigger] parent[k]).start() <= parent[k].end() by {
                    crate::map_area::lemma_mapped_bounds(parent[k]);
                }
                Self::lemma_pages_of_prefix(parent, i as int);
                if i + 1 < n {
                    Self::lemma_pages_of_prefix(parent, i + 1);
                } else {
                    assert(parent.subrange(0, i + 1) =~= parent);
                }
                assert(srcv.page_count() == parent[i as int].page_count());
            }
            let area = MapArea::from_existed_map_area(src);
            proof {
                assert(srcv.is_mapped() && srcv.mapped_in(user_space.spec_pt()));
                assert forall|v: u64| area.start() <= v < area.end() implies #[trigger] memory_set.spec_pt().owns_vpn(v) by {
                    assert(user_space.spec_pt().spec_translate(v) is Some);
                    lemma_translated_owned(user_space.spec_pt(), v);
                    lemma_owns_same(user_space.spec_pt(), memory_set.spec_pt(), v);
                }
                assert forall|v: u64| area.start() <= v < area.end() implies #[trigger] memory_set.spec_pt().spec_translate(v) is None by {
                    assert(user_space.spec_pt().spec_translate(v) is Some);
                    lemma_translated_owned(user_space.spec_pt(), v);
                    lemma_owns_same(user_space.spec_pt(), memory_set.spec_pt(), v);
                    assert(in_area(parent[i as int], v));
                    assert forall|k: int| 0 <= k < i implies !#[trigger] covers(parent[k].start(), parent[k].end(), v) by {
                        assert(in_area(user_space.spec_areas()[i as int], v));
                    }
                    assert(memory_set.spec_translate(v) is None);
                }
            }
            let ghost before = memory_set;
            let ghost ab = allocator@;
            memory_set.push(area, None, 0, allocator);
            let idx = memory_set.areas.len() - 1;
            let ghost pushed = memory_set.areas@[idx as int];
            let ghost mid = memory_set;
            memory_set.areas[idx].copy_pages_from(src);
            proof {
                let f = |x: MapArea| x.frames();
                let copied = memory_set.areas@[idx as int];
                assert(memory_set.areas@ == mid.areas@.update(idx as int, copied));
                assert(memory_set.areas@.map_values(f) =~= mid.areas@.map_values(f));
                crate::map_area::lemma_same_layout_mapped(pushed, copied, memory_set.page_table);
                assert forall|k: int| 0 <= k < memory_set.spec_areas().len() implies {
                    &&& (#[trigger] memory_set.spec_areas()[k]).is_mapped()
                    &&& memory_set.spec_areas()[k].mapped_in(memory_set.spec_pt())
                    &&& memory_set.spec_areas()[k].page_count() <= sv39_pages()
                } by {
                    if k != idx {
                        assert(memory_set.spec_areas()[k] == mid.spec_areas()[k]);
                    }
                }
                assert forall|a: int, b: int, v: u64|
                    0 <= a < memory_set.spec_areas().len() && 0 <= b < memory_set.spec_areas().len() && a != b
                        && #[trigger] in_area(memory_set.spec_areas()[a], v)
                        implies !#[trigger] covers(memory_set.spec_areas()[b].start(), memory_set.spec_areas()[b].end(), v) by {
                    assert(in_area(mid.spec_areas()[a], v));
                    assert(!covers(mid.spec_areas()[b].start(), mid.spec_areas()[b].end(), v));
                }
                assert(area_frames(memory_set.spec_areas()) == area_frames(mid.spec_areas()));
                Self::lemma_push_frames(before.areas@, pushed, ab, allocator@);
                assert(mid.areas@ == before.areas@.push(pushed));
                assert forall|k: int| 0 <= k < area_frames(memory_set.spec_areas()).len()
                    implies a0.is_free(#[trigger] area_frames(memory_set.spec_areas())[k]) by {
                    let fr = area_frames(memory_set.spec_areas());
                    let old_len = area_frames(before.spec_areas()).len();
                    if k < old_len {
                        assert(fr[k] == area_frames(before.spec_areas())[k]);
                    } else {
                        assert(fr[k] == pushed.frames()[k - old_len]);
                        assert(ab.is_free(fr[k]));
                    }
                }
                lemma_alloc_only_trans(a0, ab, allocator@);
                assert(memory_set.pt_owned(allocator@)) by {
                    assert(area_frames(memory_set.spec_areas()) == area_frames(mid.spec_areas()));
                }
                assert forall|k: int| 0 <= k < memory_set.spec_pt().frame_ppns().len()
                    implies a0.is_free(#[trigger] memory_set.spec_pt().frame_ppns()[k]) by {
                    let bp = before.spec_pt().frame_ppns();
                    let np = new_frames(before.spec_pt(), mid.spec_pt());
                    assert(memory_set.spec_pt() == mid.spec_pt());
                    if k < bp.len() {
                        assert(memory_set.spec_pt().frame_ppns()[k] == bp[k]);
                    } else {
                        assert(memory_set.spec_pt().frame_ppns()[k] == np[k - bp.len()]);
                        assert((np + pushed.frames())[k - bp.len()] == np[k - bp.len()]);
                        assert(ab.is_free(np[k - bp.len()]));
                    }
                }
                assert forall|v: u64| !(exists|k: int| 0 <= k < i + 1 && #[trigger] covers(parent[k].start(), parent[k].end(), v))
                    && memory_set.spec_pt().owns_vpn(v) implies #[trigger] memory_set.spec_translate(v) is None by {
                    assert(!covers(parent[i as int].start(), parent[i as int].end(), v));
                    assert(!(exists|k: int| 0 <= k < i && #[trigger] covers(parent[k].start(), parent[k].end(), v)));
                    assert(memory_set.spec_pt() == mid.spec_pt());
                    assert(mid.spec_translate(v) == before.spec_translate(v));
                    assert(mid.spec_pt().owns_vpn(v) == before.spec_pt().owns_vpn(v));
                }
                assert forall|k: int| 0 <= k < i + 1 implies {
                    let a = #[trigger] memory_set.spec_areas()[k];
                    let b = parent[k];
                    &&& a.start() == b.start()
                    &&& a.end() == b.end()
                    &&& a.spec_map_type() == b.spec_map_type()
                    &&& a.spec_perm() == b.spec_perm()
                    &&& a.spec_area_type() == b.spec_area_type()
                    &&& forall|t: int| 0 <= t < b.page_count() ==> #[trigger] a.page(t) == b.page(t)
                } by {
                    if k < i {
                        assert(memory_set.spec_areas()[k] == before.spec_areas()[k]);
                    }
                }
            }
            i = i + 1;
        }
        proof {
            assert(parent.subrange(0, n as int) =~= parent);
        }
        memory_set
    }

    /// The area that holds page `vpn`, if any.
    pub fn find_area(&self, vpn: VirtPageNum) -> (r: Option<usize>)
        requires
            self.wf(),
        ensures
            match r {
                Some(i) => i < self.spec_areas().len() && in_area(self.spec_areas()[i as int], vpn.0),
                None => forall|i: int| 0 <= i < self.spec_areas().len() ==> !#[trigger] in_area(self.spec_areas()[i], vpn.0),
            },
    {
        let mut i: usize = 0;
        while i < self.areas.len()
            invariant
                i <= self.spec_areas().len(),
                forall|k: int| 0 <= k < i ==> !#[trigger] in_area(self.spec_areas()[k], vpn.0),
            decreases self.spec_areas().len() - i,
        {
            let a = &self.areas[i];
            if a.vpn_range_begin().0 <= vpn.0 && vpn.0 < a.vpn_range_end().0 {
                return Some(i);
            }
            i = i + 1;
        }
        None
    }

    /// The byte at `va` in the framed area that holds it.
    pub open spec fn spec_byte(self, va: u64) -> Option<u8> {
        let vpn = va / PAGE_SIZE as u64;
        if exists|i: int| 0 <= i < self.spec_areas().len() && #[trigger] in_area(self.spec_areas()[i], vpn)
            && self.spec_areas()[i].spec_map_type() == MapType::Framed {
            let i = choose|i: int| 0 <= i < self.spec_areas().len() && #[trigger] in_area(self.spec_areas()[i], vpn)
                && self.spec_areas()[i].spec_map_type() == MapType::Framed;
            let a = self.spec_areas()[i];
            Some(a.byte_at(va - a.start() * PAGE_SIZE))
        } else {
            None
        }
    }

    proof fn lemma_unique_area(self, i: int, j: int, v: u64)
        requires
            self.wf(),
            0 <= i < self.spec_areas().len(),
            0 <= j < self.spec_areas().len(),
            in_area(self.spec_areas()[i], v),
            in_area(self.spec_areas()[j], v),
        ensures
            i == j,
    {
        if i != j {
            assert(same_page(v, v));
            assert(covers(self.spec_areas()[j].start(), self.spec_areas()[j].end(), v));
        }
    }

    /// The byte at virtual address `va`, when a framed area holds it.
    pub fn read_byte(&self, va: VirtAddr) -> (r: Option<u8>)
        requires
            self.wf(),
        ensures
            r == self.spec_byte(va.0),
    {
        let vpn = va.floor();
        match self.find_area(vpn) {
            Some(i) => {
                let a = &self.areas[i];
                if a.map_type() == MapType::Framed {
                    proof {
                        crate::map_area::lemma_mapped_bounds(*a);
                        assert forall|j: int| 0 <= j < self.spec_areas().len() && #[trigger] in_area(self.spec_areas()[j], vpn.0)
                            && self.spec_areas()[j].spec_map_type() == MapType::Framed implies j == i by {
                            self.lemma_unique_area(i as int, j, vpn.0);
                        }
                    }
                    let pos = va.0 - a.vpn_range_begin().0 * 4096;
                    proof {
                        assert(a.page_count() <= sv39_pages());
                    }
                    Some(a.read_byte(pos))
                } else {
                    proof {
                        assert forall|j: int| 0 <= j < self.spec_areas().len() && #[trigger] in_area(self.spec_areas()[j], vpn.0)
                            implies self.spec_areas()[j].spec_map_type() != MapType::Framed by {
                            self.lemma_unique_area(i as int, j, vpn.0);
                        }
                    }
                    None
                }
            },
            None => None,
        }
    }

    /// Writes `b` at virtual address `va` when a framed area holds it; returns
    /// whether one did.
    pub fn write_byte(&mut self, va: VirtAddr, b: u8) -> (r: bool)
        requires
            old(self).wf(),
        ensures
            final(self).wf(),
            r == old(self).spec_byte(va.0) is Some,
            r ==> final(self).spec_byte(va.0) == Some(b),
            !r ==> final(self).spec_byte(va.0) == old(self).spec_byte(va.0),
            forall|x: u64| x != va.0 ==> #[trigger] final(self).spec_byte(x) == old(self).spec_byte(x),
            forall|v: u64| #[trigger] final(self).spec_translate(v) == old(self).spec_translate(v),
            forall|a: AllocView| old(self).frames_owned(a) ==> #[trigger] final(self).frames_owned(a),
            forall|a: AllocView| old(self).pt_owned(a) ==> #[trigger] final(self).pt_owned(a),
            final(self).spec_pt() == old(self).spec_pt(),
            area_frames(final(self).spec_areas()) == area_frames(old(self).spec_areas()),
            final(self).spec_areas().len() == old(self).spec_areas().len(),
            forall|i: int| 0 <= i < old(self).spec_areas().len() ==> (#[trigger] final(self).spec_areas()[i]).spec_map_type()
                == old(self).spec_areas()[i].spec_map_type(),
    {
        let ghost o = *self;
        let vpn = va.floor();
        match self.find_area(vpn) {
            Some(i) => {
                if self.areas[i].map_type() == MapType::Framed {
                    proof {
                        crate::map_area::lemma_mapped_bounds(self.areas@[i as int]);
                        assert forall|j: int| 0 <= j < o.spec_areas().len() && #[trigger] in_area(o.spec_areas()[j], vpn.0)
                            && o.spec_areas()[j].spec_map_type() == MapType::Framed implies j == i by {
                            o.lemma_unique_area(i as int, j, vpn.0);
                        }
                    }
                    let pos = va.0 - self.areas[i].vpn_range_begin().0 * 4096;
                    let ghost before = self.areas@[i as int];
                    self.areas[i].write_byte(pos, b);
                    proof {
                        let after = self.areas@[i as int];
                        let f = |x: MapArea| x.frames();
                        assert(self.areas@ == o.areas@.update(i as int, after));
                        assert(self.areas@.map_values(f) =~= o.areas@.map_values(f));
                        crate::map_area::lemma_same_layout_mapped(before, after, self.page_table);
                        assert forall|k: int| 0 <= k < self.spec_areas().len() implies {
                            &&& (#[trigger] self.spec_areas()[k]).is_mapped()
                            &&& self.spec_areas()[k].mapped_in(self.spec_pt())
                            &&& self.spec_areas()[k].page_count() <= sv39_pages()
                        } by {
                            if k != i {
                                assert(self.spec_areas()[k] == o.spec_areas()[k]);
                            }
                        }
                        assert forall|p: int, q: int, v: u64|
                            0 <= p < self.spec_areas().len() && 0 <= q < self.spec_areas().len() && p != q
                                && #[trigger] in_area(self.spec_areas()[p], v)
                                implies !#[trigger] covers(self.spec_areas()[q].start(), self.spec_areas()[q].end(), v) by {
                            assert(in_area(o.spec_areas()[p], v));
                            assert(!covers(o.spec_areas()[q].start(), o.spec_areas()[q].end(), v));
                        }
                        assert(area_frames(self.spec_areas()) == area_frames(o.spec_areas()));
                        assert forall|x: u64| x != va.0 implies #[trigger] self.spec_byte(x) == o.spec_byte(x) by {
                            let xv = x / PAGE_SIZE as u64;
                            if exists|j: int| 0 <= j < o.spec_areas().len() && #[trigger] in_area(o.spec_areas()[j], xv)
                                && o.spec_areas()[j].spec_map_type() == MapType::Framed {
                                let j = choose|j: int| 0 <= j < o.spec_areas().len() && #[trigger] in_area(o.spec_areas()[j], xv)
                                    && o.spec_areas()[j].spec_map_type() == MapType::Framed;
                                assert(in_area(self.spec_areas()[j], xv));
                                assert forall|t: int| 0 <= t < self.spec_areas().len() && #[trigger] in_area(self.spec_areas()[t], xv)
                                    && self.spec_areas()[t].spec_map_type() == MapType::Framed implies t == j by {
                                    self.lemma_unique_area(t, j, xv);
                                }
                                if j == i {
                                    let pa = x - before.start() * PAGE_SIZE;
                                    assert(pa != pos);
                                }
                            } else {
                                assert forall|t: int| 0 <= t < self.spec_areas().len() && #[trigger] in_area(self.spec_areas()[t], xv)
                                    implies self.spec_areas()[t].spec_map_type() != MapType::Framed by {
                                    assert(in_area(o.spec_areas()[t], xv));
                                }
                            }
                        }
                        assert forall|j: int| 0 <= j < self.spec_areas().len() && #[trigger] in_area(self.spec_areas()[j], vpn.0)
                            && self.spec_areas()[j].spec_map_type() == MapType::Framed implies j == i by {
                            self.lemma_unique_area(i as int, j, vpn.0);
                        }
                        assert(in_area(self.spec_areas()[i as int], vpn.0));
                    }
                    true
                } else {
                    proof {
                        assert forall|j: int| 0 <= j < o.spec_areas().len() && #[trigger] in_area(o.spec_areas()[j], vpn.0)
                            implies o.spec_areas()[j].spec_map_type() != MapType::Framed by {
                            o.lemma_unique_area(i as int, j, vpn.0);
                        }
                    }
                    false
                }
            },
            None => false,
        }
    }

    /// Unmaps every area and gives all their frames back.
    pub fn recycle_data_pages(&mut self, allocator: &mut StackFrameAllocator)
        requires
            old(self).wf(),
            old(allocator)@.wf(),
            old(self).frames_owned(old(allocator)@),
        ensures
            final(self).wf(),
            final(self).spec_areas().len() == 0,
            final(self).frames_owned(final(allocator)@),
            old(self).pt_owned(old(allocator)@) ==> final(self).pt_owned(final(allocator)@),
            final(self).spec_pt().frame_ppns() == old(self).spec_pt().frame_ppns(),
            final(allocator)@.wf(),
            forall|k: int| 0 <= k < area_frames(old(self).spec_areas()).len()
                ==> final(allocator)@.is_free(#[trigger] area_frames(old(self).spec_areas())[k]),
            forall|q: u64| !area_frames(old(self).spec_areas()).contains(q)
                ==> (#[trigger] old(allocator)@.is_allocated(q) <==> final(allocator)@.is_allocated(q)),
            final(self).spec_pt().spec_shares_kernel() == old(self).spec_pt().spec_shares_kernel(),
    {
        let ghost o = *self;
        let ghost a0 = allocator@;
        let ghost all = area_frames(o.spec_areas());
        while self.areas.len() > 0
            invariant
                self.wf(),
                allocator@.wf(),
                self.frames_owned(allocator@),
                all == area_frames(o.spec_areas()),
                self.spec_areas().len() <= o.spec_areas().len(),
                self.spec_areas() == o.spec_areas().subrange(0, self.spec_areas().len() as int),
                area_frames(self.spec_areas()) == all.subrange(0, area_frames(self.spec_areas()).len() as int),
                area_frames(self.spec_areas()).len() <= all.len(),
                all.no_duplicates(),
                forall|k: int| area_frames(self.spec_areas()).len() <= k < all.len()
                    ==> allocator@.is_free(#[trigger] all[k]),
                forall|q: u64| !all.contains(q) ==> (#[trigger] a0.is_allocated(q) <==> allocator@.is_allocated(q)),
                self.spec_pt().spec_shares_kernel() == o.spec_pt().spec_shares_kernel(),
                self.spec_pt().frame_ppns() == o.spec_pt().frame_ppns(),
            decreases self.spec_areas().len(),
        {
            let ghost before = *self;
            let ghost a1 = allocator@;
            let mut area = self.areas.pop().unwrap();
            let ghost rest = self.areas@;
            proof {
                let f = |x: MapArea| x.frames();
                assert(before.areas@ == rest.push(area));
                assert(before.areas@.map_values(f) =~= rest.map_values(f).push(area.frames()));
                rest.map_values(f).lemma_flatten_push(area.frames());
                let bf = area_frames(before.spec_areas());
                let rf = area_frames(rest);
                assert(bf == rf + area.frames());
                assert(area.frames_owned(a1)) by {
                    assert forall|i: int| 0 <= i < area.frames().len() implies a1.is_allocated(#[trigger] area.frames()[i]) by {
                        assert(bf[rf.len() + i] == area.frames()[i]);
                    }
                    assert forall|i: int, j: int| 0 <= i < area.frames().len() && 0 <= j < area.frames().len() && i != j
                        implies area.frames()[i] != area.frames()[j] by {
                        assert(bf[rf.len() + i] == area.frames()[i]);
                        assert(bf[rf.len() + j] == area.frames()[j]);
                    }
                }
                let last = before.spec_areas().len() - 1;
                assert(area == before.spec_areas()[last]);
            }
            let ghost pre = area;
            area.unmap(&mut self.page_table, allocator);
            proof {
                let bf = area_frames(before.spec_areas());
                let rf = area_frames(rest);
                let last = before.spec_areas().len() - 1;
                assert(self.spec_areas() == rest);
                assert(rest =~= before.spec_areas().subrange(0, last));
                assert(self.spec_areas() =~= o.spec_areas().subrange(0, self.spec_areas().len() as int));
                assert(rf =~= all.subrange(0, rf.len() as int));
                assert forall|k: int| 0 <= k < self.spec_areas().len() implies {
                    &&& (#[trigger] self.spec_areas()[k]).is_mapped()
                    &&& self.spec_areas()[k].mapped_in(self.spec_pt())
                    &&& self.spec_areas()[k].page_count() <= sv39_pages()
                } by {
                    let ak = self.spec_areas()[k];
                    assert(ak == before.spec_areas()[k]);
                    assert forall|v: u64| ak.start() <= v < ak.end() implies (#[trigger] self.spec_pt().spec_translate(v)
                        matches Some(e) && e.spec_ppn() == ak.target(v) && e.spec_flags() == ak.spec_perm()
                        | crate::pte::PTE_V) by {
                        assert(in_area(before.spec_areas()[k], v));
                        assert(!covers(before.spec_areas()[last].start(), before.spec_areas()[last].end(), v));
                    }
                }
                assert forall|p: int, q: int, v: u64|
                    0 <= p < self.spec_areas().len() && 0 <= q < self.spec_areas().len() && p != q
                        && #[trigger] in_area(self.spec_areas()[p], v)
                        implies !#[trigger] covers(self.spec_areas()[q].start(), self.spec_areas()[q].end(), v) by {
                    assert(in_area(before.spec_areas()[p], v));
                    assert(!covers(before.spec_areas()[q].start(), before.spec_areas()[q].end(), v));
                }
                assert forall|i: int| 0 <= i < rf.len() implies allocator@.is_allocated(#[trigger] rf[i]) by {
                    assert(bf[i] == rf[i]);
                    assert(a1.is_allocated(rf[i]));
                    assert(!pre.frames().contains(rf[i])) by {
                        if pre.frames().contains(rf[i]) {
                            let j = choose|j: int| 0 <= j < pre.frames().len() && pre.frames()[j] == rf[i];
                            assert(bf[rf.len() + j] == rf[i]);
                        }
                    }
                }
                assert forall|k: int| rf.len() <= k < all.len() implies allocator@.is_free(#[trigger] all[k]) by {
                    if k < bf.len() {
                        assert(all[k] == bf[k]);
                        assert(bf[k] == pre.frames()[k - rf.len()]);
                    } else {
                        assert(a1.is_free(all[k]));
                        assert(!a1.is_allocated(all[k]));
                        if pre.frames().contains(all[k]) {
                        } else {
                            assert(!allocator@.is_allocated(all[k]));
                        }
                    }
                }
                assert forall|q: u64| !all.contains(q) implies (#[trigger] a0.is_allocated(q) <==> allocator@.is_allocated(q)) by {
                    if pre.frames().contains(q) {
                        let j = choose|j: int| 0 <= j < pre.frames().len() && pre.frames()[j] == q;
                        assert(bf[rf.len() + j] == q);
                        assert(all[rf.len() + j] == q);
                    }
                }
            }
        }
        proof {
            assert(area_frames(self.spec_areas()) =~= Seq::<u64>::empty());
            if o.pt_owned(a0) {
                let p = self.spec_pt().frame_ppns();
                assert forall|i: int| 0 <= i < p.len() implies allocator@.is_allocated(#[trigger] p[i]) by {
                    assert(a0.is_allocated(p[i]));
                    if all.contains(p[i]) {
                        let j = choose|j: int| 0 <= j < all.len() && all[j] == p[i];
                        assert(o.spec_pt().frame_ppns()[i] != area_frames(o.spec_areas())[j]);
                    }
                }
            }
        }
    }

    /// Gives back every frame the address space owns: its areas' and its
    /// page table's.
    pub fn release(self, allocator: &mut StackFrameAllocator)
        requires
            self.wf(),
            old(allocator)@.wf(),
            self.frames_owned(old(allocator)@),
            self.pt_owned(old(allocator)@),
        ensures
            final(allocator)@.wf(),
            forall|k: int| 0 <= k < self.owned_frames().len() ==> final(allocator)@.is_free(#[trigger] self.owned_frames()[k]),
            forall|q: u64| !self.owned_frames().contains(q)
                ==> (#[trigger] old(allocator)@.is_allocated(q) <==> final(allocator)@.is_allocated(q)),
    {
        let ghost o = self;
        let ghost a0 = allocator@;
        let mut ms = self;
        ms.recycle_data_pages(allocator);
        let ghost a1 = allocator@;
        let MemorySet { page_table, areas: _ } = ms;
        page_table.release(allocator);
        proof {
            let p = o.spec_pt().frame_ppns();
            let d = area_frames(o.spec_areas());
            assert forall|k: int| 0 <= k < o.owned_frames().len() implies allocator@.is_free(#[trigger] o.owned_frames()[k]) by {
                if k < p.len() {
                    assert(o.owned_frames()[k] == p[k]);
                } else {
                    assert(o.owned_frames()[k] == d[k - p.len()]);
                    assert(a1.is_free(d[k - p.len()]));
                }
            }
            assert forall|q: u64| !o.owned_frames().contains(q)
                implies (#[trigger] a0.is_allocated(q) <==> allocator@.is_allocated(q)) by {
                if d.contains(q) {
                    let j = choose|j: int| 0 <= j < d.len() && d[j] == q;
                    assert(o.owned_frames()[p.len() + j] == q);
                }
                if p.contains(q) {
                    let j = choose|j: int| 0 <= j < p.len() && p[j] == q;
                    assert(o.owned_frames()[j] == q);
                }
            }
        }
    }

    /// An address space for the program `elf_data`, whose program headers are
    /// `image`: one framed, user-accessible area per `LOAD` segment with the
    /// segment's permissions, holding the segment's stored bytes at the
    /// segment's offset in its first page; the kernel's half is shared from
    /// `kernel`. Returns the address space, the entry point, and the first
    /// address above all segments and a guard page, where stack and heap go.
    /// Nothing when the magic bytes are wrong, a segment cannot be mapped,
    /// two segments share a page, or the allocator lacks frames. A bad image
    /// is reported rather than treated as fatal because `exec` hands over
    /// images chosen by user programs, and a user's mistake must not halt the
    /// machine; the caller that loads the first process treats `None` as fatal.
    /// This departs on purpose from halting on a malformed magic number.
    pub fn from_elf(elf_data: &[u8], image: &ElfImage, kernel: &MemorySet, allocator: &mut StackFrameAllocator)
        -> (r: Option<(MemorySet, u64, u64)>)
        requires
            kernel.wf(),
            old(allocator)@.wf(),
        ensures
            r is Some <==> {
                &&& elf_data@.len() >= 4 && elf_data@.subrange(0, 4) == elf_magic()
                &&& loads_ok(image.segments@, elf_data@.len() as int)
                &&& old(allocator)@.free_count() >= 1 + 3 * pages_of_segs(loads(image.segments@))
            },
            r matches Some((ms, entry, base)) ==> {
                let ls = loads(image.segments@);
                &&& ms.wf()
                &&& ms.frames_owned(final(allocator)@)
                &&& ms.pt_owned(final(allocator)@)
                &&& forall|k: int| 0 <= k < ms.spec_pt().frame_ppns().len()
                    ==> old(allocator)@.is_free(#[trigger] ms.spec_pt().frame_ppns()[k])
                &&& ms.spec_pt().spec_shares_kernel()
                &&& entry == image.entry
                &&& base == max_end(ls) * PAGE_SIZE + PAGE_SIZE
                &&& base <= USER_PAGES * PAGE_SIZE + PAGE_SIZE
                &&& final(allocator)@.free_count() >= old(allocator)@.free_count() - 1 - 3 * pages_of_segs(ls)
                &&& forall|k: int| 0 <= k < ls.len() ==> seg_end(#[trigger] ls[k]) <= max_end(ls)
                &&& forall|v: u64| v < USER_PAGES && (forall|k: int| 0 <= k < ls.len() ==> !(#[trigger] seg_start(ls[k])
                    <= v < seg_end(ls[k]))) ==> #[trigger] ms.spec_translate(v) is None
                &&& ms.spec_areas().len() == ls.len()
                &&& forall|k: int| 0 <= k < area_frames(ms.spec_areas()).len()
                    ==> old(allocator)@.is_free(#[trigger] area_frames(ms.spec_areas())[k])
                &&& forall|k: int| 0 <= k < ls.len() ==> {
                    let a = #[trigger] ms.spec_areas()[k];
                    let sg = ls[k];
                    &&& a.start() == seg_start(sg)
                    &&& a.end() == seg_end(sg)
                    &&& a.spec_map_type() == MapType::Framed
                    &&& a.spec_perm() == seg_perm(sg)
                    &&& a.spec_area_type() == AreaType::Elf
                    &&& forall|pos: int| sg.vaddr % 4096 <= pos < sg.vaddr % 4096 + sg.file_size
                        ==> #[trigger] a.byte_at(pos) == elf_data@[sg.offset + pos - sg.vaddr % 4096]
                }
            },
            final(allocator)@.wf(),
            r is None ==> final(allocator)@ == old(allocator)@,
            alloc_only(old(allocator)@, final(allocator)@),
    {
        if !has_elf_magic(elf_data) {
            return None;
        }
        let ls = collect_loads(&image.segments);
        if !segs_ok(&ls, elf_data.len()) {
            return None;
        }
        proof {
            assert forall|i: int| 0 <= i < ls@.len() implies seg_ok(#[trigger] ls@[i], usize::MAX as int) by {}
        }
        let need = pages_needed(&ls);
        let n = ls.len();
        proof {
            assert(ls@.len() <= usize::MAX);
            assert(need <= 0x1_0000_0000_0000_0000 * 0x400_0000) by (nonlinear_arith)
                requires
                    need <= ls@.len() * 0x400_0000,
                    ls@.len() <= usize::MAX,
                    usize::MAX <= 0xffff_ffff_ffff_ffff,
            ;
        }
        if allocator.free_frames() < 1 + 3 * need {
            return None;
        }
        let ghost a0 = allocator@;
        let mut ms = MemorySet::new_from_kernel(allocator, kernel);
        let mut max_end_vpn: u64 = 0;
        let mut j: usize = 0;
        proof {
            assert(ls@.subrange(0, 0) =~= Seq::<ElfSegment>::empty());
            assert(area_frames(ms.spec_areas()) =~= Seq::<u64>::empty());
            assert forall|v: u64| v < USER_PAGES implies #[trigger] ms.spec_translate(v) is None by {
                crate::page_table::lemma_user_half_owned(ms.spec_pt(), v);
            }
        }
        while j < n
            invariant
                j <= n,
                n == ls@.len(),
                elf_data@.len() <= usize::MAX,
                ls@ == loads(image.segments@),
                forall|i: int| 0 <= i < ls@.len() ==> seg_ok(#[trigger] ls@[i], elf_data@.len() as int),
                forall|i: int, k: int| 0 <= i < k < ls@.len() ==> seg_end(#[trigger] ls@[i]) <= seg_start(
                    #[trigger] ls@[k]) || seg_end(ls@[k]) <= seg_start(ls@[i]),
                ms.wf(),
                ms.frames_owned(allocator@),
                ms.pt_owned(allocator@),
                forall|k: int| 0 <= k < ms.spec_pt().frame_ppns().len()
                    ==> a0.is_free(#[trigger] ms.spec_pt().frame_ppns()[k]),
                ms.spec_pt().spec_shares_kernel(),
                ms.spec_areas().len() == j,
                forall|v: u64| v < USER_PAGES && (forall|k: int| 0 <= k < j ==> !(seg_start(#[trigger] ls@[k]) <= v
                    < seg_end(ls@[k]))) ==> #[trigger] ms.spec_translate(v) is None,
                forall|k: int| 0 <= k < j ==> {
                    let a = #[trigger] ms.spec_areas()[k];
                    let sg = ls@[k];
                    &&& a.start() == seg_start(sg)
                    &&& a.end() == seg_end(sg)
                    &&& a.spec_map_type() == MapType::Framed
                    &&& a.spec_perm() == seg_perm(sg)
                    &&& a.spec_area_type() == AreaType::Elf
                    &&& forall|pos: int| sg.vaddr % 4096 <= pos < sg.vaddr % 4096 + sg.file_size
                        ==> #[trigger] a.byte_at(pos) == elf_data@[sg.offset + pos - sg.vaddr % 4096]
                },
                max_end_vpn == max_end(ls@.subrange(0, j as int)),
                max_end_vpn <= USER_PAGES,
                forall|k: int| 0 <= k < area_frames(ms.spec_areas()).len()
                    ==> a0.is_free(#[trigger] area_frames(ms.spec_areas())[k]),
                allocator@.wf(),
                alloc_only(a0, allocator@),
                allocator@.free_count() >= 3 * (pages_of_segs(ls@) - pages_of_segs(ls@.subrange(0, j as int))),
                allocator@.free_count() >= old(allocator)@.free_count() - 1 - 3 * pages_of_segs(ls@.subrange(0, j as int)),
                a0 == old(allocator)@,
                pages_of_segs(ls@) >= pages_of_segs(ls@.subrange(0, j as int)),
            decreases n - j,
        {
            let sg = ls[j];
            proof {
                assert(seg_ok(ls@[j as int], elf_data@.len() as int));
                assert(ls@.subrange(0, j + 1).drop_last() =~= ls@.subrange(0, j as int));
            }
            let end = sg.vaddr + sg.mem_size;
            let perm: u8 = MAP_U | (if sg.readable { MAP_R } else { 0u8 }) | (if sg.writable { MAP_W } else { 0u8 })
                | (if sg.executable { MAP_X } else { 0u8 });
            let area = MapArea::new(VirtAddr(sg.vaddr), VirtAddr(end), MapType::Framed, MapPermission(perm),
                AreaType::Elf);
            let mut bytes: Vec<u8> = Vec::new();
            let mut b: u64 = 0;
            while b < sg.file_size
                invariant
                    b <= sg.file_size,
                    sg.offset + sg.file_size <= elf_data@.len(),
                    bytes@.len() == b,
                    forall|t: int| 0 <= t < b ==> #[trigger] bytes@[t] == elf_data@[sg.offset + t],
                decreases sg.file_size - b,
            {
                assert(sg.offset + b < elf_data@.len());
                let idx = (sg.offset as u128 + b as u128) as usize;
                bytes.push(elf_data[idx]);
                b = b + 1;
            }
            let page_off = (sg.vaddr % 4096) as usize;
            let ghost before = ms;
            let ghost a1 = allocator@;
            proof {
                assert(area.start() == seg_start(sg));
                assert(area.end() == seg_end(sg));
                assert(area.start() <= area.end());
                assert(page_off + sg.file_size <= area.page_count() * PAGE_SIZE);
                assert forall|v: u64| area.start() <= v < area.end() implies #[trigger] ms.spec_pt().owns_vpn(v) by {
                    crate::page_table::lemma_user_half_owned(ms.spec_pt(), v);
                }
                assert forall|v: u64| area.start() <= v < area.end() implies #[trigger] ms.spec_pt().spec_translate(v) is None by {
                    assert forall|k: int| 0 <= k < j implies !(seg_start(#[trigger] ls@[k]) <= v < seg_end(ls@[k])) by {
                        assert(seg_end(ls@[k]) <= seg_start(ls@[j as int]) || seg_end(ls@[j as int]) <= seg_start(ls@[k]));
                    }
                    assert(ms.spec_translate(v) is None);
                }
                assert forall|i: int| 0 <= i < ls@.len() implies seg_ok(#[trigger] ls@[i], usize::MAX as int) by {
                    assert(seg_ok(ls@[i], elf_data@.len() as int));
                }
                Self::lemma_pages_step(ls@, j as int);
            }
            let seg_bytes = bytes.as_slice();
            ms.push(area, Some(seg_bytes), page_off, allocator);
            proof {
                lemma_alloc_only_trans(a0, a1, allocator@);
                Self::lemma_push_fresh(before, ms, a0, a1);
                assert forall|k: int| 0 <= k < ms.spec_pt().frame_ppns().len()
                    implies a0.is_free(#[trigger] ms.spec_pt().frame_ppns()[k]) by {
                    let bp = before.spec_pt().frame_ppns();
                    let np = new_frames(before.spec_pt(), ms.spec_pt());
                    if k < bp.len() {
                        assert(ms.spec_pt().frame_ppns()[k] == bp[k]);
                    } else {
                        assert(ms.spec_pt().frame_ppns()[k] == np[k - bp.len()]);
                        assert((np + ms.spec_areas().last().frames())[k - bp.len()] == np[k - bp.len()]);
                        assert(a1.is_free(np[k - bp.len()]));
                    }
                }
                assert forall|v: u64| v < USER_PAGES && (forall|k: int| 0 <= k < j + 1 ==> !(seg_start(#[trigger] ls@[k])
                    <= v < seg_end(ls@[k]))) implies #[trigger] ms.spec_translate(v) is None by {
                    assert(!(seg_start(ls@[j as int]) <= v < seg_end(ls@[j as int])));
                    if covers(seg_start(sg) as u64, seg_end(sg) as u64, v) {
                        let w = choose|w: u64| seg_start(sg) <= w < seg_end(sg) && same_page(v, w);
                        lemma_same_page_mod(v, w);
                        assert(v == w);
                    }
                    assert(before.spec_translate(v) is None);
                }
                assert forall|k: int| 0 <= k < j + 1 implies {
                    let a = #[trigger] ms.spec_areas()[k];
                    let sgk = ls@[k];
                    &&& a.start() == seg_start(sgk)
                    &&& a.end() == seg_end(sgk)
                    &&& a.spec_map_type() == MapType::Framed
                    &&& a.spec_perm() == seg_perm(sgk)
                    &&& a.spec_area_type() == AreaType::Elf
                    &&& forall|pos: int| sgk.vaddr % 4096 <= pos < sgk.vaddr % 4096 + sgk.file_size
                        ==> #[trigger] a.byte_at(pos) == elf_data@[sgk.offset + pos - sgk.vaddr % 4096]
                } by {
                    if k < j {
                        assert(ms.spec_areas()[k] == before.spec_areas()[k]);
                    } else {
                        let a = ms.spec_areas()[k];
                        assert(a == ms.spec_areas().last());
                        assert(perm == seg_perm(sg));
                        assert forall|pos: int| sg.vaddr % 4096 <= pos < sg.vaddr % 4096 + sg.file_size
                            implies #[trigger] a.byte_at(pos) == elf_data@[sg.offset + pos - sg.vaddr % 4096] by {
                            assert(seg_bytes@[pos - page_off] == elf_data@[sg.offset + (pos - page_off)]);
                        }
                    }
                }
            }
            let e = end / 4096 + (if end % 4096 == 0 { 0 } else { 1 });
            if e > max_end_vpn {
                max_end_vpn = e;
            }
            j = j + 1;
        }
        proof {
            assert(ls@.subrange(0, n as int) =~= ls@);
            lemma_max_end_bounds(ls@);
            assert forall|v: u64| v < USER_PAGES && (forall|k: int| 0 <= k < ls@.len() ==> !(#[trigger] seg_start(ls@[k])
                <= v < seg_end(ls@[k]))) implies #[trigger] ms.spec_translate(v) is None by {
                assert forall|k: int| 0 <= k < n implies !(#[trigger] seg_start(ls@[k]) <= v < seg_end(ls@[k])) by {}
            }
        }
        Some((ms, image.entry, max_end_vpn * 4096 + 4096))
    }

    /// Frames that were free before a `push` stay accounted for after it.
    pub proof fn lemma_push_fresh_pub(before: MemorySet, after: MemorySet, a0: AllocView, a1: AllocView)
        requires
            after.spec_areas().len() == before.spec_areas().len() + 1,
            forall|i: int| 0 <= i < before.spec_areas().len() ==> #[trigger] after.spec_areas()[i]
                == before.spec_areas()[i],
            forall|k: int| 0 <= k < area_frames(before.spec_areas()).len()
                ==> a0.is_free(#[trigger] area_frames(before.spec_areas())[k]),
            forall|i: int| 0 <= i < after.spec_areas().last().frames().len()
                ==> a1.is_free(#[trigger] after.spec_areas().last().frames()[i]),
            alloc_only(a0, a1),
        ensures
            forall|k: int| 0 <= k < area_frames(after.spec_areas()).len()
                ==> a0.is_free(#[trigger] area_frames(after.spec_areas())[k]),
    {
        Self::lemma_push_fresh(before, after, a0, a1);
    }

    proof fn lemma_push_fresh(before: MemorySet, after: MemorySet, a0: AllocView, a1: AllocView)
        requires
            after.spec_areas().len() == before.spec_areas().len() + 1,
            forall|i: int| 0 <= i < before.spec_areas().len() ==> #[trigger] after.spec_areas()[i]
                == before.spec_areas()[i],
            forall|k: int| 0 <= k < area_frames(before.spec_areas()).len()
                ==> a0.is_free(#[trigger] area_frames(before.spec_areas())[k]),
            forall|i: int| 0 <= i < after.spec_areas().last().frames().len()
                ==> a1.is_free(#[trigger] after.spec_areas().last().frames()[i]),
            alloc_only(a0, a1),
        ensures
            forall|k: int| 0 <= k < area_frames(after.spec_areas()).len()
                ==> a0.is_free(#[trigger] area_frames(after.spec_areas())[k]),
    {
        let f = |x: MapArea| x.frames();
        let last = after.spec_areas().last();
        assert(after.spec_areas() =~= before.spec_areas().push(last));
        assert(after.spec_areas().map_values(f) =~= before.spec_areas().map_values(f).push(last.frames()));
        before.spec_areas().map_values(f).lemma_flatten_push(last.frames());
        let bf = area_frames(before.spec_areas());
        assert forall|k: int| 0 <= k < area_frames(after.spec_areas()).len()
            implies a0.is_free(#[trigger] area_frames(after.spec_areas())[k]) by {
            if k < bf.len() {
                assert(area_frames(after.spec_areas())[k] == bf[k]);
            } else {
                assert(area_frames(after.spec_areas())[k] == last.frames()[k - bf.len()]);
                assert(a1.is_free(last.frames()[k - bf.len()]));
            }
        }
    }

    proof fn lemma_pages_step(ls: Seq<ElfSegment>, j: int)
        requires
            0 <= j < ls.len(),
            forall|i: int| 0 <= i < ls.len() ==> seg_ok(#[trigger] ls[i], usize::MAX as int),
        ensures
            pages_of_segs(ls.subrange(0, j + 1)) == pages_of_segs(ls.subrange(0, j)) + seg_end(ls[j]) - seg_start(ls[j]),
            pages_of_segs(ls.subrange(0, j + 1)) <= pages_of_segs(ls),
            seg_start(ls[j]) <= seg_end(ls[j]),
        decreases ls.len(),
    {
        assert(ls.subrange(0, j + 1).drop_last() =~= ls.subrange(0, j));
        assert(seg_ok(ls[j], usize::MAX as int));
        if j + 1 == ls.len() {
            assert(ls.subrange(0, j + 1) =~= ls);
        } else {
            Self::lemma_pages_step(ls.drop_last(), j);
            assert(ls.drop_last().subrange(0, j + 1) =~= ls.subrange(0, j + 1));
            assert(seg_ok(ls.last(), usize::MAX as int));
            assert(ls.last() == ls[ls.len() - 1]);
        }
    }

    /// Maps the identical area over the pages that `[start_va, end_va)`
    /// touches, when it can be: the range is ordered, at most 2^27 pages,
    /// below the frame limit, not mapped yet, and the allocator holds three
    /// frames per page. Returns whether it did.
    pub fn push_identical(&mut self, start_va: VirtAddr, end_va: VirtAddr, perm: MapPermission, area_type: AreaType,
        allocator: &mut StackFrameAllocator) -> (r: bool)
        requires
            old(self).wf(),
            old(allocator)@.wf(),
            old(self).frames_owned(old(allocator)@),
            old(self).pt_owned(old(allocator)@),
        ensures
            final(self).wf(),
            final(self).frames_owned(final(allocator)@),
            final(self).pt_owned(final(allocator)@),
            final(allocator)@.wf(),
            alloc_only(old(allocator)@, final(allocator)@),
            final(self).spec_pt().spec_shares_kernel() == old(self).spec_pt().spec_shares_kernel(),
            ({
                let s = start_va.0 / PAGE_SIZE as u64;
                let e = (end_va.0 + PAGE_SIZE - 1) / PAGE_SIZE as int;
                r == (s <= e && e - s <= sv39_pages() && e <= ppn_limit() && old(self).range_is_free(s, e as u64)
                    && old(allocator)@.free_count() >= 3 * (e - s))
            }),
            r ==> final(self).spec_areas().len() == old(self).spec_areas().len() + 1 && {
                let n = final(self).spec_areas().last();
                &&& n.start() == start_va.0 / PAGE_SIZE as u64
                &&& n.end() == (end_va.0 + PAGE_SIZE - 1) / PAGE_SIZE as int
                &&& n.spec_map_type() == MapType::Identical
                &&& n.spec_perm() == perm.0
                &&& n.spec_area_type() == area_type
            },
            forall|i: int| 0 <= i < old(self).spec_areas().len() ==> #[trigger] final(self).spec_areas()[i]
                == old(self).spec_areas()[i],
            !r ==> final(self).spec_areas() == old(self).spec_areas(),
            forall|v: u64| old(self).spec_translate(v) is Some ==> #[trigger] final(self).spec_translate(v)
                == old(self).spec_translate(v),
            forall|v: u64| !covers(start_va.0 / PAGE_SIZE as u64, ((end_va.0 + PAGE_SIZE - 1) / PAGE_SIZE as int) as u64, v)
                ==> #[trigger] final(self).spec_translate(v) == old(self).spec_translate(v),
            r ==> final(allocator)@.free_count() >= old(allocator)@.free_count() - 3 * (((end_va.0 + PAGE_SIZE - 1)
                / PAGE_SIZE as int) - start_va.0 / PAGE_SIZE as u64),
    {
        let area = MapArea::new(start_va, end_va, MapType::Identical, perm, area_type);
        let s = area.vpn_range_begin().0;
        let e = area.vpn_range_end().0;
        if s > e || e - s > 0x800_0000 || e > 0x1000_0000_0000 {
            return false;
        }
        if !self.is_range_free(VirtPageNum(s), VirtPageNum(e)) {
            return false;
        }
        if allocator.free_frames() < 3 * ((e - s) as u128) {
            return false;
        }
        let ghost o = *self;
        self.push(area, None, 0, allocator);
        proof {
            assert forall|v: u64| o.spec_translate(v) is Some implies #[trigger] self.spec_translate(v)
                == o.spec_translate(v) by {
                if covers(s, e, v) {
                    let w = choose|w: u64| s <= w < e && same_page(v, w);
                    lemma_same_page_translate(o.spec_pt(), v, w);
                    assert(o.spec_pt().spec_translate(w) is None);
                }
            }
        }
        true
    }

    /// The kernel's address space: the trampoline page mapped to
    /// `strampoline` with R+X, then the kernel's sections and the rest of
    /// physical memory mapped identically, in this order: text R+X, read-only
    /// data R, data R+W, bss (with the boot stack) R+W, and
    /// `[ekernel, memory_end)` R+W; none is user-accessible. Built exactly
    /// when `strampoline` fits a page-table entry, the sections are in order
    /// below the trampoline (`layout_ok`), and the allocator holds three frames
    /// per page plus three.
    #[verifier::rlimit(60)]
    pub fn new_kernel(layout: &KernelLayout, strampoline: PhysPageNum, allocator: &mut StackFrameAllocator)
        -> (r: Option<MemorySet>)
        requires
            old(allocator)@.wf(),
        ensures
            final(allocator)@.wf(),
            alloc_only(old(allocator)@, final(allocator)@),
            r is Some <==> strampoline.0 < ppn_limit() && layout_ok(*layout) && old(allocator)@.free_count() >= 3
                + 3 * layout_pages(*layout),
            r is None ==> final(allocator)@ == old(allocator)@,
            r matches Some(ms) ==> {
                &&& ms.wf()
                &&& ms.frames_owned(final(allocator)@)
                &&& ms.pt_owned(final(allocator)@)
                &&& !ms.spec_pt().spec_shares_kernel()
                &&& ms.spec_translate(TRAMPOLINE / PAGE_SIZE as u64) matches Some(e) && e.spec_ppn() == strampoline.0
                    && e.spec_flags() == crate::pte::PTE_R | crate::pte::PTE_X | crate::pte::PTE_V
                &&& ms.spec_areas().len() == 5
                &&& forall|i: int| 0 <= i < 5 ==> {
                    let a = #[trigger] ms.spec_areas()[i];
                    &&& a.spec_map_type() == MapType::Identical
                    &&& a.start() == sec_start(*layout, i)
                    &&& a.end() == sec_end(*layout, i)
                    &&& a.spec_perm() == sec_perm(i)
                    &&& a.mapped_in(ms.spec_pt())
                }
            },
    {
        let secs: Vec<(u64, u64)> = vec![(layout.stext, layout.etext), (layout.srodata, layout.erodata),
            (layout.sdata, layout.edata), (layout.sbss, layout.ebss), (layout.ekernel, layout.memory_end)];
        proof {
            assert(secs@.len() == 5);
        }
        if strampoline.0 >= 0x1000_0000_0000 {
            return None;
        }
        let mut total: u128 = 0;
        let mut prev_end: u64 = 0;
        let mut i: usize = 0;
        while i < 5
            invariant
                i <= 5,
                secs@.len() == 5,
                forall|k: int| 0 <= k < 5 ==> (#[trigger] secs@[k]).0 == sec_raw(*layout, k).0 && secs@[k].1 == sec_raw(
                    *layout, k).1,
                total == pages_upto(*layout, i as int),
                total <= i * 0x800_0000,
                i > 0 ==> prev_end == sec_end(*layout, i - 1),
                chain_upto(*layout, i as int),
                allocator@ == old(allocator)@,
                allocator@.wf(),
            decreases 5 - i,
        {
            let (sv, ev) = secs[i];
            let p = VirtAddr(sv).floor().0;
            let q = VirtAddr(ev).ceil().0;
            proof {
                assert(sec_start(*layout, i as int) == p);
                assert(sec_end(*layout, i as int) == q);
            }
            if q < p || (i > 0 && p < prev_end) || q >= 0x7ff_ffff {
                proof {
                    assert(!chain_upto(*layout, i + 1));
                    Self::lemma_chain_prefix(*layout, i as int);
                }
                return None;
            }
            total = total + (q - p) as u128;
            prev_end = q;
            i = i + 1;
        }
        if allocator.free_frames() < 3 + 3 * total {
            return None;
        }
        let ghost a0 = allocator@;
        let mut ms = MemorySet::new_bare(allocator);
        let tramp = VirtPageNum(TRAMPOLINE / PAGE_SIZE_U64);
        proof {
            crate::page_table::lemma_unshared_owns(ms.spec_pt(), tramp.0);
        }
        let ghost before = ms;
        let ghost ab = allocator@;
        assert(ms.spec_translate(tramp.0) is None);
        ms.page_table.map(tramp, strampoline, PTEFlags(PTE_R | PTE_X), allocator);
        proof {
            let np = new_frames(before.spec_pt(), ms.spec_pt());
            assert(np + Seq::<u64>::empty() =~= np);
            assert(ms.spec_pt().frame_ppns() =~= before.spec_pt().frame_ppns() + np);
            assert(area_frames(before.spec_areas()) =~= Seq::<u64>::empty());
            lemma_grow_pt_owned(before.spec_pt().frame_ppns(), np, Seq::<u64>::empty(), Seq::<u64>::empty(), ab,
                allocator@);
            assert(Seq::<u64>::empty() + Seq::<u64>::empty() =~= Seq::<u64>::empty());
            assert(ms.wf()) by {
                assert(ms.spec_areas().len() == 0);
            }
            let f = PTE_R | PTE_X;
            assert(f | PTE_V == PTE_R | PTE_X | PTE_V);
            assert forall|v: u64| v < 0x7ff_ffff implies #[trigger] ms.spec_translate(v) is None by {
                lemma_same_page_mod(v, tramp.0);
                assert(tramp.0 % 0x800_0000 == 0x7ff_ffff) by {
                    assert(0xffff_ffff_ffff_f000u64 / 4096 == 0xf_ffff_ffff_ffffu64);
                }
                assert(before.spec_translate(v) is None);
            }
        }
        let ghost t0 = ms.spec_translate(tramp.0);
        let mut j: usize = 0;
        while j < 5
            invariant
                j <= 5,
                secs@.len() == 5,
                forall|k: int| 0 <= k < 5 ==> (#[trigger] secs@[k]).0 == sec_raw(*layout, k).0 && secs@[k].1 == sec_raw(
                    *layout, k).1,
                layout_ok(*layout),
                ms.wf(),
                ms.frames_owned(allocator@),
                ms.pt_owned(allocator@),
                !ms.spec_pt().spec_shares_kernel(),
                ms.spec_translate(tramp.0) == t0,
                t0 is Some,
                tramp.0 == TRAMPOLINE / PAGE_SIZE as u64,
                ms.spec_areas().len() == j,
                forall|k: int| 0 <= k < j ==> {
                    let a = #[trigger] ms.spec_areas()[k];
                    &&& a.spec_map_type() == MapType::Identical
                    &&& a.start() == sec_start(*layout, k)
                    &&& a.end() == sec_end(*layout, k)
                    &&& a.spec_perm() == sec_perm(k)
                },
                forall|v: u64| v < 0x7ff_ffff && (forall|k: int| 0 <= k < j ==> !(#[trigger] sec_start(*layout, k) <= v < sec_end(
                    *layout, k))) ==> #[trigger] ms.spec_translate(v) is None,
                allocator@.wf(),
                alloc_only(a0, allocator@),
                allocator@.free_count() >= 3 * (layout_pages(*layout) - pages_upto(*layout, j as int)),
            decreases 5 - j,
        {
            let (sv, ev) = secs[j];
            let perm = if j == 0 {
                MAP_R | MAP_X
            } else if j == 1 {
                MAP_R
            } else {
                MAP_R | MAP_W
            };
            let at = if j == 4 {
                AreaType::Physical
            } else {
                AreaType::Elf
            };
            let ghost m0 = ms;
            let ghost a1 = allocator@;
            proof {
                Self::lemma_layout_facts(*layout, j as int);
                let s0 = sec_start(*layout, j as int);
                let e0 = sec_end(*layout, j as int);
                assert forall|v: u64| s0 <= v < e0 implies #[trigger] ms.spec_pt().owns_vpn(v) by {
                    crate::page_table::lemma_unshared_owns(ms.spec_pt(), v);
                }
                assert forall|v: u64| s0 <= v < e0 implies #[trigger] ms.spec_pt().spec_translate(v) is None by {
                    assert(ms.spec_translate(v) is None);
                }
            }
            let ok = ms.push_identical(VirtAddr(sv), VirtAddr(ev), MapPermission(perm), at, allocator);
            if !ok {
                proof {
                    assert(false);
                }
                return None;
            }
            proof {
                lemma_alloc_only_trans(a0, a1, allocator@);
                let s0 = sec_start(*layout, j as int);
                let e0 = sec_end(*layout, j as int);
                assert forall|v: u64| v < 0x7ff_ffff && (forall|k: int| 0 <= k < j + 1 ==> !(#[trigger] sec_start(*layout, k) <= v
                    < sec_end(*layout, k))) implies #[trigger] ms.spec_translate(v) is None by {
                    assert(!(s0 <= v < e0));
                    if covers(s0, e0, v) {
                        let w = choose|w: u64| s0 <= w < e0 && same_page(v, w);
                        lemma_same_page_mod(v, w);
                    }
                    assert(m0.spec_translate(v) is None);
                }
                assert forall|k: int| 0 <= k < j + 1 implies {
                    let a = #[trigger] ms.spec_areas()[k];
                    &&& a.spec_map_type() == MapType::Identical
                    &&& a.start() == sec_start(*layout, k)
                    &&& a.end() == sec_end(*layout, k)
                    &&& a.spec_perm() == sec_perm(k)
                } by {
                    if k < j {
                        assert(ms.spec_areas()[k] == m0.spec_areas()[k]);
                    }
                }
                assert(pages_upto(*layout, j + 1) == pages_upto(*layout, j as int) + (e0 - s0));
            }
            j = j + 1;
        }
        proof {
            assert forall|i: int| 0 <= i < 5 implies (#[trigger] ms.spec_areas()[i]).mapped_in(ms.spec_pt()) by {}
        }
        Some(ms)
    }

    proof fn lemma_chain_prefix(l: KernelLayout, i: int)
        requires
            0 <= i < 5,
            chain_upto(l, i),
            !chain_upto(l, i + 1),
        ensures
            !layout_ok(l),
    {
        if layout_ok(l) {
            assert forall|k: int| 0 <= k < i + 1 implies {
                &&& sec_start(l, k) <= #[trigger] sec_end(l, k)
                &&& sec_end(l, k) < 0x7ff_ffff
                &&& k > 0 ==> sec_end(l, k - 1) <= sec_start(l, k)
            } by {
                assert(sec_end(l, k) == sec_end(l, k));
            }
        }
    }

    proof fn lemma_layout_facts(l: KernelLayout, j: int)
        requires
            layout_ok(l),
            0 <= j < 5,
        ensures
            sec_start(l, j) <= sec_end(l, j) < 0x7ff_ffff,
            forall|k: int| 0 <= k < j ==> sec_end(l, k) <= #[trigger] sec_start(l, j),
            pages_upto(l, j + 1) == pages_upto(l, j) + sec_end(l, j) - sec_start(l, j),
            pages_upto(l, j + 1) <= layout_pages(l),
            sec_end(l, j) <= ppn_limit(),
    {
        assert(sec_end(l, 0) >= sec_start(l, 0) && sec_end(l, 1) >= sec_start(l, 1) && sec_end(l, 2) >= sec_start(l, 2)
            && sec_end(l, 3) >= sec_start(l, 3) && sec_end(l, 4) >= sec_start(l, 4));
        assert(sec_end(l, 0) <= sec_start(l, 1) && sec_end(l, 1) <= sec_start(l, 2) && sec_end(l, 2) <= sec_start(l, 3)
            && sec_end(l, 3) <= sec_start(l, 4));
        assert(pages_upto(l, 1) == pages_upto(l, 0) + sec_end(l, 0) - sec_start(l, 0));
        assert(pages_upto(l, 2) == pages_upto(l, 1) + sec_end(l, 1) - sec_start(l, 1));
        assert(pages_upto(l, 3) == pages_upto(l, 2) + sec_end(l, 2) - sec_start(l, 2));
        assert(pages_upto(l, 4) == pages_upto(l, 3) + sec_end(l, 3) - sec_start(l, 3));
        assert(pages_upto(l, 5) == pages_upto(l, 4) + sec_end(l, 4) - sec_start(l, 4));
        assert(pages_upto(l, 0) == 0);
    }

    proof fn lemma_area_frames_split(areas: Seq<MapArea>, i: int)
        requires
            0 <= i < areas.len(),
        ensures
            area_frames(areas) == area_frames(areas.subrange(0, i)) + areas[i].frames() + area_frames(
                areas.subrange(i + 1, areas.len() as int)),
            area_frames(areas.remove(i)) == area_frames(areas.subrange(0, i)) + area_frames(
                areas.subrange(i + 1, areas.len() as int)),
    {
        let f = |x: MapArea| x.frames();
        let a = areas.subrange(0, i);
        let c = areas.subrange(i + 1, areas.len() as int);
        assert(areas =~= a + seq![areas[i]] + c);
        assert(areas.remove(i) =~= a + c);
        assert(areas.map_values(f) =~= a.map_values(f) + seq![areas[i].frames()] + c.map_values(f));
        assert(areas.remove(i).map_values(f) =~= a.map_values(f) + c.map_values(f));
        lemma_flatten_concat(a.map_values(f) + seq![areas[i].frames()], c.map_values(f));
        lemma_flatten_concat(a.map_values(f), seq![areas[i].frames()]);
        lemma_flatten_concat(a.map_values(f), c.map_values(f));
        assert(seq![areas[i].frames()].flatten() == areas[i].frames()) by {
            seq![areas[i].frames()].lemma_flatten_one_element();
        }
    }

    /// Unmaps the area that starts at page `start_vpn`, if there is one, gives
    /// its frames back, and forgets it. Returns whether there was one.
    pub fn remove_area_with_start_vpn(&mut self, start_vpn: VirtPageNum, allocator: &mut StackFrameAllocator) -> (r: bool)
        requires
            old(self).wf(),
            old(allocator)@.wf(),
            old(self).frames_owned(old(allocator)@),
        ensures
            final(self).wf(),
            final(self).frames_owned(final(allocator)@),
            old(self).pt_owned(old(allocator)@) ==> final(self).pt_owned(final(allocator)@),
            final(allocator)@.wf(),
            r == exists|i: int| 0 <= i < old(self).spec_areas().len() && #[trigger] old(self).spec_areas()[i].start()
                == start_vpn.0,
            !r ==> final(self).spec_areas() == old(self).spec_areas() && final(allocator)@ == old(allocator)@,
            r ==> exists|i: int| {
                &&& 0 <= i < old(self).spec_areas().len()
                &&& #[trigger] old(self).spec_areas()[i].start() == start_vpn.0
                &&& forall|j: int| 0 <= j < i ==> old(self).spec_areas()[j].start() != start_vpn.0
                &&& final(self).spec_areas() == old(self).spec_areas().remove(i)
                &&& forall|v: u64| !covers(old(self).spec_areas()[i].start(), old(self).spec_areas()[i].end(), v)
                    ==> #[trigger] final(self).spec_translate(v) == old(self).spec_translate(v)
                &&& forall|v: u64| old(self).spec_areas()[i].start() <= v < old(self).spec_areas()[i].end()
                    ==> #[trigger] final(self).spec_translate(v) is None
                &&& forall|k: int| 0 <= k < old(self).spec_areas()[i].frames().len()
                    ==> final(allocator)@.is_free(#[trigger] old(self).spec_areas()[i].frames()[k])
                &&& forall|q: u64| !old(self).spec_areas()[i].frames().contains(q)
                    ==> (#[trigger] old(allocator)@.is_allocated(q) <==> final(allocator)@.is_allocated(q))
            },
            forall|x: int| 0 <= x < final(self).owned_frames().len() ==> old(self).owned_frames().contains(
                #[trigger] final(self).owned_frames()[x]),
            forall|q: u64| !old(self).owned_frames().contains(q)
                ==> (#[trigger] old(allocator)@.is_allocated(q) <==> final(allocator)@.is_allocated(q)),
            forall|q: u64| #[trigger] old(allocator)@.is_free(q) ==> final(allocator)@.is_free(q),
            final(self).spec_pt().spec_shares_kernel() == old(self).spec_pt().spec_shares_kernel(),
    {
        let mut idx: usize = 0;
        while idx < self.areas.len() && self.areas[idx].vpn_range_begin().0 != start_vpn.0
            invariant
                idx <= self.spec_areas().len(),
                forall|k: int| 0 <= k < idx ==> #[trigger] self.spec_areas()[k].start() != start_vpn.0,
            decreases self.spec_areas().len() - idx,
        {
            idx = idx + 1;
        }
        if idx == self.areas.len() {
            return false;
        }
        let ghost o = *self;
        let ghost a0 = allocator@;
        let ghost all = area_frames(o.spec_areas());
        proof {
            Self::lemma_area_frames_split(o.spec_areas(), idx as int);
            let pre = area_frames(o.spec_areas().subrange(0, idx as int));
            let mine = o.spec_areas()[idx as int].frames();
            assert forall|x: int| 0 <= x < mine.len() implies a0.is_allocated(#[trigger] mine[x]) by {
                assert(all[pre.len() + x] == mine[x]);
            }
            assert forall|x: int, y: int| 0 <= x < mine.len() && 0 <= y < mine.len() && x != y implies mine[x] != mine[y] by {
                assert(all[pre.len() + x] == mine[x]);
                assert(all[pre.len() + y] == mine[y]);
            }
        }
        let mut area = self.areas.remove(idx);
        let ghost pre_area = area;
        area.unmap(&mut self.page_table, allocator);
        proof {
            let a1 = allocator@;
            let n = o.spec_areas().len();
            let pre = area_frames(o.spec_areas().subrange(0, idx as int));
            let mine = pre_area.frames();
            let post = area_frames(o.spec_areas().subrange(idx + 1, n as int));
            let rest = area_frames(self.spec_areas());
            assert(self.spec_areas() == o.spec_areas().remove(idx as int));
            assert(rest == pre + post);
            assert(all == pre + mine + post);
            assert forall|x: int| 0 <= x < rest.len() implies !mine.contains(#[trigger] rest[x]) && a0.is_allocated(rest[x]) by {
                let ax = if x < pre.len() { x } else { x + mine.len() };
                assert(all[ax] == rest[x]);
                if mine.contains(rest[x]) {
                    let y = choose|y: int| 0 <= y < mine.len() && mine[y] == rest[x];
                    assert(all[pre.len() + y] == mine[y]);
                }
            }
            assert forall|x: int, y: int| 0 <= x < rest.len() && 0 <= y < rest.len() && x != y implies rest[x] != rest[y] by {
                let ax = if x < pre.len() { x } else { x + mine.len() };
                let ay = if y < pre.len() { y } else { y + mine.len() };
                assert(all[ax] == rest[x]);
                assert(all[ay] == rest[y]);
            }
            assert forall|x: int| 0 <= x < rest.len() implies a1.is_allocated(#[trigger] rest[x]) by {
                assert(!mine.contains(rest[x]) && a0.is_allocated(rest[x]));
            }
            assert forall|k: int| 0 <= k < self.spec_areas().len() implies {
                &&& (#[trigger] self.spec_areas()[k]).is_mapped()
                &&& self.spec_areas()[k].mapped_in(self.spec_pt())
                &&& self.spec_areas()[k].page_count() <= sv39_pages()
            } by {
                let ok = if k < idx { k } else { k + 1 };
                let ak = self.spec_areas()[k];
                assert(ak == o.spec_areas()[ok]);
                assert forall|v: u64| ak.start() <= v < ak.end() implies (#[trigger] self.spec_pt().spec_translate(v)
                    matches Some(e) && e.spec_ppn() == ak.target(v) && e.spec_flags() == ak.spec_perm()
                    | crate::pte::PTE_V) by {
                    assert(in_area(o.spec_areas()[ok], v));
                    assert(!covers(o.spec_areas()[idx as int].start(), o.spec_areas()[idx as int].end(), v));
                }
            }
            assert forall|p: int, q: int, v: u64|
                0 <= p < self.spec_areas().len() && 0 <= q < self.spec_areas().len() && p != q
                    && #[trigger] in_area(self.spec_areas()[p], v)
                    implies !#[trigger] covers(self.spec_areas()[q].start(), self.spec_areas()[q].end(), v) by {
                let op = if p < idx { p } else { p + 1 };
                let oq = if q < idx { q } else { q + 1 };
                assert(self.spec_areas()[p] == o.spec_areas()[op]);
                assert(self.spec_areas()[q] == o.spec_areas()[oq]);
                assert(in_area(o.spec_areas()[op], v));
            }
            assert(o.spec_areas()[idx as int].start() == start_vpn.0);
            let pt = self.spec_pt().frame_ppns();
            assert(pt == o.spec_pt().frame_ppns());
            assert forall|q: u64| !o.owned_frames().contains(q)
                implies (#[trigger] a0.is_allocated(q) <==> allocator@.is_allocated(q)) by {
                if mine.contains(q) {
                    let y = choose|y: int| 0 <= y < mine.len() && mine[y] == q;
                    assert(all[pre.len() + y] == q);
                    assert(o.owned_frames()[pt.len() + pre.len() + y] == q);
                }
            }
            assert forall|x: int| 0 <= x < self.owned_frames().len() implies o.owned_frames().contains(
                #[trigger] self.owned_frames()[x]) by {
                let g = self.owned_frames()[x];
                if x < pt.len() {
                    assert(o.owned_frames()[x] == g);
                } else {
                    let y = x - pt.len();
                    assert(rest[y] == g);
                    let ay = if y < pre.len() { y } else { y + mine.len() };
                    assert(all[ay] == rest[y]);
                    assert(o.owned_frames()[pt.len() + ay] == g);
                }
            }
            if o.pt_owned(a0) {
                let p = self.spec_pt().frame_ppns();
                assert forall|x: int| 0 <= x < p.len() implies a1.is_allocated(#[trigger] p[x]) by {
                    assert(a0.is_allocated(p[x]));
                    if mine.contains(p[x]) {
                        let y = choose|y: int| 0 <= y < mine.len() && mine[y] == p[x];
                        assert(all[pre.len() + y] == mine[y]);
                        assert(o.spec_pt().frame_ppns()[x] != all[pre.len() + y]);
                    }
                }
                assert forall|x: int, y: int| 0 <= x < p.len() && 0 <= y < rest.len() implies #[trigger] p[x] != #[trigger] rest[y] by {
                    let ay = if y < pre.len() { y } else { y + mine.len() };
                    assert(all[ay] == rest[y]);
                    assert(o.spec_pt().frame_ppns()[x] != all[ay]);
                }
            }
        }
        true
    }

    /// Whether every page of `[start, end)` can take a new mapping.
    pub fn is_range_free(&self, start: VirtPageNum, end: VirtPageNum) -> (r: bool)
        requires
            self.wf(),
        ensures
            r == self.range_is_free(start.0, end.0),
    {
        let shares = self.page_table.shares_kernel_half();
        let mut v: u64 = start.0;
        while v < end.0
            invariant
                start.0 <= v,
                self.wf(),
                shares == self.spec_pt().spec_shares_kernel(),
                forall|w: u64| start.0 <= w < v ==> #[trigger] self.spec_pt().owns_vpn(w),
                forall|w: u64| start.0 <= w < v ==> #[trigger] self.spec_pt().spec_translate(w) is None,
            decreases end.0 - v,
        {
            if !self.page_table.owns(VirtPageNum(v)) {
                assert(!self.spec_pt().owns_vpn(v));
                return false;
            }
            if self.page_table.translate(VirtPageNum(v)).is_some() {
                assert(self.spec_pt().spec_translate(v) is Some);
                return false;
            }
            v = v + 1;
        }
        true
    }
}

} // verus!
