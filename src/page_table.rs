//! The three-level Sv39 page table.
//!
//! Every node of the tree is a physical frame that the table owns, holding 512
//! entries. Beside the entries the table keeps, for each valid inner entry, the
//! index of the node that the entry points to, so that a walk never has to
//! search its frames by page number.
use vstd::prelude::*;
use crate::address::{spec_indexes, PhysPageNum, VirtPageNum};
use crate::config::KERNEL_ROOT_INDEX;
use crate::frame::{frame_alloc, frame_dealloc, ppn_limit, AllocView, FrameTracker, StackFrameAllocator};
use crate::pte::{PTEFlags, PageTableEntry, PTE_V};

verus! {

/// Entries per node.
pub const ENTRIES_PER_NODE: usize = 512;

/// `b` follows `a` through allocations only: nothing free in `b` was
/// allocated in `a`, and everything allocated in `a` stays allocated.
pub open spec fn alloc_only(a: AllocView, b: AllocView) -> bool {
    &&& forall|q: u64| #[trigger] b.is_free(q) ==> a.is_free(q)
    &&& forall|q: u64| #[trigger] a.is_allocated(q) ==> b.is_allocated(q)
}

/// The frames of `s` were free in `a` and are allocated, once each, in `b`.
pub open spec fn fresh(s: Seq<u64>, a: AllocView, b: AllocView) -> bool {
    &&& s.no_duplicates()
    &&& forall|i: int| 0 <= i < s.len() ==> a.is_free(#[trigger] s[i])
    &&& forall|i: int| 0 <= i < s.len() ==> b.is_allocated(#[trigger] s[i])
}

/// Frames taken fresh one after the other are fresh together.
pub proof fn lemma_fresh_concat(s1: Seq<u64>, s2: Seq<u64>, a: AllocView, b: AllocView, c: AllocView)
    requires
        fresh(s1, a, b),
        fresh(s2, b, c),
        alloc_only(a, b),
        alloc_only(b, c),
    ensures
        fresh(s1 + s2, a, c),
{
    let s = s1 + s2;
    assert forall|i: int, j: int| 0 <= i < s.len() && 0 <= j < s.len() && i != j implies s[i] != s[j] by {
        if i < s1.len() && j >= s1.len() {
            assert(b.is_allocated(s1[i]));
            assert(b.is_free(s2[j - s1.len()]));
        } else if j < s1.len() && i >= s1.len() {
            assert(b.is_allocated(s1[j]));
            assert(b.is_free(s2[i - s1.len()]));
        }
    }
    assert forall|i: int| 0 <= i < s.len() implies a.is_free(#[trigger] s[i]) && c.is_allocated(s[i]) by {
        if i < s1.len() {
            assert(b.is_allocated(s1[i]));
        } else {
            assert(b.is_free(s2[i - s1.len()]));
        }
    }
}

/// Freshness does not depend on the order of the frames.
pub proof fn lemma_fresh_swap(x: Seq<u64>, y: Seq<u64>, z: Seq<u64>, w: Seq<u64>, a: AllocView, b: AllocView)
    requires
        fresh(x + y + z + w, a, b),
    ensures
        fresh(x + z + y + w, a, b),
{
    let s = x + y + z + w;
    let t = x + z + y + w;
    let lx = x.len() as int;
    let ly = y.len() as int;
    let lz = z.len() as int;
    // position in s of the element at position i of t
    let pos = |i: int| if i < lx { i } else if i < lx + lz { i + ly } else if i < lx + lz + ly { i - lz } else { i };
    assert forall|i: int| 0 <= i < t.len() implies t[i] == s[pos(i)] && 0 <= pos(i) < s.len() by {}
    assert forall|i: int, j: int| 0 <= i < t.len() && 0 <= j < t.len() && i != j implies t[i] != t[j] by {
        assert(t[i] == s[pos(i)] && t[j] == s[pos(j)]);
        assert(pos(i) != pos(j));
    }
    assert forall|i: int| 0 <= i < t.len() implies a.is_free(#[trigger] t[i]) && b.is_allocated(t[i]) by {
        assert(t[i] == s[pos(i)]);
    }
}

/// The frames that `b` holds beyond those of `a`.
pub open spec fn new_frames(a: PageTable, b: PageTable) -> Seq<u64> {
    b.frame_ppns().subrange(a.node_count() as int, b.node_count() as int)
}

/// Two page numbers select the same leaf entry: they agree on the 27 bits that
/// Sv39 translates.
pub open spec fn same_page(a: u64, b: u64) -> bool {
    spec_indexes(a) == spec_indexes(b)
}

/// `b` is `a` with `vpn` mapped to `ppn` with `flags` and the valid bit: the
/// pages that share `vpn`'s leaf entry translate to the new entry, the others
/// as before.
pub open spec fn map_post(a: PageTable, b: PageTable, vpn: u64, ppn: u64, flags: u8) -> bool {
    &&& b.spec_translate(vpn) matches Some(e) && e.spec_ppn() == ppn && e.spec_flags() == flags | PTE_V
    &&& forall|v: u64| !same_page(v, vpn) ==> #[trigger] b.spec_translate(v) == a.spec_translate(v)
    &&& forall|v: u64| same_page(v, vpn) ==> #[trigger] b.spec_translate(v) == b.spec_translate(vpn)
}

/// `b` is `a` with the mapping of `vpn` removed.
pub open spec fn unmap_post(a: PageTable, b: PageTable, vpn: u64) -> bool {
    &&& forall|v: u64| same_page(v, vpn) ==> #[trigger] b.spec_translate(v) is None
    &&& forall|v: u64| !same_page(v, vpn) ==> #[trigger] b.spec_translate(v) == a.spec_translate(v)
}

/// Mapping a page and then translating it gives back the page number and the
/// flags it was mapped with, when they hold the valid bit; unmapping it
/// afterwards leaves it untranslated.
pub proof fn lemma_map_translate_unmap(a: PageTable, b: PageTable, c: PageTable, vpn: u64, ppn: u64, flags: u8)
    requires
        flags & PTE_V != 0,
        map_post(a, b, vpn, ppn, flags),
        unmap_post(b, c, vpn),
    ensures
        b.spec_translate(vpn) matches Some(e) && e.spec_ppn() == ppn && e.spec_flags() == flags,
        c.spec_translate(vpn) is None,
{
    assert(flags | PTE_V == flags) by (bit_vector)
        requires
            flags & PTE_V != 0,
    ;
    assert(same_page(vpn, vpn));
}

/// Once a page is mapped, `map`'s precondition fails for it: a second mapping
/// without an unmap in between is rejected.
pub proof fn lemma_double_map_rejected(a: PageTable, b: PageTable, vpn: u64, ppn: u64, flags: u8)
    requires
        map_post(a, b, vpn, ppn, flags),
    ensures
        b.spec_translate(vpn) is Some,
{
}

/// Pages with the same leaf entry translate alike.
pub proof fn lemma_same_page_translate(pt: PageTable, a: u64, b: u64)
    requires
        same_page(a, b),
    ensures
        pt.spec_translate(a) == pt.spec_translate(b),
        pt.owns_vpn(a) == pt.owns_vpn(b),
{
}

/// Whether a page is resolved by a table depends only on whether the table
/// shares the kernel's half.
pub proof fn lemma_owns_same(a: PageTable, b: PageTable, v: u64)
    requires
        a.spec_shares_kernel() == b.spec_shares_kernel(),
    ensures
        a.owns_vpn(v) == b.owns_vpn(v),
{
}

/// A page that translates is resolved by the table itself.
pub proof fn lemma_translated_owned(pt: PageTable, v: u64)
    requires
        pt.spec_translate(v) is Some,
    ensures
        pt.owns_vpn(v),
{
}

/// Every table resolves the pages of the user half itself.
pub proof fn lemma_user_half_owned(pt: PageTable, v: u64)
    requires
        v < 0x400_0000,
    ensures
        pt.owns_vpn(v),
{
    assert((v >> 18u64) & 511u64 < 256) by (bit_vector)
        requires
            v < 0x400_0000u64,
    ;
}

/// A table that does not share the kernel's half resolves every page itself.
pub proof fn lemma_unshared_owns(pt: PageTable, v: u64)
    requires
        !pt.spec_shares_kernel(),
    ensures
        pt.owns_vpn(v),
{
}

/// A three-level page table.
pub struct PageTable {
    root_ppn: PhysPageNum,
    /// Frames of the nodes; the root first.
    frames: Vec<FrameTracker>,
    /// `nodes[i]` holds the 512 entries stored in `frames[i]`.
    nodes: Vec<Vec<PageTableEntry>>,
    /// `links[i][k]`: index of the node that the valid inner entry `k` of node
    /// `i` points to.
    links: Vec<Vec<usize>>,
    /// The indices on the path from the root to each node.
    paths: Ghost<Seq<Seq<u64>>>,
    /// The upper half of the root is copied from the kernel's table and
    /// resolved there, not here.
    shares_kernel: bool,
}

pub(crate) proof fn lemma_alloc_only_trans(a: AllocView, b: AllocView, c: AllocView)
    requires
        alloc_only(a, b),
        alloc_only(b, c),
    ensures
        alloc_only(a, c),
{
}

impl PageTable {
    closed spec fn entry(self, i: int, k: int) -> PageTableEntry {
        self.nodes@[i]@[k]
    }

    closed spec fn link(self, i: int, k: int) -> int {
        self.links@[i]@[k] as int
    }

    closed spec fn borrowed(self, i: int, k: int) -> bool {
        i == 0 && self.shares_kernel && k >= KERNEL_ROOT_INDEX
    }

    /// Number of nodes, the root included.
    pub open spec fn node_count(self) -> nat {
        self.frame_ppns().len()
    }

    /// Physical page numbers of the frames that this table owns.
    pub closed spec fn frame_ppns(self) -> Seq<u64> {
        self.frames@.map_values(|f: FrameTracker| f.ppn.0)
    }

    /// The root frame.
    pub closed spec fn spec_root(self) -> u64 {
        self.root_ppn.0
    }

    /// Entry `k` of the root.
    pub closed spec fn root_entry(self, k: int) -> PageTableEntry {
        self.nodes@[0]@[k]
    }

    /// The upper half of the root is the kernel's.
    pub closed spec fn spec_shares_kernel(self) -> bool {
        self.shares_kernel
    }

    /// The table is well formed: each valid inner entry points to a node of
    /// this table, one level further down the path of its index.
    pub closed spec fn wf(self) -> bool {
        let n = self.frames@.len();
        &&& n >= 1
        &&& self.nodes@.len() == n
        &&& self.links@.len() == n
        &&& self.paths@.len() == n
        &&& self.frames@[0].ppn == self.root_ppn
        &&& self.paths@[0] == Seq::<u64>::empty()
        &&& forall|i: int|
            0 <= i < n ==> {
                &&& (#[trigger] self.nodes@[i])@.len() == ENTRIES_PER_NODE
                &&& self.links@[i]@.len() == ENTRIES_PER_NODE
                &&& self.paths@[i].len() <= 2
                &&& self.frames@[i].ppn.0 < ppn_limit()
            }
        &&& forall|i: int, k: int|
            0 <= i < n && 0 <= k < ENTRIES_PER_NODE && self.paths@[i].len() < 2
                && (#[trigger] self.entry(i, k)).spec_valid() && !self.borrowed(i, k) ==> {
                &&& 0 <= self.link(i, k) < n
                &&& self.paths@[self.link(i, k)] == self.paths@[i].push(k as u64)
                &&& self.entry(i, k).spec_ppn() == self.frames@[self.link(i, k)].ppn.0
            }
    }

    /// This table resolves `vpn` itself (it is not in a borrowed kernel half).
    pub closed spec fn owns_vpn(self, vpn: u64) -> bool {
        !(self.shares_kernel && spec_indexes(vpn)[0] >= KERNEL_ROOT_INDEX)
    }

    /// The leaf entry that maps `vpn`, if the walk from the root reaches a
    /// valid one.
    pub closed spec fn spec_translate(self, vpn: u64) -> Option<PageTableEntry> {
        let idx = spec_indexes(vpn);
        let i0 = idx[0] as int;
        let i1 = idx[1] as int;
        let i2 = idx[2] as int;
        if self.borrowed(0, i0) || !self.entry(0, i0).spec_valid() {
            None
        } else {
            let j1 = self.link(0, i0);
            if !self.entry(j1, i1).spec_valid() {
                None
            } else {
                let j2 = self.link(j1, i1);
                if self.entry(j2, i2).spec_valid() {
                    Some(self.entry(j2, i2))
                } else {
                    None
                }
            }
        }
    }

    /// A table with an empty root allocated from `allocator`.
    pub fn new(allocator: &mut StackFrameAllocator) -> (r: PageTable)
        requires
            old(allocator)@.wf(),
            old(allocator)@.free_count() >= 1,
        ensures
            r.wf(),
            !r.spec_shares_kernel(),
            forall|v: u64| r.spec_translate(v) is None,
            r.node_count() == 1,
            final(allocator)@.wf(),
            alloc_only(old(allocator)@, final(allocator)@),
            final(allocator)@.free_count() == old(allocator)@.free_count() - 1,
            old(allocator)@.is_free(r.spec_root()),
            final(allocator)@.is_allocated(r.spec_root()),
            r.frame_ppns() == seq![r.spec_root()],
            fresh(r.frame_ppns(), old(allocator)@, final(allocator)@),
    {
        let frame = match frame_alloc(allocator) {
            Some(f) => f,
            None => {
                proof {
                    assert(false);
                }
                FrameTracker::new(PhysPageNum(0))
            },
        };
        let r = PageTable::from_root(frame, false, &Vec::new());
        assert(r.frame_ppns() =~= seq![r.spec_root()]);
        assert forall|v: u64| r.spec_translate(v) is None by {
            assert(r.owns_vpn(v));
        }
        r
    }

    spec fn root_entries_ok(shares: bool, upper: Seq<PageTableEntry>) -> bool {
        shares ==> upper.len() == ENTRIES_PER_NODE - KERNEL_ROOT_INDEX
    }

    fn from_root(frame: FrameTracker, shares_kernel: bool, upper: &Vec<PageTableEntry>) -> (r: PageTable)
        requires
            frame.ppn.0 < ppn_limit(),
            Self::root_entries_ok(shares_kernel, upper@),
        ensures
            r.wf(),
            r.spec_shares_kernel() == shares_kernel,
            forall|v: u64| r.owns_vpn(v) ==> r.spec_translate(v) is None,
            r.node_count() == 1,
            r.spec_root() == frame.ppn.0,
            r.frame_ppns()[0] == frame.ppn.0,
            shares_kernel ==> forall|k: int| KERNEL_ROOT_INDEX <= k < ENTRIES_PER_NODE
                ==> r.nodes@[0]@[k] == upper@[k - KERNEL_ROOT_INDEX],
    {
        let mut root: Vec<PageTableEntry> = Vec::new();
        let mut links: Vec<usize> = Vec::new();
        let mut k: usize = 0;
        while k < ENTRIES_PER_NODE
            invariant
                k <= ENTRIES_PER_NODE,
                root@.len() == k,
                links@.len() == k,
                Self::root_entries_ok(shares_kernel, upper@),
                forall|m: int| 0 <= m < k && !(shares_kernel && m >= KERNEL_ROOT_INDEX)
                    ==> !(#[trigger] root@[m]).spec_valid(),
                shares_kernel ==> forall|m: int| KERNEL_ROOT_INDEX <= m < k
                    ==> #[trigger] root@[m] == upper@[m - KERNEL_ROOT_INDEX],
            decreases ENTRIES_PER_NODE - k,
        {
            if shares_kernel && k >= KERNEL_ROOT_INDEX {
                root.push(upper[k - KERNEL_ROOT_INDEX]);
            } else {
                root.push(PageTableEntry::empty());
            }
            links.push(0);
            k = k + 1;
        }
        let root_ppn = frame.ppn;
        let mut frames: Vec<FrameTracker> = Vec::new();
        frames.push(frame);
        let mut nodes: Vec<Vec<PageTableEntry>> = Vec::new();
        nodes.push(root);
        let mut all_links: Vec<Vec<usize>> = Vec::new();
        all_links.push(links);
        let ghost root_path: Seq<Seq<u64>> = seq![Seq::<u64>::empty()];
        let r = PageTable {
            root_ppn,
            frames,
            nodes,
            links: all_links,
            paths: Ghost(root_path),
            shares_kernel,
        };
        proof {
            assert forall|v: u64| r.owns_vpn(v) implies r.spec_translate(v) is None by {
                let i0 = spec_indexes(v)[0] as int;
                assert(i0 < 512) by {
                    assert((v >> 18u64) & 511u64 < 512) by (bit_vector);
                }
            }
        }
        r
    }

    /// A table for a process: a fresh root whose upper half is copied from the
    /// kernel's root, so that the kernel's mappings stay reachable.
    pub fn new_from_kernel(allocator: &mut StackFrameAllocator, kernel: &PageTable) -> (r: PageTable)
        requires
            old(allocator)@.wf(),
            old(allocator)@.free_count() >= 1,
            kernel.wf(),
        ensures
            r.wf(),
            r.spec_shares_kernel(),
            forall|k: int| KERNEL_ROOT_INDEX <= k < ENTRIES_PER_NODE ==> #[trigger] r.root_entry(k) == kernel.root_entry(k),
            forall|v: u64| r.owns_vpn(v) ==> r.spec_translate(v) is None,
            r.node_count() == 1,
            final(allocator)@.wf(),
            alloc_only(old(allocator)@, final(allocator)@),
            final(allocator)@.free_count() == old(allocator)@.free_count() - 1,
            old(allocator)@.is_free(r.spec_root()),
            final(allocator)@.is_allocated(r.spec_root()),
            r.frame_ppns() == seq![r.spec_root()],
            fresh(r.frame_ppns(), old(allocator)@, final(allocator)@),
    {
        let frame = match frame_alloc(allocator) {
            Some(f) => f,
            None => {
                proof {
                    assert(false);
                }
                FrameTracker::new(PhysPageNum(0))
            },
        };
        let mut upper: Vec<PageTableEntry> = Vec::new();
        let mut k: usize = KERNEL_ROOT_INDEX;
        while k < ENTRIES_PER_NODE
            invariant
                KERNEL_ROOT_INDEX <= k <= ENTRIES_PER_NODE,
                upper@.len() == k - KERNEL_ROOT_INDEX,
                kernel.wf(),
                forall|m: int| KERNEL_ROOT_INDEX <= m < k ==> #[trigger] upper@[m - KERNEL_ROOT_INDEX] == kernel.nodes@[0]@[m],
            decreases ENTRIES_PER_NODE - k,
        {
            upper.push(kernel.nodes[0][k]);
            k = k + 1;
        }
        let r = PageTable::from_root(frame, true, &upper);
        assert(r.frame_ppns() =~= seq![r.spec_root()]);
        r
    }

    /// Adds an empty node below the invalid entry `k` of node `p` and points
    /// the entry at it.
    fn new_node(&mut self, p: usize, k: usize, allocator: &mut StackFrameAllocator) -> (j: usize)
        requires
            old(self).wf(),
            p < old(self).node_count(),
            k < ENTRIES_PER_NODE,
            old(self).paths@[p as int].len() < 2,
            !old(self).entry(p as int, k as int).spec_valid(),
            !old(self).borrowed(p as int, k as int),
            old(allocator)@.wf(),
            old(allocator)@.free_count() >= 1,
        ensures
            final(self).wf(),
            j == old(self).node_count(),
            final(self).node_count() == old(self).node_count() + 1,
            final(self).entry(p as int, k as int).spec_valid(),
            final(self).link(p as int, k as int) == j,
            final(self).paths@ == old(self).paths@.push(old(self).paths@[p as int].push(k as u64)),
            final(self).shares_kernel == old(self).shares_kernel,
            final(self).root_ppn == old(self).root_ppn,
            forall|i: int, m: int| 0 <= i < old(self).node_count() && 0 <= m < ENTRIES_PER_NODE
                && (i != p || m != k) ==> final(self).entry(i, m) == old(self).entry(i, m)
                && final(self).link(i, m) == old(self).link(i, m),
            forall|m: int| 0 <= m < ENTRIES_PER_NODE ==> !(#[trigger] final(self).entry(j as int, m)).spec_valid(),
            forall|v: u64| #[trigger] final(self).spec_translate(v) == old(self).spec_translate(v),
            final(self).frame_ppns() == old(self).frame_ppns().push(final(self).frame_ppns().last()),
            fresh(new_frames(*old(self), *final(self)), old(allocator)@, final(allocator)@),
            old(allocator)@.is_free(final(self).frame_ppns().last()),
            final(allocator)@.is_allocated(final(self).frame_ppns().last()),
            final(allocator)@.wf(),
            alloc_only(old(allocator)@, final(allocator)@),
            final(allocator)@.free_count() == old(allocator)@.free_count() - 1,
    {
        let frame = match frame_alloc(allocator) {
            Some(f) => f,
            None => {
                proof {
                    assert(false);
                }
                FrameTracker::new(PhysPageNum(0))
            },
        };
        let ppn = frame.ppn;
        let mut entries: Vec<PageTableEntry> = Vec::new();
        let mut node_links: Vec<usize> = Vec::new();
        let mut m: usize = 0;
        while m < ENTRIES_PER_NODE
            invariant
                m <= ENTRIES_PER_NODE,
                entries@.len() == m,
                node_links@.len() == m,
                forall|t: int| 0 <= t < m ==> !(#[trigger] entries@[t]).spec_valid(),
            decreases ENTRIES_PER_NODE - m,
        {
            entries.push(PageTableEntry::empty());
            node_links.push(0);
            m = m + 1;
        }
        let ghost o = *self;
        let j = self.frames.len();
        self.frames.push(frame);
        self.nodes.push(entries);
        self.links.push(node_links);
        let ghost new_path = self.paths@[p as int].push(k as u64);
        self.paths = Ghost(self.paths@.push(new_path));
        self.nodes[p][k] = PageTableEntry::new(ppn, PTEFlags(PTE_V));
        self.links[p][k] = j;
        proof {
            assert(PTE_V & PTE_V != 0) by (bit_vector);
            let n = self.frames@.len();
            assert(self.frames@[0] == o.frames@[0]);
            assert(self.paths@[0] == o.paths@[0]);
            assert(self.nodes@.len() == n && self.links@.len() == n && self.paths@.len() == n);
            assert(self.frame_ppns() =~= o.frame_ppns().push(ppn.0));
            assert(new_frames(o, *self) =~= seq![ppn.0]);
            assert forall|i: int| 0 <= i < n implies {
                &&& (#[trigger] self.nodes@[i])@.len() == ENTRIES_PER_NODE
                &&& self.links@[i]@.len() == ENTRIES_PER_NODE
                &&& self.paths@[i].len() <= 2
                &&& self.frames@[i].ppn.0 < ppn_limit()
            } by {
                if i < n - 1 {
                    assert(o.nodes@[i]@.len() == ENTRIES_PER_NODE);
                }
            }
            assert forall|i: int, t: int|
                0 <= i < n && 0 <= t < ENTRIES_PER_NODE && self.paths@[i].len() < 2
                    && (#[trigger] self.entry(i, t)).spec_valid() && !self.borrowed(i, t) implies {
                    &&& 0 <= self.link(i, t) < n
                    &&& self.paths@[self.link(i, t)] == self.paths@[i].push(t as u64)
                    &&& self.entry(i, t).spec_ppn() == self.frames@[self.link(i, t)].ppn.0
                } by {
                if i == j as int {
                    assert(!self.entry(i, t).spec_valid());
                } else if i != p || t != k {
                    assert(o.entry(i, t) == self.entry(i, t));
                }
            }
            assert forall|v: u64| #[trigger] self.spec_translate(v) == o.spec_translate(v) by {
                let idx = spec_indexes(v);
                let i0 = idx[0] as int;
                let i1 = idx[1] as int;
                let i2 = idx[2] as int;
                assert(i0 < 512 && i1 < 512 && i2 < 512) by {
                    assert((v >> 18u64) & 511u64 < 512) by (bit_vector);
                    assert((v >> 9u64) & 511u64 < 512) by (bit_vector);
                    assert(v & 511u64 < 512) by (bit_vector);
                }
                if !o.borrowed(0, i0) && o.entry(0, i0).spec_valid() {
                    let j1 = o.link(0, i0);
                    assert(o.paths@[j1].len() == 1);
                    if o.entry(j1, i1).spec_valid() {
                        let j2 = o.link(j1, i1);
                        assert(o.paths@[j2].len() == 2);
                        assert(j2 != p);
                    }
                }
            }
        }
        j
    }

    closed spec fn walk_reaches(self, vpn: u64, j: int) -> bool {
        let idx = spec_indexes(vpn);
        let i0 = idx[0] as int;
        let i1 = idx[1] as int;
        &&& !self.borrowed(0, i0)
        &&& self.entry(0, i0).spec_valid()
        &&& self.entry(self.link(0, i0), i1).spec_valid()
        &&& self.link(self.link(0, i0), i1) == j
    }

    proof fn lemma_indexes_small(v: u64)
        ensures
            spec_indexes(v)[0] < 512,
            spec_indexes(v)[1] < 512,
            spec_indexes(v)[2] < 512,
    {
        assert((v >> 18u64) & 511u64 < 512) by (bit_vector);
        assert((v >> 9u64) & 511u64 < 512) by (bit_vector);
        assert(v & 511u64 < 512) by (bit_vector);
    }

    proof fn lemma_walk_path(self, v: u64)
        requires
            self.wf(),
            !self.borrowed(0, spec_indexes(v)[0] as int),
            self.entry(0, spec_indexes(v)[0] as int).spec_valid(),
        ensures
            0 <= self.link(0, spec_indexes(v)[0] as int) < self.node_count(),
            self.paths@[self.link(0, spec_indexes(v)[0] as int)] == seq![spec_indexes(v)[0]],
            self.entry(self.link(0, spec_indexes(v)[0] as int), spec_indexes(v)[1] as int).spec_valid()
                ==> {
                let j2 = self.link(self.link(0, spec_indexes(v)[0] as int), spec_indexes(v)[1] as int);
                &&& 0 <= j2 < self.node_count()
                &&& self.paths@[j2] == seq![spec_indexes(v)[0], spec_indexes(v)[1]]
            },
    {
        Self::lemma_indexes_small(v);
        let idx = spec_indexes(v);
        assert(Seq::<u64>::empty().push(idx[0]) =~= seq![idx[0]]);
        assert(seq![idx[0]].push(idx[1]) =~= seq![idx[0], idx[1]]);
    }

    /// Writes `e` into entry `k` of the leaf-level node `j`.
    fn set_leaf(&mut self, j: usize, k: usize, e: PageTableEntry)
        requires
            old(self).wf(),
            j < old(self).node_count(),
            k < ENTRIES_PER_NODE,
            old(self).paths@[j as int].len() == 2,
        ensures
            final(self).wf(),
            final(self).entry(j as int, k as int) == e,
            final(self).node_count() == old(self).node_count(),
            final(self).frame_ppns() == old(self).frame_ppns(),
            final(self).paths == old(self).paths,
            final(self).shares_kernel == old(self).shares_kernel,
            final(self).root_ppn == old(self).root_ppn,
            forall|v: u64| #[trigger] final(self).spec_translate(v) == if old(self).walk_reaches(v, j as int)
                && spec_indexes(v)[2] == k {
                if e.spec_valid() { Some(e) } else { None }
            } else {
                old(self).spec_translate(v)
            },
            forall|v: u64| old(self).walk_reaches(v, j as int) ==> final(self).walk_reaches(v, j as int),
    {
        let ghost o = *self;
        self.nodes[j][k] = e;
        proof {
            let n = self.frames@.len();
            assert forall|i: int| 0 <= i < n implies {
                &&& (#[trigger] self.nodes@[i])@.len() == ENTRIES_PER_NODE
                &&& self.links@[i]@.len() == ENTRIES_PER_NODE
                &&& self.paths@[i].len() <= 2
                &&& self.frames@[i].ppn.0 < ppn_limit()
            } by {
                assert(o.nodes@[i]@.len() == ENTRIES_PER_NODE);
            }
            assert forall|i: int, t: int|
                0 <= i < n && 0 <= t < ENTRIES_PER_NODE && self.paths@[i].len() < 2
                    && (#[trigger] self.entry(i, t)).spec_valid() && !self.borrowed(i, t) implies {
                    &&& 0 <= self.link(i, t) < n
                    &&& self.paths@[self.link(i, t)] == self.paths@[i].push(t as u64)
                    &&& self.entry(i, t).spec_ppn() == self.frames@[self.link(i, t)].ppn.0
                } by {
                assert(i != j);
                assert(o.entry(i, t) == self.entry(i, t));
            }
            assert forall|v: u64| #[trigger] self.spec_translate(v) == if o.walk_reaches(v, j as int)
                && spec_indexes(v)[2] == k {
                if e.spec_valid() { Some(e) } else { None }
            } else {
                o.spec_translate(v)
            } by {
                let idx = spec_indexes(v);
                Self::lemma_indexes_small(v);
                let i0 = idx[0] as int;
                let i1 = idx[1] as int;
                if !o.borrowed(0, i0) && o.entry(0, i0).spec_valid() {
                    o.lemma_walk_path(v);
                    assert(self.entry(0, i0) == o.entry(0, i0));
                    let j1 = o.link(0, i0);
                    assert(j1 != j);
                    assert(self.entry(j1, i1) == o.entry(j1, i1));
                }
            }
            assert forall|v: u64| o.walk_reaches(v, j as int) implies self.walk_reaches(v, j as int) by {
                let idx = spec_indexes(v);
                Self::lemma_indexes_small(v);
                o.lemma_walk_path(v);
                let j1 = o.link(0, idx[0] as int);
                assert(j1 != j);
                assert(self.entry(0, idx[0] as int) == o.entry(0, idx[0] as int));
                assert(self.entry(j1, idx[1] as int) == o.entry(j1, idx[1] as int));
            }
        }
    }

    /// Walks to the leaf-level node of `vpn`, adding the missing inner nodes;
    /// returns that node and the index of `vpn`'s entry in it.
    fn find_pte_create(&mut self, vpn: VirtPageNum, allocator: &mut StackFrameAllocator) -> (r: (usize, usize))
        requires
            old(self).wf(),
            old(self).owns_vpn(vpn.0),
            old(allocator)@.wf(),
            old(allocator)@.free_count() >= 2,
        ensures
            final(self).wf(),
            r.0 < final(self).node_count(),
            r.1 == spec_indexes(vpn.0)[2],
            r.1 < ENTRIES_PER_NODE,
            final(self).paths@[r.0 as int].len() == 2,
            final(self).walk_reaches(vpn.0, r.0 as int),
            forall|v: u64| #[trigger] final(self).spec_translate(v) == old(self).spec_translate(v),
            final(self).shares_kernel == old(self).shares_kernel,
            final(self).root_ppn == old(self).root_ppn,
            final(self).node_count() >= old(self).node_count(),
            final(self).frame_ppns().subrange(0, old(self).node_count() as int) == old(self).frame_ppns(),
            forall|t: int| old(self).node_count() <= t < final(self).node_count()
                ==> old(allocator)@.is_free(#[trigger] final(self).frame_ppns()[t]),
            fresh(new_frames(*old(self), *final(self)), old(allocator)@, final(allocator)@),
            final(allocator)@.wf(),
            alloc_only(old(allocator)@, final(allocator)@),
            final(allocator)@.free_count() >= old(allocator)@.free_count() - 2,
    {
        let ghost o = *self;
        let ghost a0 = allocator@;
        let idx = vpn.indexes();
        proof {
            Self::lemma_indexes_small(vpn.0);
            assert(idx[0] == spec_indexes(vpn.0)[0]);
            assert(self.frame_ppns().subrange(0, o.node_count() as int) =~= o.frame_ppns());
        }
        let i0 = idx[0] as usize;
        let i1 = idx[1] as usize;
        let j1 = if self.nodes[0][i0].is_valid() {
            self.links[0][i0]
        } else {
            self.new_node(0, i0, allocator)
        };
        proof {
            self.lemma_walk_path(vpn.0);
            assert(self.frame_ppns().subrange(0, o.node_count() as int) =~= o.frame_ppns());
        }
        let ghost mid = *self;
        let ghost a1 = allocator@;
        proof {
            if mid.node_count() == o.node_count() {
                assert(new_frames(o, mid) =~= Seq::<u64>::empty());
            }
            assert(fresh(new_frames(o, mid), a0, a1));
        }
        let j2 = if self.nodes[j1][i1].is_valid() {
            self.links[j1][i1]
        } else {
            self.new_node(j1, i1, allocator)
        };
        proof {
            self.lemma_walk_path(vpn.0);
            lemma_alloc_only_trans(a0, a1, allocator@);
            assert(self.entry(0, i0 as int) == mid.entry(0, i0 as int));
            assert(self.frame_ppns().subrange(0, o.node_count() as int) =~= o.frame_ppns()) by {
                assert(self.frame_ppns().subrange(0, mid.node_count() as int) =~= mid.frame_ppns());
                assert(mid.frame_ppns().subrange(0, o.node_count() as int) =~= o.frame_ppns());
            }
            assert forall|t: int| o.node_count() <= t < self.node_count()
                implies a0.is_free(#[trigger] self.frame_ppns()[t]) by {
                if t < mid.node_count() {
                    assert(self.frame_ppns()[t] == mid.frame_ppns()[t]);
                } else {
                    assert(a1.is_free(self.frame_ppns()[t]));
                }
            }
            if self.node_count() == mid.node_count() {
                assert(new_frames(mid, *self) =~= Seq::<u64>::empty());
            }
            assert(fresh(new_frames(mid, *self), a1, allocator@));
            lemma_fresh_concat(new_frames(o, mid), new_frames(mid, *self), a0, a1, allocator@);
            assert(new_frames(o, *self) =~= new_frames(o, mid) + new_frames(mid, *self));
        }
        (j2, idx[2] as usize)
    }

    /// Walks to the leaf-level node of `vpn` without changing the table;
    /// nothing when an inner entry on the way is invalid.
    fn find_pte(&self, vpn: VirtPageNum) -> (r: Option<(usize, usize)>)
        requires
            self.wf(),
        ensures
            match r {
                Some((j, k)) => {
                    &&& self.walk_reaches(vpn.0, j as int)
                    &&& j < self.node_count()
                    &&& self.paths@[j as int].len() == 2
                    &&& k == spec_indexes(vpn.0)[2]
                    &&& k < ENTRIES_PER_NODE
                },
                None => self.spec_translate(vpn.0) is None,
            },
    {
        let idx = vpn.indexes();
        proof {
            Self::lemma_indexes_small(vpn.0);
        }
        let i0 = idx[0] as usize;
        let i1 = idx[1] as usize;
        if self.shares_kernel && i0 >= KERNEL_ROOT_INDEX {
            return None;
        }
        if !self.nodes[0][i0].is_valid() {
            return None;
        }
        proof {
            self.lemma_walk_path(vpn.0);
        }
        let j1 = self.links[0][i0];
        if !self.nodes[j1][i1].is_valid() {
            return None;
        }
        let j2 = self.links[j1][i1];
        Some((j2, idx[2] as usize))
    }

    /// Maps `vpn` to `ppn` with `flags` (the valid bit is added). The page must
    /// not be mapped already.
    pub fn map(&mut self, vpn: VirtPageNum, ppn: PhysPageNum, flags: PTEFlags, allocator: &mut StackFrameAllocator)
        requires
            old(self).wf(),
            old(self).owns_vpn(vpn.0),
            old(self).spec_translate(vpn.0) is None,
            ppn.0 < ppn_limit(),
            old(allocator)@.wf(),
            old(allocator)@.free_count() >= 2,
        ensures
            final(self).wf(),
            map_post(*old(self), *final(self), vpn.0, ppn.0, flags.0),
            final(self).spec_shares_kernel() == old(self).spec_shares_kernel(),
            final(self).spec_root() == old(self).spec_root(),
            forall|v: u64| #[trigger] final(self).owns_vpn(v) == old(self).owns_vpn(v),
            final(self).node_count() >= old(self).node_count(),
            final(self).frame_ppns().subrange(0, old(self).node_count() as int) == old(self).frame_ppns(),
            forall|t: int| old(self).node_count() <= t < final(self).node_count()
                ==> old(allocator)@.is_free(#[trigger] final(self).frame_ppns()[t]),
            fresh(new_frames(*old(self), *final(self)), old(allocator)@, final(allocator)@),
            final(allocator)@.wf(),
            alloc_only(old(allocator)@, final(allocator)@),
            final(allocator)@.free_count() >= old(allocator)@.free_count() - 2,
    {
        let (j, k) = self.find_pte_create(vpn, allocator);
        let ghost mid = *self;
        let e = PageTableEntry::new(ppn, flags.union(PTEFlags(PTE_V)));
        proof {
            let f = flags.0;
            assert((f | PTE_V) & PTE_V != 0) by (bit_vector);
        }
        self.set_leaf(j, k, e);
        proof {
            assert forall|v: u64| #[trigger] mid.walk_reaches(v, j as int) && spec_indexes(v)[2] == k
                implies same_page(v, vpn.0) by {
                Self::lemma_indexes_small(v);
                mid.lemma_walk_path(v);
                mid.lemma_walk_path(vpn.0);
                assert(seq![spec_indexes(v)[0], spec_indexes(v)[1]][0] == spec_indexes(vpn.0)[0]);
                assert(seq![spec_indexes(v)[0], spec_indexes(v)[1]][1] == spec_indexes(vpn.0)[1]);
                assert(spec_indexes(v) =~= spec_indexes(vpn.0));
            }
            assert forall|v: u64| same_page(v, vpn.0) implies #[trigger] mid.walk_reaches(v, j as int) by {}
            assert forall|v: u64| #[trigger] self.owns_vpn(v) == old(self).owns_vpn(v) by {}
            assert(new_frames(*old(self), *self) == new_frames(*old(self), mid));
        }
    }

    /// Removes the mapping of `vpn`, which must be mapped.
    pub fn unmap(&mut self, vpn: VirtPageNum)
        requires
            old(self).wf(),
            old(self).spec_translate(vpn.0) is Some,
        ensures
            final(self).wf(),
            unmap_post(*old(self), *final(self), vpn.0),
            final(self).spec_shares_kernel() == old(self).spec_shares_kernel(),
            final(self).spec_root() == old(self).spec_root(),
            forall|v: u64| #[trigger] final(self).owns_vpn(v) == old(self).owns_vpn(v),
            final(self).node_count() == old(self).node_count(),
            final(self).frame_ppns() == old(self).frame_ppns(),
    {
        let ghost o = *self;
        match self.find_pte(vpn) {
            Some((j, k)) => {
                let e = PageTableEntry::empty();
                self.set_leaf(j, k, e);
                proof {
                    assert forall|v: u64| #[trigger] o.walk_reaches(v, j as int) && spec_indexes(v)[2] == k
                        implies same_page(v, vpn.0) by {
                        Self::lemma_indexes_small(v);
                        o.lemma_walk_path(v);
                        o.lemma_walk_path(vpn.0);
                        assert(seq![spec_indexes(v)[0], spec_indexes(v)[1]][0] == spec_indexes(vpn.0)[0]);
                        assert(seq![spec_indexes(v)[0], spec_indexes(v)[1]][1] == spec_indexes(vpn.0)[1]);
                        assert(spec_indexes(v) =~= spec_indexes(vpn.0));
                    }
                    assert forall|v: u64| same_page(v, vpn.0) implies #[trigger] o.walk_reaches(v, j as int) by {}
                    assert forall|v: u64| #[trigger] self.owns_vpn(v) == o.owns_vpn(v) by {}
                }
            },
            None => {},
        }
    }

    /// The leaf entry that maps `vpn`, if it is valid.
    pub fn translate(&self, vpn: VirtPageNum) -> (r: Option<PageTableEntry>)
        requires
            self.wf(),
        ensures
            r == self.spec_translate(vpn.0),
    {
        match self.find_pte(vpn) {
            Some((j, k)) => {
                let e = self.nodes[j][k];
                if e.is_valid() {
                    Some(e)
                } else {
                    None
                }
            },
            None => None,
        }
    }

    /// Gives every frame of the table back to `allocator`.
    pub fn release(self, allocator: &mut StackFrameAllocator)
        requires
            old(allocator)@.wf(),
            self.frame_ppns().no_duplicates(),
            forall|i: int| 0 <= i < self.frame_ppns().len() ==> old(allocator)@.is_allocated(#[trigger] self.frame_ppns()[i]),
        ensures
            final(allocator)@.wf(),
            forall|i: int| 0 <= i < self.frame_ppns().len() ==> final(allocator)@.is_free(#[trigger] self.frame_ppns()[i]),
            forall|q: u64| !self.frame_ppns().contains(q)
                ==> (#[trigger] old(allocator)@.is_allocated(q) <==> final(allocator)@.is_allocated(q)),
            forall|q: u64| #[trigger] old(allocator)@.is_free(q) ==> final(allocator)@.is_free(q),
    {
        let ghost all = self.frame_ppns();
        let ghost a0 = allocator@;
        let PageTable { root_ppn: _, mut frames, nodes: _, links: _, paths: _, shares_kernel: _ } = self;
        while frames.len() > 0
            invariant
                frames@.len() <= all.len(),
                frames@.map_values(|f: FrameTracker| f.ppn.0) == all.subrange(0, frames@.len() as int),
                all.no_duplicates(),
                allocator@.wf(),
                forall|i: int| 0 <= i < frames@.len() ==> allocator@.is_allocated(#[trigger] all[i]),
                forall|i: int| frames@.len() <= i < all.len() ==> allocator@.is_free(#[trigger] all[i]),
                forall|q: u64| !all.contains(q) ==> (#[trigger] a0.is_allocated(q) <==> allocator@.is_allocated(q)),
                forall|q: u64| #[trigger] a0.is_free(q) ==> allocator@.is_free(q),
            decreases frames@.len(),
        {
            let ghost before = frames@;
            let f = frames.pop().unwrap();
            let ghost k = before.len() - 1;
            proof {
                assert(frames@ =~= before.drop_last());
                assert(before.map_values(|f: FrameTracker| f.ppn.0)[k] == f.ppn.0);
                assert(all[k] == f.ppn.0);
                assert(frames@.map_values(|f: FrameTracker| f.ppn.0) =~= all.subrange(0, frames@.len() as int));
            }
            let ghost a1 = allocator@;
            frame_dealloc(allocator, f);
            proof {
                assert forall|i: int| 0 <= i < frames@.len() implies allocator@.is_allocated(#[trigger] all[i]) by {
                    assert(all[i] != all[k]);
                }
                assert forall|i: int| frames@.len() <= i < all.len() implies allocator@.is_free(#[trigger] all[i]) by {
                    if i != k {
                        assert(a1.is_free(all[i]));
                    }
                }
                assert forall|q: u64| !all.contains(q) implies (#[trigger] a0.is_allocated(q) <==> allocator@.is_allocated(q)) by {
                    assert(q != all[k]);
                }
            }
        }
    }

    /// Whether the upper half of the root is the kernel's.
    pub fn shares_kernel_half(&self) -> (r: bool)
        ensures
            r == self.spec_shares_kernel(),
    {
        self.shares_kernel
    }

    /// Whether this table resolves `vpn` itself.
    pub fn owns(&self, vpn: VirtPageNum) -> (r: bool)
        ensures
            r == self.owns_vpn(vpn.0),
    {
        let idx = vpn.indexes();
        !(self.shares_kernel && idx[0] >= KERNEL_ROOT_INDEX as u64)
    }

    /// The value of the `satp` register that selects this table: Sv39 mode
    /// (8) in bits 60..64 and the root's page number.
    pub fn token(&self) -> (r: u64)
        requires
            self.wf(),
        ensures
            r == (8u64 << 60u64) | self.spec_root(),
    {
        (8u64 << 60) | self.root_ppn.0
    }
}

} // verus!
