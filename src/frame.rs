//! Physical frame allocation.
//!
//! `StackFrameAllocator` hands out the frames of `[current, end)` and keeps a
//! stack of frames given back, which it hands out again before growing.
use vstd::prelude::*;
use crate::address::PhysPageNum;

verus! {

/// Physical page numbers fit in the 44-bit PPN field of a page-table entry.
pub open spec fn ppn_limit() -> u64 {
    0x1000_0000_0000
}

/// What an allocator holds, as mathematical values.
pub struct AllocView {
    /// Lowest frame never handed out.
    pub current: u64,
    /// End of the pool.
    pub end: u64,
    /// Frames given back, most recent last.
    pub recycled: Seq<u64>,
}

/// The allocator state after one allocation, and the frame it hands out.
pub open spec fn spec_alloc(s: AllocView) -> (AllocView, Option<u64>) {
    if s.recycled.len() > 0 {
        (AllocView { recycled: s.recycled.drop_last(), ..s }, Some(s.recycled.last()))
    } else if s.current == s.end {
        (s, None)
    } else {
        (AllocView { current: (s.current + 1) as u64, ..s }, Some(s.current))
    }
}

/// The allocator state after `ppn` is given back.
pub open spec fn spec_dealloc(s: AllocView, ppn: u64) -> AllocView {
    AllocView { recycled: s.recycled.push(ppn), ..s }
}

/// The allocator state after `n` allocations, and what each one handed out.
pub open spec fn alloc_n(s: AllocView, n: nat) -> (AllocView, Seq<Option<u64>>)
    decreases n,
{
    if n == 0 {
        (s, Seq::empty())
    } else {
        let (s1, r) = spec_alloc(s);
        let (s2, rs) = alloc_n(s1, (n - 1) as nat);
        (s2, seq![r].add(rs))
    }
}

/// The allocator state after the frames of `d` are given back, in order.
pub open spec fn dealloc_seq(s: AllocView, d: Seq<u64>) -> AllocView
    decreases d.len(),
{
    if d.len() == 0 {
        s
    } else {
        dealloc_seq(spec_dealloc(s, d[0]), d.drop_first())
    }
}

/// The frames that a run of allocations handed out.
pub open spec fn granted(rs: Seq<Option<u64>>) -> Set<u64> {
    Set::new(|x: u64| exists|i: int| 0 <= i < rs.len() && rs[i] == Some(x))
}

/// Every allocation of the run succeeded.
pub open spec fn all_granted(rs: Seq<Option<u64>>) -> bool {
    forall|i: int| 0 <= i < rs.len() ==> rs[i] is Some
}

proof fn lemma_alloc_n_len(s: AllocView, n: nat)
    ensures
        alloc_n(s, n).1.len() == n,
    decreases n,
{
    if n > 0 {
        lemma_alloc_n_len(spec_alloc(s).0, (n - 1) as nat);
    }
}

proof fn lemma_dealloc_seq(s: AllocView, d: Seq<u64>)
    ensures
        dealloc_seq(s, d) == (AllocView { recycled: s.recycled.add(d), ..s }),
    decreases d.len(),
{
    if d.len() > 0 {
        let s1 = spec_dealloc(s, d[0]);
        lemma_dealloc_seq(s1, d.drop_first());
        assert(s1.recycled.add(d.drop_first()) =~= s.recycled.add(d));
    } else {
        assert(s.recycled.add(d) =~= s.recycled);
    }
}

proof fn lemma_alloc_from_stack(s: AllocView, d: Seq<u64>)
    ensures
        alloc_n(AllocView { recycled: s.recycled.add(d), ..s }, d.len()).0 == s,
        alloc_n(AllocView { recycled: s.recycled.add(d), ..s }, d.len()).1
            =~= Seq::new(d.len(), |i: int| Some(d[d.len() - 1 - i])),
    decreases d.len(),
{
    let t = AllocView { recycled: s.recycled.add(d), ..s };
    if d.len() == 0 {
        assert(s.recycled.add(d) =~= s.recycled);
    } else {
        let d1 = d.drop_last();
        assert(t.recycled.drop_last() =~= s.recycled.add(d1));
        assert(t.recycled.last() == d.last());
        lemma_alloc_from_stack(s, d1);
        let rs = alloc_n(AllocView { recycled: s.recycled.add(d1), ..s }, d1.len()).1;
        assert(seq![Some(d.last())].add(rs) =~= Seq::new(d.len(), |i: int| Some(d[d.len() - 1 - i])));
    }
}

/// Handing out `n` frames, taking all of them back in any order, and handing
/// out `n` frames again gives out exactly the same set of frames.
pub proof fn lemma_frame_round_trip(s: AllocView, n: nat, d: Seq<u64>)
    requires
        all_granted(alloc_n(s, n).1),
        d.len() == n,
        d.no_duplicates(),
        d.to_set() == granted(alloc_n(s, n).1),
    ensures
        all_granted(alloc_n(dealloc_seq(alloc_n(s, n).0, d), n).1),
        granted(alloc_n(dealloc_seq(alloc_n(s, n).0, d), n).1) == granted(alloc_n(s, n).1),
{
    let s1 = alloc_n(s, n).0;
    lemma_dealloc_seq(s1, d);
    lemma_alloc_from_stack(s1, d);
    let q = alloc_n(dealloc_seq(s1, d), n).1;
    assert(q =~= Seq::new(d.len(), |i: int| Some(d[d.len() - 1 - i])));
    assert(granted(q) =~= d.to_set()) by {
        assert forall|x: u64| granted(q).contains(x) implies d.to_set().contains(x) by {
            let i = choose|i: int| 0 <= i < q.len() && q[i] == Some(x);
            assert(d[d.len() - 1 - i] == x);
        }
        assert forall|x: u64| d.to_set().contains(x) implies granted(q).contains(x) by {
            let j = choose|j: int| 0 <= j < d.len() && d[j] == x;
            assert(q[d.len() - 1 - j] == Some(x));
        }
    }
}

/// From a pool of exactly `n` unused frames, `n` allocations succeed and the
/// next one fails.
pub proof fn lemma_pool_exhaustion(s: AllocView, n: nat)
    requires
        s.recycled.len() == 0,
        s.current + n == s.end,
    ensures
        all_granted(alloc_n(s, n).1),
        alloc_n(s, n).1.len() == n,
        spec_alloc(alloc_n(s, n).0).1 is None,
    decreases n,
{
    lemma_alloc_n_len(s, n);
    if n > 0 {
        let s1 = spec_alloc(s).0;
        lemma_pool_exhaustion(s1, (n - 1) as nat);
        let rs = alloc_n(s1, (n - 1) as nat).1;
        assert(alloc_n(s, n).1 == seq![spec_alloc(s).1].add(rs));
    }
}

/// A frame allocator over the physical page numbers `[current, end)`, with a
/// stack of recycled frames.
pub struct StackFrameAllocator {
    current: u64,
    end: u64,
    recycled: Vec<u64>,
}

/// Exclusive ownership of one physical frame. Giving it back to the allocator
/// (`frame_dealloc`) consumes it.
pub struct FrameTracker {
    pub ppn: PhysPageNum,
}

impl View for StackFrameAllocator {
    type V = AllocView;

    closed spec fn view(&self) -> AllocView {
        AllocView { current: self.current, end: self.end, recycled: self.recycled@ }
    }
}

impl AllocView {
    /// The pool is well formed: the watermark is within bounds and every
    /// recycled frame was handed out once and is recycled once.
    pub open spec fn wf(self) -> bool {
        &&& self.current <= self.end
        &&& self.end <= ppn_limit()
        &&& self.recycled.no_duplicates()
        &&& forall|i: int| 0 <= i < self.recycled.len() ==> self.recycled[i] < self.current
    }

    /// `ppn` is free: never handed out, or handed back.
    pub open spec fn is_free(self, ppn: u64) -> bool {
        (self.current <= ppn < self.end) || self.recycled.contains(ppn)
    }

    /// `ppn` is handed out and not yet given back.
    pub open spec fn is_allocated(self, ppn: u64) -> bool {
        ppn < self.current && !self.recycled.contains(ppn)
    }

    /// Number of frames that can still be handed out.
    pub open spec fn free_count(self) -> int {
        (self.end - self.current) + self.recycled.len()
    }
}

impl StackFrameAllocator {
    /// An empty allocator, with no frame to hand out until `init`.
    pub fn new() -> (r: StackFrameAllocator)
        ensures
            r@.current == 0,
            r@.end == 0,
            r@.recycled.len() == 0,
            r@.wf(),
    {
        StackFrameAllocator { current: 0, end: 0, recycled: Vec::new() }
    }

    /// Sets the pool to the frames `[start, end)`.
    pub fn init(&mut self, start: PhysPageNum, end: PhysPageNum)
        requires
            old(self)@.recycled.len() == 0,
            start.0 <= end.0,
            end.0 <= ppn_limit(),
        ensures
            final(self)@.current == start.0,
            final(self)@.end == end.0,
            final(self)@.recycled.len() == 0,
            final(self)@.wf(),
    {
        self.current = start.0;
        self.end = end.0;
    }

    /// Hands out a recycled frame if there is one, else the next frame of the
    /// pool, else nothing.
    pub fn allocate(&mut self) -> (r: Option<PhysPageNum>)
        requires
            old(self)@.wf(),
        ensures
            final(self)@ == spec_alloc(old(self)@).0,
            r == (match spec_alloc(old(self)@).1 {
                Some(p) => Some(PhysPageNum(p)),
                None => None::<PhysPageNum>,
            }),
            final(self)@.wf(),
            r is None <==> old(self)@.free_count() == 0,
            r matches Some(p) ==> old(self)@.is_free(p.0) && final(self)@.is_allocated(p.0),
            r matches Some(p) ==> p.0 < ppn_limit(),
            forall|q: u64| #[trigger] old(self)@.is_allocated(q) ==> final(self)@.is_allocated(q),
            forall|q: u64| #[trigger] final(self)@.is_free(q) ==> old(self)@.is_free(q),
            r is Some ==> final(self)@.free_count() == old(self)@.free_count() - 1,
    {
        let ghost s = self@;
        if let Some(ppn) = self.recycled.pop() {
            proof {
                assert(s.recycled.drop_last() =~= self.recycled@);
                assert(s.recycled.contains(ppn));
                assert forall|i: int| 0 <= i < self.recycled@.len() implies self.recycled@[i] != ppn by {
                    assert(s.recycled[i] == self.recycled@[i]);
                    assert(s.recycled[s.recycled.len() - 1] == ppn);
                }
                assert forall|q: u64| #[trigger] s.is_allocated(q) implies self@.is_allocated(q) by {
                    if self.recycled@.contains(q) {
                        let i = choose|i: int| 0 <= i < self.recycled@.len() && self.recycled@[i] == q;
                        assert(s.recycled[i] == q);
                    }
                }
                assert forall|q: u64| #[trigger] self@.is_free(q) implies s.is_free(q) by {
                    if self.recycled@.contains(q) {
                        let i = choose|i: int| 0 <= i < self.recycled@.len() && self.recycled@[i] == q;
                        assert(s.recycled[i] == q);
                    }
                }
            }
            Some(PhysPageNum(ppn))
        } else if self.current == self.end {
            None
        } else {
            self.current = self.current + 1;
            proof {
                assert(!s.recycled.contains((self.current - 1) as u64));
            }
            Some(PhysPageNum(self.current - 1))
        }
    }

    /// Number of frames that can still be handed out.
    pub fn free_frames(&self) -> (r: u128)
        requires
            self@.wf(),
        ensures
            r == self@.free_count(),
    {
        (self.end - self.current) as u128 + self.recycled.len() as u128
    }

    /// Whether `ppn` is handed out and not yet given back.
    pub fn is_allocated(&self, ppn: PhysPageNum) -> (r: bool)
        ensures
            r == self@.is_allocated(ppn.0),
    {
        if ppn.0 >= self.current {
            return false;
        }
        let mut i: usize = 0;
        while i < self.recycled.len()
            invariant
                i <= self.recycled@.len(),
                forall|k: int| 0 <= k < i ==> self.recycled@[k] != ppn.0,
            decreases self.recycled@.len() - i,
        {
            if self.recycled[i] == ppn.0 {
                return false;
            }
            i = i + 1;
        }
        true
    }

    /// Takes back a frame that was handed out.
    pub fn dealloc(&mut self, ppn: PhysPageNum)
        requires
            old(self)@.wf(),
            old(self)@.is_allocated(ppn.0),
        ensures
            final(self)@ == spec_dealloc(old(self)@, ppn.0),
            final(self)@.wf(),
            final(self)@.is_free(ppn.0),
            forall|q: u64| #[trigger] old(self)@.is_free(q) ==> final(self)@.is_free(q),
            final(self)@.free_count() == old(self)@.free_count() + 1,
            forall|q: u64| q != ppn.0 ==> (#[trigger] old(self)@.is_allocated(q) <==> final(self)@.is_allocated(q)),
    {
        let ghost s = self@;
        self.recycled.push(ppn.0);
        proof {
            assert(self.recycled@ =~= s.recycled.push(ppn.0));
            assert(self.recycled@.last() == ppn.0);
            assert forall|q: u64| #[trigger] s.is_free(q) implies self@.is_free(q) by {
                if s.recycled.contains(q) {
                    let i = choose|i: int| 0 <= i < s.recycled.len() && s.recycled[i] == q;
                    assert(self.recycled@[i] == q);
                }
            }
            assert forall|q: u64| q != ppn.0 implies (s.is_allocated(q) <==> #[trigger] self@.is_allocated(q)) by {
                if s.recycled.contains(q) {
                    let i = choose|i: int| 0 <= i < s.recycled.len() && s.recycled[i] == q;
                    assert(self.recycled@[i] == q);
                }
                if self.recycled@.contains(q) {
                    let i = choose|i: int| 0 <= i < self.recycled@.len() && self.recycled@[i] == q;
                    assert(i < s.recycled.len());
                    assert(s.recycled[i] == q);
                }
            }
        }
    }
}

impl FrameTracker {
    /// Takes ownership of the frame `ppn`.
    pub fn new(ppn: PhysPageNum) -> (r: FrameTracker)
        ensures
            r.ppn == ppn,
    {
        FrameTracker { ppn }
    }
}

/// Allocates one frame from `allocator`, or nothing when the pool is exhausted.
pub fn frame_alloc(allocator: &mut StackFrameAllocator) -> (r: Option<FrameTracker>)
    requires
        old(allocator)@.wf(),
    ensures
        final(allocator)@ == spec_alloc(old(allocator)@).0,
        (match spec_alloc(old(allocator)@).1 {
            Some(p) => r matches Some(f) && f.ppn.0 == p,
            None => r is None,
        }),
        final(allocator)@.wf(),
        r is None <==> old(allocator)@.free_count() == 0,
        r matches Some(f) ==> old(allocator)@.is_free(f.ppn.0) && final(allocator)@.is_allocated(f.ppn.0),
        r matches Some(f) ==> f.ppn.0 < ppn_limit(),
        forall|q: u64| #[trigger] old(allocator)@.is_allocated(q) ==> final(allocator)@.is_allocated(q),
        forall|q: u64| #[trigger] final(allocator)@.is_free(q) ==> old(allocator)@.is_free(q),
        r is Some ==> final(allocator)@.free_count() == old(allocator)@.free_count() - 1,
{
    match allocator.allocate() {
        Some(ppn) => Some(FrameTracker::new(ppn)),
        None => None,
    }
}

/// Gives the frame of `frame` back to `allocator`.
pub fn frame_dealloc(allocator: &mut StackFrameAllocator, frame: FrameTracker)
    requires
        old(allocator)@.wf(),
        old(allocator)@.is_allocated(frame.ppn.0),
    ensures
        final(allocator)@ == spec_dealloc(old(allocator)@, frame.ppn.0),
        final(allocator)@.wf(),
        final(allocator)@.is_free(frame.ppn.0),
        forall|q: u64| #[trigger] old(allocator)@.is_free(q) ==> final(allocator)@.is_free(q),
        final(allocator)@.free_count() == old(allocator)@.free_count() + 1,
        forall|q: u64| q != frame.ppn.0 ==> (#[trigger] old(allocator)@.is_allocated(q) <==> final(allocator)@.is_allocated(q)),
{
    allocator.dealloc(frame.ppn);
}

} // verus!
