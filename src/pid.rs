//! Process identifiers: a recycling allocator of small dense integers.
use vstd::prelude::*;
use crate::config::{KERNEL_STACK_SIZE, PAGE_SIZE_U64, TRAMPOLINE};

verus! {

/// An allocated process identifier. Give it back with `PidAllocator::dealloc`.
#[derive(Debug, PartialEq, Eq, Structural)]
pub struct PidHandle(pub usize);

/// Hands out the identifiers `0, 1, 2, ...`, reusing given-back ones first.
pub struct PidAllocator {
    current: usize,
    recycled: Vec<usize>,
}

impl PidAllocator {
    /// Lowest identifier never handed out.
    pub closed spec fn spec_current(&self) -> usize {
        self.current
    }

    /// Identifiers given back, most recent last.
    pub closed spec fn spec_recycled(&self) -> Seq<usize> {
        self.recycled@
    }

    /// Every recycled identifier was handed out before, and is recycled once.
    pub open spec fn wf(&self) -> bool {
        &&& self.spec_recycled().no_duplicates()
        &&& forall|i: int| 0 <= i < self.spec_recycled().len() ==> #[trigger] self.spec_recycled()[i] < self.spec_current()
    }

    /// `pid` is handed out and not given back.
    pub open spec fn is_allocated(&self, pid: usize) -> bool {
        pid < self.spec_current() && !self.spec_recycled().contains(pid)
    }

    /// An allocator that has handed out nothing.
    pub fn new() -> (r: PidAllocator)
        ensures
            r.wf(),
            r.spec_current() == 0,
            r.spec_recycled().len() == 0,
    {
        PidAllocator { current: 0, recycled: Vec::new() }
    }

    /// The most recently given-back identifier if there is one, else the next
    /// new one; nothing when every identifier is in use.
    pub fn allocate(&mut self) -> (r: Option<PidHandle>)
        requires
            old(self).wf(),
        ensures
            final(self).wf(),
            old(self).spec_recycled().len() > 0 ==> r == Some(PidHandle(old(self).spec_recycled().last()))
                && final(self).spec_recycled() == old(self).spec_recycled().drop_last()
                && final(self).spec_current() == old(self).spec_current(),
            old(self).spec_recycled().len() == 0 && old(self).spec_current() < usize::MAX ==> r == Some(
                PidHandle(old(self).spec_current())) && final(self).spec_current() == old(self).spec_current() + 1
                && final(self).spec_recycled() == old(self).spec_recycled(),
            old(self).spec_recycled().len() == 0 && old(self).spec_current() == usize::MAX ==> r is None
                && final(self).spec_current() == old(self).spec_current()
                && final(self).spec_recycled() == old(self).spec_recycled(),
            r matches Some(h) ==> !old(self).is_allocated(h.0) && final(self).is_allocated(h.0),
            forall|p: usize| #[trigger] old(self).is_allocated(p) ==> final(self).is_allocated(p),
    {
        let ghost s = self.recycled@;
        if let Some(pid) = self.recycled.pop() {
            proof {
                assert(s.drop_last() =~= self.recycled@);
                assert(s.contains(pid));
                assert forall|i: int| 0 <= i < self.recycled@.len() implies self.recycled@[i] != pid by {
                    assert(s[i] == self.recycled@[i]);
                }
                assert forall|p: usize| #[trigger] old(self).is_allocated(p) implies self.is_allocated(p) by {
                    if self.recycled@.contains(p) {
                        let i = choose|i: int| 0 <= i < self.recycled@.len() && self.recycled@[i] == p;
                        assert(s[i] == p);
                    }
                }
            }
            Some(PidHandle(pid))
        } else if self.current == usize::MAX {
            None
        } else {
            self.current = self.current + 1;
            Some(PidHandle(self.current - 1))
        }
    }

    /// Takes back an identifier that was handed out.
    pub fn dealloc(&mut self, pid: usize)
        requires
            old(self).wf(),
            old(self).is_allocated(pid),
        ensures
            final(self).wf(),
            final(self).spec_recycled() == old(self).spec_recycled().push(pid),
            final(self).spec_current() == old(self).spec_current(),
            !final(self).is_allocated(pid),
            forall|p: usize| p != pid ==> (#[trigger] old(self).is_allocated(p) <==> final(self).is_allocated(p)),
    {
        let ghost s = self.recycled@;
        self.recycled.push(pid);
        proof {
            assert(self.recycled@.last() == pid);
            assert forall|p: usize| p != pid implies (old(self).is_allocated(p) <==> #[trigger] self.is_allocated(p)) by {
                if s.contains(p) {
                    let i = choose|i: int| 0 <= i < s.len() && s[i] == p;
                    assert(self.recycled@[i] == p);
                }
                if self.recycled@.contains(p) {
                    let i = choose|i: int| 0 <= i < self.recycled@.len() && self.recycled@[i] == p;
                    assert(i < s.len());
                }
            }
        }
    }
}

/// Allocates a process identifier from `allocator`.
pub fn pid_alloc(allocator: &mut PidAllocator) -> (r: Option<PidHandle>)
    requires
        old(allocator).wf(),
    ensures
        final(allocator).wf(),
        r matches Some(h) ==> !old(allocator).is_allocated(h.0) && final(allocator).is_allocated(h.0),
        r is None <==> old(allocator).spec_recycled().len() == 0 && old(allocator).spec_current() == usize::MAX,
        forall|p: usize| #[trigger] old(allocator).is_allocated(p) ==> final(allocator).is_allocated(p),
{
    allocator.allocate()
}

/// Bottom and top of the kernel stack of the task with identifier `app_id`:
/// stacks sit below the trampoline, each followed by a guard page.
pub fn kernel_stack_position(app_id: u64) -> (r: (u64, u64))
    requires
        app_id < 0x1_0000,
    ensures
        r.1 == TRAMPOLINE - app_id * (KERNEL_STACK_SIZE + PAGE_SIZE_U64),
        r.0 == r.1 - KERNEL_STACK_SIZE,
{
    let top = TRAMPOLINE - app_id * (KERNEL_STACK_SIZE + PAGE_SIZE_U64);
    let bottom = top - KERNEL_STACK_SIZE;
    (bottom, top)
}

} // verus!
