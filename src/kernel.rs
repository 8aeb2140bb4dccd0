//! The process lifecycle: creation, fork, exec, exit, wait, and the
//! scheduling decisions around them.
//!
//! `Kernel` holds what a running kernel keeps once: the frame and identifier
//! allocators, the kernel's address space, the ready queue, the current-task
//! slot of the hart, and the table of tasks. A task's parent is found by
//! identifier through the table; a task's children are the identifiers in
//! its `children` list.
use vstd::prelude::*;
use crate::address::{PhysPageNum, VirtAddr, VirtPageNum};
use crate::pte::PageTableEntry;
use crate::config::{KERNEL_STACK_SIZE, PAGE_SIZE_U64, TRAP_CONTEXT, USER_STACK_SIZE};
use crate::context::{user_sstatus, TaskContext, TrapContext, REG_A0, REG_SP};
use crate::elf::{collect_loads, elf_magic, loads, loads_ok, max_end, pages_needed, pages_of_segs, seg_end, seg_ok, seg_start, segs_ok, ElfImage, ElfSegment, USER_PAGES};
use crate::frame::{ppn_limit, AllocView, StackFrameAllocator};
use crate::manager::{Processor, TaskManager};
use crate::map_area::{covers, AreaType, MapArea, MapPermission, MapType, MAP_R, MAP_U, MAP_W};
use crate::page_table::{alloc_only, same_page};
use crate::memory_set::{area_frames, layout_ok, layout_pages, sec_end, sec_perm, sec_start, KernelLayout, MemorySet};
use crate::config::{PAGE_SIZE, TRAMPOLINE};
use crate::pid::{kernel_stack_position, PidAllocator};
use crate::task::{TaskControlBlock, TaskControlBlockInner, TaskStatus};

verus! {

/// Addresses and register values that task creation writes into contexts.
#[derive(Copy, Clone, Debug, PartialEq, Eq, Structural)]
pub struct TrapConfig {
    /// Address of the trap handler.
    pub trap_handler: u64,
    /// Address of the code that returns to user mode.
    pub trap_return: u64,
    /// The `sstatus` value read at boot.
    pub sstatus: u64,
}

/// Everything allocated in `a` is still allocated in `b`.
pub open spec fn keeps_allocated(a: AllocView, b: AllocView) -> bool {
    forall|q: u64| #[trigger] a.is_allocated(q) ==> b.is_allocated(q)
}

/// First page of the kernel stack of task `pid`: two pages, under the
/// trampoline and one guard page per task.
pub open spec fn kernel_stack_vpn(pid: usize) -> u64 {
    ((TRAMPOLINE - pid * (KERNEL_STACK_SIZE + PAGE_SIZE_U64) - KERNEL_STACK_SIZE) / 4096) as u64
}

/// No frame of the kernel's address space belongs to a task.
pub open spec fn ks_apart(ks: MemorySet, tasks: Seq<TaskControlBlock>) -> bool {
    forall|i: int, x: int, y: int| 0 <= i < tasks.len() && 0 <= x < ks.owned_frames().len() && 0 <= y < task_frames(
        tasks[i]).len() ==> #[trigger] ks.owned_frames()[x] != #[trigger] task_frames(tasks[i])[y]
}

/// `b` is `a` without the first area that starts at task `pid`'s kernel-stack
/// page, when there is one, and that area's frames are free in `alloc`.
pub open spec fn kernel_stack_removed(a: MemorySet, b: MemorySet, pid: usize, alloc: AllocView) -> bool {
    (exists|i: int| 0 <= i < a.spec_areas().len() && #[trigger] a.spec_areas()[i].start() == kernel_stack_vpn(pid))
        ==> exists|i: int| {
        &&& 0 <= i < a.spec_areas().len()
        &&& #[trigger] a.spec_areas()[i].start() == kernel_stack_vpn(pid)
        &&& forall|j: int| 0 <= j < i ==> a.spec_areas()[j].start() != kernel_stack_vpn(pid)
        &&& b.spec_areas() == a.spec_areas().remove(i)
        &&& forall|k: int| 0 <= k < a.spec_areas()[i].frames().len() ==> alloc.is_free(#[trigger] a.spec_areas()[i].frames()[k])
    }
}

/// `b` is `a` with the kernel stack of task `pid` added as its last area.
pub open spec fn kernel_stack_added(a: MemorySet, b: MemorySet, pid: usize) -> bool {
    &&& b.spec_areas().len() == a.spec_areas().len() + 1
    &&& forall|i: int| 0 <= i < a.spec_areas().len() ==> #[trigger] b.spec_areas()[i] == a.spec_areas()[i]
    &&& b.spec_areas().last().start() == kernel_stack_vpn(pid)
    &&& b.spec_areas().last().end() == kernel_stack_vpn(pid) + 2
    &&& b.spec_areas().last().spec_map_type() == MapType::Framed
    &&& b.spec_areas().last().spec_perm() == MAP_R | MAP_W
    &&& b.spec_areas().last().spec_area_type() == AreaType::Stack
    &&& b.spec_areas().last().mapped_in(b.spec_pt())
}

/// The user side of task `pid` can be built from `elf_data` (program
/// headers `segs`) with the allocator in state `a`: the identifier has a
/// kernel stack position, the image loads, the user stack (above the image and a guard
/// page) ends below the trap context page, and the allocator holds the frames
/// the image needs plus nine for the stack and trap pages and one for the root.
pub open spec fn task_ok(pid: usize, elf_data: Seq<u8>, segs: Seq<ElfSegment>, a: AllocView) -> bool {
    &&& pid < 0x1_0000
    &&& elf_data.len() >= 4 && elf_data.subrange(0, 4) == elf_magic()
    &&& loads_ok(segs, elf_data.len() as int)
    &&& a.free_count() >= 10 + 3 * pages_of_segs(loads(segs))
    &&& max_end(loads(segs)) + 3 < USER_PAGES
}

/// `t` is the user side of task `pid` as `TaskControlBlock::new` builds it
/// from an image with entry point `entry` and program headers `segs`, in a
/// kernel whose address space has root `ks_root`; its frames were free in
/// `a0` and are owned in `a1`.
pub open spec fn user_task(t: TaskControlBlock, pid: usize, entry: u64, segs: Seq<ElfSegment>, ks_root: u64,
    config: TrapConfig, a0: AllocView, a1: AllocView) -> bool {
    let stack_top = (max_end(loads(segs)) + 1) * PAGE_SIZE + USER_STACK_SIZE;
    &&& t.pid == pid
    &&& t.kernel_stack == pid
    &&& t.spec_inner().wf()
    &&& t.spec_inner().task_status == TaskStatus::Ready
    &&& t.spec_inner().parent is None
    &&& t.spec_inner().children@.len() == 0
    &&& t.spec_inner().exit_code == 0
    &&& t.spec_inner().trap_cx.sepc == entry
    &&& t.spec_inner().trap_cx.x@[REG_SP as int] == stack_top
    &&& t.spec_inner().trap_cx.kernel_satp == (8u64 << 60u64) | ks_root
    &&& t.spec_inner().trap_cx.kernel_sp == TRAMPOLINE - pid * (KERNEL_STACK_SIZE + PAGE_SIZE_U64)
    &&& t.spec_inner().trap_cx.trap_handler == config.trap_handler
    &&& t.spec_inner().trap_cx.sstatus == user_sstatus(config.sstatus)
    &&& t.spec_inner().base_size == stack_top
    &&& t.spec_inner().memory_set.spec_translate(TRAP_CONTEXT / PAGE_SIZE_U64) matches Some(e)
        && e.spec_ppn() == t.spec_inner().trap_cx_ppn.0
    &&& t.spec_inner().memory_set.frames_owned(a1)
    &&& t.spec_inner().memory_set.pt_owned(a1)
    &&& all_framed(t)
    &&& forall|k: int| 0 <= k < task_frames(t).len() ==> a0.is_free(#[trigger] task_frames(t)[k])
}

impl TaskControlBlock {
    /// A ready task with identifier `pid` running the program `elf_data`
    /// (program headers `image`), as `build_user` builds it, with its kernel
    /// stack: a framed R+W area of two pages at `kernel_stack_vpn(pid)`, added
    /// to the kernel's address space `kernel_space`. Built exactly when the
    /// user side can be built, the kernel stack's pages are free in
    /// `kernel_space`, and the allocator holds six frames more for the stack.
    pub fn new(elf_data: &[u8], image: &ElfImage, pid: usize, kernel_space: &mut MemorySet, config: TrapConfig,
        allocator: &mut StackFrameAllocator) -> (r: Option<TaskControlBlock>)
        requires
            old(kernel_space).wf(),
            old(kernel_space).frames_owned(old(allocator)@),
            old(kernel_space).pt_owned(old(allocator)@),
            old(allocator)@.wf(),
        ensures
            final(allocator)@.wf(),
            keeps_allocated(old(allocator)@, final(allocator)@),
            final(kernel_space).wf(),
            final(kernel_space).frames_owned(final(allocator)@),
            final(kernel_space).pt_owned(final(allocator)@),
            final(kernel_space).spec_pt().spec_root() == old(kernel_space).spec_pt().spec_root(),
            final(kernel_space).spec_pt().spec_shares_kernel() == old(kernel_space).spec_pt().spec_shares_kernel(),
            r is Some <==> task_ok(pid, elf_data@, image.segments@, old(allocator)@) && old(kernel_space).range_is_free(
                kernel_stack_vpn(pid), (kernel_stack_vpn(pid) + 2) as u64) && old(allocator)@.free_count() >= 16 + 3
                * pages_of_segs(loads(image.segments@)),
            r is None ==> *final(kernel_space) == *old(kernel_space),
            forall|x: int| 0 <= x < final(kernel_space).owned_frames().len() ==> old(kernel_space).owned_frames().contains(
                #[trigger] final(kernel_space).owned_frames()[x]) || old(allocator)@.is_free(
                final(kernel_space).owned_frames()[x]),
            r matches Some(t) ==> {
                &&& user_task(t, pid, image.entry, image.segments@, old(kernel_space).spec_pt().spec_root(), config,
                    old(allocator)@, final(allocator)@)
                &&& kernel_stack_added(*old(kernel_space), *final(kernel_space), pid)
                &&& forall|x: int, y: int| 0 <= x < final(kernel_space).owned_frames().len() && 0 <= y
                    < task_frames(t).len() ==> #[trigger] final(kernel_space).owned_frames()[x]
                    != #[trigger] task_frames(t)[y]
            },
    {
        if pid >= 0x1_0000 {
            return None;
        }
        let (kb, kt) = kernel_stack_position(pid as u64);
        if !kernel_space.is_range_free(VirtPageNum(kb / PAGE_SIZE_U64), VirtPageNum(kt / PAGE_SIZE_U64)) {
            return None;
        }
        let ls = collect_loads(&image.segments);
        if !segs_ok(&ls, elf_data.len()) {
            return None;
        }
        proof {
            assert forall|i: int| 0 <= i < ls@.len() implies seg_ok(#[trigger] ls@[i], usize::MAX as int) by {}
        }
        let need = pages_needed(&ls);
        let _load_count = ls.len();
        proof {
            assert(need <= 0x1_0000_0000_0000_0000 * 0x400_0000) by (nonlinear_arith)
                requires
                    need <= ls@.len() * 0x400_0000,
                    ls@.len() <= usize::MAX,
                    usize::MAX <= 0xffff_ffff_ffff_ffff,
            ;
        }
        if allocator.free_frames() < 16 + 3 * need {
            return None;
        }
        let ghost a0 = allocator@;
        let ghost k0 = *kernel_space;
        let t = match TaskControlBlock::build_user(elf_data, image, pid, kernel_space, config, allocator) {
            Some(t) => t,
            None => {
                return None;
            },
        };
        let ghost a1 = allocator@;
        let ghost k1 = *kernel_space;
        proof {
            lemma_owned_keep(k0, a0, a1);
        }
        kernel_space.insert_framed_area(VirtAddr(kb), VirtAddr(kt), MapPermission(MAP_R | MAP_W), AreaType::Stack,
            allocator);
        proof {
            let a2 = allocator@;
            lemma_owned_keep(t.spec_inner().memory_set, a1, a2);
            assert forall|x: int, y: int| 0 <= x < kernel_space.owned_frames().len() && 0 <= y < task_frames(t).len()
                implies #[trigger] kernel_space.owned_frames()[x] != #[trigger] task_frames(t)[y] by {
                let f = kernel_space.owned_frames()[x];
                let g = task_frames(t)[y];
                assert(a0.is_free(g));
                t.spec_inner().memory_set.lemma_all_owned(a1);
                assert(a1.is_allocated(g));
                if k0.owned_frames().contains(f) {
                    let z = choose|z: int| 0 <= z < k0.owned_frames().len() && k0.owned_frames()[z] == f;
                    k0.lemma_all_owned(a0);
                    assert(a0.is_allocated(f));
                } else {
                    assert(a1.is_free(f));
                }
            }
            assert forall|x: int| 0 <= x < kernel_space.owned_frames().len() implies k0.owned_frames().contains(
                #[trigger] kernel_space.owned_frames()[x]) || a0.is_free(kernel_space.owned_frames()[x]) by {
                let f = kernel_space.owned_frames()[x];
                if !k0.owned_frames().contains(f) {
                    assert(k1 == k0);
                    assert(a1.is_free(f));
                    assert(alloc_only(a0, a1));
                }
            }
        }
        Some(t)
    }

    /// The user side of task `pid` running the program `elf_data`
    /// (program headers `image`): its address space from the image, a user
    /// stack of two pages right above the image and a guard page, the trap
    /// context page, and contexts that enter the program at its entry point on
    /// first switch. Built exactly when `task_ok` holds.
    fn build_user(elf_data: &[u8], image: &ElfImage, pid: usize, kernel_space: &MemorySet, config: TrapConfig,
        allocator: &mut StackFrameAllocator) -> (r: Option<TaskControlBlock>)
        requires
            kernel_space.wf(),
            old(allocator)@.wf(),
        ensures
            final(allocator)@.wf(),
            keeps_allocated(old(allocator)@, final(allocator)@),
            r is Some <==> task_ok(pid, elf_data@, image.segments@, old(allocator)@),
            r matches Some(t) ==> user_task(t, pid, image.entry, image.segments@, kernel_space.spec_pt().spec_root(),
                config, old(allocator)@, final(allocator)@),
            r is Some ==> final(allocator)@.free_count() >= old(allocator)@.free_count() - 10 - 3 * pages_of_segs(
                loads(image.segments@)),
            r is Some ==> alloc_only(old(allocator)@, final(allocator)@),
    {
        let ghost a0 = allocator@;
        if pid >= 0x1_0000 {
            return None;
        }
        let ls = collect_loads(&image.segments);
        if !segs_ok(&ls, elf_data.len()) {
            return None;
        }
        proof {
            assert forall|i: int| 0 <= i < ls@.len() implies seg_ok(#[trigger] ls@[i], usize::MAX as int) by {}
        }
        let need = pages_needed(&ls);
        let _load_count = ls.len();
        proof {
            assert(ls@.len() <= usize::MAX);
            assert(need <= 0x1_0000_0000_0000_0000 * 0x400_0000) by (nonlinear_arith)
                requires
                    need <= ls@.len() * 0x400_0000,
                    ls@.len() <= usize::MAX,
                    usize::MAX <= 0xffff_ffff_ffff_ffff,
            ;
        }
        if allocator.free_frames() < 10 + 3 * need {
            return None;
        }
        let (mut memory_set, entry, base) = match MemorySet::from_elf(elf_data, image, kernel_space, allocator) {
            Some(x) => x,
            None => {
                return None;
            },
        };
        let ghost a1 = allocator@;
        let ghost mx = max_end(loads(image.segments@));
        if base / PAGE_SIZE_U64 + 2 >= USER_PAGES {
            proof {
                lemma_owned_keep_alloc(memory_set, a1);
            }
            memory_set.release(allocator);
            proof {
                assert forall|q: u64| #[trigger] a0.is_allocated(q) implies allocator@.is_allocated(q) by {
                    assert(a1.is_allocated(q));
                    if memory_set.owned_frames().contains(q) {
                        let k = choose|k: int| 0 <= k < memory_set.owned_frames().len() && memory_set.owned_frames()[k] == q;
                        crate::memory_set::lemma_owned_free(memory_set, a0);
                        assert(a0.is_free(memory_set.owned_frames()[k]));
                    }
                }
            }
            return None;
        }
        let user_stack_top = base + USER_STACK_SIZE;
        let trap_page = TRAP_CONTEXT / PAGE_SIZE_U64;
        let ghost ms0 = memory_set;
        proof {
            assert(base / 4096 == mx + 1);
            let ss = base / 4096;
            assert forall|v: u64| ss <= v < ss + 2 implies #[trigger] ms0.spec_pt().owns_vpn(v) by {
                crate::page_table::lemma_user_half_owned(ms0.spec_pt(), v);
            }
            assert forall|v: u64| ss <= v < ss + 2 implies #[trigger] ms0.spec_pt().spec_translate(v) is None by {
                assert forall|k: int| 0 <= k < ls@.len() implies !(#[trigger] seg_start(ls@[k]) <= v < seg_end(ls@[k])) by {
                    assert(seg_end(ls@[k]) <= mx);
                }
                assert(ms0.spec_translate(v) is None);
            }
            assert(user_stack_top / 4096 == ss + 2);
        }
        memory_set.push(
            MapArea::new(VirtAddr(base), VirtAddr(user_stack_top), MapType::Framed, MapPermission(MAP_R | MAP_W | MAP_U),
                AreaType::Stack),
            None,
            0,
            allocator,
        );
        let ghost ms1 = memory_set;
        let ghost a2 = allocator@;
        proof {
            crate::page_table::lemma_alloc_only_trans(a0, a1, a2);
            MemorySet::lemma_push_fresh_pub(ms0, ms1, a0, a1);
            crate::memory_set::lemma_pt_frames_fresh(ms0, ms1, a0, a1, a2);
            crate::page_table::lemma_user_half_owned(ms1.spec_pt(), trap_page);
            assert(ms0.spec_translate(trap_page) is None) by {
                assert forall|k: int| 0 <= k < ls@.len() implies !(#[trigger] seg_start(ls@[k]) <= trap_page < seg_end(ls@[k])) by {
                    assert(seg_end(ls@[k]) <= mx);
                }
            }
            let ss = base / 4096;
            if covers(ss, (ss + 2) as u64, trap_page) {
                let w = choose|w: u64| ss <= w < ss + 2 && same_page(trap_page, w);
                crate::map_area::lemma_same_page_mod(trap_page, w);
            }
            assert(ms1.spec_translate(trap_page) is None);
            assert forall|v: u64| trap_page <= v < trap_page + 1 implies #[trigger] ms1.spec_pt().owns_vpn(v) by {}
            assert forall|v: u64| trap_page <= v < trap_page + 1 implies #[trigger] ms1.spec_pt().spec_translate(v) is None by {}
        }
        memory_set.push(
            MapArea::new(VirtAddr(TRAP_CONTEXT), VirtAddr(TRAP_CONTEXT + PAGE_SIZE_U64), MapType::Framed,
                MapPermission(MAP_R | MAP_W), AreaType::Trap),
            None,
            0,
            allocator,
        );
        proof {
            crate::memory_set::lemma_pt_frames_fresh(ms1, memory_set, a0, a2, allocator@);
            crate::page_table::lemma_alloc_only_trans(a0, a2, allocator@);
            MemorySet::lemma_push_fresh_pub(ms1, memory_set, a0, a2);
            crate::memory_set::lemma_owned_free(memory_set, a0);
            let last = memory_set.spec_areas().last();
            assert(last == memory_set.spec_areas()[memory_set.spec_areas().len() - 1]);
            assert(last.mapped_in(memory_set.spec_pt()));
            assert(memory_set.spec_translate(trap_page) is Some);
        }
        let trap_cx_ppn = match memory_set.translate(VirtPageNum(trap_page)) {
            Some(e) => e.ppn(),
            None => PhysPageNum(0),
        };
        let (_kernel_stack_bottom, kernel_stack_top) = kernel_stack_position(pid as u64);
        let trap_cx = TrapContext::app_init_context(entry, user_stack_top, config.sstatus, kernel_space.token(),
            kernel_stack_top, config.trap_handler);
        let t = TaskControlBlock {
            pid,
            kernel_stack: pid,
            inner: TaskControlBlockInner {
                trap_cx_ppn,
                base_size: user_stack_top,
                task_cx: TaskContext::goto_trap_return(config.trap_return, kernel_stack_top),
                task_status: TaskStatus::Ready,
                memory_set,
                parent: None,
                children: Vec::new(),
                exit_code: 0,
                trap_cx,
            },
        };
        proof {
            assert forall|i: int| 0 <= i < t.spec_inner().memory_set.spec_areas().len()
                implies (#[trigger] t.spec_inner().memory_set.spec_areas()[i]).spec_map_type() == MapType::Framed by {
                let n0 = ms0.spec_areas().len();
                if i < n0 {
                    assert(memory_set.spec_areas()[i] == ms1.spec_areas()[i]);
                    assert(ms1.spec_areas()[i] == ms0.spec_areas()[i]);
                } else if i == n0 {
                    assert(memory_set.spec_areas()[i] == ms1.spec_areas()[i]);
                }
            }
        }
        Some(t)
    }
}

/// An address space owned in `a` is owned in `a` (a convenience to unfold
/// both parts at once).
proof fn lemma_owned_keep_alloc(ms: MemorySet, a: AllocView)
    requires
        ms.frames_owned(a),
        ms.pt_owned(a),
    ensures
        ms.all_owned(a),
{
    ms.lemma_all_owned(a);
}

/// The identifier that `pids` hands out next: the most recently given-back
/// one, else the next new one.
pub open spec fn next_pid(pids: PidAllocator) -> usize {
    if pids.spec_recycled().len() > 0 {
        pids.spec_recycled().last()
    } else {
        pids.spec_current()
    }
}

/// `pids` has an identifier to hand out.
pub open spec fn pid_available(pids: PidAllocator) -> bool {
    pids.spec_recycled().len() > 0 || pids.spec_current() < usize::MAX
}

/// The current task of `a`, if it exists, still exists in `b` with the same
/// trap context.
pub open spec fn keeps_current_cx(a: Kernel, b: Kernel) -> bool {
    a.spec_current() is Some && a.has_task(a.spec_current().unwrap()) ==> {
        &&& b.has_task(a.spec_current().unwrap())
        &&& b.task(a.spec_current().unwrap()).spec_inner().trap_cx == a.task(a.spec_current().unwrap()).spec_inner().trap_cx
    }
}

/// The kernel's process-wide state.
pub struct Kernel {
    frame_allocator: StackFrameAllocator,
    pid_allocator: PidAllocator,
    kernel_space: MemorySet,
    task_manager: TaskManager,
    processor: Processor,
    tasks: Vec<TaskControlBlock>,
    initproc: Option<usize>,
    config: TrapConfig,
}

/// The frames that task `t`'s address space owns: its page table's and its
/// areas'.
pub open spec fn task_frames(t: TaskControlBlock) -> Seq<u64> {
    t.spec_inner().memory_set.owned_frames()
}

/// Every area of task `t`'s address space is framed.
pub open spec fn all_framed(t: TaskControlBlock) -> bool {
    forall|i: int| 0 <= i < t.spec_inner().memory_set.spec_areas().len()
        ==> (#[trigger] t.spec_inner().memory_set.spec_areas()[i]).spec_map_type() == MapType::Framed
}

/// The memory invariant of a task table: each address space is well formed,
/// owns its frames, and shares none with another task; identifiers are
/// allocated and distinct.
pub open spec fn tasks_ok(tasks: Seq<TaskControlBlock>, a: AllocView, pids: PidAllocator) -> bool {
    &&& forall|i: int| 0 <= i < tasks.len() ==> {
        &&& (#[trigger] tasks[i]).spec_inner().wf()
        &&& tasks[i].spec_inner().memory_set.frames_owned(a)
        &&& tasks[i].spec_inner().memory_set.pt_owned(a)
        &&& all_framed(tasks[i])
        &&& pids.is_allocated(tasks[i].pid)
        &&& tasks[i].pid < 0x1_0000
    }
    &&& forall|i: int, j: int| 0 <= i < tasks.len() && 0 <= j < tasks.len() && i != j ==> (#[trigger] tasks[i]).pid
        != (#[trigger] tasks[j]).pid
    &&& forall|i: int, j: int, x: int, y: int|
        0 <= i < tasks.len() && 0 <= j < tasks.len() && i != j && 0 <= x < task_frames(tasks[i]).len() && 0 <= y
            < task_frames(tasks[j]).len() ==> #[trigger] task_frames(tasks[i])[x] != #[trigger] task_frames(
            tasks[j])[y]
}

/// Adding a task with a fresh identifier and fresh frames to a consistent
/// table keeps it consistent.
proof fn lemma_push_task(tasks: Seq<TaskControlBlock>, t: TaskControlBlock, a0: AllocView, a1: AllocView,
    p0: PidAllocator, p1: PidAllocator)
    requires
        tasks_ok(tasks, a0, p0),
        keeps_allocated(a0, a1),
        forall|p: usize| #[trigger] p0.is_allocated(p) ==> p1.is_allocated(p),
        t.spec_inner().wf(),
        t.spec_inner().memory_set.frames_owned(a1),
        t.spec_inner().memory_set.pt_owned(a1),
        all_framed(t),
        t.pid < 0x1_0000,
        !p0.is_allocated(t.pid),
        p1.is_allocated(t.pid),
        forall|k: int| 0 <= k < task_frames(t).len() ==> a0.is_free(#[trigger] task_frames(t)[k]),
    ensures
        tasks_ok(tasks.push(t), a1, p1),
{
    let ts = tasks.push(t);
    let n = tasks.len() as int;
    assert forall|i: int| 0 <= i < ts.len() implies {
        &&& (#[trigger] ts[i]).spec_inner().wf()
        &&& ts[i].spec_inner().memory_set.frames_owned(a1)
        &&& ts[i].spec_inner().memory_set.pt_owned(a1)
        &&& all_framed(ts[i])
        &&& p1.is_allocated(ts[i].pid)
        &&& ts[i].pid < 0x1_0000
    } by {
        if i < n {
            assert(ts[i] == tasks[i]);
            lemma_owned_keep(tasks[i].spec_inner().memory_set, a0, a1);
        }
    }
    assert forall|i: int, j: int| 0 <= i < ts.len() && 0 <= j < ts.len() && i != j implies (#[trigger] ts[i]).pid
        != (#[trigger] ts[j]).pid by {
        if i < n && j < n {
            assert(ts[i] == tasks[i] && ts[j] == tasks[j]);
        } else if i < n {
            assert(p0.is_allocated(tasks[i].pid));
        } else {
            assert(p0.is_allocated(tasks[j].pid));
        }
    }
    assert forall|i: int, j: int, x: int, y: int|
        0 <= i < ts.len() && 0 <= j < ts.len() && i != j && 0 <= x < task_frames(ts[i]).len() && 0 <= y
            < task_frames(ts[j]).len() implies #[trigger] task_frames(ts[i])[x] != #[trigger] task_frames(ts[j])[y] by {
        if i < n && j < n {
            assert(ts[i] == tasks[i] && ts[j] == tasks[j]);
        } else if i < n {
            assert(ts[i] == tasks[i]);
            tasks[i].spec_inner().memory_set.lemma_all_owned(a0);
            assert(a0.is_allocated(task_frames(tasks[i])[x]));
            assert(a0.is_free(task_frames(t)[y]));
        } else {
            assert(ts[j] == tasks[j]);
            tasks[j].spec_inner().memory_set.lemma_all_owned(a0);
            assert(a0.is_allocated(task_frames(tasks[j])[y]));
            assert(a0.is_free(task_frames(t)[x]));
        }
    }
}

/// Two tables whose tasks agree on identifiers and address spaces, with
/// well-formed trap contexts, are consistent together.
proof fn lemma_same_memory(tasks: Seq<TaskControlBlock>, tasks2: Seq<TaskControlBlock>, a: AllocView, p: PidAllocator)
    requires
        tasks_ok(tasks, a, p),
        tasks2.len() == tasks.len(),
        forall|i: int| 0 <= i < tasks.len() ==> {
            &&& (#[trigger] tasks2[i]).pid == tasks[i].pid
            &&& tasks2[i].spec_inner().memory_set == tasks[i].spec_inner().memory_set
            &&& tasks2[i].spec_inner().trap_cx.wf()
        },
    ensures
        tasks_ok(tasks2, a, p),
        forall|ks: MemorySet| ks_apart(ks, tasks) ==> #[trigger] ks_apart(ks, tasks2),
{
    assert forall|ks: MemorySet| ks_apart(ks, tasks) implies #[trigger] ks_apart(ks, tasks2) by {
        assert forall|i: int, x: int, y: int| 0 <= i < tasks2.len() && 0 <= x < ks.owned_frames().len() && 0 <= y
            < task_frames(tasks2[i]).len() implies #[trigger] ks.owned_frames()[x] != #[trigger] task_frames(
            tasks2[i])[y] by {
            assert(task_frames(tasks2[i]) == task_frames(tasks[i]));
        }
    }
    assert forall|i: int| 0 <= i < tasks2.len() implies {
        &&& (#[trigger] tasks2[i]).spec_inner().wf()
        &&& tasks2[i].spec_inner().memory_set.frames_owned(a)
        &&& tasks2[i].spec_inner().memory_set.pt_owned(a)
        &&& all_framed(tasks2[i])
        &&& p.is_allocated(tasks2[i].pid)
        &&& tasks2[i].pid < 0x1_0000
    } by {
        assert(tasks[i].spec_inner().wf());
        assert(all_framed(tasks[i]));
    }
    assert forall|i: int, j: int| 0 <= i < tasks2.len() && 0 <= j < tasks2.len() && i != j implies (#[trigger] tasks2[i]).pid
        != (#[trigger] tasks2[j]).pid by {
        assert(tasks[i].pid != tasks[j].pid);
    }
    assert forall|i: int, j: int, x: int, y: int|
        0 <= i < tasks2.len() && 0 <= j < tasks2.len() && i != j && 0 <= x < task_frames(tasks2[i]).len() && 0 <= y
            < task_frames(tasks2[j]).len() implies #[trigger] task_frames(tasks2[i])[x] != #[trigger] task_frames(tasks2[j])[y] by {
        assert(task_frames(tasks2[i]) == task_frames(tasks[i]));
        assert(task_frames(tasks2[j]) == task_frames(tasks[j]));
    }
}

/// Removing a task and giving back its identifier keeps a table consistent.
proof fn lemma_remove_task(tasks: Seq<TaskControlBlock>, k: int, a: AllocView, p0: PidAllocator, p1: PidAllocator)
    requires
        tasks_ok(tasks, a, p0),
        0 <= k < tasks.len(),
        forall|p: usize| p != tasks[k].pid ==> (#[trigger] p0.is_allocated(p) ==> p1.is_allocated(p)),
    ensures
        tasks_ok(tasks.remove(k), a, p1),
{
    let ts = tasks.remove(k);
    assert forall|i: int| 0 <= i < ts.len() implies {
        &&& (#[trigger] ts[i]).spec_inner().wf()
        &&& ts[i].spec_inner().memory_set.frames_owned(a)
        &&& ts[i].spec_inner().memory_set.pt_owned(a)
        &&& all_framed(ts[i])
        &&& p1.is_allocated(ts[i].pid)
        &&& ts[i].pid < 0x1_0000
    } by {
        let o = if i < k { i } else { i + 1 };
        assert(ts[i] == tasks[o]);
        assert(tasks[o].pid != tasks[k].pid);
    }
    assert forall|i: int, j: int| 0 <= i < ts.len() && 0 <= j < ts.len() && i != j implies (#[trigger] ts[i]).pid
        != (#[trigger] ts[j]).pid by {
        let oi = if i < k { i } else { i + 1 };
        let oj = if j < k { j } else { j + 1 };
        assert(ts[i] == tasks[oi] && ts[j] == tasks[oj]);
    }
    assert forall|i: int, j: int, x: int, y: int|
        0 <= i < ts.len() && 0 <= j < ts.len() && i != j && 0 <= x < task_frames(ts[i]).len() && 0 <= y
            < task_frames(ts[j]).len() implies #[trigger] task_frames(ts[i])[x] != #[trigger] task_frames(ts[j])[y] by {
        let oi = if i < k { i } else { i + 1 };
        let oj = if j < k { j } else { j + 1 };
        assert(ts[i] == tasks[oi] && ts[j] == tasks[oj]);
    }
}

/// `c` is what `waitpid(pid, ..)` waits for: any child when `pid` is -1,
/// else the child with that identifier.
pub open spec fn wait_matches(pid: isize, c: usize) -> bool {
    pid == -1 || pid == c
}

/// A table stays consistent while allocations keep what was allocated.
proof fn lemma_same_alloc(tasks: Seq<TaskControlBlock>, a0: AllocView, a1: AllocView, p: PidAllocator)
    requires
        tasks_ok(tasks, a0, p),
        keeps_allocated(a0, a1),
    ensures
        tasks_ok(tasks, a1, p),
{
    assert forall|i: int| 0 <= i < tasks.len() implies {
        &&& (#[trigger] tasks[i]).spec_inner().wf()
        &&& tasks[i].spec_inner().memory_set.frames_owned(a1)
        &&& tasks[i].spec_inner().memory_set.pt_owned(a1)
        &&& all_framed(tasks[i])
        &&& p.is_allocated(tasks[i].pid)
        &&& tasks[i].pid < 0x1_0000
    } by {
        lemma_owned_keep(tasks[i].spec_inner().memory_set, a0, a1);
    }
}

/// An address space that owns its frames in `a0` owns them in any later
/// state that keeps what was allocated.
proof fn lemma_owned_keep(ms: MemorySet, a0: AllocView, a1: AllocView)
    requires
        ms.frames_owned(a0),
        ms.pt_owned(a0),
        keeps_allocated(a0, a1),
    ensures
        ms.frames_owned(a1),
        ms.pt_owned(a1),
{
    let f = area_frames(ms.spec_areas());
    assert forall|x: int| 0 <= x < f.len() implies a1.is_allocated(#[trigger] f[x]) by {
        assert(a0.is_allocated(f[x]));
    }
    let p = ms.spec_pt().frame_ppns();
    assert forall|x: int| 0 <= x < p.len() implies a1.is_allocated(#[trigger] p[x]) by {
        assert(a0.is_allocated(p[x]));
    }
}

/// A kernel address space that grew by frames free in `a1`, kept apart from
/// the tasks, stays apart from them and from a new task whose frames were
/// free in `a0` and are allocated in `a1`.
proof fn lemma_grow_apart(ks0: MemorySet, ks: MemorySet, tasks: Seq<TaskControlBlock>, t: TaskControlBlock,
    a0: AllocView, a1: AllocView)
    requires
        ks_apart(ks0, tasks),
        ks0.all_owned(a0),
        forall|i: int| 0 <= i < tasks.len() ==> (#[trigger] tasks[i]).spec_inner().memory_set.all_owned(a0),
        forall|k: int| 0 <= k < task_frames(t).len() ==> a0.is_free(#[trigger] task_frames(t)[k]),
        t.spec_inner().memory_set.all_owned(a1),
        alloc_only(a0, a1),
        forall|x: int| 0 <= x < ks.owned_frames().len() ==> ks0.owned_frames().contains(
            #[trigger] ks.owned_frames()[x]) || a1.is_free(ks.owned_frames()[x]),
    ensures
        ks_apart(ks, tasks.push(t)),
{
    let ts = tasks.push(t);
    assert forall|q: int, x: int, y: int| 0 <= q < ts.len() && 0 <= x < ks.owned_frames().len() && 0 <= y
        < task_frames(ts[q]).len() implies #[trigger] ks.owned_frames()[x] != #[trigger] task_frames(ts[q])[y] by {
        let g = ks.owned_frames()[x];
        let h = task_frames(ts[q])[y];
        if ks0.owned_frames().contains(g) {
            let z = choose|z: int| 0 <= z < ks0.owned_frames().len() && ks0.owned_frames()[z] == g;
            if q < tasks.len() {
                assert(ts[q] == tasks[q]);
                assert(ks0.owned_frames()[z] != task_frames(tasks[q])[y]);
            } else {
                assert(a0.is_allocated(g));
                assert(a0.is_free(h));
            }
        } else {
            assert(a1.is_free(g));
            if q < tasks.len() {
                assert(ts[q] == tasks[q]);
                assert(tasks[q].spec_inner().memory_set.all_owned(a0));
                assert(a0.is_allocated(h));
                assert(a1.is_allocated(h));
            } else {
                assert(a1.is_allocated(h));
            }
        }
    }
}

impl Kernel {
    /// The tasks, in creation order.
    pub closed spec fn spec_tasks(&self) -> Seq<TaskControlBlock> {
        self.tasks@
    }

    /// The kernel's address space.
    pub closed spec fn spec_kernel_space(&self) -> MemorySet {
        self.kernel_space
    }

    /// The frame allocator's state.
    pub closed spec fn spec_alloc(&self) -> AllocView {
        self.frame_allocator@
    }

    /// The ready queue.
    pub closed spec fn spec_ready(&self) -> Seq<usize> {
        self.task_manager@
    }

    /// The task this hart runs.
    pub closed spec fn spec_current(&self) -> Option<usize> {
        self.processor.spec_current()
    }

    /// The initial process, once created.
    pub closed spec fn spec_initproc(&self) -> Option<usize> {
        self.initproc
    }

    /// The identifier allocator.
    pub closed spec fn spec_pids(&self) -> PidAllocator {
        self.pid_allocator
    }

    /// The kernel's state is consistent.
    pub closed spec fn wf(&self) -> bool {
        &&& self.frame_allocator@.wf()
        &&& self.pid_allocator.wf()
        &&& self.kernel_space.wf()
        &&& tasks_ok(self.tasks@, self.frame_allocator@, self.pid_allocator)
        &&& self.kernel_space.frames_owned(self.frame_allocator@)
        &&& self.kernel_space.pt_owned(self.frame_allocator@)
        &&& ks_apart(self.kernel_space, self.tasks@)
    }

    /// Index of the task with identifier `pid`.
    pub open spec fn has_task(&self, pid: usize) -> bool {
        exists|i: int| 0 <= i < self.spec_tasks().len() && #[trigger] self.spec_tasks()[i].pid == pid
    }

    /// The task with identifier `pid`.
    pub open spec fn task(&self, pid: usize) -> TaskControlBlock {
        let i = choose|i: int| 0 <= i < self.spec_tasks().len() && #[trigger] self.spec_tasks()[i].pid == pid;
        self.spec_tasks()[i]
    }

    /// A kernel whose frame pool is `[frame_start, frame_end)` and whose
    /// address space maps the trampoline and the kernel's sections (see
    /// `MemorySet::new_kernel`), with no task yet.
    pub fn new(frame_start: PhysPageNum, frame_end: PhysPageNum, layout: &KernelLayout, strampoline: PhysPageNum,
        config: TrapConfig) -> (r: Option<Kernel>)
        ensures
            r is Some <==> frame_start.0 < frame_end.0 && frame_end.0 <= ppn_limit() && strampoline.0 < ppn_limit()
                && layout_ok(*layout) && frame_end.0 - frame_start.0 >= 3 + 3 * layout_pages(*layout),
            r matches Some(k) ==> {
                &&& k.wf()
                &&& k.spec_tasks().len() == 0
                &&& k.spec_ready().len() == 0
                &&& k.spec_current() is None
                &&& k.spec_initproc() is None
                &&& k.spec_kernel_space().spec_areas().len() == 5
                &&& k.spec_kernel_space().spec_translate(TRAMPOLINE / PAGE_SIZE as u64) matches Some(e)
                    && e.spec_ppn() == strampoline.0
                &&& forall|i: int| 0 <= i < 5 ==> {
                    let a = #[trigger] k.spec_kernel_space().spec_areas()[i];
                    &&& a.spec_map_type() == MapType::Identical
                    &&& a.start() == sec_start(*layout, i)
                    &&& a.end() == sec_end(*layout, i)
                    &&& a.spec_perm() == sec_perm(i)
                    &&& a.mapped_in(k.spec_kernel_space().spec_pt())
                }
            },
    {
        if frame_start.0 >= frame_end.0 || frame_end.0 > 0x1000_0000_0000 {
            return None;
        }
        let mut frame_allocator = StackFrameAllocator::new();
        frame_allocator.init(frame_start, frame_end);
        let kernel_space = match MemorySet::new_kernel(layout, strampoline, &mut frame_allocator) {
            Some(ms) => ms,
            None => {
                return None;
            },
        };
        let k = Kernel {
            frame_allocator,
            pid_allocator: PidAllocator::new(),
            kernel_space,
            task_manager: TaskManager::new(),
            processor: Processor::new(),
            tasks: Vec::new(),
            initproc: None,
            config,
        };
        Some(k)
    }

    /// The leaf entry that maps `vpn` in the kernel's address space.
    pub fn kernel_translate(&self, vpn: VirtPageNum) -> (r: Option<PageTableEntry>)
        requires
            self.wf(),
        ensures
            r == self.spec_kernel_space().spec_translate(vpn.0),
    {
        self.kernel_space.translate(vpn)
    }

    /// The `satp` value that selects the kernel's address space.
    pub fn kernel_token(&self) -> (r: u64)
        requires
            self.wf(),
        ensures
            r == (8u64 << 60u64) | self.spec_kernel_space().spec_pt().spec_root(),
    {
        self.kernel_space.token()
    }

    /// Creates the initial process from the program `elf_data` and queues it.
    /// Returns its identifier; nothing when no identifier is left or the task
    /// cannot be created (see `TaskControlBlock::new`).
    pub fn add_initproc(&mut self, elf_data: &[u8], image: &ElfImage) -> (r: Option<usize>)
        requires
            old(self).wf(),
        ensures
            final(self).wf(),
            r is Some <==> pid_available(old(self).spec_pids()) && task_ok(next_pid(old(self).spec_pids()), elf_data@,
                image.segments@, old(self).spec_alloc()) && old(self).spec_kernel_space().range_is_free(kernel_stack_vpn(
                next_pid(old(self).spec_pids())), (kernel_stack_vpn(next_pid(old(self).spec_pids())) + 2) as u64)
                && old(self).spec_alloc().free_count() >= 16 + 3 * pages_of_segs(loads(image.segments@)),
            r matches Some(pid) ==> kernel_stack_added(old(self).spec_kernel_space(), final(self).spec_kernel_space(), pid),
            r matches Some(pid) ==> pid == next_pid(old(self).spec_pids()),
            r matches Some(pid) ==> {
                &&& final(self).has_task(pid)
                &&& !old(self).has_task(pid)
                &&& final(self).task(pid).spec_inner().task_status == TaskStatus::Ready
                &&& final(self).task(pid).spec_inner().parent is None
                &&& final(self).spec_initproc() == Some(pid)
                &&& final(self).spec_ready() == old(self).spec_ready().push(pid)
                &&& final(self).spec_tasks() == old(self).spec_tasks().push(final(self).task(pid))
            },
            r is None ==> final(self).spec_tasks() == old(self).spec_tasks() && final(self).spec_ready()
                == old(self).spec_ready() && final(self).spec_initproc() == old(self).spec_initproc(),
            final(self).spec_current() == old(self).spec_current(),
    {
        let pid = match self.pid_allocator.allocate() {
            Some(h) => h.0,
            None => {
                return None;
            },
        };
        let ghost p1 = self.pid_allocator;
        let ghost a0 = self.frame_allocator@;
        let t = match TaskControlBlock::new(elf_data, image, pid, &mut self.kernel_space, self.config,
            &mut self.frame_allocator) {
            Some(t) => t,
            None => {
                self.pid_allocator.dealloc(pid);
                proof {
                    self.lemma_tasks_ok_weaken(old(self).tasks@, a0, self.frame_allocator@, old(self).pid_allocator,
                        self.pid_allocator, pid);
                }
                return None;
            },
        };
        proof {
            lemma_push_task(self.tasks@, t, a0, self.frame_allocator@, old(self).pid_allocator, self.pid_allocator);
        }
        self.tasks.push(t);
        self.initproc = Some(pid);
        self.task_manager.add(pid);
        proof {
            let n = old(self).tasks@.len() as int;
            assert(self.spec_tasks()[n].pid == pid);
            assert forall|i: int| 0 <= i < self.spec_tasks().len() && #[trigger] self.spec_tasks()[i].pid == pid
                implies i == n by {
                if i < n {
                    assert(self.spec_tasks()[i] == old(self).tasks@[i]);
                    assert(old(self).pid_allocator.is_allocated(self.spec_tasks()[i].pid));
                }
            }
            assert forall|i: int| 0 <= i < old(self).spec_tasks().len() implies #[trigger] old(self).spec_tasks()[i].pid
                != pid by {
                assert(old(self).pid_allocator.is_allocated(old(self).tasks@[i].pid));
            }
        }
        Some(pid)
    }

    proof fn lemma_tasks_ok_weaken(&self, tasks: Seq<TaskControlBlock>, a0: AllocView, a1: AllocView, p0: PidAllocator,
        p1: PidAllocator, freed: usize)
        requires
            tasks_ok(tasks, a0, p0),
            keeps_allocated(a0, a1),
            forall|p: usize| p != freed ==> (#[trigger] p0.is_allocated(p) ==> p1.is_allocated(p)),
            forall|i: int| 0 <= i < tasks.len() ==> (#[trigger] tasks[i]).pid != freed,
        ensures
            tasks_ok(tasks, a1, p1),
    {
        assert forall|i: int| 0 <= i < tasks.len() implies {
            &&& (#[trigger] tasks[i]).spec_inner().wf()
            &&& tasks[i].spec_inner().memory_set.frames_owned(a1)
            &&& tasks[i].spec_inner().memory_set.pt_owned(a1)
            &&& all_framed(tasks[i])
            &&& p1.is_allocated(tasks[i].pid)
            &&& tasks[i].pid < 0x1_0000
        } by {
            lemma_owned_keep(tasks[i].spec_inner().memory_set, a0, a1);
        }
    }

    /// The scheduler's step: takes the task at the front of the ready queue,
    /// marks it running and makes it current. Returns it, for the caller to
    /// switch to from the idle context; nothing when the queue is empty or
    /// the task is gone.
    pub fn run_next(&mut self) -> (r: Option<usize>)
        requires
            old(self).wf(),
        ensures
            final(self).wf(),
            old(self).spec_ready().len() == 0 ==> r is None && final(self).spec_ready() == old(self).spec_ready()
                && final(self).spec_tasks() == old(self).spec_tasks()
                && final(self).spec_current() == old(self).spec_current(),
            old(self).spec_ready().len() > 0 ==> final(self).spec_ready() == old(self).spec_ready().drop_first(),
            old(self).spec_ready().len() > 0 && old(self).has_task(old(self).spec_ready()[0]) ==> {
                let pid = old(self).spec_ready()[0];
                &&& r == Some(pid)
                &&& final(self).spec_current() == Some(pid)
                &&& final(self).has_task(pid)
                &&& final(self).task(pid).spec_inner().task_status == TaskStatus::Running
            },
            final(self).spec_tasks().len() == old(self).spec_tasks().len(),
            forall|i: int| 0 <= i < old(self).spec_tasks().len() ==> (#[trigger] final(self).spec_tasks()[i]).pid
                == old(self).spec_tasks()[i].pid,
            final(self).spec_initproc() == old(self).spec_initproc(),
            final(self).spec_alloc() == old(self).spec_alloc(),
    {
        let pid = match self.task_manager.fetch() {
            Some(p) => p,
            None => {
                return None;
            },
        };
        match self.find_task(pid) {
            Some(i) => {
                let ghost t0 = self.tasks@;
                self.tasks[i].inner.task_status = TaskStatus::Running;
                self.processor.set_current(pid);
                proof {
                    assert forall|k: int| 0 <= k < t0.len() implies {
                        &&& (#[trigger] self.tasks@[k]).pid == t0[k].pid
                        &&& self.tasks@[k].spec_inner().memory_set == t0[k].spec_inner().memory_set
                        &&& self.tasks@[k].spec_inner().trap_cx.wf()
                    } by {
                        assert(t0[k].spec_inner().wf());
                    }
                    lemma_same_memory(t0, self.tasks@, self.frame_allocator@, self.pid_allocator);
                    assert(self.has_task(pid)) by {
                        assert(self.spec_tasks()[i as int].pid == pid);
                    }
                    self.lemma_unique_pid(i as int, pid);
                    old(self).lemma_unique_pid(i as int, pid);
                }
                Some(pid)
            },
            None => None,
        }
    }

    /// In a consistent kernel every task is well formed: its address space,
    /// and a trap context holding all 32 registers.
    pub proof fn lemma_task_wf(&self, pid: usize)
        requires
            self.wf(),
            self.has_task(pid),
        ensures
            self.task(pid).spec_inner().wf(),
            self.task(pid).spec_inner().trap_cx.x@.len() == 32,
    {
        let i = choose|i: int| 0 <= i < self.spec_tasks().len() && #[trigger] self.spec_tasks()[i].pid == pid;
        assert(self.spec_tasks()[i].spec_inner().wf());
    }

    /// In a consistent kernel the task at index `i` is the task of its
    /// identifier.
    pub proof fn lemma_unique_pid(&self, i: int, pid: usize)
        requires
            self.wf(),
            0 <= i < self.spec_tasks().len(),
            self.spec_tasks()[i].pid == pid,
        ensures
            self.has_task(pid),
            self.task(pid) == self.spec_tasks()[i],
    {
        assert(self.spec_tasks()[i].pid == pid);
        let j = choose|j: int| 0 <= j < self.spec_tasks().len() && #[trigger] self.spec_tasks()[j].pid == pid;
        if j != i {
            assert(self.spec_tasks()[i].pid != self.spec_tasks()[j].pid);
        }
    }

    /// The current task gives up the hart: it becomes ready again and goes to
    /// the back of the ready queue; the hart has no current task until the
    /// scheduler picks the next one.
    pub fn suspend_current_and_run_next(&mut self)
        requires
            old(self).wf(),
        ensures
            final(self).wf(),
            final(self).spec_current() is None,
            old(self).spec_current() is Some && old(self).has_task(old(self).spec_current().unwrap()) ==> {
                let pid = old(self).spec_current().unwrap();
                &&& final(self).spec_ready() == old(self).spec_ready().push(pid)
                &&& final(self).has_task(pid)
                &&& final(self).task(pid).spec_inner().task_status == TaskStatus::Ready
            },
            final(self).spec_tasks().len() == old(self).spec_tasks().len(),
            forall|i: int| 0 <= i < old(self).spec_tasks().len() ==> (#[trigger] final(self).spec_tasks()[i]).pid
                == old(self).spec_tasks()[i].pid,
            final(self).spec_initproc() == old(self).spec_initproc(),
    {
        let pid = match self.processor.take_current() {
            Some(p) => p,
            None => {
                return;
            },
        };
        match self.find_task(pid) {
            Some(i) => {
                let ghost t0 = self.tasks@;
                self.tasks[i].inner.task_status = TaskStatus::Ready;
                self.task_manager.add(pid);
                proof {
                    assert forall|k: int| 0 <= k < t0.len() implies {
                        &&& (#[trigger] self.tasks@[k]).pid == t0[k].pid
                        &&& self.tasks@[k].spec_inner().memory_set == t0[k].spec_inner().memory_set
                        &&& self.tasks@[k].spec_inner().trap_cx.wf()
                    } by {
                        assert(t0[k].spec_inner().wf());
                    }
                    lemma_same_memory(t0, self.tasks@, self.frame_allocator@, self.pid_allocator);
                    self.lemma_unique_pid(i as int, pid);
                }
            },
            None => {},
        }
    }

    /// The current task exits with `exit_code`: it becomes a zombie holding the
    /// code, its address space gives back every data frame, and its children
    /// move to the initial process, whose children they become. The hart is
    /// left without a current task.
    #[verifier::rlimit(100)]
    pub fn exit_current_and_run_next(&mut self, exit_code: i32)
        requires
            old(self).wf(),
        ensures
            final(self).wf(),
            final(self).spec_current() is None,
            final(self).spec_ready() == old(self).spec_ready(),
            final(self).spec_initproc() == old(self).spec_initproc(),
            final(self).spec_tasks().len() == old(self).spec_tasks().len(),
            forall|i: int| 0 <= i < old(self).spec_tasks().len() ==> (#[trigger] final(self).spec_tasks()[i]).pid
                == old(self).spec_tasks()[i].pid,
            old(self).spec_current() is Some && old(self).has_task(old(self).spec_current().unwrap()) ==> {
                let pid = old(self).spec_current().unwrap();
                let t = final(self).task(pid);
                let old_children = old(self).task(pid).spec_inner().children@;
                &&& final(self).has_task(pid)
                &&& t.spec_inner().task_status == TaskStatus::Zombie
                &&& t.spec_inner().exit_code == exit_code
                &&& t.spec_inner().memory_set.spec_areas().len() == 0
                &&& forall|k: int| 0 <= k < old(self).spec_tasks().len() && old(self).spec_tasks()[k].pid != pid ==> {
                    let a = old(self).spec_tasks()[k];
                    let b = #[trigger] final(self).spec_tasks()[k];
                    &&& b.spec_inner().task_status == a.spec_inner().task_status
                    &&& b.spec_inner().exit_code == a.spec_inner().exit_code
                    &&& b.spec_inner().memory_set == a.spec_inner().memory_set
                    &&& Some(a.pid) != old(self).spec_initproc() ==> b.spec_inner().children@ == a.spec_inner().children@
                    &&& !old_children.contains(a.pid) ==> b.spec_inner().parent == a.spec_inner().parent
                }
                &&& forall|k: int| 0 <= k < area_frames(old(self).task(pid).spec_inner().memory_set.spec_areas()).len()
                    ==> final(self).spec_alloc().is_free(
                    #[trigger] area_frames(old(self).task(pid).spec_inner().memory_set.spec_areas())[k])
                &&& (old(self).spec_initproc() is Some && old(self).spec_initproc().unwrap() != pid
                    && old(self).has_task(old(self).spec_initproc().unwrap())) ==> {
                    let ip = old(self).spec_initproc().unwrap();
                    &&& t.spec_inner().children@.len() == 0
                    &&& final(self).task(ip).spec_inner().children@ == old(self).task(ip).spec_inner().children@
                        + old_children
                    &&& forall|c: usize| old_children.contains(c) && final(self).has_task(c)
                        ==> #[trigger] final(self).task(c).spec_inner().parent == Some(ip)
                }
            },
    {
        let pid = match self.processor.take_current() {
            Some(p) => p,
            None => {
                return;
            },
        };
        let i = match self.find_task(pid) {
            Some(i) => i,
            None => {
                return;
            },
        };
        let ghost o = *self;
        proof {
            o.lemma_unique_pid(i as int, pid);
            old(self).lemma_unique_pid(i as int, pid);
        }
        let ghost old_frames = area_frames(self.tasks@[i as int].spec_inner().memory_set.spec_areas());
        let ghost t0 = self.tasks@;
        let ghost a0 = self.frame_allocator@;
        self.tasks[i].inner.task_status = TaskStatus::Zombie;
        self.tasks[i].inner.exit_code = exit_code;
        self.tasks[i].inner.memory_set.recycle_data_pages(&mut self.frame_allocator);
        let mut children: Vec<usize> = Vec::new();
        std::mem::swap(&mut self.tasks[i].inner.children, &mut children);
        proof {
            let t1 = self.tasks@;
            let a1 = self.frame_allocator@;
            let pi = t0[i as int].spec_inner().memory_set.spec_pt().frame_ppns();
            assert(area_frames(t1[i as int].spec_inner().memory_set.spec_areas()) =~= Seq::<u64>::empty());
            assert(task_frames(t1[i as int]) =~= pi);
            assert forall|x: int| 0 <= x < old_frames.len() implies task_frames(t0[i as int])[pi.len() + x] == #[trigger] old_frames[x] by {}
            assert forall|k: int| 0 <= k < t1.len() implies {
                &&& (#[trigger] t1[k]).spec_inner().wf()
                &&& t1[k].spec_inner().memory_set.frames_owned(a1)
                &&& t1[k].spec_inner().memory_set.pt_owned(a1)
                &&& all_framed(t1[k])
                &&& self.pid_allocator.is_allocated(t1[k].pid)
                &&& t1[k].pid < 0x1_0000
            } by {
                assert(t0[k].spec_inner().wf());
                assert(all_framed(t0[k]));
                if k != i {
                    assert(t1[k] == t0[k]);
                    let ms = t0[k].spec_inner().memory_set;
                    ms.lemma_all_owned(a0);
                    let f = task_frames(t0[k]);
                    assert forall|x: int| 0 <= x < f.len() implies a1.is_allocated(#[trigger] f[x]) by {
                        assert(a0.is_allocated(f[x]));
                        assert(!old_frames.contains(f[x])) by {
                            if old_frames.contains(f[x]) {
                                let y = choose|y: int| 0 <= y < old_frames.len() && old_frames[y] == f[x];
                                assert(task_frames(t0[k])[x] != task_frames(t0[i as int])[pi.len() + y]);
                            }
                        }
                    }
                    let pk = ms.spec_pt().frame_ppns();
                    let dk = area_frames(ms.spec_areas());
                    assert forall|x: int| 0 <= x < pk.len() implies a1.is_allocated(#[trigger] pk[x]) by {
                        assert(f[x] == pk[x]);
                    }
                    assert forall|x: int| 0 <= x < dk.len() implies a1.is_allocated(#[trigger] dk[x]) by {
                        assert(f[pk.len() + x] == dk[x]);
                    }
                }
            }
            assert forall|a: int, b: int| 0 <= a < t1.len() && 0 <= b < t1.len() && a != b implies (#[trigger] t1[a]).pid
                != (#[trigger] t1[b]).pid by {
                assert(t0[a].pid != t0[b].pid);
            }
            assert forall|a: int, b: int, x: int, y: int|
                0 <= a < t1.len() && 0 <= b < t1.len() && a != b && 0 <= x < task_frames(t1[a]).len() && 0 <= y
                    < task_frames(t1[b]).len() implies #[trigger] task_frames(t1[a])[x] != #[trigger] task_frames(t1[b])[y] by {
                if a != i && b != i {
                    assert(t1[a] == t0[a] && t1[b] == t0[b]);
                } else if a == i {
                    assert(t1[b] == t0[b]);
                    assert(task_frames(t1[a])[x] == task_frames(t0[a])[x]);
                } else {
                    assert(t1[a] == t0[a]);
                    assert(task_frames(t1[b])[y] == task_frames(t0[b])[y]);
                }
            }
            assert(tasks_ok(t1, a1, self.pid_allocator));
            let ks = self.kernel_space;
            ks.lemma_all_owned(a0);
            assert forall|x: int| 0 <= x < ks.owned_frames().len() implies a1.is_allocated(#[trigger] ks.owned_frames()[x]) by {
                assert(a0.is_allocated(ks.owned_frames()[x]));
                if old_frames.contains(ks.owned_frames()[x]) {
                    let y = choose|y: int| 0 <= y < old_frames.len() && old_frames[y] == ks.owned_frames()[x];
                    assert(task_frames(t0[i as int])[pi.len() + y] == old_frames[y]);
                }
            }
            let kp = ks.spec_pt().frame_ppns();
            let kd = area_frames(ks.spec_areas());
            assert forall|x: int| 0 <= x < kp.len() implies a1.is_allocated(#[trigger] kp[x]) by {
                assert(ks.owned_frames()[x] == kp[x]);
            }
            assert forall|x: int| 0 <= x < kd.len() implies a1.is_allocated(#[trigger] kd[x]) by {
                assert(ks.owned_frames()[kp.len() + x] == kd[x]);
            }
            assert forall|q: int, x: int, y: int| 0 <= q < t1.len() && 0 <= x < ks.owned_frames().len() && 0 <= y
                < task_frames(t1[q]).len() implies #[trigger] ks.owned_frames()[x] != #[trigger] task_frames(t1[q])[y] by {
                assert(task_frames(t1[q])[y] == task_frames(t0[q])[y]);
            }
        }
        let ghost t1 = self.tasks@;
        let ghost ch = children@;
        let ghost s1 = *self;
        let mut reparented = false;
        match self.initproc {
            Some(ip) => {
                if ip != pid {
                    match self.find_task(ip) {
                        Some(j) => {
                            let ghost ip_children = self.tasks@[j as int].spec_inner().children@;
                            let mut m: usize = 0;
                            while m < children.len()
                                invariant
                                    m <= ch.len(),
                                    ch == children@,
                                    i < t1.len(),
                                    j < t1.len(),
                                    i != j,
                                    t1[j as int].pid == ip,
                                    self.tasks@.len() == t1.len(),
                                    self.frame_allocator == s1.frame_allocator,
                                    self.pid_allocator == s1.pid_allocator,
                                    self.kernel_space == s1.kernel_space,
                                    self.task_manager == s1.task_manager,
                                    self.processor == s1.processor,
                                    self.initproc == s1.initproc,
                                    tasks_ok(t1, self.frame_allocator@, self.pid_allocator),
                                    forall|k: int| 0 <= k < t1.len() ==> {
                                        &&& (#[trigger] self.tasks@[k]).pid == t1[k].pid
                                        &&& self.tasks@[k].spec_inner().memory_set == t1[k].spec_inner().memory_set
                                        &&& self.tasks@[k].spec_inner().trap_cx == t1[k].spec_inner().trap_cx
                                        &&& self.tasks@[k].spec_inner().task_status == t1[k].spec_inner().task_status
                                        &&& self.tasks@[k].spec_inner().exit_code == t1[k].spec_inner().exit_code
                                        &&& k != j ==> self.tasks@[k].spec_inner().children@ == t1[k].spec_inner().children@
                                    },
                                    self.tasks@[j as int].spec_inner().children@ == ip_children + ch.subrange(0, m as int),
                                    forall|k: int| 0 <= k < t1.len() && ch.subrange(0, m as int).contains(
                                        #[trigger] self.tasks@[k].pid) ==> self.tasks@[k].spec_inner().parent == Some(ip),
                                    forall|k: int| 0 <= k < t1.len() && !ch.subrange(0, m as int).contains(
                                        #[trigger] self.tasks@[k].pid) ==> self.tasks@[k].spec_inner().parent
                                        == t1[k].spec_inner().parent,
                                decreases ch.len() - m,
                            {
                                let c = children[m];
                                let ghost before = self.tasks@;
                                match self.find_task(c) {
                                    Some(k) => {
                                        self.tasks[k].inner.parent = Some(ip);
                                    },
                                    None => {},
                                }
                                self.tasks[j].inner.children.push(c);
                                proof {
                                    assert(ch.subrange(0, m + 1) =~= ch.subrange(0, m as int).push(c));
                                    assert(self.tasks@[j as int].spec_inner().children@ =~= ip_children + ch.subrange(0, m + 1));
                                    assert forall|k: int| 0 <= k < t1.len() && !ch.subrange(0, m + 1).contains(
                                        #[trigger] self.tasks@[k].pid) implies self.tasks@[k].spec_inner().parent
                                        == t1[k].spec_inner().parent by {
                                        assert(ch.subrange(0, m + 1)[m as int] == c);
                                        assert(self.tasks@[k].pid != c);
                                        assert(!ch.subrange(0, m as int).contains(before[k].pid)) by {
                                            if ch.subrange(0, m as int).contains(before[k].pid) {
                                                let t = choose|t: int| 0 <= t < m && ch.subrange(0, m as int)[t] == before[k].pid;
                                                assert(ch.subrange(0, m + 1)[t] == before[k].pid);
                                            }
                                        }
                                    }
                                    assert forall|k: int| 0 <= k < t1.len() && ch.subrange(0, m + 1).contains(
                                        #[trigger] self.tasks@[k].pid) implies self.tasks@[k].spec_inner().parent == Some(ip) by {
                                        if self.tasks@[k].pid != c {
                                            assert(ch.subrange(0, m as int).contains(before[k].pid));
                                        } else {
                                            assert(t1[k].pid == c);
                                        }
                                    }
                                }
                                m = m + 1;
                            }
                            reparented = true;
                            proof {
                                assert(ch.subrange(0, ch.len() as int) =~= ch);
                            }
                        },
                        None => {},
                    }
                }
            },
            None => {},
        }
        if !reparented {
            std::mem::swap(&mut self.tasks[i].inner.children, &mut children);
        }
        proof {
            let t2 = self.tasks@;
            assert forall|k: int| 0 <= k < t1.len() implies {
                &&& (#[trigger] t2[k]).pid == t1[k].pid
                &&& t2[k].spec_inner().memory_set == t1[k].spec_inner().memory_set
                &&& t2[k].spec_inner().trap_cx.wf()
            } by {
                assert(t1[k].spec_inner().wf());
            }
            lemma_same_memory(t1, t2, self.frame_allocator@, self.pid_allocator);
            assert(o.task(pid) == t0[i as int]);
            assert(ch == t0[i as int].spec_inner().children@);
            assert forall|k: int| 0 <= k < t0.len() && t0[k].pid != pid implies {
                let a = t0[k];
                let b = #[trigger] t2[k];
                &&& b.spec_inner().task_status == a.spec_inner().task_status
                &&& b.spec_inner().exit_code == a.spec_inner().exit_code
                &&& b.spec_inner().memory_set == a.spec_inner().memory_set
                &&& Some(a.pid) != o.initproc ==> b.spec_inner().children@ == a.spec_inner().children@
                &&& !ch.contains(a.pid) ==> b.spec_inner().parent == a.spec_inner().parent
            } by {
                assert(k != i);
                assert(t1[k] == t0[k]);
                if reparented {
                    assert(ch.subrange(0, ch.len() as int) =~= ch);
                }
            }
            assert(self.frame_allocator@.wf());
            assert(self.pid_allocator.wf());
            assert(self.kernel_space.wf());
            assert(tasks_ok(self.tasks@, self.frame_allocator@, self.pid_allocator));
            self.lemma_unique_pid(i as int, pid);
            if let Some(ip) = o.initproc {
                if ip != pid && o.has_task(ip) {
                    let j = choose|j: int| 0 <= j < o.spec_tasks().len() && #[trigger] o.spec_tasks()[j].pid == ip;
                    o.lemma_unique_pid(j, ip);
                    old(self).lemma_unique_pid(j, ip);
                    self.lemma_unique_pid(j, ip);
                    assert forall|c: usize| ch.contains(c) && self.has_task(c)
                        implies #[trigger] self.task(c).spec_inner().parent == Some(ip) by {
                        let k = choose|k: int| 0 <= k < self.spec_tasks().len() && #[trigger] self.spec_tasks()[k].pid == c;
                        self.lemma_unique_pid(k, c);
                    }
                }
            }
        }
    }

    /// The task `c` exists, is a zombie, and is not the current task.
    pub open spec fn is_zombie_task(&self, c: usize) -> bool {
        &&& self.has_task(c)
        &&& self.task(c).spec_inner().task_status == TaskStatus::Zombie
        &&& self.spec_current() != Some(c)
    }

    /// The current task waits for a child: `pid` names one child, or is -1
    /// for any. When a matching child is a zombie, the first such child in
    /// the children list is collected: removed from the list and from the
    /// table, its identifier given back, and its identifier and exit code
    /// returned. Returns -1 when no child matches (or there is no current
    /// task), and -2 when children match but none has exited yet: the caller
    /// yields and asks again.
    pub fn waitpid(&mut self, pid: isize) -> (r: (isize, i32))
        requires
            old(self).wf(),
        ensures
            keeps_current_cx(*old(self), *final(self)),
            final(self).wf(),
            final(self).spec_current() == old(self).spec_current(),
            final(self).spec_ready() == old(self).spec_ready(),
            final(self).spec_initproc() == old(self).spec_initproc(),
            r.0 < 0 ==> final(self).spec_alloc() == old(self).spec_alloc(),
            r.0 == -1 || r.0 == -2 || r.0 >= 0,
            (old(self).spec_current() is None || !old(self).has_task(old(self).spec_current().unwrap())) ==> r.0 == -1
                && final(self).spec_tasks() == old(self).spec_tasks(),
            old(self).spec_current() is Some && old(self).has_task(old(self).spec_current().unwrap()) ==> {
                let cur = old(self).spec_current().unwrap();
                let cs = old(self).task(cur).spec_inner().children@;
                &&& r.0 == -1 <==> !(exists|t: int| 0 <= t < cs.len() && #[trigger] wait_matches(pid, cs[t]))
                &&& r.0 == -2 <==> (exists|t: int| 0 <= t < cs.len() && #[trigger] wait_matches(pid, cs[t])) && (
                    forall|t: int| 0 <= t < cs.len() && #[trigger] wait_matches(pid, cs[t]) ==> !old(
                    self).is_zombie_task(cs[t]))
                &&& r.0 < 0 ==> final(self).spec_tasks() == old(self).spec_tasks()
                &&& r.0 >= 0 ==> exists|m: int| {
                    &&& 0 <= m < cs.len()
                    &&& #[trigger] cs[m] == r.0
                    &&& wait_matches(pid, cs[m])
                    &&& old(self).is_zombie_task(cs[m])
                    &&& forall|t: int| 0 <= t < m && #[trigger] wait_matches(pid, cs[t]) ==> !old(self).is_zombie_task(cs[t])
                    &&& r.1 == old(self).task(cs[m]).spec_inner().exit_code
                    &&& !final(self).has_task(cs[m])
                    &&& !final(self).spec_pids().is_allocated(cs[m])
                    &&& kernel_stack_removed(old(self).spec_kernel_space(), final(self).spec_kernel_space(), cs[m],
                        final(self).spec_alloc())
                    &&& forall|x: int| 0 <= x < task_frames(old(self).task(cs[m])).len()
                        ==> final(self).spec_alloc().is_free(#[trigger] task_frames(old(self).task(cs[m]))[x])
                    &&& final(self).has_task(cur)
                    &&& final(self).task(cur).spec_inner().children@ == cs.remove(m)
                }
            },
    {
        let cur = match self.processor.current() {
            Some(p) => p,
            None => {
                return (-1, 0);
            },
        };
        let i = match self.find_task(cur) {
            Some(i) => i,
            None => {
                return (-1, 0);
            },
        };
        proof {
            self.lemma_unique_pid(i as int, cur);
        }
        let ghost cs = self.tasks@[i as int].spec_inner().children@;
        let n = self.tasks[i].inner.children.len();
        let mut found_any = false;
        let mut m: usize = 0;
        while m < n
            invariant
                *self == *old(self),
                self.wf(),
                self.spec_current() == Some(cur),
                i < self.spec_tasks().len(),
                self.spec_tasks()[i as int].pid == cur,
                cs == self.spec_tasks()[i as int].spec_inner().children@,
                n == cs.len(),
                m <= n,
                found_any == exists|t: int| 0 <= t < m && #[trigger] wait_matches(pid, cs[t]),
                forall|t: int| 0 <= t < m && #[trigger] wait_matches(pid, cs[t]) ==> !self.is_zombie_task(cs[t]),
            decreases n - m,
        {
            let c = self.tasks[i].inner.children[m];
            if pid == -1 || (pid >= 0 && pid as usize == c) {
                found_any = true;
                match self.find_task(c) {
                    Some(k) => {
                        proof {
                            self.lemma_unique_pid(k as int, c);
                        }
                        if self.tasks[k].inner.is_zombie() && c != cur {
                            return self.reap(i, m, k, cur, pid);
                        }
                    },
                    None => {},
                }
            }
            proof {
                if wait_matches(pid, c) {
                    assert(pid == -1 || (pid >= 0 && pid as usize == c));
                }
            }
            m = m + 1;
        }
        if found_any {
            (-2, 0)
        } else {
            (-1, 0)
        }
    }

    /// Collects the zombie child at position `m` of task `i`'s children, which
    /// is task `k`.
    fn reap(&mut self, i: usize, m: usize, k: usize, cur: usize, pid: isize) -> (r: (isize, i32))
        requires
            old(self).wf(),
            old(self).spec_current() == Some(cur),
            i < old(self).spec_tasks().len(),
            old(self).spec_tasks()[i as int].pid == cur,
            k < old(self).spec_tasks().len(),
            m < old(self).spec_tasks()[i as int].spec_inner().children@.len(),
            old(self).spec_tasks()[k as int].pid == old(self).spec_tasks()[i as int].spec_inner().children@[m as int],
            old(self).spec_tasks()[k as int].spec_inner().task_status == TaskStatus::Zombie,
            old(self).spec_tasks()[k as int].pid != cur,
            wait_matches(pid, old(self).spec_tasks()[k as int].pid),
            forall|t: int| 0 <= t < m && #[trigger] wait_matches(pid, old(self).spec_tasks()[i as int].spec_inner().children@[t])
                ==> !old(self).is_zombie_task(old(self).spec_tasks()[i as int].spec_inner().children@[t]),
        ensures
            keeps_current_cx(*old(self), *final(self)),
            final(self).wf(),
            final(self).spec_current() == old(self).spec_current(),
            final(self).spec_ready() == old(self).spec_ready(),
            final(self).spec_initproc() == old(self).spec_initproc(),
            forall|x: int| 0 <= x < task_frames(old(self).spec_tasks()[k as int]).len()
                ==> final(self).spec_alloc().is_free(#[trigger] task_frames(old(self).spec_tasks()[k as int])[x]),
            kernel_stack_removed(old(self).spec_kernel_space(), final(self).spec_kernel_space(),
                old(self).spec_tasks()[k as int].pid, final(self).spec_alloc()),
            ({
                let cs = old(self).task(cur).spec_inner().children@;
                exists|mm: int| {
                    &&& 0 <= mm < cs.len()
                    &&& #[trigger] cs[mm] == r.0
                    &&& wait_matches(pid, cs[mm])
                    &&& old(self).is_zombie_task(cs[mm])
                    &&& forall|t: int| 0 <= t < mm && #[trigger] wait_matches(pid, cs[t]) ==> !old(self).is_zombie_task(cs[t])
                    &&& r.1 == old(self).task(cs[mm]).spec_inner().exit_code
                    &&& !final(self).has_task(cs[mm])
                    &&& !final(self).spec_pids().is_allocated(cs[mm])
                    &&& kernel_stack_removed(old(self).spec_kernel_space(), final(self).spec_kernel_space(), cs[mm],
                        final(self).spec_alloc())
                    &&& forall|x: int| 0 <= x < task_frames(old(self).task(cs[mm])).len()
                        ==> final(self).spec_alloc().is_free(#[trigger] task_frames(old(self).task(cs[mm]))[x])
                    &&& final(self).has_task(cur)
                    &&& final(self).task(cur).spec_inner().children@ == cs.remove(mm)
                }
            }),
            r.0 >= 0,
    {
        let ghost o = *self;
        proof {
            o.lemma_unique_pid(i as int, cur);
            o.lemma_unique_pid(k as int, o.spec_tasks()[k as int].pid);
        }
        let c = self.tasks[k].pid;
        let code = self.tasks[k].inner.exit_code;
        let ghost cs = self.tasks@[i as int].spec_inner().children@;
        let ghost t0 = self.tasks@;
        self.tasks[i].inner.children.remove(m);
        let ghost t1 = self.tasks@;
        proof {
            assert forall|q: int| 0 <= q < t0.len() implies {
                &&& (#[trigger] t1[q]).pid == t0[q].pid
                &&& t1[q].spec_inner().memory_set == t0[q].spec_inner().memory_set
                &&& t1[q].spec_inner().trap_cx.wf()
            } by {
                assert(t0[q].spec_inner().wf());
            }
            lemma_same_memory(t0, t1, self.frame_allocator@, self.pid_allocator);
        }
        let removed = self.tasks.remove(k);
        let ghost a1 = self.frame_allocator@;
        proof {
            assert(removed == t1[k as int]);
            assert(t1[k as int].spec_inner().wf());
        }
        removed.inner.memory_set.release(&mut self.frame_allocator);
        self.pid_allocator.dealloc(c);
        let ghost a2 = self.frame_allocator@;
        let ghost ks0 = self.kernel_space;
        proof {
            let gone = task_frames(t1[k as int]);
            ks0.lemma_all_owned(a1);
            assert(ks_apart(ks0, t1));
            assert forall|x: int| 0 <= x < ks0.owned_frames().len() implies a2.is_allocated(#[trigger] ks0.owned_frames()[x]) by {
                if gone.contains(ks0.owned_frames()[x]) {
                    let y = choose|y: int| 0 <= y < gone.len() && gone[y] == ks0.owned_frames()[x];
                    assert(ks0.owned_frames()[x] != task_frames(t1[k as int])[y]);
                }
            }
            let kp = ks0.spec_pt().frame_ppns();
            let kd = area_frames(ks0.spec_areas());
            assert forall|x: int| 0 <= x < kp.len() implies a2.is_allocated(#[trigger] kp[x]) by {
                assert(ks0.owned_frames()[x] == kp[x]);
            }
            assert forall|x: int| 0 <= x < kd.len() implies a2.is_allocated(#[trigger] kd[x]) by {
                assert(ks0.owned_frames()[kp.len() + x] == kd[x]);
            }
        }
        let (kb, _kt) = kernel_stack_position(c as u64);
        self.kernel_space.remove_area_with_start_vpn(VirtPageNum(kb / PAGE_SIZE_U64), &mut self.frame_allocator);
        proof {
            assert(kb / 4096 == kernel_stack_vpn(c));
        }
        proof {
            let gone = task_frames(t1[k as int]);
            lemma_remove_task(t1, k as int, a1, o.pid_allocator, self.pid_allocator);
            let rest = t1.remove(k as int);
            assert forall|q: int| 0 <= q < rest.len() implies {
                &&& (#[trigger] rest[q]).spec_inner().wf()
                &&& rest[q].spec_inner().memory_set.frames_owned(a2)
                &&& rest[q].spec_inner().memory_set.pt_owned(a2)
                &&& all_framed(rest[q])
                &&& self.pid_allocator.is_allocated(rest[q].pid)
                &&& rest[q].pid < 0x1_0000
            } by {
                let oq = if q < k { q } else { q + 1 };
                assert(rest[q] == t1[oq]);
                let ms = t1[oq].spec_inner().memory_set;
                let f = task_frames(t1[oq]);
                ms.lemma_all_owned(a1);
                assert forall|x: int| 0 <= x < f.len() implies a2.is_allocated(#[trigger] f[x]) by {
                    assert(!gone.contains(f[x])) by {
                        if gone.contains(f[x]) {
                            let y = choose|y: int| 0 <= y < gone.len() && gone[y] == f[x];
                            assert(task_frames(t1[oq])[x] != task_frames(t1[k as int])[y]);
                        }
                    }
                }
                let pk = ms.spec_pt().frame_ppns();
                let dk = area_frames(ms.spec_areas());
                assert forall|x: int| 0 <= x < pk.len() implies a2.is_allocated(#[trigger] pk[x]) by {
                    assert(f[x] == pk[x]);
                }
                assert forall|x: int| 0 <= x < dk.len() implies a2.is_allocated(#[trigger] dk[x]) by {
                    assert(f[pk.len() + x] == dk[x]);
                }
            }
            let a3 = self.frame_allocator@;
            assert forall|q: int| 0 <= q < rest.len() implies {
                &&& (#[trigger] rest[q]).spec_inner().memory_set.frames_owned(a3)
                &&& rest[q].spec_inner().memory_set.pt_owned(a3)
            } by {
                let oq = if q < k { q } else { q + 1 };
                assert(rest[q] == t1[oq]);
                let ms = rest[q].spec_inner().memory_set;
                let f = task_frames(rest[q]);
                assert forall|x: int| 0 <= x < f.len() implies a3.is_allocated(#[trigger] f[x]) by {
                    ms.lemma_all_owned(a2);
                    assert(!ks0.owned_frames().contains(f[x])) by {
                        if ks0.owned_frames().contains(f[x]) {
                            let z = choose|z: int| 0 <= z < ks0.owned_frames().len() && ks0.owned_frames()[z] == f[x];
                            assert(ks0.owned_frames()[z] != task_frames(t1[oq])[x]);
                        }
                    }
                }
                let pk = ms.spec_pt().frame_ppns();
                let dk = area_frames(ms.spec_areas());
                assert forall|x: int| 0 <= x < pk.len() implies a3.is_allocated(#[trigger] pk[x]) by {
                    assert(f[x] == pk[x]);
                }
                assert forall|x: int| 0 <= x < dk.len() implies a3.is_allocated(#[trigger] dk[x]) by {
                    assert(f[pk.len() + x] == dk[x]);
                }
            }
            assert(tasks_ok(rest, a3, self.pid_allocator)) by {
                assert forall|q: int| 0 <= q < rest.len() implies {
                    &&& (#[trigger] rest[q]).spec_inner().wf()
                    &&& rest[q].spec_inner().memory_set.frames_owned(a3)
                    &&& rest[q].spec_inner().memory_set.pt_owned(a3)
                    &&& all_framed(rest[q])
                    &&& self.pid_allocator.is_allocated(rest[q].pid)
                    &&& rest[q].pid < 0x1_0000
                } by {
                    assert(rest[q].spec_inner().memory_set.frames_owned(a3));
                }
            }
            let ks = self.kernel_space;
            assert forall|q: int, x: int, y: int| 0 <= q < rest.len() && 0 <= x < ks.owned_frames().len() && 0 <= y
                < task_frames(rest[q]).len() implies #[trigger] ks.owned_frames()[x] != #[trigger] task_frames(rest[q])[y] by {
                let oq = if q < k { q } else { q + 1 };
                assert(rest[q] == t1[oq]);
                let z = choose|z: int| 0 <= z < ks0.owned_frames().len() && ks0.owned_frames()[z] == ks.owned_frames()[x];
                assert(ks0.owned_frames()[z] != task_frames(t1[oq])[y]);
            }
            assert(self.tasks@ == t1.remove(k as int));
            let ni = if (i as int) < (k as int) { i as int } else { i as int - 1 };
            assert(self.spec_tasks()[ni] == t1[i as int]);
            self.lemma_unique_pid(ni, cur);
            assert(!self.has_task(c)) by {
                if self.has_task(c) {
                    let q = choose|q: int| 0 <= q < self.spec_tasks().len() && #[trigger] self.spec_tasks()[q].pid == c;
                    let oq = if q < k { q } else { q + 1 };
                    assert(self.spec_tasks()[q] == t1[oq]);
                    assert(t1[oq].pid == t0[oq].pid);
                    assert(oq != k);
                    assert(t0[oq].pid != t0[k as int].pid);
                }
            }
            assert(o.task(cur) == t0[i as int]);
            assert(cs[m as int] == c);
            assert(o.is_zombie_task(c));
            assert(o.task(c) == t0[k as int]);
        }
        (c as isize, code)
    }

    /// The current task forks: a new ready task with a fresh identifier, a
    /// copy of the parent's address space in fresh frames, and the parent's
    /// trap context but for `a0`, which is 0 so that the child sees `fork`
    /// return 0. The child's parent is the current task, it joins the
    /// current task's children and the back of the ready queue. Returns the
    /// child's identifier, which the parent's `fork` returns; nothing when
    /// there is no current task, no identifier is left, frames run short, or
    /// the pages of the child's kernel stack are taken in the kernel's address
    /// space. The child's kernel stack is added to the kernel's address space.
    #[verifier::rlimit(100)]
    pub fn fork(&mut self) -> (r: Option<usize>)
        requires
            old(self).wf(),
        ensures
            keeps_current_cx(*old(self), *final(self)),
            final(self).wf(),
            final(self).spec_current() == old(self).spec_current(),
            final(self).spec_initproc() == old(self).spec_initproc(),
            (old(self).spec_current() is Some && old(self).has_task(old(self).spec_current().unwrap())) ==> ({
                let parent = old(self).task(old(self).spec_current().unwrap());
                let pids = old(self).spec_pids();
                let next = if pids.spec_recycled().len() > 0 { pids.spec_recycled().last() } else { pids.spec_current() };
                r is None <==> (pids.spec_recycled().len() == 0 && pids.spec_current() == usize::MAX) || next >= 0x1_0000
                    || old(self).spec_alloc().free_count() < 7 + 3 * MemorySet::pages_of(
                    parent.spec_inner().memory_set.spec_areas()) || !old(self).spec_kernel_space().range_is_free(
                    kernel_stack_vpn(next), (kernel_stack_vpn(next) + 2) as u64)
            }),
            r is None ==> final(self).spec_tasks() == old(self).spec_tasks() && final(self).spec_ready()
                == old(self).spec_ready(),
            r matches Some(c) ==> c < 0x1_0000,
            r matches Some(c) ==> kernel_stack_added(old(self).spec_kernel_space(), final(self).spec_kernel_space(), c),
            r matches Some(c) ==> {
                let cur = old(self).spec_current().unwrap();
                let parent = old(self).task(cur);
                let child = final(self).task(c);
                &&& old(self).spec_current() is Some
                &&& old(self).has_task(cur)
                &&& !old(self).has_task(c)
                &&& final(self).has_task(c)
                &&& final(self).has_task(cur)
                &&& c != cur
                &&& final(self).spec_tasks().len() == old(self).spec_tasks().len() + 1
                &&& child.spec_inner().parent == Some(cur)
                &&& child.spec_inner().task_status == TaskStatus::Ready
                &&& child.spec_inner().children@.len() == 0
                &&& child.spec_inner().trap_cx.x@ == parent.spec_inner().trap_cx.x@.update(REG_A0 as int, 0)
                &&& child.spec_inner().trap_cx.sepc == parent.spec_inner().trap_cx.sepc
                &&& final(self).task(cur).spec_inner().children@ == parent.spec_inner().children@.push(c)
                &&& final(self).spec_ready() == old(self).spec_ready().push(c)
                &&& child.spec_inner().memory_set.spec_areas().len() == parent.spec_inner().memory_set.spec_areas().len()
                &&& forall|k: int| 0 <= k < child.spec_inner().memory_set.spec_areas().len() ==> {
                    let a = #[trigger] child.spec_inner().memory_set.spec_areas()[k];
                    let b = parent.spec_inner().memory_set.spec_areas()[k];
                    &&& a.start() == b.start()
                    &&& a.end() == b.end()
                    &&& a.spec_perm() == b.spec_perm()
                    &&& forall|t: int| 0 <= t < b.page_count() ==> #[trigger] a.page(t) == b.page(t)
                }
                &&& forall|x: int, y: int| 0 <= x < task_frames(parent).len() && 0 <= y < task_frames(child).len()
                    ==> #[trigger] task_frames(parent)[x] != #[trigger] task_frames(child)[y]
            },
    {
        let cur = match self.processor.current() {
            Some(p) => p,
            None => {
                return None;
            },
        };
        let i = match self.find_task(cur) {
            Some(i) => i,
            None => {
                return None;
            },
        };
        proof {
            self.lemma_unique_pid(i as int, cur);
        }
        let ghost o = *self;
        let c = match self.pid_allocator.allocate() {
            Some(h) => h.0,
            None => {
                return None;
            },
        };
        let need = self.tasks[i].inner.memory_set.total_pages();
        if c >= 0x1_0000 || self.frame_allocator.free_frames() < 7 + 3 * need {
            self.pid_allocator.dealloc(c);
            proof {
                self.lemma_tasks_ok_weaken(o.tasks@, o.frame_allocator@, self.frame_allocator@, o.pid_allocator,
                    self.pid_allocator, c);
            }
            return None;
        }
        let (kb, kt) = kernel_stack_position(c as u64);
        if !self.kernel_space.is_range_free(VirtPageNum(kb / PAGE_SIZE_U64), VirtPageNum(kt / PAGE_SIZE_U64)) {
            self.pid_allocator.dealloc(c);
            proof {
                self.lemma_tasks_ok_weaken(o.tasks@, o.frame_allocator@, self.frame_allocator@, o.pid_allocator,
                    self.pid_allocator, c);
            }
            return None;
        }
        let ghost a0 = self.frame_allocator@;
        let ghost p1 = self.pid_allocator;
        proof {
            assert(o.tasks@[i as int].spec_inner().wf());
            assert(all_framed(o.tasks@[i as int]));
        }
        let memory_set = MemorySet::from_existed_user_space(&self.tasks[i].inner.memory_set, &self.kernel_space,
            &mut self.frame_allocator);
        let ghost a1 = self.frame_allocator@;
        let ghost ks0 = self.kernel_space;
        proof {
            lemma_owned_keep(ks0, a0, a1);
        }
        self.kernel_space.insert_framed_area(VirtAddr(kb), VirtAddr(kt), MapPermission(MAP_R | MAP_W), AreaType::Stack,
            &mut self.frame_allocator);
        let ghost a2 = self.frame_allocator@;
        let mut trap_cx = self.tasks[i].inner.trap_cx.duplicate();
        trap_cx.set_reg(REG_A0, 0);
        let (_kernel_stack_bottom, kernel_stack_top) = kernel_stack_position(c as u64);
        trap_cx.kernel_sp = kernel_stack_top;
        let trap_cx_ppn = match memory_set.translate(VirtPageNum(TRAP_CONTEXT / PAGE_SIZE_U64)) {
            Some(e) => e.ppn(),
            None => PhysPageNum(0),
        };
        let child = TaskControlBlock {
            pid: c,
            kernel_stack: c,
            inner: TaskControlBlockInner {
                trap_cx_ppn,
                base_size: self.tasks[i].inner.base_size,
                task_cx: TaskContext::goto_trap_return(self.config.trap_return, kernel_stack_top),
                task_status: TaskStatus::Ready,
                memory_set,
                parent: Some(cur),
                children: Vec::new(),
                exit_code: 0,
                trap_cx,
            },
        };
        proof {
            assert forall|k: int| 0 <= k < child.spec_inner().memory_set.spec_areas().len()
                implies (#[trigger] child.spec_inner().memory_set.spec_areas()[k]).spec_map_type() == MapType::Framed by {
                assert(o.tasks@[i as int].spec_inner().memory_set.spec_areas()[k].spec_map_type() == MapType::Framed);
            }
            let f = task_frames(child);
            crate::memory_set::lemma_owned_free(child.spec_inner().memory_set, a0);
            assert forall|x: int| 0 <= x < f.len() implies a0.is_free(#[trigger] f[x]) by {}
            lemma_owned_keep(child.spec_inner().memory_set, a1, a2);
            assert forall|q: u64| #[trigger] o.frame_allocator@.is_allocated(q) implies self.frame_allocator@.is_allocated(q) by {
                assert(a1.is_allocated(q));
            }
            lemma_push_task(o.tasks@, child, o.frame_allocator@, self.frame_allocator@, o.pid_allocator, self.pid_allocator);
            child.spec_inner().memory_set.lemma_all_owned(a1);
            ks0.lemma_all_owned(a0);
            lemma_grow_apart(ks0, self.kernel_space, o.tasks@, child, a0, a1);
        }
        let ghost t1 = self.tasks@;
        self.tasks.push(child);
        let ghost t2 = self.tasks@;
        self.tasks[i].inner.children.push(c);
        self.task_manager.add(c);
        proof {
            let t3 = self.tasks@;
            assert forall|q: int| 0 <= q < t2.len() implies {
                &&& (#[trigger] t3[q]).pid == t2[q].pid
                &&& t3[q].spec_inner().memory_set == t2[q].spec_inner().memory_set
                &&& t3[q].spec_inner().trap_cx.wf()
            } by {
                assert(t2[q].spec_inner().wf());
            }
            lemma_same_memory(t2, t3, self.frame_allocator@, self.pid_allocator);
            let n = t1.len() as int;
            self.lemma_unique_pid(n, c);
            self.lemma_unique_pid(i as int, cur);
            assert(!o.has_task(c)) by {
                if o.has_task(c) {
                    let q = choose|q: int| 0 <= q < o.spec_tasks().len() && #[trigger] o.spec_tasks()[q].pid == c;
                    assert(o.pid_allocator.is_allocated(o.tasks@[q].pid));
                }
            }
            let parent = o.task(cur);
            let ch = self.task(c);
            assert forall|x: int, y: int| 0 <= x < task_frames(parent).len() && 0 <= y < task_frames(ch).len()
                implies #[trigger] task_frames(parent)[x] != #[trigger] task_frames(ch)[y] by {
                assert(task_frames(t3[i as int]) == task_frames(parent));
                assert(t3[i as int].pid != t3[n].pid);
            }
        }
        Some(c)
    }

    /// Number of frames the allocator can still hand out.
    pub fn free_frames(&self) -> (r: u128)
        requires
            self.wf(),
        ensures
            r == self.spec_alloc().free_count(),
    {
        self.frame_allocator.free_frames()
    }

    /// Status of task `pid`.
    pub fn task_status(&self, pid: usize) -> (r: Option<TaskStatus>)
        requires
            self.wf(),
        ensures
            r is Some <==> self.has_task(pid),
            r matches Some(st) ==> st == self.task(pid).spec_inner().task_status,
    {
        let i = self.find_task(pid)?;
        proof {
            self.lemma_unique_pid(i as int, pid);
        }
        Some(self.tasks[i].inner.task_status)
    }

    /// Parent of task `pid`.
    pub fn task_parent(&self, pid: usize) -> (r: Option<Option<usize>>)
        requires
            self.wf(),
        ensures
            r is Some <==> self.has_task(pid),
            r matches Some(p) ==> p == self.task(pid).spec_inner().parent,
    {
        let i = self.find_task(pid)?;
        proof {
            self.lemma_unique_pid(i as int, pid);
        }
        Some(self.tasks[i].inner.parent)
    }

    /// Exit code of task `pid`.
    pub fn task_exit_code(&self, pid: usize) -> (r: Option<i32>)
        requires
            self.wf(),
        ensures
            r is Some <==> self.has_task(pid),
            r matches Some(c) ==> c == self.task(pid).spec_inner().exit_code,
    {
        let i = self.find_task(pid)?;
        proof {
            self.lemma_unique_pid(i as int, pid);
        }
        Some(self.tasks[i].inner.exit_code)
    }

    /// Children of task `pid`.
    pub fn task_children(&self, pid: usize) -> (r: Option<Vec<usize>>)
        requires
            self.wf(),
        ensures
            r is Some <==> self.has_task(pid),
            r matches Some(v) ==> v@ == self.task(pid).spec_inner().children@,
    {
        let i = self.find_task(pid)?;
        proof {
            self.lemma_unique_pid(i as int, pid);
        }
        let src = &self.tasks[i].inner.children;
        let mut v: Vec<usize> = Vec::new();
        let mut k: usize = 0;
        while k < src.len()
            invariant
                k <= src@.len(),
                v@ == src@.subrange(0, k as int),
            decreases src@.len() - k,
        {
            v.push(src[k]);
            k = k + 1;
            assert(v@ =~= src@.subrange(0, k as int));
        }
        assert(v@ =~= src@);
        Some(v)
    }

    /// The byte at `va` in task `pid`'s address space, when a framed area holds it.
    pub fn read_user_byte(&self, pid: usize, va: VirtAddr) -> (r: Option<u8>)
        requires
            self.wf(),
        ensures
            !self.has_task(pid) ==> r is None,
            self.has_task(pid) ==> r == self.task(pid).spec_inner().memory_set.spec_byte(va.0),
    {
        let i = self.find_task(pid)?;
        proof {
            self.lemma_unique_pid(i as int, pid);
            assert(self.tasks@[i as int].spec_inner().wf());
        }
        self.tasks[i].inner.memory_set.read_byte(va)
    }

    /// Writes `b` at `va` in task `pid`'s address space when a framed area
    /// holds it; returns whether one did. No other task's memory changes.
    pub fn write_user_byte(&mut self, pid: usize, va: VirtAddr, b: u8) -> (r: bool)
        requires
            old(self).wf(),
        ensures
            final(self).wf(),
            r == (old(self).has_task(pid) && old(self).task(pid).spec_inner().memory_set.spec_byte(va.0) is Some),
            r ==> final(self).has_task(pid) && final(self).task(pid).spec_inner().memory_set.spec_byte(va.0) == Some(b),
            old(self).has_task(pid) ==> final(self).has_task(pid) && forall|x: u64| x != va.0
                ==> #[trigger] final(self).task(pid).spec_inner().memory_set.spec_byte(x)
                == old(self).task(pid).spec_inner().memory_set.spec_byte(x),
            old(self).has_task(pid) ==> forall|x: u64| #[trigger] final(self).task(pid).spec_inner().memory_set.spec_byte(x)
                is Some == old(self).task(pid).spec_inner().memory_set.spec_byte(x) is Some,
            final(self).spec_tasks().len() == old(self).spec_tasks().len(),
            forall|i: int| 0 <= i < old(self).spec_tasks().len() && old(self).spec_tasks()[i].pid != pid
                ==> #[trigger] final(self).spec_tasks()[i] == old(self).spec_tasks()[i],
            forall|i: int| 0 <= i < old(self).spec_tasks().len() ==> (#[trigger] final(self).spec_tasks()[i]).pid
                == old(self).spec_tasks()[i].pid,
            forall|i: int| 0 <= i < old(self).spec_tasks().len() ==> (#[trigger] final(self).spec_tasks()[i]).spec_inner().trap_cx
                == old(self).spec_tasks()[i].spec_inner().trap_cx,
            final(self).spec_current() == old(self).spec_current(),
    {
        let i = match self.find_task(pid) {
            Some(i) => i,
            None => {
                return false;
            },
        };
        proof {
            self.lemma_unique_pid(i as int, pid);
            assert(self.tasks@[i as int].spec_inner().wf());
        }
        let ghost t0 = self.tasks@;
        let ghost a = self.frame_allocator@;
        let r = self.tasks[i].inner.memory_set.write_byte(va, b);
        proof {
            let t1 = self.tasks@;
            assert(t0[i as int].spec_inner().memory_set.frames_owned(a));
            assert(t1 == t0.update(i as int, t1[i as int]));
            assert(task_frames(t1[i as int]) == task_frames(t0[i as int]));
            assert forall|q: int| 0 <= q < t1.len() implies {
                &&& (#[trigger] t1[q]).spec_inner().wf()
                &&& t1[q].spec_inner().memory_set.frames_owned(a)
                &&& all_framed(t1[q])
                &&& self.pid_allocator.is_allocated(t1[q].pid)
                &&& t1[q].pid < 0x1_0000
            } by {
                assert(t0[q].spec_inner().wf());
                assert(all_framed(t0[q]));
            }
            assert forall|p: int, q: int| 0 <= p < t1.len() && 0 <= q < t1.len() && p != q implies (#[trigger] t1[p]).pid
                != (#[trigger] t1[q]).pid by {
                assert(t0[p].pid != t0[q].pid);
            }
            assert forall|p: int, q: int, x: int, y: int|
                0 <= p < t1.len() && 0 <= q < t1.len() && p != q && 0 <= x < task_frames(t1[p]).len() && 0 <= y
                    < task_frames(t1[q]).len() implies #[trigger] task_frames(t1[p])[x] != #[trigger] task_frames(t1[q])[y] by {
                assert(task_frames(t1[p]) == task_frames(t0[p]));
                assert(task_frames(t1[q]) == task_frames(t0[q]));
            }
            self.lemma_unique_pid(i as int, pid);
        }
        r
    }

    /// The current task replaces its program with `elf_data` (program
    /// headers `image`): a new address space, user stack and trap context,
    /// the same identifier, parent and children; the old address space gives
    /// back its data frames. Returns 0, or -1 when there is no current task or
    /// the new program cannot be loaded, in which case nothing changes.
    pub fn exec(&mut self, elf_data: &[u8], image: &ElfImage) -> (r: i64)
        requires
            old(self).wf(),
        ensures
            final(self).wf(),
            r == 0 || r == -1,
            r == 0 <==> old(self).spec_current() is Some && old(self).has_task(old(self).spec_current().unwrap())
                && task_ok(old(self).spec_current().unwrap(), elf_data@, image.segments@, old(self).spec_alloc()),
            final(self).spec_current() == old(self).spec_current(),
            final(self).spec_ready() == old(self).spec_ready(),
            final(self).spec_initproc() == old(self).spec_initproc(),
            final(self).spec_tasks().len() == old(self).spec_tasks().len(),
            r == -1 ==> final(self).spec_tasks() == old(self).spec_tasks(),
            r == 0 ==> {
                let cur = old(self).spec_current().unwrap();
                let a = old(self).task(cur).spec_inner();
                let b = final(self).task(cur).spec_inner();
                &&& old(self).spec_current() is Some
                &&& old(self).has_task(cur)
                &&& final(self).has_task(cur)
                &&& b.parent == a.parent
                &&& b.children == a.children
                &&& b.task_status == a.task_status
                &&& b.trap_cx.sepc == image.entry
                &&& forall|k: int| 0 <= k < task_frames(old(self).task(cur)).len()
                    ==> final(self).spec_alloc().is_free(#[trigger] task_frames(old(self).task(cur))[k])
            },
    {
        let cur = match self.processor.current() {
            Some(p) => p,
            None => {
                return -1;
            },
        };
        let i = match self.find_task(cur) {
            Some(i) => i,
            None => {
                return -1;
            },
        };
        let ghost o = *self;
        proof {
            o.lemma_unique_pid(i as int, cur);
        }
        let ghost a0 = self.frame_allocator@;
        let t = match TaskControlBlock::build_user(elf_data, image, cur, &self.kernel_space, self.config,
            &mut self.frame_allocator) {
            Some(t) => t,
            None => {
                proof {
                    lemma_same_alloc(o.tasks@, a0, self.frame_allocator@, self.pid_allocator);
                }
                return -1;
            },
        };
        let ghost a1 = self.frame_allocator@;
        let ghost old_frames = task_frames(o.tasks@[i as int]);
        let ghost new_frames = task_frames(t);
        proof {
            lemma_owned_keep(o.tasks@[i as int].spec_inner().memory_set, a0, a1);
            assert(o.tasks@[i as int].spec_inner().wf());
        }
        let TaskControlBlock { pid: _, kernel_stack: _, inner } = t;
        let TaskControlBlockInner { trap_cx_ppn, base_size, task_cx: _, task_status: _, memory_set, parent: _,
            children: _, exit_code: _, trap_cx } = inner;
        let mut old_space = memory_set;
        std::mem::swap(&mut self.tasks[i].inner.memory_set, &mut old_space);
        old_space.release(&mut self.frame_allocator);
        self.tasks[i].inner.trap_cx = trap_cx;
        self.tasks[i].inner.trap_cx_ppn = trap_cx_ppn;
        self.tasks[i].inner.base_size = base_size;
        proof {
            let a2 = self.frame_allocator@;
            let t0 = o.tasks@;
            let t1 = self.tasks@;
            assert(task_frames(t1[i as int]) == new_frames);
            assert forall|x: int| 0 <= x < new_frames.len() implies !old_frames.contains(#[trigger] new_frames[x]) by {
                if old_frames.contains(new_frames[x]) {
                    let y = choose|y: int| 0 <= y < old_frames.len() && old_frames[y] == new_frames[x];
                    t0[i as int].spec_inner().memory_set.lemma_all_owned(a0);
                    assert(a0.is_allocated(old_frames[y]));
                    assert(a0.is_free(new_frames[x]));
                }
            }
            assert forall|q: int| 0 <= q < t1.len() implies {
                &&& (#[trigger] t1[q]).spec_inner().wf()
                &&& t1[q].spec_inner().memory_set.frames_owned(a2)
                &&& t1[q].spec_inner().memory_set.pt_owned(a2)
                &&& all_framed(t1[q])
                &&& self.pid_allocator.is_allocated(t1[q].pid)
                &&& t1[q].pid < 0x1_0000
            } by {
                assert(t0[q].spec_inner().wf());
                assert(all_framed(t0[q]));
                let ms = t1[q].spec_inner().memory_set;
                let f = task_frames(t1[q]);
                if q != i {
                    assert(t1[q] == t0[q]);
                    t0[q].spec_inner().memory_set.lemma_all_owned(a0);
                }
                assert forall|x: int| 0 <= x < f.len() implies a2.is_allocated(#[trigger] f[x]) by {
                    if q == i {
                        assert(f[x] == new_frames[x]);
                        assert(a1.is_allocated(new_frames[x])) by {
                            ms.lemma_all_owned(a1);
                        }
                        assert(!old_frames.contains(f[x]));
                    } else {
                        assert(a0.is_allocated(f[x]));
                        assert(a1.is_allocated(f[x]));
                        assert(!old_frames.contains(f[x])) by {
                            if old_frames.contains(f[x]) {
                                let y = choose|y: int| 0 <= y < old_frames.len() && old_frames[y] == f[x];
                                assert(task_frames(t0[q])[x] != task_frames(t0[i as int])[y]);
                            }
                        }
                    }
                }
                let pk = ms.spec_pt().frame_ppns();
                let dk = area_frames(ms.spec_areas());
                assert forall|x: int| 0 <= x < pk.len() implies a2.is_allocated(#[trigger] pk[x]) by {
                    assert(f[x] == pk[x]);
                }
                assert forall|x: int| 0 <= x < dk.len() implies a2.is_allocated(#[trigger] dk[x]) by {
                    assert(f[pk.len() + x] == dk[x]);
                }
            }
            assert forall|p: int, q: int| 0 <= p < t1.len() && 0 <= q < t1.len() && p != q implies (#[trigger] t1[p]).pid
                != (#[trigger] t1[q]).pid by {
                assert(t0[p].pid != t0[q].pid);
            }
            assert forall|p: int, q: int, x: int, y: int|
                0 <= p < t1.len() && 0 <= q < t1.len() && p != q && 0 <= x < task_frames(t1[p]).len() && 0 <= y
                    < task_frames(t1[q]).len() implies #[trigger] task_frames(t1[p])[x] != #[trigger] task_frames(t1[q])[y] by {
                if p != i && q != i {
                    assert(t1[p] == t0[p] && t1[q] == t0[q]);
                } else if p == i {
                    assert(t1[q] == t0[q]);
                    t0[q].spec_inner().memory_set.lemma_all_owned(a0);
                    assert(a0.is_allocated(task_frames(t0[q])[y]));
                    assert(a0.is_free(new_frames[x]));
                } else {
                    assert(t1[p] == t0[p]);
                    t0[p].spec_inner().memory_set.lemma_all_owned(a0);
                    assert(a0.is_allocated(task_frames(t0[p])[x]));
                    assert(a0.is_free(new_frames[y]));
                }
            }
            let ks = self.kernel_space;
            ks.lemma_all_owned(a0);
            assert forall|x: int| 0 <= x < ks.owned_frames().len() implies a2.is_allocated(#[trigger] ks.owned_frames()[x]) by {
                assert(a0.is_allocated(ks.owned_frames()[x]));
                assert(a1.is_allocated(ks.owned_frames()[x]));
                if old_frames.contains(ks.owned_frames()[x]) {
                    let y = choose|y: int| 0 <= y < old_frames.len() && old_frames[y] == ks.owned_frames()[x];
                    assert(ks.owned_frames()[x] != task_frames(t0[i as int])[y]);
                }
            }
            let kp = ks.spec_pt().frame_ppns();
            let kd = area_frames(ks.spec_areas());
            assert forall|x: int| 0 <= x < kp.len() implies a2.is_allocated(#[trigger] kp[x]) by {
                assert(ks.owned_frames()[x] == kp[x]);
            }
            assert forall|x: int| 0 <= x < kd.len() implies a2.is_allocated(#[trigger] kd[x]) by {
                assert(ks.owned_frames()[kp.len() + x] == kd[x]);
            }
            assert forall|q: int, x: int, y: int| 0 <= q < t1.len() && 0 <= x < ks.owned_frames().len() && 0 <= y
                < task_frames(t1[q]).len() implies #[trigger] ks.owned_frames()[x] != #[trigger] task_frames(t1[q])[y] by {
                if q == i {
                    assert(a0.is_free(new_frames[y]));
                    assert(a0.is_allocated(ks.owned_frames()[x]));
                } else {
                    assert(t1[q] == t0[q]);
                }
            }
            self.lemma_unique_pid(i as int, cur);
        }
        0
    }

    /// The current task's identifier.
    pub fn current_pid(&self) -> (r: Option<usize>)
        ensures
            r == self.spec_current(),
    {
        self.processor.current()
    }

    /// The current task's `a0`, or 0 without one.
    pub fn current_a0(&self) -> (r: u64)
        requires
            self.wf(),
        ensures
            self.spec_current() is Some && self.has_task(self.spec_current().unwrap()) ==> r == self.task(
                self.spec_current().unwrap()).spec_inner().trap_cx.x@[REG_A0 as int],
            !(self.spec_current() is Some && self.has_task(self.spec_current().unwrap())) ==> r == 0,
    {
        match self.current_trap_cx() {
            Some(cx) => cx.x[REG_A0],
            None => 0,
        }
    }

    /// The `satp` value of the current task's address space.
    pub fn current_user_token(&self) -> (r: Option<u64>)
        requires
            self.wf(),
        ensures
            r is Some <==> self.spec_current() is Some && self.has_task(self.spec_current().unwrap()),
            r matches Some(t) ==> t == (8u64 << 60u64) | self.task(self.spec_current().unwrap()).spec_inner()
                .memory_set.spec_pt().spec_root(),
    {
        let cur = self.processor.current()?;
        let i = self.find_task(cur)?;
        proof {
            self.lemma_unique_pid(i as int, cur);
            assert(self.tasks@[i as int].spec_inner().wf());
        }
        Some(self.tasks[i].get_user_token())
    }

    /// The current task's trap context.
    pub fn current_trap_cx(&self) -> (r: Option<&TrapContext>)
        requires
            self.wf(),
        ensures
            r is Some <==> self.spec_current() is Some && self.has_task(self.spec_current().unwrap()),
            r matches Some(cx) ==> *cx == self.task(self.spec_current().unwrap()).spec_inner().trap_cx,
            r matches Some(cx) ==> cx.wf(),
    {
        let cur = self.processor.current()?;
        let i = self.find_task(cur)?;
        proof {
            self.lemma_unique_pid(i as int, cur);
            assert(self.tasks@[i as int].spec_inner().wf());
        }
        Some(self.tasks[i].get_trap_cx())
    }

    /// Changes the current task's trap context: sets register `reg` to `value`
    /// and adds `sepc_step` to the resume address. Returns whether there was a
    /// current task.
    pub fn update_current_trap_cx(&mut self, reg: usize, value: u64, sepc_step: u64) -> (r: bool)
        requires
            old(self).wf(),
            reg < 32,
        ensures
            final(self).wf(),
            r == (old(self).spec_current() is Some && old(self).has_task(old(self).spec_current().unwrap())),
            final(self).spec_current() == old(self).spec_current(),
            final(self).spec_ready() == old(self).spec_ready(),
            final(self).spec_initproc() == old(self).spec_initproc(),
            final(self).spec_tasks().len() == old(self).spec_tasks().len(),
            r ==> {
                let cur = old(self).spec_current().unwrap();
                let a = old(self).task(cur).spec_inner();
                let b = final(self).task(cur).spec_inner();
                &&& final(self).has_task(cur)
                &&& b.trap_cx.x@ == a.trap_cx.x@.update(reg as int, value)
                &&& b.trap_cx.sepc == (a.trap_cx.sepc + sepc_step) % 0x1_0000_0000_0000_0000int
                &&& b.task_status == a.task_status
                &&& b.children == a.children
                &&& b.parent == a.parent
            },
    {
        let cur = match self.processor.current() {
            Some(p) => p,
            None => {
                return false;
            },
        };
        let i = match self.find_task(cur) {
            Some(i) => i,
            None => {
                return false;
            },
        };
        proof {
            self.lemma_unique_pid(i as int, cur);
            assert(self.tasks@[i as int].spec_inner().wf());
        }
        let ghost t0 = self.tasks@;
        self.tasks[i].inner.trap_cx.set_reg(reg, value);
        self.tasks[i].inner.trap_cx.sepc = self.tasks[i].inner.trap_cx.sepc.wrapping_add(sepc_step);
        proof {
            let t1 = self.tasks@;
            assert forall|q: int| 0 <= q < t0.len() implies {
                &&& (#[trigger] t1[q]).pid == t0[q].pid
                &&& t1[q].spec_inner().memory_set == t0[q].spec_inner().memory_set
                &&& t1[q].spec_inner().trap_cx.wf()
            } by {
                assert(t0[q].spec_inner().wf());
            }
            lemma_same_memory(t0, t1, self.frame_allocator@, self.pid_allocator);
            self.lemma_unique_pid(i as int, cur);
        }
        true
    }

    /// Index in the table of the task with identifier `pid`.
    pub fn find_task(&self, pid: usize) -> (r: Option<usize>)
        ensures
            match r {
                Some(i) => i < self.spec_tasks().len() && self.spec_tasks()[i as int].pid == pid,
                None => !self.has_task(pid),
            },
    {
        let mut i: usize = 0;
        while i < self.tasks.len()
            invariant
                i <= self.spec_tasks().len(),
                forall|k: int| 0 <= k < i ==> #[trigger] self.spec_tasks()[k].pid != pid,
            decreases self.spec_tasks().len() - i,
        {
            if self.tasks[i].pid == pid {
                return Some(i);
            }
            i = i + 1;
        }
        None
    }
}

} // verus!
