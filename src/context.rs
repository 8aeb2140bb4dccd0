//! Register snapshots exchanged across context switches and traps.
use vstd::prelude::*;

verus! {

/// Number of general-purpose registers.
pub const NUM_REGS: usize = 32;

/// Index of register `a0`, which carries a syscall's first argument and its result.
pub const REG_A0: usize = 10;

/// Index of register `sp`.
pub const REG_SP: usize = 2;

/// The callee-saved registers that a context switch keeps: return address,
/// stack pointer and `s0`..`s11`.
#[derive(Copy, Clone, Debug, PartialEq, Eq, Structural)]
pub struct TaskContext {
    pub ra: u64,
    pub sp: u64,
    pub s0: u64,
    pub s1: u64,
    pub s2: u64,
    pub s3: u64,
    pub s4: u64,
    pub s5: u64,
    pub s6: u64,
    pub s7: u64,
    pub s8: u64,
    pub s9: u64,
    pub s10: u64,
    pub s11: u64,
}

impl TaskContext {
    /// All registers zero: the idle context before its first switch.
    pub fn zero_init() -> (r: TaskContext)
        ensures
            r.ra == 0,
            r.sp == 0,
            r == TaskContext::spec_with(0, 0),
    {
        TaskContext::with(0, 0)
    }

    /// The context with `ra` and `sp` set and the saved registers zero.
    pub open spec fn spec_with(ra: u64, sp: u64) -> TaskContext {
        TaskContext {
            ra,
            sp,
            s0: 0,
            s1: 0,
            s2: 0,
            s3: 0,
            s4: 0,
            s5: 0,
            s6: 0,
            s7: 0,
            s8: 0,
            s9: 0,
            s10: 0,
            s11: 0,
        }
    }

    fn with(ra: u64, sp: u64) -> (r: TaskContext)
        ensures
            r == TaskContext::spec_with(ra, sp),
    {
        TaskContext {
            ra,
            sp,
            s0: 0,
            s1: 0,
            s2: 0,
            s3: 0,
            s4: 0,
            s5: 0,
            s6: 0,
            s7: 0,
            s8: 0,
            s9: 0,
            s10: 0,
            s11: 0,
        }
    }

    /// A context that, when switched to, returns into `trap_return` on the
    /// kernel stack whose top is `kstack_ptr`.
    pub fn goto_trap_return(trap_return: u64, kstack_ptr: u64) -> (r: TaskContext)
        ensures
            r == TaskContext::spec_with(trap_return, kstack_ptr),
    {
        TaskContext::with(trap_return, kstack_ptr)
    }
}

/// The callee-saved registers of a thread, as a context switch keeps them.
#[derive(Copy, Clone, Debug, PartialEq, Eq, Structural)]
pub struct ThreadContext {
    pub ra: u64,
    pub sp: u64,
    pub s: TaskContext,
}

impl ThreadContext {
    /// All registers zero.
    pub fn zero_init() -> (r: ThreadContext)
        ensures
            r.ra == 0,
            r.sp == 0,
            r.s == TaskContext::spec_with(0, 0),
    {
        ThreadContext { ra: 0, sp: 0, s: TaskContext::zero_init() }
    }
}

/// What each hart keeps about itself.
#[derive(Copy, Clone, Debug, PartialEq, Eq, Structural)]
pub struct CpuContext {
    pub hart_id: usize,
    pub enable: bool,
}

impl CpuContext {
    /// The context of a hart not yet started.
    pub fn new() -> (r: CpuContext)
        ensures
            r.hart_id == usize::MAX,
            !r.enable,
    {
        CpuContext { hart_id: usize::MAX, enable: false }
    }
}

/// The user registers saved on a trap, and what the trap handler needs to
/// enter the kernel.
pub struct TrapContext {
    /// General-purpose registers `x0`..`x31`.
    pub x: Vec<u64>,
    /// Supervisor status.
    pub sstatus: u64,
    /// Address to resume at.
    pub sepc: u64,
    /// `satp` of the kernel's address space.
    pub kernel_satp: u64,
    /// Top of the kernel stack of the owning task.
    pub kernel_sp: u64,
    /// Address of the trap handler.
    pub trap_handler: u64,
}

/// `sstatus` with the previous privilege (SPP, bit 8) set to user: clear.
pub open spec fn user_sstatus(sstatus: u64) -> u64 {
    sstatus & !0x100u64
}

impl TrapContext {
    /// The trap context is well formed: it holds every register.
    pub open spec fn wf(&self) -> bool {
        self.x@.len() == NUM_REGS
    }

    /// A copy of this context.
    pub fn duplicate(&self) -> (r: TrapContext)
        ensures
            r.x@ == self.x@,
            r.sstatus == self.sstatus,
            r.sepc == self.sepc,
            r.kernel_satp == self.kernel_satp,
            r.kernel_sp == self.kernel_sp,
            r.trap_handler == self.trap_handler,
    {
        let mut x: Vec<u64> = Vec::new();
        let mut i: usize = 0;
        while i < self.x.len()
            invariant
                i <= self.x@.len(),
                x@ == self.x@.subrange(0, i as int),
            decreases self.x@.len() - i,
        {
            x.push(self.x[i]);
            i = i + 1;
            assert(x@ =~= self.x@.subrange(0, i as int));
        }
        assert(x@ =~= self.x@);
        TrapContext {
            x,
            sstatus: self.sstatus,
            sepc: self.sepc,
            kernel_satp: self.kernel_satp,
            kernel_sp: self.kernel_sp,
            trap_handler: self.trap_handler,
        }
    }

    /// Sets register `i` to `v`.
    pub fn set_reg(&mut self, i: usize, v: u64)
        requires
            old(self).wf(),
            i < NUM_REGS,
        ensures
            final(self).wf(),
            final(self).x@ == old(self).x@.update(i as int, v),
            final(self).sepc == old(self).sepc,
            final(self).sstatus == old(self).sstatus,
            final(self).kernel_satp == old(self).kernel_satp,
            final(self).kernel_sp == old(self).kernel_sp,
            final(self).trap_handler == old(self).trap_handler,
    {
        self.x.set(i, v);
    }

    /// Sets the user stack pointer.
    pub fn set_sp(&mut self, sp: u64)
        requires
            old(self).wf(),
        ensures
            final(self).wf(),
            final(self).x@ == old(self).x@.update(REG_SP as int, sp),
            final(self).sepc == old(self).sepc,
            final(self).sstatus == old(self).sstatus,
            final(self).kernel_satp == old(self).kernel_satp,
            final(self).kernel_sp == old(self).kernel_sp,
            final(self).trap_handler == old(self).trap_handler,
    {
        self.x.set(REG_SP, sp);
    }

    /// The context in which a program first enters user mode: every register
    /// zero but the stack pointer, execution at `entry`, the previous privilege
    /// set to user in `sstatus`.
    pub fn app_init_context(entry: u64, sp: u64, sstatus: u64, kernel_satp: u64, kernel_sp: u64,
        trap_handler: u64) -> (r: TrapContext)
        ensures
            r.wf(),
            r.x@ == Seq::new(NUM_REGS as nat, |i: int| if i == REG_SP { sp } else { 0u64 }),
            r.sepc == entry,
            r.sstatus == user_sstatus(sstatus),
            r.kernel_satp == kernel_satp,
            r.kernel_sp == kernel_sp,
            r.trap_handler == trap_handler,
    {
        let mut x: Vec<u64> = Vec::new();
        let mut i: usize = 0;
        while i < NUM_REGS
            invariant
                i <= NUM_REGS,
                x@.len() == i,
                forall|k: int| 0 <= k < i ==> #[trigger] x@[k] == 0,
            decreases NUM_REGS - i,
        {
            x.push(0);
            i = i + 1;
        }
        let mut cx = TrapContext {
            x,
            sstatus: sstatus & !0x100u64,
            sepc: entry,
            kernel_satp,
            kernel_sp,
            trap_handler,
        };
        cx.set_sp(sp);
        assert(cx.x@ =~= Seq::new(NUM_REGS as nat, |i: int| if i == REG_SP { sp } else { 0u64 }));
        cx
    }
}

} // verus!
