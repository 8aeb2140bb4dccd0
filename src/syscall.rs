//! Trap and system-call dispatch.
//!
//! The decisions are made here on the kernel's state; what needs the machine
//! (console I/O, the clock, the timer, switching stacks) is handed back to the
//! caller as an outcome, together with everything it needs to finish.
use vstd::prelude::*;
use crate::config::{CLOCK_FREQ, MSEC_PER_SEC, TICKS_PER_SEC};
use crate::context::REG_A0;
use crate::address::VirtAddr;
use crate::kernel::{keeps_current_cx, Kernel};
use crate::task::TaskStatus;

verus! {

/// `read(fd, buf, len)`.
pub const SYSCALL_READ: u64 = 63;
/// `write(fd, buf, len)`.
pub const SYSCALL_WRITE: u64 = 64;
/// `exit(code)`.
pub const SYSCALL_EXIT: u64 = 93;
/// `yield()`.
pub const SYSCALL_YIELD: u64 = 124;
/// `get_time()`.
pub const SYSCALL_GET_TIME: u64 = 169;
/// `getpid()`.
pub const SYSCALL_GETPID: u64 = 172;
/// `fork()`.
pub const SYSCALL_FORK: u64 = 220;
/// `exec(path, argv, envp)`.
pub const SYSCALL_EXEC: u64 = 221;
/// `waitpid(pid, &mut exit_code)`.
pub const SYSCALL_WAITPID: u64 = 260;

/// Register that carries the system-call number.
pub const REG_A7: usize = 17;

/// Exit code of a task killed by a page or store fault.
pub const EXIT_PAGE_FAULT: i32 = -2;
/// Exit code of a task killed by an illegal instruction.
pub const EXIT_ILLEGAL_INSTRUCTION: i32 = -3;

/// `ptr + k`, wrapping.
pub open spec fn ptr_add(ptr: u64, k: u64) -> u64 {
    ((ptr + k) % 0x1_0000_0000_0000_0000int) as u64
}

/// Byte `k` of `code`, least significant first.
pub open spec fn le_byte(code: i32, k: u64) -> u8 {
    (((code as u32) >> ((8 * k) as u32)) & 0xffu32) as u8
}

/// The value of a finished system call, or -1.
pub open spec fn done_value(r: SyscallOutcome) -> i64 {
    match r {
        SyscallOutcome::Done(v) => v,
        _ => -1i64,
    }
}

/// What a system call leaves to do.
#[derive(Copy, Clone, Debug, PartialEq, Eq, Structural)]
pub enum SyscallOutcome {
    /// Finished; the value goes to the caller's `a0`.
    Done(i64),
    /// The caller exited; switch to the idle context.
    Exited,
    /// The caller yielded; switch to the idle context.
    Yielded,
    /// Read up to `len` bytes from `fd` into the caller's buffer at `buf`.
    Read { fd: u64, buf: u64, len: u64 },
    /// Write `len` bytes from the caller's buffer at `buf` to `fd`.
    Write { fd: u64, buf: u64, len: u64 },
    /// Return the time in milliseconds (see `sys_get_time`).
    GetTime,
    /// Replace the caller's program with the one named by the string at `path`.
    Exec { path: u64 },
    /// An unknown system call.
    Unsupported(u64),
}

/// Why the CPU trapped into the kernel.
#[derive(Copy, Clone, Debug, PartialEq, Eq, Structural)]
pub enum TrapCause {
    /// An `ecall` from user mode.
    UserEnvCall,
    /// A store access fault.
    StoreFault,
    /// A store page fault.
    StorePageFault,
    /// A load page fault.
    LoadPageFault,
    /// An instruction page fault.
    InstructionPageFault,
    /// An illegal instruction.
    IllegalInstruction,
    /// The supervisor timer.
    SupervisorTimer,
    /// Anything else, by its `scause` value.
    Other(u64),
}

/// What the trap handler leaves to do.
#[derive(Copy, Clone, Debug, PartialEq, Eq, Structural)]
pub enum TrapOutcome {
    /// Return to the current task.
    Resume,
    /// Switch to the idle context; the current task is gone or waits.
    Schedule,
    /// Re-arm the timer, then switch to the idle context.
    Preempt,
    /// Finish the system call described, then return to the task.
    Syscall(SyscallOutcome),
    /// A cause the kernel does not handle.
    Unsupported(u64),
}

/// The time of the next timer interrupt, one tick after `now`.
pub fn set_next_trigger(now: u64) -> (r: u64)
    requires
        now + CLOCK_FREQ / TICKS_PER_SEC <= u64::MAX,
    ensures
        r == now + CLOCK_FREQ / TICKS_PER_SEC,
{
    now + CLOCK_FREQ / TICKS_PER_SEC
}

/// The machine time `ticks`, in milliseconds.
pub fn sys_get_time(ticks: u64) -> (r: i64)
    ensures
        r == ticks as int / (CLOCK_FREQ / MSEC_PER_SEC) as int,
{
    let ms = ticks / (CLOCK_FREQ / MSEC_PER_SEC);
    assert(ms < 0x8000_0000_0000_0000u64);
    ms as i64
}

/// The current task yields the hart; the call returns 0 when it runs again.
pub fn sys_yield(kernel: &mut Kernel) -> (r: i64)
    requires
        old(kernel).wf(),
    ensures
        final(kernel).wf(),
        final(kernel).spec_current() is None,
        r == 0,
{
    kernel.suspend_current_and_run_next();
    0
}

impl Kernel {
    /// Writes `code` as four little-endian bytes at `ptr` in the current
    /// task's address space: byte `k` goes to `ptr + k` where a framed area
    /// holds that address; other addresses keep their bytes.
    pub fn store_exit_code(&mut self, ptr: u64, code: i32)
        requires
            old(self).wf(),
        ensures
            final(self).wf(),
            final(self).spec_current() == old(self).spec_current(),
            forall|i: int| 0 <= i < old(self).spec_tasks().len() ==> (#[trigger] final(self).spec_tasks()[i]).pid
                == old(self).spec_tasks()[i].pid,
            keeps_current_cx(*old(self), *final(self)),
            final(self).spec_tasks().len() == old(self).spec_tasks().len(),
            old(self).spec_current() is Some && old(self).has_task(old(self).spec_current().unwrap()) ==> {
                let cur = old(self).spec_current().unwrap();
                &&& final(self).has_task(cur)
                &&& forall|k: u64| k < 4 && old(self).task(cur).spec_inner().memory_set.spec_byte(ptr_add(ptr, k)) is Some
                    ==> #[trigger] final(self).task(cur).spec_inner().memory_set.spec_byte(ptr_add(ptr, k)) == Some(
                    le_byte(code, k))
            },
    {
        let cur = match self.current_pid() {
            Some(p) => p,
            None => {
                return;
            },
        };
        let bits = #[verifier::truncate] (code as u32);
        let mut k: u64 = 0;
        while k < 4
            invariant
                k <= 4,
                self.wf(),
                self.spec_current() == old(self).spec_current(),
                self.spec_current() == Some(cur),
                bits == code as u32,
                self.spec_tasks().len() == old(self).spec_tasks().len(),
                forall|i: int| 0 <= i < old(self).spec_tasks().len() ==> (#[trigger] self.spec_tasks()[i]).pid
                    == old(self).spec_tasks()[i].pid,
                forall|i: int| 0 <= i < old(self).spec_tasks().len() ==> (#[trigger] self.spec_tasks()[i]).spec_inner().trap_cx
                    == old(self).spec_tasks()[i].spec_inner().trap_cx,
                old(self).has_task(cur) ==> self.has_task(cur),
                old(self).has_task(cur) ==> forall|x: u64| #[trigger] self.task(cur).spec_inner().memory_set.spec_byte(x)
                    is Some == old(self).task(cur).spec_inner().memory_set.spec_byte(x) is Some,
                old(self).has_task(cur) ==> forall|j: u64| j < k && old(self).task(cur).spec_inner().memory_set.spec_byte(
                    ptr_add(ptr, j)) is Some ==> #[trigger] self.task(cur).spec_inner().memory_set.spec_byte(ptr_add(ptr, j))
                    == Some(le_byte(code, j)),
            decreases 4 - k,
        {
            let byte = ((bits >> ((8 * k) as u32)) & 0xff) as u8;
            let addr = ptr.wrapping_add(k);
            let ghost before = *self;
            self.write_user_byte(cur, VirtAddr(addr), byte);
            proof {
                assert(addr == ptr_add(ptr, k));
                if old(self).has_task(cur) {
                    assert forall|j: u64| j < k + 1 && old(self).task(cur).spec_inner().memory_set.spec_byte(ptr_add(ptr, j))
                        is Some implies #[trigger] self.task(cur).spec_inner().memory_set.spec_byte(ptr_add(ptr, j)) == Some(
                        le_byte(code, j)) by {
                        if j < k {
                            assert(ptr_add(ptr, j) != ptr_add(ptr, k));
                            assert(before.task(cur).spec_inner().memory_set.spec_byte(ptr_add(ptr, j)) == Some(le_byte(code, j)));
                        } else {
                            assert(before.task(cur).spec_inner().memory_set.spec_byte(ptr_add(ptr, j)) is Some);
                        }
                    }
                }
            }
            k = k + 1;
        }
        proof {
            if old(self).has_task(cur) {
                let q = choose|q: int| 0 <= q < old(self).spec_tasks().len() && #[trigger] old(self).spec_tasks()[q].pid == cur;
                old(self).lemma_unique_pid(q, cur);
                assert(self.spec_tasks()[q].pid == cur);
                self.lemma_unique_pid(q, cur);
            }
        }
    }

    /// Carries out system call `id` with arguments `a0`, `a1`, `a2` for the
    /// current task.
    pub fn syscall(&mut self, id: u64, a0: u64, a1: u64, a2: u64) -> (r: SyscallOutcome)
        requires
            old(self).wf(),
        ensures
            final(self).wf(),
            id == SYSCALL_EXIT ==> r == SyscallOutcome::Exited && final(self).spec_current() is None,
            !(id == SYSCALL_EXIT || id == SYSCALL_YIELD) ==> keeps_current_cx(*old(self), *final(self))
                && final(self).spec_current() == old(self).spec_current() && r != SyscallOutcome::Exited
                && r != SyscallOutcome::Yielded,
            id == SYSCALL_YIELD ==> r == SyscallOutcome::Yielded && final(self).spec_current() is None,
            id == SYSCALL_READ ==> r == (SyscallOutcome::Read { fd: a0, buf: a1, len: a2 }),
            id == SYSCALL_WRITE ==> r == (SyscallOutcome::Write { fd: a0, buf: a1, len: a2 }),
            id == SYSCALL_GET_TIME ==> r == SyscallOutcome::GetTime,
            id == SYSCALL_EXEC ==> r == (SyscallOutcome::Exec { path: a0 }),
            id == SYSCALL_GETPID ==> r == SyscallOutcome::Done(
                match old(self).spec_current() { Some(p) => p as i64, None => -1i64 }),
            id == SYSCALL_FORK ==> (r matches SyscallOutcome::Done(v) && (v == -1 || v >= 0)),
            id == SYSCALL_FORK && done_value(r) >= 0 ==> ({
                let v = done_value(r);
                &&& !old(self).has_task(v as usize)
                &&& final(self).has_task(v as usize)
                &&& final(self).task(v as usize).spec_inner().parent == old(self).spec_current()
                &&& final(self).task(v as usize).spec_inner().task_status == TaskStatus::Ready
                &&& final(self).spec_ready() == old(self).spec_ready().push(v as usize)
            }),
            id == SYSCALL_WAITPID ==> (r matches SyscallOutcome::Done(v) && (v == -1 || v == -2 || v >= 0)),
            id == SYSCALL_WAITPID && done_value(r) >= 0 ==> old(self).has_task(done_value(r) as usize) && !final(
                self).has_task(done_value(r) as usize),
            id == SYSCALL_WAITPID && done_value(r) < 0 ==> final(self).spec_tasks() == old(self).spec_tasks(),
            !(id == SYSCALL_EXIT || id == SYSCALL_YIELD || id == SYSCALL_READ || id == SYSCALL_WRITE || id
                == SYSCALL_GET_TIME || id == SYSCALL_EXEC || id == SYSCALL_GETPID || id == SYSCALL_FORK || id
                == SYSCALL_WAITPID) ==> r == SyscallOutcome::Unsupported(id),
    {
        if id == SYSCALL_EXIT {
            self.exit_current_and_run_next(#[verifier::truncate] (a0 as i32));
            SyscallOutcome::Exited
        } else if id == SYSCALL_YIELD {
            self.suspend_current_and_run_next();
            SyscallOutcome::Yielded
        } else if id == SYSCALL_READ {
            SyscallOutcome::Read { fd: a0, buf: a1, len: a2 }
        } else if id == SYSCALL_WRITE {
            SyscallOutcome::Write { fd: a0, buf: a1, len: a2 }
        } else if id == SYSCALL_GET_TIME {
            SyscallOutcome::GetTime
        } else if id == SYSCALL_EXEC {
            SyscallOutcome::Exec { path: a0 }
        } else if id == SYSCALL_GETPID {
            match self.current_pid() {
                Some(p) => SyscallOutcome::Done(p as i64),
                None => SyscallOutcome::Done(-1),
            }
        } else if id == SYSCALL_FORK {
            match self.fork() {
                Some(c) => SyscallOutcome::Done(c as i64),
                None => SyscallOutcome::Done(-1),
            }
        } else if id == SYSCALL_WAITPID {
            let (pid, code) = self.waitpid(a0 as i64 as isize);
            if pid >= 0 {
                self.store_exit_code(a1, code);
            }
            SyscallOutcome::Done(pid as i64)
        } else {
            SyscallOutcome::Unsupported(id)
        }
    }

    /// Handles a trap from the current task. A system call advances the
    /// task's resume address past the `ecall` and, when it finishes here,
    /// puts its result in `a0`. A fault kills the task with a fault exit code
    /// (the rest of the system goes on); the timer makes the task yield.
    pub fn trap_handler(&mut self, cause: TrapCause) -> (r: TrapOutcome)
        requires
            old(self).wf(),
        ensures
            final(self).wf(),
            cause == TrapCause::SupervisorTimer ==> r == TrapOutcome::Preempt && final(self).spec_current() is None,
            (cause == TrapCause::StoreFault || cause == TrapCause::StorePageFault || cause == TrapCause::LoadPageFault
                || cause == TrapCause::InstructionPageFault || cause == TrapCause::IllegalInstruction) ==> r
                == TrapOutcome::Schedule && final(self).spec_current() is None,
            cause matches TrapCause::Other(c) ==> r == TrapOutcome::Unsupported(c),
            cause == TrapCause::UserEnvCall ==> (r == TrapOutcome::Resume || r == TrapOutcome::Schedule
                || r is Syscall),
            cause == TrapCause::UserEnvCall && old(self).spec_current() is Some && old(self).has_task(
                old(self).spec_current().unwrap()) && (r == TrapOutcome::Resume || r is Syscall) ==> {
                let cur = old(self).spec_current().unwrap();
                let a = old(self).task(cur).spec_inner().trap_cx;
                let b = final(self).task(cur).spec_inner().trap_cx;
                &&& final(self).has_task(cur)
                &&& b.sepc == (a.sepc + 4) % 0x1_0000_0000_0000_0000int
                &&& b.x@ == a.x@.update(REG_A0 as int, b.x@[REG_A0 as int])
                &&& r is Syscall ==> b.x@ == a.x@
            },
            (cause == TrapCause::StoreFault || cause == TrapCause::StorePageFault || cause == TrapCause::LoadPageFault
                || cause == TrapCause::InstructionPageFault) && old(self).spec_current() is Some && old(self).has_task(
                old(self).spec_current().unwrap()) ==> final(self).has_task(old(self).spec_current().unwrap()) && final(
                self).task(old(self).spec_current().unwrap()).spec_inner().task_status == TaskStatus::Zombie && final(
                self).task(old(self).spec_current().unwrap()).spec_inner().exit_code == EXIT_PAGE_FAULT,
            cause == TrapCause::IllegalInstruction && old(self).spec_current() is Some && old(self).has_task(
                old(self).spec_current().unwrap()) ==> final(self).has_task(old(self).spec_current().unwrap()) && final(
                self).task(old(self).spec_current().unwrap()).spec_inner().task_status == TaskStatus::Zombie && final(
                self).task(old(self).spec_current().unwrap()).spec_inner().exit_code == EXIT_ILLEGAL_INSTRUCTION,
            cause == TrapCause::SupervisorTimer && old(self).spec_current() is Some && old(self).has_task(
                old(self).spec_current().unwrap()) ==> final(self).has_task(old(self).spec_current().unwrap()) && final(
                self).task(old(self).spec_current().unwrap()).spec_inner().task_status == TaskStatus::Ready
                && final(self).spec_ready() == old(self).spec_ready().push(old(self).spec_current().unwrap()),
    {
        match cause {
            TrapCause::UserEnvCall => {
                let (id, a0, a1, a2) = match self.current_trap_cx() {
                    Some(cx) => {
                        (cx.x[REG_A7], cx.x[REG_A0], cx.x[REG_A0 + 1], cx.x[REG_A0 + 2])
                    },
                    None => {
                        return TrapOutcome::Schedule;
                    },
                };
                let ghost s0 = *self;
                let ghost cur = self.spec_current().unwrap();
                let cx_a0 = self.current_a0();
                proof {
                    s0.lemma_task_wf(cur);
                }
                self.update_current_trap_cx(REG_A0, cx_a0, 4);
                let ghost s1 = *self;
                proof {
                    let a = s0.task(cur).spec_inner().trap_cx;
                    assert(a.x@.update(REG_A0 as int, cx_a0) =~= a.x@);
                }
                match self.syscall(id, a0, a1, a2) {
                    SyscallOutcome::Done(v) => {
                        let ghost s2 = *self;
                        proof {
                            s2.lemma_task_wf(cur);
                        }
                        self.update_current_trap_cx(REG_A0, #[verifier::truncate] (v as u64), 0);
                        proof {
                            let a = s0.task(cur).spec_inner().trap_cx;
                            let b = self.task(cur).spec_inner().trap_cx;
                            assert(b.x@ =~= a.x@.update(REG_A0 as int, b.x@[REG_A0 as int]));
                        }
                        TrapOutcome::Resume
                    },
                    SyscallOutcome::Exited => TrapOutcome::Schedule,
                    SyscallOutcome::Yielded => TrapOutcome::Schedule,
                    other => TrapOutcome::Syscall(other),
                }
            },
            TrapCause::StoreFault | TrapCause::StorePageFault | TrapCause::LoadPageFault
            | TrapCause::InstructionPageFault => {
                self.exit_current_and_run_next(EXIT_PAGE_FAULT);
                TrapOutcome::Schedule
            },
            TrapCause::IllegalInstruction => {
                self.exit_current_and_run_next(EXIT_ILLEGAL_INSTRUCTION);
                TrapOutcome::Schedule
            },
            TrapCause::SupervisorTimer => {
                self.suspend_current_and_run_next();
                TrapOutcome::Preempt
            },
            TrapCause::Other(c) => TrapOutcome::Unsupported(c),
        }
    }
}

} // verus!
