//! Task control blocks.
use vstd::prelude::*;
use crate::address::PhysPageNum;
use crate::context::{TaskContext, TrapContext};
use crate::memory_set::MemorySet;

verus! {

/// Where a task is in its life.
#[derive(Copy, Clone, Debug, PartialEq, Eq, Structural)]
pub enum TaskStatus {
    /// Not set up yet.
    UnInit,
    /// Waiting in the ready queue.
    Ready,
    /// Running on a hart.
    Running,
    /// Finished, where no parent collects it.
    Exited,
    /// Exited, waiting for its parent to collect it.
    Zombie,
}

/// The mutable state of a task.
pub struct TaskControlBlockInner {
    /// Frame that holds the trap context page.
    pub trap_cx_ppn: PhysPageNum,
    /// Size of the program's image: the first address above its segments.
    pub base_size: u64,
    /// Registers saved when the task was last switched out.
    pub task_cx: TaskContext,
    /// Where the task is in its life.
    pub task_status: TaskStatus,
    /// The task's address space.
    pub memory_set: MemorySet,
    /// Identifier of the parent, if any.
    pub parent: Option<usize>,
    /// Identifiers of the children.
    pub children: Vec<usize>,
    /// Exit code, once exited.
    pub exit_code: i32,
    /// The trap context kept in the trap context page.
    pub trap_cx: TrapContext,
}

/// A task: its identifier, the index of its kernel stack, and its mutable state.
pub struct TaskControlBlock {
    /// Process identifier.
    pub pid: usize,
    /// Index of the kernel stack, which decides where the stack lies.
    pub kernel_stack: usize,
    /// The mutable state.
    pub inner: TaskControlBlockInner,
}

impl TaskControlBlockInner {
    /// The task's state is well formed.
    pub open spec fn wf(&self) -> bool {
        &&& self.memory_set.wf()
        &&& self.trap_cx.wf()
    }

    /// The trap context.
    pub fn get_trap_cx(&self) -> (r: &TrapContext)
        ensures
            r == &self.trap_cx,
    {
        &self.trap_cx
    }

    /// The `satp` value of the task's address space.
    pub fn get_user_token(&self) -> (r: u64)
        requires
            self.memory_set.wf(),
        ensures
            r == (8u64 << 60u64) | self.memory_set.spec_pt().spec_root(),
    {
        self.memory_set.token()
    }

    /// Where the task is in its life.
    pub fn get_status(&self) -> (r: TaskStatus)
        ensures
            r == self.task_status,
    {
        self.task_status
    }

    /// Whether the task has exited and waits to be collected.
    pub fn is_zombie(&self) -> (r: bool)
        ensures
            r == (self.task_status == TaskStatus::Zombie),
    {
        self.get_status() == TaskStatus::Zombie
    }
}

impl TaskControlBlock {
    /// The task's mutable state.
    pub open spec fn spec_inner(&self) -> &TaskControlBlockInner {
        &self.inner
    }

    /// Read access to the task's mutable state.
    pub fn inner_exclusive_access(&self) -> (r: &TaskControlBlockInner)
        ensures
            r == self.spec_inner(),
    {
        &self.inner
    }

    /// The trap context.
    pub fn get_trap_cx(&self) -> (r: &TrapContext)
        ensures
            r == &self.spec_inner().trap_cx,
    {
        &self.inner.trap_cx
    }

    /// The `satp` value of the task's address space.
    pub fn get_user_token(&self) -> (r: u64)
        requires
            self.spec_inner().memory_set.wf(),
        ensures
            r == (8u64 << 60u64) | self.spec_inner().memory_set.spec_pt().spec_root(),
    {
        self.inner.get_user_token()
    }
}

} // verus!
