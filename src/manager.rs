//! The ready queue and the per-hart "current task" slot.
use vstd::prelude::*;
use std::collections::VecDeque;
use crate::context::TaskContext;

verus! {

/// A FIFO queue of ready tasks, by process identifier.
pub struct TaskManager {
    ready_queue: VecDeque<usize>,
}

impl View for TaskManager {
    type V = Seq<usize>;

    closed spec fn view(&self) -> Seq<usize> {
        self.ready_queue@
    }
}

impl TaskManager {
    /// An empty queue.
    pub fn new() -> (r: TaskManager)
        ensures
            r@ == Seq::<usize>::empty(),
    {
        TaskManager { ready_queue: VecDeque::new() }
    }

    /// Puts `task` at the back of the queue.
    pub fn add(&mut self, task: usize)
        ensures
            final(self)@ == old(self)@.push(task),
    {
        self.ready_queue.push_back(task);
    }

    /// Takes the task at the front of the queue.
    pub fn fetch(&mut self) -> (r: Option<usize>)
        ensures
            old(self)@.len() == 0 ==> r is None && final(self)@ == old(self)@,
            old(self)@.len() > 0 ==> r == Some(old(self)@[0]) && final(self)@ == old(self)@.drop_first(),
    {
        self.ready_queue.pop_front()
    }

    /// Number of queued tasks.
    pub fn len(&self) -> (r: usize)
        ensures
            r == self@.len(),
    {
        self.ready_queue.len()
    }
}

/// Puts `task` at the back of `manager`'s queue.
pub fn add_task(manager: &mut TaskManager, task: usize)
    ensures
        final(manager)@ == old(manager)@.push(task),
{
    manager.add(task);
}

/// Takes the task at the front of `manager`'s queue.
pub fn fetch_task(manager: &mut TaskManager) -> (r: Option<usize>)
    ensures
        old(manager)@.len() == 0 ==> r is None && final(manager)@ == old(manager)@,
        old(manager)@.len() > 0 ==> r == Some(old(manager)@[0]) && final(manager)@ == old(manager)@.drop_first(),
{
    manager.fetch()
}

/// What one hart runs: the current task, if any, and the idle context that
/// every switch away from a task goes to.
pub struct Processor {
    current: Option<usize>,
    idle_task_cx: TaskContext,
}

impl Processor {
    /// The task this hart runs.
    pub closed spec fn spec_current(&self) -> Option<usize> {
        self.current
    }

    /// A hart that runs nothing, with a zero idle context.
    pub fn new() -> (r: Processor)
        ensures
            r.spec_current() is None,
            r.spec_idle() == TaskContext::spec_with(0, 0),
    {
        Processor { current: None, idle_task_cx: TaskContext::zero_init() }
    }

    /// Takes the current task out of the slot.
    pub fn take_current(&mut self) -> (r: Option<usize>)
        ensures
            r == old(self).spec_current(),
            final(self).spec_current() is None,
    {
        self.current.take()
    }

    /// The current task.
    pub fn current(&self) -> (r: Option<usize>)
        ensures
            r == self.spec_current(),
    {
        self.current
    }

    /// Records `task` as the one this hart runs.
    pub fn set_current(&mut self, task: usize)
        ensures
            final(self).spec_current() == Some(task),
    {
        self.current = Some(task);
    }

    /// The idle context.
    pub closed spec fn spec_idle(&self) -> TaskContext {
        self.idle_task_cx
    }

    /// The idle context, the target of every switch away from a task.
    pub fn idle_task_cx(&self) -> (r: TaskContext)
        ensures
            r == self.spec_idle(),
    {
        self.idle_task_cx
    }
}

} // verus!
