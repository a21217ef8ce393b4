//! The scheduler bridge, as the synchronization layer sees it: a table of
//! thread statuses. Blocking a thread removes it from the ready set; waking
//! it puts it back. Task selection and context switching belong to the
//! scheduler itself and are outside this layer.

use vstd::prelude::*;

verus! {

/// Life-cycle status of a thread, as tracked by the scheduler.
#[derive(Clone, Copy, Debug, PartialEq, Eq, Structural)]
pub enum TaskStatus {
    /// Runnable (or currently running: on a single core the distinction
    /// never matters between kernel entries).
    Ready,
    Running,
    /// Out of the ready set, waiting in some wait queue to be woken.
    Blocked,
}

/// The scheduler's view of every thread in the process.
pub struct ThreadTable {
    pub status: Vec<TaskStatus>,
}

impl ThreadTable {
    pub open spec fn n_threads(&self) -> int {
        self.status@.len() as int
    }

    pub open spec fn is_ready(&self, t: int) -> bool {
        self.status@[t] is Ready
    }

    pub open spec fn is_blocked(&self, t: int) -> bool {
        self.status@[t] is Blocked
    }

    pub fn new() -> (th: ThreadTable)
        ensures
            th.n_threads() == 0,
    {
        ThreadTable { status: Vec::new() }
    }

    /// A newly created thread enters the ready set.
    pub fn add_thread(&mut self) -> (tid: usize)
        ensures
            tid == old(self).n_threads(),
            final(self).status@ == old(self).status@.push(TaskStatus::Ready),
    {
        let tid = self.status.len();
        self.status.push(TaskStatus::Ready);
        tid
    }

    /// Remove the calling thread from the ready set; control goes back to
    /// the scheduler until some release wakes the thread.
    pub fn block(&mut self, tid: usize)
        requires
            (tid as int) < old(self).n_threads(),
        ensures
            final(self).status@ == old(self).status@.update(tid as int, TaskStatus::Blocked),
    {
        self.status[tid] = TaskStatus::Blocked;
    }

    /// Put a woken thread back into the ready set.
    pub fn wake(&mut self, tid: usize)
        requires
            (tid as int) < old(self).n_threads(),
        ensures
            final(self).status@ == old(self).status@.update(tid as int, TaskStatus::Ready),
    {
        self.status[tid] = TaskStatus::Ready;
    }
}

} // verus!
