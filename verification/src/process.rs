//! Process-management syscalls, over a model of the process table they
//! decide about: a slot per process (freed slots stay unused, so pids are
//! never reused), each holding its children, zombie flag, exit code and
//! pending signals. Loading binaries, trap contexts and address spaces
//! belong to the collaborators around the dispatcher and are not modeled.

use vstd::prelude::*;

use crate::sched::TaskStatus;

verus! {

/// Capacity of the per-task syscall counters.
pub const MAX_SYSCALL_NUM: usize = 500;

/// Seconds and microseconds, as handed to user space by the time syscall.
#[derive(Clone, Copy, Debug, PartialEq, Eq, Structural)]
pub struct TimeVal {
    pub sec: usize,
    pub usec: usize,
}

impl TimeVal {
    /// Split a microsecond reading into seconds and the microsecond
    /// remainder — the computation at the heart of the time syscall, whose
    /// raw reading comes from the clock and whose destination is a user
    /// buffer.
    pub fn from_micros(us: usize) -> (t: TimeVal)
        ensures
            t.sec == us / 1_000_000,
            t.usec == us % 1_000_000,
            t.usec < 1_000_000,
    {
        TimeVal { sec: us / 1_000_000, usec: us % 1_000_000 }
    }
}

/// Status, syscall counters and running time of a task.
pub struct TaskInfo {
    pub status: TaskStatus,
    pub syscall_times: [u32; MAX_SYSCALL_NUM],
    pub time: usize,
}

/// The signal bits the kernel recognises.
pub const SIGNAL_MASK: u32 = 0x954;

/// A signal argument is valid when it holds only recognised bits.
pub open spec fn valid_signal(signal: u32) -> bool {
    signal & !SIGNAL_MASK == 0
}

/// One process slot.
pub struct Process {
    /// Pids of the children, in creation order.
    pub children: Vec<usize>,
    pub is_zombie: bool,
    pub exit_code: i32,
    /// Pending signal bits.
    pub signals: u32,
}

/// The process table and the currently running process.
pub struct ProcTable {
    /// Slot per pid; `None` is a deallocated process.
    pub procs: Vec<Option<Process>>,
    /// Pid of the running process.
    pub current: usize,
}

/// Does `pid` select child `c`? -1 selects any child.
pub open spec fn pid_matches(pid: isize, c: usize) -> bool {
    pid == -1 || (pid >= 0 && pid as usize == c)
}

impl ProcTable {
    pub open spec fn live(&self, j: int) -> bool {
        0 <= j < self.procs@.len() && self.procs@[j] is Some
    }

    pub open spec fn proc_at(&self, j: int) -> Process {
        self.procs@[j]->Some_0
    }

    pub open spec fn n_children(&self, j: int) -> int {
        self.proc_at(j).children@.len() as int
    }

    pub open spec fn child_at(&self, j: int, i: int) -> usize {
        self.proc_at(j).children@[i]
    }

    /// Well-formed table: the running process is live; every recorded child
    /// is a live slot; a pid stands in at most one children list, at most
    /// once, and never in its own.
    pub open spec fn wf(&self) -> bool {
        &&& self.procs@.len() <= isize::MAX as usize
        &&& self.live(self.current as int)
        &&& forall|j: int, i: int|
            self.live(j) && 0 <= i < self.n_children(j) ==> self.live(
                #[trigger] self.child_at(j, i) as int,
            )
        &&& forall|j1: int, i1: int, j2: int, i2: int|
            self.live(j1) && 0 <= i1 < self.n_children(j1) && self.live(j2) && 0 <= i2
                < self.n_children(j2) && (j1 != j2 || i1 != i2) ==> #[trigger] self.child_at(
                j1,
                i1,
            ) != #[trigger] self.child_at(j2, i2)
        &&& forall|j: int, i: int|
            self.live(j) && 0 <= i < self.n_children(j) ==> #[trigger] self.child_at(j, i) as int
                != j
    }

    /// A table holding only an initial process, which is running.
    pub fn boot() -> (pt: ProcTable)
        ensures
            pt.wf(),
            pt.procs@.len() == 1,
            pt.current == 0,
            pt.n_children(0) == 0,
    {
        let mut procs: Vec<Option<Process>> = Vec::new();
        procs.push(
            Some(Process { children: Vec::new(), is_zombie: false, exit_code: 0, signals: 0 }),
        );
        ProcTable { procs, current: 0 }
    }

    /// Exit: the current process becomes a zombie carrying the exit code;
    /// the slot stays until the parent collects it. The real entry point
    /// never returns — control goes to the scheduler.
    pub fn sys_exit(&mut self, exit_code: i32)
        requires
            old(self).wf(),
        ensures
            final(self).wf(),
            final(self).current == old(self).current,
            final(self).procs@.len() == old(self).procs@.len(),
            forall|j: int|
                0 <= j < old(self).procs@.len() && j != old(self).current ==> final(self).procs@[j]
                    == old(self).procs@[j],
            final(self).proc_at(old(self).current as int).is_zombie,
            final(self).proc_at(old(self).current as int).exit_code == exit_code,
            final(self).proc_at(old(self).current as int).children@ == old(self).proc_at(
                old(self).current as int,
            ).children@,
            final(self).proc_at(old(self).current as int).signals == old(self).proc_at(
                old(self).current as int,
            ).signals,
    {
        let cur = self.current;
        match &mut self.procs[cur] {
            Some(p) => {
                p.is_zombie = true;
                p.exit_code = exit_code;
            },
            None => {
                proof {
                    assert(false);
                }
            },
        }
        proof {
            lemma_wf_same_children(old(self), self);
        }
    }

    /// Yield: the caller stays ready and cedes the core for one round;
    /// nothing else changes.
    pub fn sys_yield(&self) -> (r: isize)
        ensures
            r == 0,
    {
        0
    }

    /// The running process's pid.
    pub fn sys_getpid(&self) -> (r: isize)
        requires
            self.wf(),
        ensures
            r == self.current as isize,
    {
        self.current as isize
    }

    /// Fork: a fresh process in a fresh slot becomes a child of the caller;
    /// returns the child's pid. (The child's own zero return value lives in
    /// its copied trap context, outside this model.)
    pub fn sys_fork(&mut self) -> (r: isize)
        requires
            old(self).wf(),
            old(self).procs@.len() < isize::MAX as usize,
        ensures
            final(self).wf(),
            r == old(self).procs@.len() as isize,
            final(self).current == old(self).current,
            final(self).procs@.len() == old(self).procs@.len() + 1,
            final(self).live(r as int),
            final(self).proc_at(r as int).children@.len() == 0,
            !final(self).proc_at(r as int).is_zombie,
            final(self).proc_at(r as int).signals == 0,
            final(self).proc_at(old(self).current as int).children@ == old(self).proc_at(
                old(self).current as int,
            ).children@.push(r as usize),
            forall|j: int|
                0 <= j < old(self).procs@.len() && j != old(self).current ==> final(self).procs@[j]
                    == old(self).procs@[j],
    {
        let new_pid = self.procs.len();
        self.procs.push(
            Some(Process { children: Vec::new(), is_zombie: false, exit_code: 0, signals: 0 }),
        );
        let cur = self.current;
        match &mut self.procs[cur] {
            Some(p) => {
                p.children.push(new_pid);
            },
            None => {
                proof {
                    assert(false);
                }
            },
        }
        proof {
            let sf = *self;
            let oldt = *old(self);
            let cur = oldt.current as int;
            assert forall|j: int, i: int|
                sf.live(j) && 0 <= i < sf.n_children(j) implies sf.live(
                #[trigger] sf.child_at(j, i) as int,
            ) by {
                if j == cur {
                    if i < oldt.n_children(cur) {
                        assert(sf.child_at(j, i) == oldt.child_at(cur, i));
                        assert(oldt.live(oldt.child_at(cur, i) as int));
                    } else {
                        assert(sf.child_at(j, i) == new_pid);
                    }
                } else if j < oldt.procs@.len() {
                    assert(sf.child_at(j, i) == oldt.child_at(j, i));
                    assert(oldt.live(oldt.child_at(j, i) as int));
                }
            }
            assert forall|j1: int, i1: int, j2: int, i2: int|
                sf.live(j1) && 0 <= i1 < sf.n_children(j1) && sf.live(j2) && 0 <= i2
                    < sf.n_children(j2) && (j1 != j2 || i1 != i2) implies #[trigger] sf.child_at(
                j1,
                i1,
            ) != #[trigger] sf.child_at(j2, i2) by {
                lemma_fork_child_values(&oldt, &sf, new_pid, j1, i1);
                lemma_fork_child_values(&oldt, &sf, new_pid, j2, i2);
            }
            assert forall|j: int, i: int|
                sf.live(j) && 0 <= i < sf.n_children(j) implies #[trigger] sf.child_at(j, i) as int
                != j by {
                lemma_fork_child_values(&oldt, &sf, new_pid, j, i);
            }
        }
        new_pid as isize
    }

    /// Is there any child selected by `pid`?
    pub open spec fn any_child_match(&self, pid: isize) -> bool {
        exists|i: int|
            0 <= i < self.n_children(self.current as int) && pid_matches(
                pid,
                #[trigger] self.child_at(self.current as int, i),
            )
    }

    /// Index of the first selected child that is a zombie, or -1.
    pub open spec fn first_zombie_match(&self, pid: isize, i: int) -> int
        decreases self.n_children(self.current as int) - i,
    {
        let cur = self.current as int;
        if i < 0 || i >= self.n_children(cur) {
            -1
        } else if pid_matches(pid, self.child_at(cur, i)) && self.proc_at(
            self.child_at(cur, i) as int,
        ).is_zombie {
            i
        } else {
            self.first_zombie_match(pid, i + 1)
        }
    }

    /// Wait: with no child selected by `pid`, -1. With selected children
    /// but none of them a zombie yet, -2. Otherwise the first selected
    /// zombie child is collected: its pid and exit code are returned, it
    /// leaves the caller's children, and its slot is deallocated.
    pub fn sys_waitpid(&mut self, pid: isize) -> (r: (isize, Option<i32>))
        requires
            old(self).wf(),
        ensures
            final(self).wf(),
            final(self).current == old(self).current,
            r.0 == -1 <==> !old(self).any_child_match(pid),
            r.0 == -2 <==> (old(self).any_child_match(pid) && old(self).first_zombie_match(pid, 0)
                == -1),
            r.0 == -1 || r.0 == -2 ==> *final(self) == *old(self) && r.1 is None,
            r.0 >= 0 ==> ({
                let cur = old(self).current as int;
                let at = old(self).first_zombie_match(pid, 0);
                let c = old(self).child_at(cur, at);
                &&& at >= 0
                &&& r.0 == c as isize
                &&& r.1 == Some(old(self).proc_at(c as int).exit_code)
                &&& final(self).procs@.len() == old(self).procs@.len()
                &&& final(self).procs@[c as int] is None
                &&& final(self).proc_at(cur).children@ == old(self).proc_at(cur).children@.remove(
                    at,
                )
                &&& final(self).proc_at(cur).is_zombie == old(self).proc_at(cur).is_zombie
                &&& final(self).proc_at(cur).exit_code == old(self).proc_at(cur).exit_code
                &&& final(self).proc_at(cur).signals == old(self).proc_at(cur).signals
                &&& (forall|j: int|
                    0 <= j < old(self).procs@.len() && j != cur && j != c as int
                        ==> final(self).procs@[j] == old(self).procs@[j])
            }),
    {
        let cur = self.current;
        let kids = self.children_of(cur);
        let n = kids.len();
        let ghost curi = cur as int;

        let mut seen: bool = false;
        let mut i: usize = 0;
        while i < n
            invariant
                i <= n,
                n == kids@.len(),
                kids@ == self.proc_at(curi).children@,
                curi == self.current as int,
                self.wf(),
                seen == exists|k: int|
                    0 <= k < i && pid_matches(pid, #[trigger] self.child_at(curi, k)),
            decreases n - i,
        {
            let c = kids[i];
            if pid == -1 || (pid >= 0 && pid as usize == c) {
                proof {
                    assert(pid_matches(pid, self.child_at(curi, i as int)));
                }
                seen = true;
            }
            i += 1;
        }
        if !seen {
            return (-1, None);
        }

        let mut at: usize = 0;
        let mut found: bool = false;
        let mut j: usize = 0;
        while j < n
            invariant
                j <= n,
                n == kids@.len(),
                kids@ == self.proc_at(curi).children@,
                curi == self.current as int,
                self.wf(),
                !found ==> self.first_zombie_match(pid, 0) == self.first_zombie_match(
                    pid,
                    j as int,
                ),
                found ==> at < j && self.first_zombie_match(pid, 0) == at as int && pid_matches(
                    pid,
                    self.child_at(curi, at as int),
                ) && self.proc_at(self.child_at(curi, at as int) as int).is_zombie,
            decreases n - j,
        {
            if !found {
                let c = kids[j];
                if pid == -1 || (pid >= 0 && pid as usize == c) {
                    proof {
                        assert(self.live(self.child_at(curi, j as int) as int));
                    }
                    if self.zombie_of(c) {
                        at = j;
                        found = true;
                    }
                }
            }
            j += 1;
        }
        if !found {
            proof {
                assert(self.first_zombie_match(pid, 0) == -1);
            }
            return (-2, None);
        }

        let c = kids[at];
        proof {
            assert(pid_matches(pid, self.child_at(curi, at as int)));
            assert(self.live(c as int));
            assert(c as int != curi);
        }
        let code = match &self.procs[c] {
            Some(p) => p.exit_code,
            None => {
                proof {
                    assert(false);
                }
                0
            },
        };
        self.procs[c] = None;
        let ghost mid = *self;
        match &mut self.procs[cur] {
            Some(p) => {
                p.children.remove(at);
            },
            None => {
                proof {
                    assert(false);
                }
            },
        }
        proof {
            let sf = *self;
            let oldt = *old(self);
            assert(sf.proc_at(curi).children@ =~= oldt.proc_at(curi).children@.remove(at as int));
            assert forall|jj: int, ii: int|
                sf.live(jj) && 0 <= ii < sf.n_children(jj) implies sf.live(
                #[trigger] sf.child_at(jj, ii) as int,
            ) by {
                lemma_waitpid_child_values(&oldt, &sf, curi, at as int, jj, ii);
                let (oj, oi) = waitpid_old_index(curi, at as int, jj, ii);
                assert(oldt.live(oldt.child_at(oj, oi) as int));
                assert(oldt.child_at(oj, oi) != oldt.child_at(curi, at as int));
            }
            assert forall|j1: int, i1: int, j2: int, i2: int|
                sf.live(j1) && 0 <= i1 < sf.n_children(j1) && sf.live(j2) && 0 <= i2
                    < sf.n_children(j2) && (j1 != j2 || i1 != i2) implies #[trigger] sf.child_at(
                j1,
                i1,
            ) != #[trigger] sf.child_at(j2, i2) by {
                lemma_waitpid_child_values(&oldt, &sf, curi, at as int, j1, i1);
                lemma_waitpid_child_values(&oldt, &sf, curi, at as int, j2, i2);
            }
            assert forall|jj: int, ii: int|
                sf.live(jj) && 0 <= ii < sf.n_children(jj) implies #[trigger] sf.child_at(jj, ii)
                as int != jj by {
                lemma_waitpid_child_values(&oldt, &sf, curi, at as int, jj, ii);
            }
        }
        (c as isize, Some(code))
    }

    /// Kill: sets the signal bits on the target process; an unknown pid or
    /// unrecognised signal bits are an error (-1).
    pub fn sys_kill(&mut self, pid: usize, signal: u32) -> (r: isize)
        requires
            old(self).wf(),
        ensures
            final(self).wf(),
            r == -1 <==> (!old(self).live(pid as int) || !valid_signal(signal)),
            r == -1 ==> *final(self) == *old(self),
            r == 0 ==> ({
                &&& final(self).procs@.len() == old(self).procs@.len()
                &&& final(self).current == old(self).current
                &&& (forall|j: int|
                    0 <= j < old(self).procs@.len() && j != pid ==> final(self).procs@[j] == old(
                        self,
                    ).procs@[j])
                &&& final(self).proc_at(pid as int).signals == (old(self).proc_at(pid as int).signals
                    | signal)
                &&& final(self).proc_at(pid as int).children@ == old(self).proc_at(
                    pid as int,
                ).children@
                &&& final(self).proc_at(pid as int).is_zombie == old(self).proc_at(
                    pid as int,
                ).is_zombie
                &&& final(self).proc_at(pid as int).exit_code == old(self).proc_at(
                    pid as int,
                ).exit_code
            }),
    {
        if pid >= self.procs.len() {
            return -1;
        }
        let alive = match &self.procs[pid] {
            Some(_) => true,
            None => false,
        };
        if !alive {
            return -1;
        }
        if signal & !SIGNAL_MASK != 0 {
            return -1;
        }
        match &mut self.procs[pid] {
            Some(p) => {
                p.signals = p.signals | signal;
            },
            None => {
                proof {
                    assert(false);
                }
            },
        }
        proof {
            lemma_wf_same_children(old(self), self);
        }
        0
    }

    /// Copy of the children list of a live process.
    fn children_of(&self, j: usize) -> (r: Vec<usize>)
        requires
            self.live(j as int),
        ensures
            r@ == self.proc_at(j as int).children@,
    {
        let mut out: Vec<usize> = Vec::new();
        match &self.procs[j] {
            Some(p) => {
                let n = p.children.len();
                let mut i: usize = 0;
                while i < n
                    invariant
                        i <= n,
                        n == p.children@.len(),
                        out@ == p.children@.subrange(0, i as int),
                    decreases n - i,
                {
                    out.push(p.children[i]);
                    proof {
                        assert(out@ =~= p.children@.subrange(0, i + 1));
                    }
                    i += 1;
                }
                proof {
                    assert(out@ =~= p.children@);
                }
            },
            None => {
                proof {
                    assert(false);
                }
            },
        }
        out
    }

    /// Whether a live process is a zombie.
    fn zombie_of(&self, c: usize) -> (r: bool)
        requires
            self.live(c as int),
        ensures
            r == self.proc_at(c as int).is_zombie,
    {
        match &self.procs[c] {
            Some(p) => p.is_zombie,
            None => {
                proof {
                    assert(false);
                }
                false
            },
        }
    }
}

/// Unimplemented in this kernel: always -1.
pub fn sys_task_info(ti: &mut TaskInfo) -> (r: isize)
    ensures
        r == -1,
        *final(ti) == *old(ti),
{
    -1
}

/// Unimplemented in this kernel: always -1.
pub fn sys_mmap(start: usize, len: usize, port: usize) -> (r: isize)
    ensures
        r == -1,
{
    -1
}

/// Unimplemented in this kernel: always -1.
pub fn sys_munmap(start: usize, len: usize) -> (r: isize)
    ensures
        r == -1,
{
    -1
}

/// Unimplemented in this kernel: always -1.
pub fn sys_spawn(path: &Vec<u8>) -> (r: isize)
    ensures
        r == -1,
{
    -1
}

/// Unimplemented in this kernel: always -1.
pub fn sys_set_priority(prio: isize) -> (r: isize)
    ensures
        r == -1,
{
    -1
}

/// A table that differs from a well-formed one only inside per-process
/// fields other than `children` keeps the well-formedness clauses.
proof fn lemma_wf_same_children(a: &ProcTable, b: &ProcTable)
    requires
        a.wf(),
        b.current == a.current,
        b.procs@.len() == a.procs@.len(),
        forall|j: int| a.live(j) <==> b.live(j),
        forall|j: int| a.live(j) ==> #[trigger] b.proc_at(j).children@ == a.proc_at(j).children@,
    ensures
        b.wf(),
{
    assert forall|j: int, i: int|
        b.live(j) && 0 <= i < b.n_children(j) implies b.live(#[trigger] b.child_at(j, i) as int) by {
        assert(b.proc_at(j).children@ == a.proc_at(j).children@);
        assert(a.live(a.child_at(j, i) as int));
    }
    assert forall|j1: int, i1: int, j2: int, i2: int|
        b.live(j1) && 0 <= i1 < b.n_children(j1) && b.live(j2) && 0 <= i2 < b.n_children(j2) && (j1
            != j2 || i1 != i2) implies #[trigger] b.child_at(j1, i1) != #[trigger] b.child_at(
        j2,
        i2,
    ) by {
        assert(b.proc_at(j1).children@ == a.proc_at(j1).children@);
        assert(b.proc_at(j2).children@ == a.proc_at(j2).children@);
        assert(a.child_at(j1, i1) != a.child_at(j2, i2));
    }
    assert forall|j: int, i: int|
        b.live(j) && 0 <= i < b.n_children(j) implies #[trigger] b.child_at(j, i) as int != j by {
        assert(b.proc_at(j).children@ == a.proc_at(j).children@);
        assert(a.child_at(j, i) as int != j);
    }
}

/// After a fork, every child entry is either an old entry or the new pid.
proof fn lemma_fork_child_values(oldt: &ProcTable, sf: &ProcTable, new_pid: usize, j: int, i: int)
    requires
        oldt.wf(),
        new_pid == oldt.procs@.len(),
        sf.procs@.len() == oldt.procs@.len() + 1,
        sf.current == oldt.current,
        sf.live(new_pid as int),
        sf.proc_at(new_pid as int).children@.len() == 0,
        sf.proc_at(oldt.current as int).children@ == oldt.proc_at(
            oldt.current as int,
        ).children@.push(new_pid),
        forall|k: int|
            0 <= k < oldt.procs@.len() && k != oldt.current ==> sf.procs@[k] == oldt.procs@[k],
        sf.live(j),
        0 <= i < sf.n_children(j),
    ensures
        (j == oldt.current && i == oldt.n_children(j) && sf.child_at(j, i) == new_pid) || (j
            < oldt.procs@.len() && oldt.live(j) && 0 <= i < oldt.n_children(j) && sf.child_at(j, i)
            == oldt.child_at(j, i) && oldt.child_at(j, i) != new_pid),
{
    let cur = oldt.current as int;
    if j == cur {
        if i < oldt.n_children(cur) {
            assert(sf.child_at(j, i) == oldt.child_at(cur, i));
            assert(oldt.live(oldt.child_at(cur, i) as int));
            assert((oldt.child_at(cur, i) as int) < oldt.procs@.len());
        }
    } else if j == new_pid as int {
        assert(sf.n_children(j) == 0);
    } else {
        assert(sf.procs@[j] == oldt.procs@[j]);
        assert(sf.child_at(j, i) == oldt.child_at(j, i));
        assert(oldt.live(oldt.child_at(j, i) as int));
        assert((oldt.child_at(j, i) as int) < oldt.procs@.len());
    }
}

/// The old-table position a post-waitpid child entry came from.
spec fn waitpid_old_index(cur: int, at: int, j: int, i: int) -> (int, int) {
    if j == cur && i >= at {
        (j, i + 1)
    } else {
        (j, i)
    }
}

/// After a waitpid collected the child at `(cur, at)`, every remaining
/// child entry equals the old entry at `waitpid_old_index`, which is not
/// the collected one.
proof fn lemma_waitpid_child_values(oldt: &ProcTable, sf: &ProcTable, cur: int, at: int, j: int, i: int)
    requires
        oldt.wf(),
        cur == oldt.current as int,
        0 <= at < oldt.n_children(cur),
        sf.procs@.len() == oldt.procs@.len(),
        sf.current == oldt.current,
        sf.procs@[oldt.child_at(cur, at) as int] is None,
        sf.live(cur),
        sf.proc_at(cur).children@ == oldt.proc_at(cur).children@.remove(at),
        forall|k: int|
            0 <= k < oldt.procs@.len() && k != cur && k != oldt.child_at(cur, at) as int
                ==> sf.procs@[k] == oldt.procs@[k],
        sf.live(j),
        0 <= i < sf.n_children(j),
    ensures
        ({
            let (oj, oi) = waitpid_old_index(cur, at, j, i);
            &&& oldt.live(oj)
            &&& 0 <= oi < oldt.n_children(oj)
            &&& sf.child_at(j, i) == oldt.child_at(oj, oi)
            &&& (oj != cur || oi != at)
        }),
{
    let freed = oldt.child_at(cur, at) as int;
    if j == cur {
        assert(sf.proc_at(cur).children@ == oldt.proc_at(cur).children@.remove(at));
        if i >= at {
            assert(sf.child_at(j, i) == oldt.child_at(cur, i + 1));
        } else {
            assert(sf.child_at(j, i) == oldt.child_at(cur, i));
        }
    } else {
        assert(j != freed);
        assert(sf.procs@[j] == oldt.procs@[j]);
        assert(sf.child_at(j, i) == oldt.child_at(j, i));
    }
}

} // verus!
