//! Mutual-exclusion locks: a spinning variant (a bare boolean, no deadlock
//! bookkeeping) and a blocking variant (boolean plus FIFO wait queue,
//! registered in the resource registry with one unit and deadlock-checked on
//! every acquire).
//!
//! On this single-core, cooperatively scheduled kernel a `lock` call either
//! completes at once or leaves the calling thread enqueued and blocked; the
//! matching release then hands the lock directly to the queue head, doing the
//! woken thread's bookkeeping (`need -= 1`, `allocation += 1`) inside the
//! same critical section, so the lock never passes through an unlocked state
//! while threads are waiting and no later caller can overtake the queue.

use vstd::prelude::*;

use crate::registry::ResourceRegistry;
use crate::registry::cell_set;
use crate::registry::lemma_allocs_equal;
use crate::registry::lemma_allocs_pointwise;
use crate::registry::lemma_avails_equal;
use crate::registry::lemma_avails_pointwise;
use crate::registry::lemma_needs_equal;
use crate::registry::lemma_needs_pointwise;
use crate::registry::lemma_views;
use crate::safety::col_sum;
use crate::safety::lemma_col_sum_bounds;
use crate::safety::lemma_col_sum_entry;
use crate::sched::TaskStatus;
use crate::sched::ThreadTable;

verus! {

/// Outcome of one acquire attempt.
#[derive(Clone, Copy, Debug, PartialEq, Eq, Structural)]
pub enum LockResult {
    /// The resource was granted: the caller now holds it.
    Acquired,
    /// The caller was enqueued and blocked; a later release will hand the
    /// resource to it directly and wake it.
    Blocked,
    /// The lock is held and does no queueing: the caller stays ready, yields
    /// the core, and must try again.
    Spinning,
    /// Granting would leave the system unsafe: the caller gets an error and
    /// stays ready. Its raised `need` entry is deliberately not rolled back.
    DeadlockDetected,
}

/// A mutual-exclusion lock usable by the threads of a process.
///
/// `tid` is the calling thread, as the scheduler's current-thread query
/// reports it; the registry and thread table are the process state the call
/// works under (one exclusive critical section per call).
/// `lock_pre`/`lock_post` (and the unlock pair) are the contract of the two
/// operations; each implementor states its own.
pub trait Mutex {
    spec fn lock_pre(&self, tid: usize, registry: &ResourceRegistry, threads: &ThreadTable) -> bool;

    spec fn lock_post(
        &self,
        post: &Self,
        tid: usize,
        reg0: &ResourceRegistry,
        reg1: &ResourceRegistry,
        th0: &ThreadTable,
        th1: &ThreadTable,
        r: LockResult,
    ) -> bool;

    spec fn unlock_pre(&self, tid: usize, registry: &ResourceRegistry, threads: &ThreadTable) -> bool;

    spec fn unlock_post(
        &self,
        post: &Self,
        tid: usize,
        reg0: &ResourceRegistry,
        reg1: &ResourceRegistry,
        th0: &ThreadTable,
        th1: &ThreadTable,
    ) -> bool;

    /// One acquire attempt by thread `tid`.
    fn lock(&mut self, tid: usize, registry: &mut ResourceRegistry, threads: &mut ThreadTable) -> (r:
        LockResult)
        requires
            old(self).lock_pre(tid, old(registry), old(threads)),
        ensures
            old(self).lock_post(final(self), tid, old(registry), final(registry), old(threads), final(threads), r),
    ;

    /// Release by thread `tid`.
    fn unlock(&mut self, tid: usize, registry: &mut ResourceRegistry, threads: &mut ThreadTable)
        requires
            old(self).unlock_pre(tid, old(registry), old(threads)),
        ensures
            old(self).unlock_post(final(self), tid, old(registry), final(registry), old(threads), final(threads)),
    ;
}

/// Cooperative busy-wait lock: a bare boolean, no ownership tracking, no
/// registry entry. Meant for short critical sections; a spinning caller
/// yields the single core and retries, so it cannot starve the holder.
pub struct MutexSpin {
    pub locked: bool,
}

impl MutexSpin {
    /// Create a new spinning mutex, initially unlocked.
    pub fn new() -> (m: MutexSpin)
        ensures
            !m.locked,
    {
        MutexSpin { locked: false }
    }
}

/// The registry and the thread table are untouched.
pub open spec fn untouched(
    reg0: &ResourceRegistry,
    reg1: &ResourceRegistry,
    th0: &ThreadTable,
    th1: &ThreadTable,
) -> bool {
    &&& reg1.available@ == reg0.available@
    &&& reg1.total@ == reg0.total@
    &&& reg1.need@ == reg0.need@
    &&& reg1.allocation@ == reg0.allocation@
    &&& th1.status@ == th0.status@
}

impl Mutex for MutexSpin {
    open spec fn lock_pre(&self, tid: usize, registry: &ResourceRegistry, threads: &ThreadTable) -> bool {
        true
    }

    /// A free lock is taken at once; a held one sends the caller spinning.
    /// In particular, an attempt made after the holder released always
    /// succeeds.
    open spec fn lock_post(
        &self,
        post: &Self,
        tid: usize,
        reg0: &ResourceRegistry,
        reg1: &ResourceRegistry,
        th0: &ThreadTable,
        th1: &ThreadTable,
        r: LockResult,
    ) -> bool {
        &&& untouched(reg0, reg1, th0, th1)
        &&& (r == LockResult::Acquired <==> !self.locked)
        &&& (r == LockResult::Spinning <==> self.locked)
        &&& post.locked
    }

    open spec fn unlock_pre(&self, tid: usize, registry: &ResourceRegistry, threads: &ThreadTable) -> bool {
        true
    }

    open spec fn unlock_post(
        &self,
        post: &Self,
        tid: usize,
        reg0: &ResourceRegistry,
        reg1: &ResourceRegistry,
        th0: &ThreadTable,
        th1: &ThreadTable,
    ) -> bool {
        &&& untouched(reg0, reg1, th0, th1)
        &&& !post.locked
    }

    /// Try to take the lock; on `Spinning` the caller yields (staying in the
    /// ready set) and calls again.
    fn lock(&mut self, tid: usize, registry: &mut ResourceRegistry, threads: &mut ThreadTable) -> (r:
        LockResult) {
        if self.locked {
            LockResult::Spinning
        } else {
            self.locked = true;
            LockResult::Acquired
        }
    }

    fn unlock(&mut self, tid: usize, registry: &mut ResourceRegistry, threads: &mut ThreadTable) {
        self.locked = false;
    }
}

/// State of a blocking mutex; reached only under the process's
/// exclusive-access guard.
pub struct MutexBlockingInner {
    pub locked: bool,
    /// Slot of this mutex in the registry matrices; registered with one unit.
    pub rid: usize,
    /// FIFO queue of blocked waiters, head first.
    pub wait_queue: Vec<usize>,
}

/// Blocking mutex: one registry unit, a FIFO wait queue, deadlock-checked on
/// every acquire.
pub struct MutexBlocking {
    pub inner: MutexBlockingInner,
}

impl MutexBlocking {
    /// Coupling between this mutex, the registry and the scheduler:
    /// the registry is well formed and knows this mutex as one unit; the
    /// boolean mirrors the free pool; waiters are distinct blocked threads,
    /// each with a pending request and no holding on this mutex; nobody
    /// waits on a free mutex.
    pub open spec fn wf(&self, reg: &ResourceRegistry, th: &ThreadTable) -> bool {
        let q = self.inner.wait_queue@;
        let rid = self.inner.rid as int;
        &&& reg.wf()
        &&& th.n_threads() == reg.n_threads()
        &&& rid < reg.n_rids()
        &&& reg.total_of(rid) == 1
        &&& (self.inner.locked <==> reg.avail_of(rid) == 0)
        &&& (!self.inner.locked ==> q.len() == 0)
        &&& forall|k: int| 0 <= k < q.len() ==> (#[trigger] q[k] as int) < reg.n_threads()
        &&& forall|k: int| 0 <= k < q.len() ==> th.is_blocked(#[trigger] q[k] as int)
        &&& forall|k: int| 0 <= k < q.len() ==> reg.need_of(#[trigger] q[k] as int, rid) >= 1
        &&& forall|k: int| 0 <= k < q.len() ==> reg.alloc_of(#[trigger] q[k] as int, rid) == 0
        &&& forall|k1: int, k2: int| 0 <= k1 < k2 < q.len() ==> #[trigger] q[k1] != #[trigger] q[k2]
    }

    /// Create a new blocking mutex: registers one unit in the registry.
    pub fn new(registry: &mut ResourceRegistry, threads: &ThreadTable) -> (m: MutexBlocking)
        requires
            old(registry).wf(),
            threads.n_threads() == old(registry).n_threads(),
        ensures
            m.wf(final(registry), threads),
            !m.inner.locked,
            m.inner.wait_queue@.len() == 0,
            m.inner.rid == old(registry).n_rids(),
            final(registry).wf(),
            final(registry).n_rids() == old(registry).n_rids() + 1,
            final(registry).n_threads() == old(registry).n_threads(),
            final(registry).avails() == old(registry).avails().push(1),
            final(registry).total@ == old(registry).total@.push(1),
            forall|t: int|
                0 <= t < old(registry).n_threads() ==> #[trigger] final(registry).needs()[t] == old(
                    registry,
                ).needs()[t].push(0),
            forall|t: int|
                0 <= t < old(registry).n_threads() ==> #[trigger] final(registry).allocs()[t]
                    == old(registry).allocs()[t].push(0),
    {
        let rid = registry.alloc_rid(1);
        MutexBlocking { inner: MutexBlockingInner { locked: false, rid, wait_queue: Vec::new() } }
    }
}

impl Mutex for MutexBlocking {
    /// The caller is a live, ready thread that does not already hold this
    /// mutex (holding it and locking again would wait on itself), and its
    /// request counter has room.
    open spec fn lock_pre(&self, tid: usize, registry: &ResourceRegistry, threads: &ThreadTable) -> bool {
        &&& self.wf(registry, threads)
        &&& (tid as int) < registry.n_threads()
        &&& threads.is_ready(tid as int)
        &&& registry.alloc_of(tid as int, self.inner.rid as int) == 0
        &&& registry.need_of(tid as int, self.inner.rid as int) < isize::MAX
    }

    /// The acquire protocol: `need` is raised, the detector decides.
    /// Unsafe: the caller is refused, everything else untouched — the raised
    /// `need` is knowingly left in place, so a caller that retries in a loop
    /// grows its row; rolling it back is the syscall layer's choice to make.
    /// Safe and free: the
    /// unit is granted at once. Safe and held: the caller joins the queue
    /// tail and blocks.
    open spec fn lock_post(
        &self,
        post: &Self,
        tid: usize,
        reg0: &ResourceRegistry,
        reg1: &ResourceRegistry,
        th0: &ThreadTable,
        th1: &ThreadTable,
        r: LockResult,
    ) -> bool {
        let rid = self.inner.rid as int;
        let needs1 = cell_set(reg0.needs(), tid as int, rid, reg0.need_of(tid as int, rid) + 1);
        &&& post.inner.rid == self.inner.rid
        &&& post.wf(reg1, th1)
        &&& reg1.n_threads() == reg0.n_threads()
        &&& reg1.n_rids() == reg0.n_rids()
        &&& reg1.total@ == reg0.total@
        &&& (r == LockResult::DeadlockDetected <==> !reg0.safe_with_request(tid as int, rid))
        &&& match r {
            LockResult::DeadlockDetected => {
                &&& post.inner.locked == self.inner.locked
                &&& post.inner.wait_queue@ == self.inner.wait_queue@
                &&& reg1.needs() == needs1
                &&& reg1.need_of(tid as int, rid) == reg0.need_of(tid as int, rid) + 1
                &&& reg1.allocs() == reg0.allocs()
                &&& reg1.avails() == reg0.avails()
                &&& th1.status@ == th0.status@
            },
            LockResult::Acquired => {
                &&& !self.inner.locked
                &&& post.inner.locked
                &&& post.inner.wait_queue@ == self.inner.wait_queue@
                &&& reg1.needs() == reg0.needs()
                &&& reg1.allocs() == cell_set(reg0.allocs(), tid as int, rid, 1)
                &&& reg1.alloc_of(tid as int, rid) == 1
                &&& reg1.avails() == reg0.avails().update(rid, 0)
                &&& th1.status@ == th0.status@
            },
            LockResult::Blocked => {
                &&& self.inner.locked
                &&& post.inner.locked
                &&& post.inner.wait_queue@ == self.inner.wait_queue@.push(tid)
                &&& reg1.needs() == needs1
                &&& reg1.need_of(tid as int, rid) == reg0.need_of(tid as int, rid) + 1
                &&& reg1.allocs() == reg0.allocs()
                &&& reg1.avails() == reg0.avails()
                &&& th1.status@ == th0.status@.update(tid as int, TaskStatus::Blocked)
            },
            LockResult::Spinning => false,
        }
    }

    /// The caller holds the mutex. Releasing a mutex one does not hold is a
    /// fatal protocol violation — the kernel halts on it rather than corrupt
    /// the matrices — so such calls are excluded here.
    open spec fn unlock_pre(&self, tid: usize, registry: &ResourceRegistry, threads: &ThreadTable) -> bool {
        &&& self.wf(registry, threads)
        &&& (tid as int) < registry.n_threads()
        &&& threads.is_ready(tid as int)
        &&& self.inner.locked
        &&& registry.alloc_of(tid as int, self.inner.rid as int) == 1
    }

    /// The release protocol: the caller's holding goes to zero. With waiters
    /// present, ownership transfers directly to the queue head, which is
    /// woken with its bookkeeping done (`need -= 1`, `allocation += 1`) and
    /// the mutex stays locked — the free pool never sees the unit. With no
    /// waiter the mutex unlocks and the unit returns to the pool.
    open spec fn unlock_post(
        &self,
        post: &Self,
        tid: usize,
        reg0: &ResourceRegistry,
        reg1: &ResourceRegistry,
        th0: &ThreadTable,
        th1: &ThreadTable,
    ) -> bool {
        let rid = self.inner.rid as int;
        let q = self.inner.wait_queue@;
        &&& post.inner.rid == self.inner.rid
        &&& post.wf(reg1, th1)
        &&& reg1.n_threads() == reg0.n_threads()
        &&& reg1.n_rids() == reg0.n_rids()
        &&& reg1.total@ == reg0.total@
        &&& reg1.alloc_of(tid as int, rid) == 0
        &&& if q.len() > 0 {
            let w = q[0] as int;
            &&& post.inner.locked
            &&& post.inner.wait_queue@ == q.subrange(1, q.len() as int)
            &&& reg1.needs() == cell_set(reg0.needs(), w, rid, reg0.need_of(w, rid) - 1)
            &&& reg1.allocs() == cell_set(cell_set(reg0.allocs(), tid as int, rid, 0), w, rid, 1)
            &&& reg1.alloc_of(w, rid) == 1
            &&& reg1.need_of(w, rid) == reg0.need_of(w, rid) - 1
            &&& reg1.avails() == reg0.avails()
            &&& reg1.avail_of(rid) == 0
            &&& th1.status@ == th0.status@.update(w, TaskStatus::Ready)
        } else {
            &&& !post.inner.locked
            &&& post.inner.wait_queue@ == q
            &&& reg1.needs() == reg0.needs()
            &&& reg1.allocs() == cell_set(reg0.allocs(), tid as int, rid, 0)
            &&& reg1.avails() == reg0.avails().update(rid, 1)
            &&& reg1.avail_of(rid) == 1
            &&& th1.status@ == th0.status@
        }
    }

    fn lock(&mut self, tid: usize, registry: &mut ResourceRegistry, threads: &mut ThreadTable) -> (r:
        LockResult) {
        let ghost reg0 = *old(registry);
        let ghost th0 = *old(threads);
        let ghost pre = *old(self);
        let rid = self.inner.rid;
        registry.request(tid, rid);
        proof {
            lemma_needs_pointwise(
                &reg0,
                registry,
                tid as int,
                rid as int,
                reg0.need_of(tid as int, rid as int) + 1,
            );
            lemma_allocs_equal(&reg0, registry);
            lemma_avails_equal(&reg0, registry);
            assert(registry.safe() == reg0.safe_with_request(tid as int, rid as int));
        }
        if !registry.deadlock_check() {
            proof {
                assert(pre.wf(registry, threads)) by {
                    queue_frame(&pre.inner.wait_queue@, tid as int, rid as int, &reg0, registry, &th0, threads);
                    let q = pre.inner.wait_queue@;
                    assert forall|k: int| 0 <= k < q.len() implies registry.alloc_of(
                        #[trigger] q[k] as int,
                        rid as int,
                    ) == 0 by {
                        assert(reg0.alloc_of(q[k] as int, rid as int) == 0);
                    }
                }
            }
            return LockResult::DeadlockDetected;
        }
        let ghost reg_a = *registry;
        if self.inner.locked {
            self.inner.wait_queue.push(tid);
            threads.block(tid);
            proof {
                let q1 = self.inner.wait_queue@;
                assert forall|k: int| 0 <= k < q1.len() implies th0.status@[#[trigger] q1[k] as int]
                    is Blocked || q1[k] == tid by {
                    if k < q1.len() - 1 {
                        assert(pre.inner.wait_queue@[k] == q1[k]);
                    }
                }
                assert(self.wf(registry, threads)) by {
                    queue_frame(&pre.inner.wait_queue@, tid as int, rid as int, &reg0, registry, &th0, threads);
                    assert forall|k1: int, k2: int| 0 <= k1 < k2 < q1.len() implies #[trigger] q1[k1]
                        != #[trigger] q1[k2] by {
                        if k2 == q1.len() - 1 {
                            assert(th0.is_blocked(q1[k1] as int));
                        }
                    }
                    assert forall|k: int| 0 <= k < q1.len() implies registry.alloc_of(
                        #[trigger] q1[k] as int,
                        rid as int,
                    ) == 0 by {
                        if k < q1.len() - 1 {
                            assert(pre.inner.wait_queue@[k] == q1[k]);
                            assert(reg0.alloc_of(q1[k] as int, rid as int) == 0);
                        } else {
                            assert(reg0.alloc_of(tid as int, rid as int) == 0);
                        }
                    }
                }
            }
            LockResult::Blocked
        } else {
            proof {
                lemma_views(&reg_a);
                lemma_col_sum_bounds(reg_a.allocs(), Seq::empty(), rid as int, reg_a.n_threads());
                lemma_col_sum_entry(reg_a.allocs(), tid as int, rid as int, reg_a.n_threads());
                assert(reg_a.avail_of(rid as int) + col_sum(
                    reg_a.allocs(),
                    rid as int,
                    reg_a.n_threads(),
                ) == reg_a.total_of(rid as int));
                assert(reg_a.avail_of(rid as int) == 1);
            }
            registry.grant(tid, rid);
            self.inner.locked = true;
            proof {
                lemma_needs_pointwise(
                    &reg_a,
                    registry,
                    tid as int,
                    rid as int,
                    reg_a.need_of(tid as int, rid as int) - 1,
                );
                lemma_allocs_pointwise(
                    &reg_a,
                    registry,
                    tid as int,
                    rid as int,
                    reg_a.alloc_of(tid as int, rid as int) + 1,
                );
                lemma_avails_pointwise(&reg_a, registry, rid as int, 0);
                assert(registry.needs() =~~= reg0.needs());
                assert(registry.allocs() =~~= cell_set(reg0.allocs(), tid as int, rid as int, 1));
                assert(registry.avails() =~= reg0.avails().update(rid as int, 0));
                assert(self.wf(registry, threads)) by {
                    queue_frame(&pre.inner.wait_queue@, tid as int, rid as int, &reg0, registry, &th0, threads);
                    assert(pre.inner.wait_queue@.len() == 0);
                }
            }
            LockResult::Acquired
        }
    }

    fn unlock(&mut self, tid: usize, registry: &mut ResourceRegistry, threads: &mut ThreadTable) {
        let ghost reg0 = *old(registry);
        let ghost th0 = *old(threads);
        let ghost pre = *old(self);
        let rid = self.inner.rid;
        if self.inner.wait_queue.len() > 0 {
            let w = self.inner.wait_queue.remove(0);
            proof {
                let q0 = pre.inner.wait_queue@;
                assert(q0[0] == w);
                assert(th0.is_blocked(w as int));
                assert(self.inner.wait_queue@ =~= q0.subrange(1, q0.len() as int));
            }
            registry.handoff(tid, w, rid);
            threads.wake(w);
            proof {
                let q0 = pre.inner.wait_queue@;
                let q1 = self.inner.wait_queue@;
                lemma_needs_pointwise(
                    &reg0,
                    registry,
                    w as int,
                    rid as int,
                    reg0.need_of(w as int, rid as int) - 1,
                );
                lemma_avails_equal(&reg0, registry);
                proof_allocs_handoff(&reg0, registry, tid as int, w as int, rid as int);
                assert(self.wf(registry, threads)) by {
                    assert forall|k: int| 0 <= k < q1.len() implies q0[k + 1] == #[trigger] q1[k] by {}
                    assert forall|k1: int, k2: int| 0 <= k1 < k2 < q1.len() implies #[trigger] q1[k1]
                        != #[trigger] q1[k2] by {
                        assert(q0[k1 + 1] == q1[k1]);
                    }
                    assert forall|k: int| 0 <= k < q1.len() implies threads.is_blocked(
                        #[trigger] q1[k] as int,
                    ) by {
                        assert(q0[k + 1] == q1[k]);
                        assert(q0[0] != q0[k + 1]);
                        assert(th0.is_blocked(q1[k] as int));
                    }
                    assert forall|k: int| 0 <= k < q1.len() implies registry.need_of(
                        #[trigger] q1[k] as int,
                        rid as int,
                    ) >= 1 && registry.alloc_of(q1[k] as int, rid as int) == 0 by {
                        assert(q0[k + 1] == q1[k]);
                        assert(q0[0] != q0[k + 1]);
                        assert(th0.is_blocked(q1[k] as int));
                        assert(q1[k] != tid);
                        assert(reg0.need_of(q1[k] as int, rid as int) >= 1);
                        assert(reg0.alloc_of(q1[k] as int, rid as int) == 0);
                    }
                }
            }
        } else {
            registry.release(tid, rid);
            self.inner.locked = false;
            proof {
                lemma_needs_equal(&reg0, registry);
                lemma_allocs_pointwise(&reg0, registry, tid as int, rid as int, 0);
                lemma_avails_pointwise(&reg0, registry, rid as int, 1);
                assert(registry.allocs() =~~= cell_set(reg0.allocs(), tid as int, rid as int, 0));
                assert(registry.avails() =~= reg0.avails().update(rid as int, 1));
                assert(self.wf(registry, threads));
            }
        }
    }
}

/// The queue clauses of a blocking mutex's invariant survive an operation
/// that neither touched the queue members' registry rows (at this mutex's
/// column) nor their statuses; the one thread whose row may have changed,
/// `tid`, is ready and so not in the queue.
pub(crate) proof fn queue_frame(
    q: &Seq<usize>,
    tid: int,
    rid: int,
    reg0: &ResourceRegistry,
    reg1: &ResourceRegistry,
    th0: &ThreadTable,
    th1: &ThreadTable,
)
    requires
        reg1.n_threads() == reg0.n_threads(),
        reg1.n_rids() == reg0.n_rids(),
        0 <= rid < reg0.n_rids(),
        0 <= tid < reg0.n_threads(),
        th0.n_threads() == reg0.n_threads(),
        th0.is_ready(tid),
        forall|k: int| 0 <= k < q.len() ==> (#[trigger] q[k] as int) < reg0.n_threads(),
        forall|k: int| 0 <= k < q.len() ==> th0.is_blocked(#[trigger] q[k] as int),
        forall|k: int| 0 <= k < q.len() ==> reg0.need_of(#[trigger] q[k] as int, rid) >= 1,
        forall|t: int, r: int|
            0 <= t < reg0.n_threads() && 0 <= r < reg0.n_rids() && t != tid
                ==> #[trigger] reg1.need_of(t, r) == reg0.need_of(t, r),
        forall|t: int, r: int|
            0 <= t < reg0.n_threads() && 0 <= r < reg0.n_rids() && t != tid
                ==> #[trigger] reg1.alloc_of(t, r) == reg0.alloc_of(t, r),
        th1.status@ == th0.status@ || th1.status@ == th0.status@.update(
            tid,
            TaskStatus::Blocked,
        ),
    ensures
        forall|k: int| 0 <= k < q.len() ==> th1.is_blocked(#[trigger] q[k] as int),
        forall|k: int| 0 <= k < q.len() ==> reg1.need_of(#[trigger] q[k] as int, rid) >= 1,
{
    assert forall|k: int| 0 <= k < q.len() implies th1.is_blocked(#[trigger] q[k] as int)
        && reg1.need_of(q[k] as int, rid) >= 1 by {
        assert(th0.is_blocked(q[k] as int));
        assert(q[k] as int != tid);
        assert(reg1.need_of(q[k] as int, rid) == reg0.need_of(q[k] as int, rid));
    }
}

/// Pointwise reading of the two-cell allocation change a handoff makes.
pub(crate) proof fn proof_allocs_handoff(
    reg0: &ResourceRegistry,
    reg1: &ResourceRegistry,
    from: int,
    to: int,
    rid: int,
)
    requires
        reg0.shaped(),
        reg1.shaped(),
        reg1.n_threads() == reg0.n_threads(),
        reg1.n_rids() == reg0.n_rids(),
        0 <= from < reg0.n_threads(),
        0 <= to < reg0.n_threads(),
        from != to,
        0 <= rid < reg0.n_rids(),
        reg1.allocs() == cell_set(
            cell_set(reg0.allocs(), from, rid, reg0.alloc_of(from, rid) - 1),
            to,
            rid,
            reg0.alloc_of(to, rid) + 1,
        ),
    ensures
        reg1.alloc_of(from, rid) == reg0.alloc_of(from, rid) - 1,
        reg1.alloc_of(to, rid) == reg0.alloc_of(to, rid) + 1,
        forall|t: int, r: int|
            0 <= t < reg0.n_threads() && 0 <= r < reg0.n_rids() && t != from && t != to
                ==> #[trigger] reg1.alloc_of(t, r) == reg0.alloc_of(t, r),
{
    lemma_views(reg0);
    lemma_views(reg1);
    assert(reg1.allocs()[from][rid] == reg1.alloc_of(from, rid));
    assert(reg1.allocs()[to][rid] == reg1.alloc_of(to, rid));
    assert forall|t: int, r: int|
        0 <= t < reg0.n_threads() && 0 <= r < reg0.n_rids() && t != from && t != to
            implies #[trigger] reg1.alloc_of(t, r) == reg0.alloc_of(t, r) by {
        assert(reg1.allocs()[t][r] == reg1.alloc_of(t, r));
        assert(reg0.allocs()[t][r] == reg0.alloc_of(t, r));
    }
}

} // verus!
