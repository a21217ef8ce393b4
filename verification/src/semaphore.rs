//! Counting semaphore: a signed counter with a FIFO wait queue, registered in
//! the resource registry with a configurable number of units and
//! deadlock-checked on every decrement.
//!
//! The counter reads: positive — that many units free; zero — fully
//! allocated, nobody waiting; negative — its magnitude is the number of
//! queued threads. As with the blocking mutex, a release with waiters hands
//! the freed unit straight to the queue head (doing the woken thread's
//! bookkeeping in the same critical section); the free pool is only touched
//! when no one is owed the unit.

use vstd::prelude::*;

use crate::mutex::LockResult;
use crate::mutex::proof_allocs_handoff;
use crate::mutex::queue_frame;
use crate::registry::ResourceRegistry;
use crate::registry::cell_set;
use crate::registry::lemma_allocs_equal;
use crate::registry::lemma_allocs_pointwise;
use crate::registry::lemma_avails_equal;
use crate::registry::lemma_avails_pointwise;
use crate::registry::lemma_needs_equal;
use crate::registry::lemma_needs_pointwise;
use crate::sched::TaskStatus;
use crate::sched::ThreadTable;

verus! {

/// State of a semaphore; reached only under the process's exclusive-access
/// guard.
pub struct SemaphoreInner {
    /// Signed unit counter; negative magnitude counts the queued threads.
    pub count: isize,
    /// Slot of this semaphore in the registry matrices.
    pub rid: usize,
    /// FIFO queue of blocked waiters, head first.
    pub wait_queue: Vec<usize>,
}

/// Counting semaphore over the resource registry.
pub struct Semaphore {
    pub inner: SemaphoreInner,
}

impl Semaphore {
    /// Coupling between this semaphore, the registry and the scheduler: the
    /// registry is well formed; a nonnegative counter equals the free pool
    /// and means an empty queue; a negative counter means an exhausted pool
    /// with exactly that many distinct blocked waiters, each with a pending
    /// request.
    pub open spec fn wf(&self, reg: &ResourceRegistry, th: &ThreadTable) -> bool {
        let q = self.inner.wait_queue@;
        let rid = self.inner.rid as int;
        let c = self.inner.count as int;
        &&& reg.wf()
        &&& th.n_threads() == reg.n_threads()
        &&& rid < reg.n_rids()
        &&& (c >= 0 ==> q.len() == 0 && reg.avail_of(rid) == c)
        &&& (c < 0 ==> reg.avail_of(rid) == 0 && q.len() == -c)
        &&& forall|k: int| 0 <= k < q.len() ==> (#[trigger] q[k] as int) < reg.n_threads()
        &&& forall|k: int| 0 <= k < q.len() ==> th.is_blocked(#[trigger] q[k] as int)
        &&& forall|k: int| 0 <= k < q.len() ==> reg.need_of(#[trigger] q[k] as int, rid) >= 1
        &&& forall|k1: int, k2: int|
            0 <= k1 < k2 < q.len() ==> #[trigger] q[k1] != #[trigger] q[k2]
    }

    /// Create a new semaphore with `res_count` units: registers them in the
    /// registry and seeds the counter with the same number.
    pub fn new(res_count: usize, registry: &mut ResourceRegistry, threads: &ThreadTable) -> (s:
        Semaphore)
        requires
            old(registry).wf(),
            threads.n_threads() == old(registry).n_threads(),
            res_count <= isize::MAX as usize,
        ensures
            s.wf(final(registry), threads),
            s.inner.count == res_count as isize,
            s.inner.wait_queue@.len() == 0,
            s.inner.rid == old(registry).n_rids(),
            final(registry).wf(),
            final(registry).n_rids() == old(registry).n_rids() + 1,
            final(registry).n_threads() == old(registry).n_threads(),
            final(registry).avails() == old(registry).avails().push(res_count as int),
            final(registry).total@ == old(registry).total@.push(res_count as isize),
            forall|t: int|
                0 <= t < old(registry).n_threads() ==> #[trigger] final(registry).needs()[t] == old(
                    registry,
                ).needs()[t].push(0),
            forall|t: int|
                0 <= t < old(registry).n_threads() ==> #[trigger] final(registry).allocs()[t]
                    == old(registry).allocs()[t].push(0),
    {
        let rid = registry.alloc_rid(res_count);
        Semaphore {
            inner: SemaphoreInner { count: res_count as isize, rid, wait_queue: Vec::new() },
        }
    }

    /// Decrement (P operation): raise `need`, ask the detector, then either
    /// take a free unit at once or join the queue tail and block. On an
    /// unsafe verdict the caller is refused and stays ready; its raised
    /// `need` entry is deliberately not rolled back. Exhaustion is not an
    /// error: going negative is the expected must-wait path.
    pub fn down(&mut self, tid: usize, registry: &mut ResourceRegistry, threads: &mut ThreadTable) -> (r:
        LockResult)
        requires
            old(self).wf(old(registry), old(threads)),
            (tid as int) < old(registry).n_threads(),
            old(threads).is_ready(tid as int),
            old(registry).need_of(tid as int, old(self).inner.rid as int) < isize::MAX,
            old(self).inner.count > isize::MIN,
        ensures
            final(self).inner.rid == old(self).inner.rid,
            final(self).wf(final(registry), final(threads)),
            final(registry).n_threads() == old(registry).n_threads(),
            final(registry).n_rids() == old(registry).n_rids(),
            final(registry).total@ == old(registry).total@,
            (r == LockResult::DeadlockDetected <==> !old(registry).safe_with_request(
                tid as int,
                old(self).inner.rid as int,
            )),
            match r {
                LockResult::DeadlockDetected => {
                    let rid = old(self).inner.rid as int;
                    &&& final(self).inner.count == old(self).inner.count
                    &&& final(self).inner.wait_queue@ == old(self).inner.wait_queue@
                    &&& final(registry).needs() == cell_set(
                        old(registry).needs(),
                        tid as int,
                        rid,
                        old(registry).need_of(tid as int, rid) + 1,
                    )
                    &&& final(registry).need_of(tid as int, rid) == old(registry).need_of(
                        tid as int,
                        rid,
                    ) + 1
                    &&& final(registry).allocs() == old(registry).allocs()
                    &&& final(registry).avails() == old(registry).avails()
                    &&& final(threads).status@ == old(threads).status@
                },
                LockResult::Acquired => {
                    let rid = old(self).inner.rid as int;
                    &&& old(self).inner.count >= 1
                    &&& final(self).inner.count == old(self).inner.count - 1
                    &&& final(self).inner.wait_queue@ == old(self).inner.wait_queue@
                    &&& final(registry).needs() == old(registry).needs()
                    &&& final(registry).allocs() == cell_set(
                        old(registry).allocs(),
                        tid as int,
                        rid,
                        old(registry).alloc_of(tid as int, rid) + 1,
                    )
                    &&& final(registry).alloc_of(tid as int, rid) == old(registry).alloc_of(
                        tid as int,
                        rid,
                    ) + 1
                    &&& final(registry).avails() == old(registry).avails().update(
                        rid,
                        old(registry).avail_of(rid) - 1,
                    )
                    &&& final(registry).avail_of(rid) == final(self).inner.count as int
                    &&& final(threads).status@ == old(threads).status@
                },
                LockResult::Blocked => {
                    let rid = old(self).inner.rid as int;
                    &&& old(self).inner.count <= 0
                    &&& final(self).inner.count == old(self).inner.count - 1
                    &&& final(self).inner.wait_queue@ == old(self).inner.wait_queue@.push(tid)
                    &&& final(registry).needs() == cell_set(
                        old(registry).needs(),
                        tid as int,
                        rid,
                        old(registry).need_of(tid as int, rid) + 1,
                    )
                    &&& final(registry).allocs() == old(registry).allocs()
                    &&& final(registry).avails() == old(registry).avails()
                    &&& final(threads).status@ == old(threads).status@.update(
                        tid as int,
                        TaskStatus::Blocked,
                    )
                },
                LockResult::Spinning => false,
            },
    {
        let ghost reg0 = *old(registry);
        let ghost th0 = *old(threads);
        let ghost pre = *old(self);
        let rid = self.inner.rid;
        registry.request(tid, rid);
        proof {
            lemma_needs_pointwise(
                &reg0,
                registry,
                tid as int,
                rid as int,
                reg0.need_of(tid as int, rid as int) + 1,
            );
            lemma_allocs_equal(&reg0, registry);
            lemma_avails_equal(&reg0, registry);
            assert(registry.safe() == reg0.safe_with_request(tid as int, rid as int));
        }
        if !registry.deadlock_check() {
            proof {
                assert(pre.wf(registry, threads)) by {
                    queue_frame(
                        &pre.inner.wait_queue@,
                        tid as int,
                        rid as int,
                        &reg0,
                        registry,
                        &th0,
                        threads,
                    );
                }
            }
            return LockResult::DeadlockDetected;
        }
        let ghost reg_a = *registry;
        self.inner.count = self.inner.count - 1;
        if self.inner.count < 0 {
            self.inner.wait_queue.push(tid);
            threads.block(tid);
            proof {
                let q1 = self.inner.wait_queue@;
                assert(self.wf(registry, threads)) by {
                    queue_frame(
                        &pre.inner.wait_queue@,
                        tid as int,
                        rid as int,
                        &reg0,
                        registry,
                        &th0,
                        threads,
                    );
                    assert forall|k1: int, k2: int|
                        0 <= k1 < k2 < q1.len() implies #[trigger] q1[k1] != #[trigger] q1[k2] by {
                        if k2 == q1.len() - 1 {
                            assert(th0.is_blocked(q1[k1] as int));
                        }
                    }
                }
            }
            LockResult::Blocked
        } else {
            registry.grant(tid, rid);
            proof {
                lemma_needs_pointwise(
                    &reg_a,
                    registry,
                    tid as int,
                    rid as int,
                    reg_a.need_of(tid as int, rid as int) - 1,
                );
                lemma_allocs_pointwise(
                    &reg_a,
                    registry,
                    tid as int,
                    rid as int,
                    reg_a.alloc_of(tid as int, rid as int) + 1,
                );
                lemma_avails_pointwise(
                    &reg_a,
                    registry,
                    rid as int,
                    reg_a.avail_of(rid as int) - 1,
                );
                assert(registry.needs() =~~= reg0.needs());
                assert(registry.allocs() =~~= cell_set(
                    reg0.allocs(),
                    tid as int,
                    rid as int,
                    reg0.alloc_of(tid as int, rid as int) + 1,
                ));
                assert(registry.avails() =~= reg0.avails().update(
                    rid as int,
                    reg0.avail_of(rid as int) - 1,
                ));
                assert(self.wf(registry, threads));
            }
            LockResult::Acquired
        }
    }

    /// Increment (V operation): the caller gives one held unit back. With
    /// waiters present (counter still nonpositive after the increment) the
    /// unit is handed straight to the queue head, which is woken with its
    /// bookkeeping done; otherwise the unit returns to the free pool.
    pub fn up(&mut self, tid: usize, registry: &mut ResourceRegistry, threads: &mut ThreadTable)
        requires
            old(self).wf(old(registry), old(threads)),
            (tid as int) < old(registry).n_threads(),
            old(threads).is_ready(tid as int),
            old(registry).alloc_of(tid as int, old(self).inner.rid as int) >= 1,
            old(self).inner.count < isize::MAX,
        ensures
            final(self).inner.rid == old(self).inner.rid,
            final(self).wf(final(registry), final(threads)),
            final(registry).n_threads() == old(registry).n_threads(),
            final(registry).n_rids() == old(registry).n_rids(),
            final(registry).total@ == old(registry).total@,
            final(self).inner.count == old(self).inner.count + 1,
            if old(self).inner.count < 0 {
                let rid = old(self).inner.rid as int;
                let q = old(self).inner.wait_queue@;
                let w = q[0] as int;
                &&& final(self).inner.wait_queue@ == q.subrange(1, q.len() as int)
                &&& final(registry).needs() == cell_set(
                    old(registry).needs(),
                    w,
                    rid,
                    old(registry).need_of(w, rid) - 1,
                )
                &&& final(registry).need_of(w, rid) == old(registry).need_of(w, rid) - 1
                &&& final(registry).allocs() == cell_set(
                    cell_set(
                        old(registry).allocs(),
                        tid as int,
                        rid,
                        old(registry).alloc_of(tid as int, rid) - 1,
                    ),
                    w,
                    rid,
                    old(registry).alloc_of(w, rid) + 1,
                )
                &&& final(registry).alloc_of(w, rid) == old(registry).alloc_of(w, rid) + 1
                &&& final(registry).alloc_of(tid as int, rid) == old(registry).alloc_of(
                    tid as int,
                    rid,
                ) - 1
                &&& final(registry).avails() == old(registry).avails()
                &&& final(registry).avail_of(rid) == 0
                &&& final(threads).status@ == old(threads).status@.update(w, TaskStatus::Ready)
            } else {
                let rid = old(self).inner.rid as int;
                &&& final(self).inner.wait_queue@ == old(self).inner.wait_queue@
                &&& final(registry).needs() == old(registry).needs()
                &&& final(registry).allocs() == cell_set(
                    old(registry).allocs(),
                    tid as int,
                    rid,
                    old(registry).alloc_of(tid as int, rid) - 1,
                )
                &&& final(registry).alloc_of(tid as int, rid) == old(registry).alloc_of(
                    tid as int,
                    rid,
                ) - 1
                &&& final(registry).avails() == old(registry).avails().update(
                    rid,
                    old(registry).avail_of(rid) + 1,
                )
                &&& final(registry).avail_of(rid) == final(self).inner.count as int
                &&& final(threads).status@ == old(threads).status@
            },
    {
        let ghost reg0 = *old(registry);
        let ghost th0 = *old(threads);
        let ghost pre = *old(self);
        let rid = self.inner.rid;
        self.inner.count = self.inner.count + 1;
        if self.inner.count <= 0 {
            let w = self.inner.wait_queue.remove(0);
            proof {
                let q0 = pre.inner.wait_queue@;
                assert(q0[0] == w);
                assert(th0.is_blocked(w as int));
                assert(self.inner.wait_queue@ =~= q0.subrange(1, q0.len() as int));
            }
            registry.handoff(tid, w, rid);
            threads.wake(w);
            proof {
                let q0 = pre.inner.wait_queue@;
                let q1 = self.inner.wait_queue@;
                lemma_needs_pointwise(
                    &reg0,
                    registry,
                    w as int,
                    rid as int,
                    reg0.need_of(w as int, rid as int) - 1,
                );
                lemma_avails_equal(&reg0, registry);
                proof_allocs_handoff(&reg0, registry, tid as int, w as int, rid as int);
                assert(self.wf(registry, threads)) by {
                    assert forall|k: int| 0 <= k < q1.len() implies q0[k + 1]
                        == #[trigger] q1[k] by {}
                    assert forall|k1: int, k2: int|
                        0 <= k1 < k2 < q1.len() implies #[trigger] q1[k1] != #[trigger] q1[k2] by {
                        assert(q0[k1 + 1] == q1[k1]);
                    }
                    assert forall|k: int| 0 <= k < q1.len() implies threads.is_blocked(
                        #[trigger] q1[k] as int,
                    ) && registry.need_of(q1[k] as int, rid as int) >= 1 by {
                        assert(q0[k + 1] == q1[k]);
                        assert(q0[0] != q0[k + 1]);
                        assert(th0.is_blocked(q1[k] as int));
                        assert(q1[k] != tid);
                        assert(reg0.need_of(q1[k] as int, rid as int) >= 1);
                    }
                }
            }
        } else {
            registry.release(tid, rid);
            proof {
                lemma_needs_equal(&reg0, registry);
                lemma_allocs_pointwise(
                    &reg0,
                    registry,
                    tid as int,
                    rid as int,
                    reg0.alloc_of(tid as int, rid as int) - 1,
                );
                lemma_avails_pointwise(
                    &reg0,
                    registry,
                    rid as int,
                    reg0.avail_of(rid as int) + 1,
                );
                assert(self.wf(registry, threads));
            }
        }
    }
}

} // verus!
