//! The guarantees this layer stands on, stated and proved once over the
//! registry model rather than per call site.

use vstd::prelude::*;

use crate::mutex::LockResult;
use crate::mutex::Mutex;
use crate::mutex::MutexSpin;
use crate::mutex::proof_allocs_handoff;
use crate::registry::ResourceRegistry;
use crate::registry::cell_set;
use crate::registry::lemma_allocs_equal;
use crate::registry::lemma_allocs_pointwise;
use crate::registry::lemma_needs_equal;
use crate::registry::lemma_avails_equal;
use crate::registry::lemma_needs_pointwise;
use crate::registry::lemma_views;
use crate::sched::ThreadTable;
use crate::semaphore::Semaphore;
use crate::safety::col_sum;
use crate::safety::count_unfinished;
use crate::safety::can_run;
use crate::safety::lemma_col_sum_bounds;
use crate::safety::lemma_col_sum_entry;
use crate::safety::lemma_col_sum_pair;
use crate::safety::lemma_count_unfinished_update;
use crate::safety::lemma_finished_col_sum_zero;
use crate::safety::safe_from;
use crate::safety::work_of;

verus! {

/// Conservation: in a well-formed registry, for every resource the free
/// units plus the units held across all threads equal the units it was
/// created with. Every operation of this layer keeps the registry well
/// formed, so this holds at every instant observed between calls.
pub proof fn lemma_conservation(reg: &ResourceRegistry)
    requires
        reg.wf(),
    ensures
        forall|r: int|
            0 <= r < reg.n_rids() ==> reg.avail_of(r) + #[trigger] col_sum(
                reg.allocs(),
                r,
                reg.n_threads(),
            ) == reg.total_of(r),
{
}

/// Mutual exclusion: a resource created with one unit (a mutex) is held by
/// at most one thread at any observed instant, and any holding is exactly
/// one unit.
pub proof fn lemma_mutex_exclusive(reg: &ResourceRegistry, rid: int)
    requires
        reg.wf(),
        0 <= rid < reg.n_rids(),
        reg.total_of(rid) == 1,
    ensures
        forall|t: int|
            0 <= t < reg.n_threads() ==> #[trigger] reg.alloc_of(t, rid) == 0 || reg.alloc_of(
                t,
                rid,
            ) == 1,
        forall|t1: int, t2: int|
            0 <= t1 < reg.n_threads() && 0 <= t2 < reg.n_threads() && #[trigger] reg.alloc_of(
                t1,
                rid,
            ) >= 1 && #[trigger] reg.alloc_of(t2, rid) >= 1 ==> t1 == t2,
{
    lemma_views(reg);
    crate::registry::lemma_wf_cols(reg);
    assert forall|t: int|
        0 <= t < reg.n_threads() implies #[trigger] reg.alloc_of(t, rid) == 0 || reg.alloc_of(
        t,
        rid,
    ) == 1 by {
        lemma_col_sum_entry(reg.allocs(), t, rid, reg.n_threads());
        assert(reg.allocs()[t][rid] == reg.alloc_of(t, rid));
        assert(reg.avail_of(rid) + col_sum(reg.allocs(), rid, reg.n_threads()) == reg.total_of(
            rid,
        ));
        assert(reg.avail_of(rid) >= 0);
    }
    assert forall|t1: int, t2: int|
        0 <= t1 < reg.n_threads() && 0 <= t2 < reg.n_threads() && #[trigger] reg.alloc_of(t1, rid)
            >= 1 && #[trigger] reg.alloc_of(t2, rid) >= 1 implies t1 == t2 by {
        if t1 != t2 {
            lemma_col_sum_pair(reg.allocs(), t1, t2, rid, reg.n_threads());
            assert(reg.allocs()[t1][rid] == reg.alloc_of(t1, rid));
            assert(reg.allocs()[t2][rid] == reg.alloc_of(t2, rid));
            assert(reg.avail_of(rid) + col_sum(reg.allocs(), rid, reg.n_threads())
                == reg.total_of(rid));
            assert(reg.avail_of(rid) >= 0);
        }
    }
}

/// Core of the deadlock-rejection argument, by induction over the
/// simulation: while two threads each wait for a unit the other one holds
/// exclusively, neither can ever run, so no run-to-completion order exists.
proof fn lemma_cross_wait_from(
    avail: Seq<int>,
    alloc: Seq<Seq<int>>,
    need: Seq<Seq<int>>,
    finish: Seq<bool>,
    t1: int,
    t2: int,
    a: int,
    b: int,
)
    requires
        alloc.len() == need.len(),
        finish.len() == need.len(),
        0 <= t1 < need.len(),
        0 <= t2 < need.len(),
        t1 != t2,
        0 <= a < avail.len(),
        0 <= b < avail.len(),
        avail[a] == 0,
        avail[b] == 0,
        forall|t: int| 0 <= t < alloc.len() && t != t1 ==> #[trigger] alloc[t][a] == 0,
        forall|t: int| 0 <= t < alloc.len() && t != t2 ==> #[trigger] alloc[t][b] == 0,
        need[t1][b] >= 1,
        need[t2][a] >= 1,
        !finish[t1],
        !finish[t2],
    ensures
        !safe_from(avail, alloc, need, finish),
    decreases count_unfinished(finish),
{
    if safe_from(avail, alloc, need, finish) {
        assert(!finish[t1]);
        let u = choose|u: int|
            0 <= u < finish.len() && !finish[u] && can_run(avail, alloc, need, finish, u)
                && safe_from(avail, alloc, need, finish.update(u, true));
        lemma_finished_col_sum_zero(alloc, finish, a, alloc.len() as int);
        lemma_finished_col_sum_zero(alloc, finish, b, alloc.len() as int);
        assert(work_of(avail, alloc, finish, a) == 0);
        assert(work_of(avail, alloc, finish, b) == 0);
        if u == t1 {
            assert(need[t1][b] <= work_of(avail, alloc, finish, b));
            assert(false);
        } else if u == t2 {
            assert(need[t2][a] <= work_of(avail, alloc, finish, a));
            assert(false);
        } else {
            lemma_count_unfinished_update(finish, u);
            lemma_cross_wait_from(avail, alloc, need, finish.update(u, true), t1, t2, a, b);
        }
    }
}

/// Deadlock rejection: with two one-unit resources each held by one of two
/// threads, and each of the two waiting for the other's resource, the
/// snapshot that the second acquire hands to the detector is unsafe — so the
/// acquire reports `DeadlockDetected` instead of blocking forever.
///
/// `t1` holds `a` and already waits for `b`; the conclusion is about `t2`,
/// which holds `b` and is now requesting `a`.
pub proof fn lemma_deadlock_rejected(reg: &ResourceRegistry, t1: int, t2: int, a: int, b: int)
    requires
        reg.wf(),
        0 <= t1 < reg.n_threads(),
        0 <= t2 < reg.n_threads(),
        t1 != t2,
        0 <= a < reg.n_rids(),
        0 <= b < reg.n_rids(),
        a != b,
        reg.total_of(a) == 1,
        reg.total_of(b) == 1,
        reg.alloc_of(t1, a) == 1,
        reg.alloc_of(t2, b) == 1,
        reg.need_of(t1, b) >= 1,
    ensures
        !reg.safe_with_request(t2, a),
{
    lemma_views(reg);
    crate::registry::lemma_wf_cols(reg);
    let needs1 = cell_set(reg.needs(), t2, a, reg.need_of(t2, a) + 1);
    // the single unit of each resource is held, so none is free
    lemma_col_sum_entry(reg.allocs(), t1, a, reg.n_threads());
    lemma_col_sum_entry(reg.allocs(), t2, b, reg.n_threads());
    assert(reg.avail_of(a) + col_sum(reg.allocs(), a, reg.n_threads()) == reg.total_of(a));
    assert(reg.avail_of(b) + col_sum(reg.allocs(), b, reg.n_threads()) == reg.total_of(b));
    lemma_col_sum_bounds(reg.allocs(), Seq::empty(), a, reg.n_threads());
    lemma_col_sum_bounds(reg.allocs(), Seq::empty(), b, reg.n_threads());
    assert(reg.avail_of(a) == 0);
    assert(reg.avail_of(b) == 0);
    assert(reg.avails()[a] == 0);
    assert(reg.avails()[b] == 0);
    // and nobody else holds any of it
    assert forall|t: int| 0 <= t < reg.allocs().len() && t != t1 implies #[trigger] reg.allocs()[t][a]
        == 0 by {
        lemma_col_sum_pair(reg.allocs(), t, t1, a, reg.n_threads());
        assert(reg.allocs()[t][a] == reg.alloc_of(t, a));
        assert(reg.allocs()[t1][a] == reg.alloc_of(t1, a));
        assert(reg.alloc_of(t, a) >= 0);
    }
    assert forall|t: int| 0 <= t < reg.allocs().len() && t != t2 implies #[trigger] reg.allocs()[t][b]
        == 0 by {
        lemma_col_sum_pair(reg.allocs(), t, t2, b, reg.n_threads());
        assert(reg.allocs()[t][b] == reg.alloc_of(t, b));
        assert(reg.allocs()[t2][b] == reg.alloc_of(t2, b));
        assert(reg.alloc_of(t, b) >= 0);
    }
    assert(needs1[t1][b] == reg.needs()[t1][b]);
    assert(reg.needs()[t1][b] == reg.need_of(t1, b));
    assert(needs1[t2][a] == reg.need_of(t2, a) + 1);
    assert(reg.need_of(t2, a) >= 0);
    let finish0 = Seq::new(needs1.len(), |t: int| false);
    lemma_cross_wait_from(reg.avails(), reg.allocs(), needs1, finish0, t1, t2, a, b);
}

/// The detector passes a request when every pending request, the new one
/// included, is already covered by the free pool.
pub proof fn lemma_covered_request_safe(reg: &ResourceRegistry, t: int, rid: int)
    requires
        reg.wf(),
        0 <= t < reg.n_threads(),
        0 <= rid < reg.n_rids(),
        forall|u: int, r: int|
            0 <= u < reg.n_threads() && 0 <= r < reg.n_rids() ==> #[trigger] reg.need_of(u, r)
                == 0,
        reg.avail_of(rid) >= 1,
    ensures
        reg.safe_with_request(t, rid),
{
    lemma_views(reg);
    crate::registry::lemma_wf_cols(reg);
    let needs1 = cell_set(reg.needs(), t, rid, reg.need_of(t, rid) + 1);
    let finish0 = Seq::new(needs1.len(), |i: int| false);
    assert forall|u: int| 0 <= u < finish0.len() && !finish0[u] implies can_run(
        reg.avails(),
        reg.allocs(),
        needs1,
        finish0,
        u,
    ) by {
        assert forall|r: int| 0 <= r < reg.avails().len() implies needs1[u][r] <= work_of(
            reg.avails(),
            reg.allocs(),
            finish0,
            r,
        ) by {
            crate::safety::lemma_finished_col_sum_none(
                reg.allocs(),
                finish0,
                r,
                reg.allocs().len() as int,
            );
            assert(reg.needs()[u][r] == reg.need_of(u, r));
            assert(reg.avails()[r] == reg.avail_of(r));
        }
    }
    crate::safety::lemma_all_covered_safe_from(reg.avails(), reg.allocs(), needs1, finish0);
}

/// The detector passes a request on resource `rid` when all pending
/// requests sit on `rid` alone, none of the requesting threads (the new one
/// included) holds any unit of it, and each request fits under the units
/// the resource was created with.
pub proof fn lemma_queue_request_safe(reg: &ResourceRegistry, t: int, rid: int)
    requires
        reg.wf(),
        0 <= t < reg.n_threads(),
        0 <= rid < reg.n_rids(),
        forall|u: int, r: int|
            0 <= u < reg.n_threads() && 0 <= r < reg.n_rids() && r != rid ==> #[trigger] reg.need_of(
                u,
                r,
            ) == 0,
        forall|u: int|
            0 <= u < reg.n_threads() && #[trigger] reg.need_of(u, rid) > 0 ==> reg.alloc_of(
                u,
                rid,
            ) == 0,
        forall|u: int|
            0 <= u < reg.n_threads() && u != t ==> #[trigger] reg.need_of(u, rid)
                <= reg.total_of(rid),
        reg.need_of(t, rid) + 1 <= reg.total_of(rid),
        reg.alloc_of(t, rid) == 0,
    ensures
        reg.safe_with_request(t, rid),
{
    lemma_views(reg);
    crate::registry::lemma_wf_cols(reg);
    let needs1 = cell_set(reg.needs(), t, rid, reg.need_of(t, rid) + 1);
    let finish0 = Seq::new(needs1.len(), |i: int| false);
    let n = reg.n_threads();
    assert(reg.avail_of(rid) + col_sum(reg.allocs(), rid, n) == reg.total_of(rid));
    assert forall|u: int, r: int|
        0 <= u < needs1.len() && 0 <= r < reg.avails().len() && r != rid implies #[trigger] needs1[u][r]
        <= 0 by {
        assert(reg.needs()[u][r] == reg.need_of(u, r));
    }
    assert forall|u: int| 0 <= u < needs1.len() && #[trigger] needs1[u][rid] > 0 implies reg.allocs()[u][rid]
        == 0 by {
        assert(reg.needs()[u][rid] == reg.need_of(u, rid));
        assert(reg.allocs()[u][rid] == reg.alloc_of(u, rid));
    }
    assert forall|u: int| 0 <= u < needs1.len() implies #[trigger] needs1[u][rid]
        <= reg.avails()[rid] + col_sum(reg.allocs(), rid, n) by {
        assert(reg.needs()[u][rid] == reg.need_of(u, rid));
        assert(reg.avails()[rid] == reg.avail_of(rid));
    }
    assert forall|r: int| 0 <= r < reg.avails().len() implies reg.avails()[r] >= 0 by {
        assert(reg.avails()[r] == reg.avail_of(r));
    }
    crate::safety::lemma_column_requests_safe_from(
        reg.avails(),
        reg.allocs(),
        needs1,
        finish0,
        rid,
    );
}

/// FIFO fairness: on an exhausted semaphore, threads that block are woken
/// strictly in arrival order. After `t1`, `t2`, `t3` call `down` in that
/// order (each blocking), one release hands the freed unit to `t1` — the
/// longest waiter — and leaves `t2`, `t3` queued in order behind it;
/// further releases treat them the same way.
pub fn fifo_wake_order(
    sem: &mut Semaphore,
    registry: &mut ResourceRegistry,
    threads: &mut ThreadTable,
    holder: usize,
    t1: usize,
    t2: usize,
    t3: usize,
)
    requires
        old(sem).wf(old(registry), old(threads)),
        old(sem).inner.count == 0,
        (holder as int) < old(registry).n_threads(),
        (t1 as int) < old(registry).n_threads(),
        (t2 as int) < old(registry).n_threads(),
        (t3 as int) < old(registry).n_threads(),
        holder != t1 && holder != t2 && holder != t3,
        t1 != t2 && t1 != t3 && t2 != t3,
        old(threads).is_ready(holder as int),
        old(threads).is_ready(t1 as int),
        old(threads).is_ready(t2 as int),
        old(threads).is_ready(t3 as int),
        old(registry).alloc_of(holder as int, old(sem).inner.rid as int) >= 1,
        old(registry).alloc_of(t1 as int, old(sem).inner.rid as int) == 0,
        old(registry).alloc_of(t2 as int, old(sem).inner.rid as int) == 0,
        old(registry).alloc_of(t3 as int, old(sem).inner.rid as int) == 0,
        forall|u: int, r: int|
            0 <= u < old(registry).n_threads() && 0 <= r < old(registry).n_rids()
                ==> #[trigger] old(registry).need_of(u, r) == 0,
    ensures
        final(threads).is_ready(t1 as int),
        final(threads).is_blocked(t2 as int),
        final(threads).is_blocked(t3 as int),
        final(registry).alloc_of(t1 as int, old(sem).inner.rid as int) == 1,
        final(registry).alloc_of(t2 as int, old(sem).inner.rid as int) == 0,
        final(registry).alloc_of(t3 as int, old(sem).inner.rid as int) == 0,
        final(sem).inner.wait_queue@ == seq![t2, t3],
        final(sem).inner.count == -2,
        final(sem).wf(final(registry), final(threads)),
{
    let ghost rid = sem.inner.rid as int;
    let ghost reg0 = *registry;
    proof {
        lemma_views(registry);
        lemma_col_sum_entry(registry.allocs(), holder as int, rid, registry.n_threads());
        assert(registry.allocs()[holder as int][rid] == registry.alloc_of(holder as int, rid));
        lemma_col_sum_bounds(registry.allocs(), Seq::empty(), rid, registry.n_threads());
        assert(registry.avail_of(rid) + col_sum(registry.allocs(), rid, registry.n_threads())
            == registry.total_of(rid));
        assert(registry.total_of(rid) >= 1);
        lemma_queue_request_safe(registry, t1 as int, rid);
    }
    let r1 = sem.down(t1, registry, threads);
    proof {
        assert(r1 == LockResult::Blocked);
        lemma_needs_pointwise(&reg0, registry, t1 as int, rid, 1);
        lemma_allocs_equal(&reg0, registry);
        lemma_avails_equal(&reg0, registry);
        assert(registry.total_of(rid) == reg0.total_of(rid));
        assert forall|u: int, r: int|
            0 <= u < registry.n_threads() && 0 <= r < registry.n_rids() && r != rid
                implies #[trigger] registry.need_of(u, r) == 0 by {
            assert(reg0.need_of(u, r) == 0);
        }
        lemma_queue_request_safe(registry, t2 as int, rid);
    }
    let ghost reg1 = *registry;
    let r2 = sem.down(t2, registry, threads);
    proof {
        assert(r2 == LockResult::Blocked);
        lemma_needs_pointwise(&reg1, registry, t2 as int, rid, 1);
        lemma_allocs_equal(&reg1, registry);
        lemma_avails_equal(&reg1, registry);
        assert forall|u: int, r: int|
            0 <= u < registry.n_threads() && 0 <= r < registry.n_rids() && r != rid
                implies #[trigger] registry.need_of(u, r) == 0 by {
            assert(reg1.need_of(u, r) == 0);
        }
        assert(registry.need_of(t1 as int, rid) == 1);
        assert(registry.alloc_of(t1 as int, rid) == 0);
        assert(registry.alloc_of(t3 as int, rid) == 0);
        lemma_queue_request_safe(registry, t3 as int, rid);
    }
    let ghost reg2 = *registry;
    let r3 = sem.down(t3, registry, threads);
    proof {
        assert(r3 == LockResult::Blocked);
        lemma_allocs_equal(&reg2, registry);
        assert(registry.alloc_of(t1 as int, rid) == 0);
        assert(registry.alloc_of(t2 as int, rid) == 0);
        assert(registry.alloc_of(t3 as int, rid) == 0);
        assert(sem.inner.wait_queue@ =~= seq![t1, t2, t3]);
        assert(threads.is_ready(holder as int));
        assert(registry.alloc_of(holder as int, rid) >= 1);
    }
    let ghost reg3 = *registry;
    sem.up(holder, registry, threads);
    proof {
        assert(sem.inner.wait_queue@ =~= seq![t2, t3]);
        proof_allocs_handoff(&reg3, registry, holder as int, t1 as int, rid);
    }
}

/// Round trip: a semaphore created with `n` units serves `n` acquires by a
/// thread at once, without blocking, leaving the counter at zero; one more
/// acquire, by a second thread, blocks; the next release hands the freed
/// unit to the blocked thread, waking it with exactly one unit held.
pub fn round_trip(
    sem: &mut Semaphore,
    registry: &mut ResourceRegistry,
    threads: &mut ThreadTable,
    t1: usize,
    t2: usize,
)
    requires
        old(sem).wf(old(registry), old(threads)),
        old(sem).inner.count >= 1,
        (t1 as int) < old(registry).n_threads(),
        (t2 as int) < old(registry).n_threads(),
        t1 != t2,
        old(threads).is_ready(t1 as int),
        old(threads).is_ready(t2 as int),
        forall|u: int, r: int|
            0 <= u < old(registry).n_threads() && 0 <= r < old(registry).n_rids()
                ==> #[trigger] old(registry).need_of(u, r) == 0,
        old(registry).alloc_of(t2 as int, old(sem).inner.rid as int) == 0,
    ensures
        final(sem).wf(final(registry), final(threads)),
        final(sem).inner.count == 0,
        final(sem).inner.wait_queue@.len() == 0,
        final(threads).is_ready(t1 as int),
        final(threads).is_ready(t2 as int),
        final(registry).alloc_of(t2 as int, old(sem).inner.rid as int) == 1,
        final(registry).alloc_of(t1 as int, old(sem).inner.rid as int) == old(registry).alloc_of(
            t1 as int,
            old(sem).inner.rid as int,
        ) + old(sem).inner.count - 1,
{
    let ghost rid = sem.inner.rid as int;
    let n = sem.inner.count;
    let ghost a0 = registry.alloc_of(t1 as int, rid);
    let mut k: isize = 0;
    while k < n
        invariant
            0 <= k <= n,
            n >= 1,
            t1 != t2,
            (t1 as int) < registry.n_threads(),
            (t2 as int) < registry.n_threads(),
            sem.wf(registry, threads),
            sem.inner.rid as int == rid,
            sem.inner.count == n - k,
            threads.is_ready(t1 as int),
            threads.is_ready(t2 as int),
            forall|u: int, r: int|
                0 <= u < registry.n_threads() && 0 <= r < registry.n_rids()
                    ==> #[trigger] registry.need_of(u, r) == 0,
            registry.alloc_of(t1 as int, rid) == a0 + k,
            registry.alloc_of(t2 as int, rid) == 0,
            a0 >= 0,
        decreases n - k,
    {
        proof {
            assert(registry.avail_of(rid) == n - k);
            lemma_covered_request_safe(registry, t1 as int, rid);
        }
        let ghost regb = *registry;
        let r = sem.down(t1, registry, threads);
        proof {
            assert(r == LockResult::Acquired);
            lemma_needs_equal(&regb, registry);
            lemma_allocs_pointwise(
                &regb,
                registry,
                t1 as int,
                rid,
                regb.alloc_of(t1 as int, rid) + 1,
            );
            assert forall|u: int, r2: int|
                0 <= u < registry.n_threads() && 0 <= r2 < registry.n_rids()
                    implies #[trigger] registry.need_of(u, r2) == 0 by {
                assert(regb.need_of(u, r2) == 0);
            }
        }
        k = k + 1;
    }
    proof {
        lemma_views(registry);
        lemma_col_sum_entry(registry.allocs(), t1 as int, rid, registry.n_threads());
        assert(registry.allocs()[t1 as int][rid] == registry.alloc_of(t1 as int, rid));
        assert(registry.avail_of(rid) + col_sum(registry.allocs(), rid, registry.n_threads())
            == registry.total_of(rid));
        assert(registry.total_of(rid) >= 1);
        lemma_queue_request_safe(registry, t2 as int, rid);
    }
    let ghost regq = *registry;
    let r2 = sem.down(t2, registry, threads);
    proof {
        assert(r2 == LockResult::Blocked);
        lemma_allocs_equal(&regq, registry);
        assert(registry.alloc_of(t1 as int, rid) == a0 + n);
        assert(registry.alloc_of(t2 as int, rid) == 0);
        assert(threads.is_ready(t1 as int));
        assert(sem.inner.wait_queue@ =~= seq![t2]);
    }
    let ghost regc = *registry;
    sem.up(t1, registry, threads);
    proof {
        proof_allocs_handoff(&regc, registry, t1 as int, t2 as int, rid);
        assert(sem.inner.wait_queue@ =~= Seq::<usize>::empty());
    }
}

/// Spin-mutex liveness, at the granularity this layer controls: once the
/// holder has released a spinning mutex, the next attempt — by any thread
/// the scheduler picks — succeeds. Under a scheduler that eventually runs
/// every ready thread, a spinning `lock` therefore eventually returns.
pub fn spin_acquire_after_release(
    m: &mut MutexSpin,
    registry: &mut ResourceRegistry,
    threads: &mut ThreadTable,
    holder: usize,
    waiter: usize,
) -> (r: LockResult)
    ensures
        r == LockResult::Acquired,
        final(m).locked,
{
    m.unlock(holder, registry, threads);
    m.lock(waiter, registry, threads)
}

} // verus!
