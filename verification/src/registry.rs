//! The per-process resource registry: one column per lock or semaphore
//! (its resource id, `rid`), one row per thread (`tid`), tracking for every
//! pair the units the thread holds (`allocation`) and the units it has asked
//! for but not yet received (`need`), plus the free pool (`available`).
//!
//! The registry is owned by the process control block and only ever reached
//! through the process's exclusive-access guard; here that guard is the
//! `&mut` borrow.

use vstd::prelude::*;

use crate::safety::col_nonneg;
use crate::safety::col_sum;
use crate::safety::detector_input_ok;
use crate::safety::ints_of;
use crate::safety::is_safe;
use crate::safety::lemma_col_sum_change_one;
use crate::safety::lemma_col_sum_entry;
use crate::safety::lemma_col_sum_pair;
use crate::safety::lemma_col_sum_pointwise;
use crate::safety::lemma_col_sum_zero_col;
use crate::safety::matrix_of;
use crate::safety::safe_state;

verus! {

/// One matrix cell replaced.
pub open spec fn cell_set(m: Seq<Seq<int>>, t: int, r: int, v: int) -> Seq<Seq<int>> {
    m.update(t, m[t].update(r, v))
}

pub struct ResourceRegistry {
    /// Units of each resource not currently held by any thread.
    pub available: Vec<isize>,
    /// Units each resource was created with (1 for a mutex, the configured
    /// count for a semaphore).
    pub total: Vec<isize>,
    /// Units each thread has requested but not yet received.
    pub need: Vec<Vec<isize>>,
    /// Units each thread currently holds.
    pub allocation: Vec<Vec<isize>>,
}

impl ResourceRegistry {
    pub open spec fn n_rids(&self) -> int {
        self.available@.len() as int
    }

    pub open spec fn n_threads(&self) -> int {
        self.need@.len() as int
    }

    pub open spec fn avails(&self) -> Seq<int> {
        ints_of(self.available@)
    }

    pub open spec fn allocs(&self) -> Seq<Seq<int>> {
        matrix_of(self.allocation@)
    }

    pub open spec fn needs(&self) -> Seq<Seq<int>> {
        matrix_of(self.need@)
    }

    pub open spec fn avail_of(&self, r: int) -> int {
        self.available@[r] as int
    }

    pub open spec fn total_of(&self, r: int) -> int {
        self.total@[r] as int
    }

    pub open spec fn need_of(&self, t: int, r: int) -> int {
        self.need@[t]@[r] as int
    }

    pub open spec fn alloc_of(&self, t: int, r: int) -> int {
        self.allocation@[t]@[r] as int
    }

    /// The matrices are rectangular: every row is sized to the rid count.
    pub open spec fn shaped(&self) -> bool {
        &&& self.total@.len() == self.available@.len()
        &&& self.allocation@.len() == self.need@.len()
        &&& forall|t: int|
            0 <= t < self.n_threads() ==> (#[trigger] self.need@[t])@.len() == self.n_rids()
        &&& forall|t: int|
            0 <= t < self.n_threads() ==> (#[trigger] self.allocation@[t])@.len() == self.n_rids()
    }

    /// Conservation of units: for every resource, the free units plus the
    /// units held across all threads equal the units it was created with.
    pub open spec fn conserved(&self) -> bool {
        forall|r: int|
            0 <= r < self.n_rids() ==> self.avail_of(r) + #[trigger] col_sum(
                self.allocs(),
                r,
                self.n_threads(),
            ) == self.total_of(r)
    }

    /// Well-formed registry: rectangular matrices, no negative units
    /// anywhere, and conservation.
    pub open spec fn wf(&self) -> bool {
        &&& self.shaped()
        &&& forall|t: int, r: int|
            0 <= t < self.n_threads() && 0 <= r < self.n_rids() ==> #[trigger] self.need_of(t, r)
                >= 0
        &&& forall|t: int, r: int|
            0 <= t < self.n_threads() && 0 <= r < self.n_rids() ==> #[trigger] self.alloc_of(t, r)
                >= 0
        &&& forall|r: int| 0 <= r < self.n_rids() ==> #[trigger] self.avail_of(r) >= 0
        &&& self.conserved()
    }

    /// The registry's current snapshot is safe.
    pub open spec fn safe(&self) -> bool {
        safe_state(self.avails(), self.allocs(), self.needs())
    }

    /// The snapshot stays safe when thread `t`'s pending request on `r` is
    /// raised by one — the question the detector is asked on every acquire.
    pub open spec fn safe_with_request(&self, t: int, r: int) -> bool {
        safe_state(
            self.avails(),
            self.allocs(),
            cell_set(self.needs(), t, r, self.need_of(t, r) + 1),
        )
    }

    /// A fresh registry with no resources and no threads.
    pub fn new() -> (reg: ResourceRegistry)
        ensures
            reg.wf(),
            reg.n_rids() == 0,
            reg.n_threads() == 0,
    {
        ResourceRegistry {
            available: Vec::new(),
            total: Vec::new(),
            need: Vec::new(),
            allocation: Vec::new(),
        }
    }

    /// Register a new lock or semaphore created with `total_units` units:
    /// appends a column, free in full, with nothing held and nothing needed.
    /// Returns the new resource id. Resource ids are never reused.
    pub fn alloc_rid(&mut self, total_units: usize) -> (rid: usize)
        requires
            old(self).wf(),
            total_units <= isize::MAX as usize,
        ensures
            final(self).wf(),
            rid == old(self).n_rids(),
            final(self).n_rids() == old(self).n_rids() + 1,
            final(self).n_threads() == old(self).n_threads(),
            final(self).avails() == old(self).avails().push(total_units as int),
            final(self).total@ == old(self).total@.push(total_units as isize),
            final(self).avail_of(rid as int) == total_units as int,
            final(self).total_of(rid as int) == total_units as int,
            forall|t: int|
                0 <= t < old(self).n_threads() ==> #[trigger] final(self).needs()[t] == old(
                    self,
                ).needs()[t].push(0),
            forall|t: int|
                0 <= t < old(self).n_threads() ==> #[trigger] final(self).allocs()[t] == old(
                    self,
                ).allocs()[t].push(0),
    {
        let ghost old_self = *old(self);
        let rid = self.available.len();
        self.available.push(total_units as isize);
        self.total.push(total_units as isize);
        let n = self.need.len();
        let mut t: usize = 0;
        while t < n
            invariant
                t <= n,
                n == self.need@.len(),
                self.allocation@.len() == n,
                self.available@ == old_self.available@.push(total_units as isize),
                self.total@ == old_self.total@.push(total_units as isize),
                forall|i: int|
                    0 <= i < t ==> (#[trigger] self.need@[i])@ == old_self.need@[i]@.push(0),
                forall|i: int|
                    0 <= i < t ==> (#[trigger] self.allocation@[i])@ == old_self.allocation@[i]@.push(
                        0,
                    ),
                forall|i: int| t <= i < n ==> #[trigger] self.need@[i] == old_self.need@[i],
                forall|i: int|
                    t <= i < n ==> #[trigger] self.allocation@[i] == old_self.allocation@[i],
            decreases n - t,
        {
            self.need[t].push(0);
            self.allocation[t].push(0);
            t += 1;
        }
        proof {
            let sf = *self;
            lemma_views(&old_self);
            assert forall|i: int| 0 <= i < old_self.n_threads() implies #[trigger] sf.needs()[i]
                == old_self.needs()[i].push(0) by {
                assert(sf.needs()[i] =~= old_self.needs()[i].push(0));
            }
            assert forall|i: int| 0 <= i < old_self.n_threads() implies #[trigger] sf.allocs()[i]
                == old_self.allocs()[i].push(0) by {
                assert(sf.allocs()[i] =~= old_self.allocs()[i].push(0));
            }
            assert(sf.avails() =~= old_self.avails().push(total_units as int));
            assert(sf.shaped());
            lemma_views(&sf);
            assert forall|tt: int, r: int|
                0 <= tt < sf.n_threads() && 0 <= r < sf.n_rids() implies #[trigger] sf.need_of(
                tt,
                r,
            ) >= 0 by {
                assert(sf.needs()[tt][r] == sf.need_of(tt, r));
                assert(sf.needs()[tt] == old_self.needs()[tt].push(0));
                if r < old_self.n_rids() {
                    assert(old_self.needs()[tt][r] == old_self.need_of(tt, r));
                    assert(old_self.need_of(tt, r) >= 0);
                }
            }
            assert forall|tt: int, r: int|
                0 <= tt < sf.n_threads() && 0 <= r < sf.n_rids() implies #[trigger] sf.alloc_of(
                tt,
                r,
            ) >= 0 by {
                assert(sf.allocs()[tt][r] == sf.alloc_of(tt, r));
                assert(sf.allocs()[tt] == old_self.allocs()[tt].push(0));
                if r < old_self.n_rids() {
                    assert(old_self.allocs()[tt][r] == old_self.alloc_of(tt, r));
                    assert(old_self.alloc_of(tt, r) >= 0);
                }
            }
            assert forall|r: int| 0 <= r < sf.n_rids() implies #[trigger] sf.avail_of(r) >= 0 by {
                assert(sf.avails()[r] == sf.avail_of(r));
                if r < old_self.n_rids() {
                    assert(old_self.avails()[r] == old_self.avail_of(r));
                    assert(old_self.avail_of(r) >= 0);
                }
            }
            assert forall|r: int| 0 <= r < sf.n_rids() implies sf.avail_of(r) + #[trigger] col_sum(
                sf.allocs(),
                r,
                sf.n_threads(),
            ) == sf.total_of(r) by {
                if r < old_self.n_rids() {
                    assert(old_self.avail_of(r) + col_sum(
                        old_self.allocs(),
                        r,
                        old_self.n_threads(),
                    ) == old_self.total_of(r));
                    lemma_col_sum_pointwise(
                        sf.allocs(),
                        old_self.allocs(),
                        Seq::empty(),
                        r,
                        sf.n_threads(),
                    );
                } else {
                    assert forall|i: int| 0 <= i < sf.n_threads() implies sf.allocs()[i][r]
                        == 0 by {
                        assert(sf.allocs()[i] == old_self.allocs()[i].push(0));
                    }
                    lemma_col_sum_zero_col(sf.allocs(), r, sf.n_threads());
                }
            }
        }
        rid
    }

    /// Register a newly created thread: a fresh zero row in `need` and in
    /// `allocation`, sized to the current number of resources. Returns the
    /// new thread id.
    pub fn add_thread(&mut self) -> (tid: usize)
        requires
            old(self).wf(),
        ensures
            final(self).wf(),
            tid == old(self).n_threads(),
            final(self).n_threads() == old(self).n_threads() + 1,
            final(self).n_rids() == old(self).n_rids(),
            final(self).avails() == old(self).avails(),
            final(self).total@ == old(self).total@,
            final(self).needs() == old(self).needs().push(
                Seq::new(old(self).n_rids() as nat, |r: int| 0),
            ),
            final(self).allocs() == old(self).allocs().push(
                Seq::new(old(self).n_rids() as nat, |r: int| 0),
            ),
    {
        let ghost old_self = *old(self);
        let tid = self.need.len();
        let m = self.available.len();
        let mut need_row: Vec<isize> = Vec::new();
        let mut alloc_row: Vec<isize> = Vec::new();
        let mut r: usize = 0;
        while r < m
            invariant
                r <= m,
                need_row@.len() == r,
                alloc_row@.len() == r,
                forall|j: int| 0 <= j < r ==> need_row@[j] == 0isize,
                forall|j: int| 0 <= j < r ==> alloc_row@[j] == 0isize,
            decreases m - r,
        {
            need_row.push(0);
            alloc_row.push(0);
            r += 1;
        }
        self.need.push(need_row);
        self.allocation.push(alloc_row);
        proof {
            let sf = *self;
            let zrow = Seq::new(old_self.n_rids() as nat, |r: int| 0int);
            lemma_views(&old_self);
            assert(sf.needs() =~~= old_self.needs().push(zrow));
            assert(sf.allocs() =~~= old_self.allocs().push(zrow));
            assert(sf.shaped());
            lemma_views(&sf);
            assert forall|tt: int, rr: int|
                0 <= tt < sf.n_threads() && 0 <= rr < sf.n_rids() implies #[trigger] sf.need_of(
                tt,
                rr,
            ) >= 0 by {
                assert(sf.needs()[tt][rr] == sf.need_of(tt, rr));
                if tt < old_self.n_threads() {
                    assert(old_self.needs()[tt][rr] == old_self.need_of(tt, rr));
                    assert(old_self.need_of(tt, rr) >= 0);
                }
            }
            assert forall|tt: int, rr: int|
                0 <= tt < sf.n_threads() && 0 <= rr < sf.n_rids() implies #[trigger] sf.alloc_of(
                tt,
                rr,
            ) >= 0 by {
                assert(sf.allocs()[tt][rr] == sf.alloc_of(tt, rr));
                if tt < old_self.n_threads() {
                    assert(old_self.allocs()[tt][rr] == old_self.alloc_of(tt, rr));
                    assert(old_self.alloc_of(tt, rr) >= 0);
                }
            }
            assert forall|r: int| 0 <= r < sf.n_rids() implies #[trigger] sf.avail_of(r) >= 0 by {
                assert(sf.avails()[r] == sf.avail_of(r));
                assert(old_self.avails()[r] == old_self.avail_of(r));
                assert(old_self.avail_of(r) >= 0);
            }
            assert forall|rr: int|
                0 <= rr < sf.n_rids() implies sf.avail_of(rr) + #[trigger] col_sum(
                sf.allocs(),
                rr,
                sf.n_threads(),
            ) == sf.total_of(rr) by {
                assert(old_self.avail_of(rr) + col_sum(
                    old_self.allocs(),
                    rr,
                    old_self.n_threads(),
                ) == old_self.total_of(rr));
                lemma_col_sum_pointwise(
                    sf.allocs(),
                    old_self.allocs(),
                    Seq::empty(),
                    rr,
                    old_self.n_threads(),
                );
                assert(col_sum(sf.allocs(), rr, sf.n_threads()) == col_sum(
                    sf.allocs(),
                    rr,
                    old_self.n_threads(),
                ) + sf.allocs()[old_self.n_threads()][rr]);
            }
        }
        tid
    }

    /// Ask the deadlock detector for a verdict on the current snapshot.
    pub fn deadlock_check(&self) -> (r: bool)
        requires
            self.wf(),
        ensures
            r == self.safe(),
    {
        proof {
            lemma_views(self);
            assert forall|t: int, r: int|
                0 <= t < self.allocation@.len() && 0 <= r < self.available@.len() implies #[trigger] self.allocation@[t]@[r]
                >= 0 by {
                assert(self.alloc_of(t, r) >= 0);
            }
            assert forall|r: int| 0 <= r < self.available@.len() implies self.available@[r]
                >= 0 by {
                assert(self.avail_of(r) >= 0);
            }
            assert forall|r: int|
                0 <= r < self.available@.len() implies self.available@[r] + col_sum(
                matrix_of(self.allocation@),
                r,
                self.allocation@.len() as int,
            ) <= isize::MAX by {
                assert(self.avail_of(r) + col_sum(self.allocs(), r, self.n_threads())
                    == self.total_of(r));
            }
            assert(detector_input_ok(self.available@, self.allocation@, self.need@));
        }
        is_safe(&self.available, &self.allocation, &self.need)
    }

    /// Raise thread `tid`'s pending request on `rid` by one (`need += 1`).
    pub fn request(&mut self, tid: usize, rid: usize)
        requires
            old(self).wf(),
            tid < old(self).n_threads(),
            rid < old(self).n_rids(),
            old(self).need_of(tid as int, rid as int) < isize::MAX,
        ensures
            final(self).wf(),
            final(self).n_threads() == old(self).n_threads(),
            final(self).n_rids() == old(self).n_rids(),
            final(self).avails() == old(self).avails(),
            final(self).total@ == old(self).total@,
            final(self).allocs() == old(self).allocs(),
            final(self).needs() == cell_set(
                old(self).needs(),
                tid as int,
                rid as int,
                old(self).need_of(tid as int, rid as int) + 1,
            ),
    {
        let ghost old_self = *old(self);
        let v = self.need[tid][rid] + 1;
        self.need[tid][rid] = v;
        proof {
            let sf = *self;
            lemma_views(&old_self);
            assert(sf.shaped());
            lemma_views(&sf);
            assert(sf.needs() =~~= cell_set(
                old_self.needs(),
                tid as int,
                rid as int,
                old_self.need_of(tid as int, rid as int) + 1,
            ));
            assert(sf.allocs() =~~= old_self.allocs());
            assert(sf.avails() =~= old_self.avails());
            lemma_nonneg_after(
                &old_self,
                &sf,
                tid as int,
                rid as int,
                old_self.need_of(tid as int, rid as int) + 1,
                old_self.alloc_of(tid as int, rid as int),
            );
            assert forall|r: int| 0 <= r < sf.n_rids() implies #[trigger] sf.avail_of(r) >= 0 by {
                assert(sf.avails()[r] == sf.avail_of(r));
                assert(old_self.avails()[r] == old_self.avail_of(r));
                assert(old_self.avail_of(r) >= 0);
            }
            assert forall|r: int| 0 <= r < sf.n_rids() implies sf.avail_of(r) + #[trigger] col_sum(
                sf.allocs(),
                r,
                sf.n_threads(),
            ) == sf.total_of(r) by {
                assert(old_self.avail_of(r) + col_sum(old_self.allocs(), r, old_self.n_threads())
                    == old_self.total_of(r));
            }
        }
    }

    /// Grant thread `tid` one free unit of `rid`: the unit leaves the free
    /// pool, the pending request is satisfied, the holding is recorded.
    pub fn grant(&mut self, tid: usize, rid: usize)
        requires
            old(self).wf(),
            tid < old(self).n_threads(),
            rid < old(self).n_rids(),
            old(self).need_of(tid as int, rid as int) >= 1,
            old(self).avail_of(rid as int) >= 1,
        ensures
            final(self).wf(),
            final(self).n_threads() == old(self).n_threads(),
            final(self).n_rids() == old(self).n_rids(),
            final(self).total@ == old(self).total@,
            final(self).avails() == old(self).avails().update(
                rid as int,
                old(self).avail_of(rid as int) - 1,
            ),
            final(self).needs() == cell_set(
                old(self).needs(),
                tid as int,
                rid as int,
                old(self).need_of(tid as int, rid as int) - 1,
            ),
            final(self).allocs() == cell_set(
                old(self).allocs(),
                tid as int,
                rid as int,
                old(self).alloc_of(tid as int, rid as int) + 1,
            ),
    {
        let ghost old_self = *old(self);
        proof {
            lemma_views(&old_self);
            lemma_wf_cols(&old_self);
            lemma_col_sum_entry(old_self.allocs(), tid as int, rid as int, old_self.n_threads());
            assert(old_self.avail_of(rid as int) + col_sum(
                old_self.allocs(),
                rid as int,
                old_self.n_threads(),
            ) == old_self.total_of(rid as int));
            assert(old_self.allocs()[tid as int][rid as int] == old_self.alloc_of(
                tid as int,
                rid as int,
            ));
        }
        let nv = self.need[tid][rid] - 1;
        self.need[tid][rid] = nv;
        let av = self.allocation[tid][rid] + 1;
        self.allocation[tid][rid] = av;
        let fv = self.available[rid] - 1;
        self.available[rid] = fv;
        proof {
            let sf = *self;
            assert(sf.shaped());
            lemma_views(&sf);
            assert(sf.needs() =~~= cell_set(
                old_self.needs(),
                tid as int,
                rid as int,
                old_self.need_of(tid as int, rid as int) - 1,
            ));
            assert(sf.allocs() =~~= cell_set(
                old_self.allocs(),
                tid as int,
                rid as int,
                old_self.alloc_of(tid as int, rid as int) + 1,
            ));
            assert(sf.avails() =~= old_self.avails().update(
                rid as int,
                old_self.avail_of(rid as int) - 1,
            ));
            lemma_nonneg_after(
                &old_self,
                &sf,
                tid as int,
                rid as int,
                old_self.need_of(tid as int, rid as int) - 1,
                old_self.alloc_of(tid as int, rid as int) + 1,
            );
            assert forall|r: int| 0 <= r < sf.n_rids() implies #[trigger] sf.avail_of(r) >= 0 by {
                assert(sf.avails()[r] == sf.avail_of(r));
                assert(old_self.avails()[r] == old_self.avail_of(r));
                assert(old_self.avail_of(r) >= 0);
            }
            assert forall|r: int| 0 <= r < sf.n_rids() implies sf.avail_of(r) + #[trigger] col_sum(
                sf.allocs(),
                r,
                sf.n_threads(),
            ) == sf.total_of(r) by {
                assert(old_self.avail_of(r) + col_sum(old_self.allocs(), r, old_self.n_threads())
                    == old_self.total_of(r));
                if r == rid as int {
                    lemma_col_sum_change_one(
                        old_self.allocs(),
                        sf.allocs(),
                        tid as int,
                        r,
                        sf.n_threads(),
                    );
                } else {
                    lemma_col_sum_pointwise(
                        sf.allocs(),
                        old_self.allocs(),
                        Seq::empty(),
                        r,
                        sf.n_threads(),
                    );
                }
            }
        }
    }

    /// Hand one unit of `rid` over from `from` (who holds it) to `to` (who
    /// has a pending request): the unit never touches the free pool.
    pub fn handoff(&mut self, from: usize, to: usize, rid: usize)
        requires
            old(self).wf(),
            from < old(self).n_threads(),
            to < old(self).n_threads(),
            from != to,
            rid < old(self).n_rids(),
            old(self).alloc_of(from as int, rid as int) >= 1,
            old(self).need_of(to as int, rid as int) >= 1,
        ensures
            final(self).wf(),
            final(self).n_threads() == old(self).n_threads(),
            final(self).n_rids() == old(self).n_rids(),
            final(self).total@ == old(self).total@,
            final(self).avails() == old(self).avails(),
            final(self).needs() == cell_set(
                old(self).needs(),
                to as int,
                rid as int,
                old(self).need_of(to as int, rid as int) - 1,
            ),
            final(self).allocs() == cell_set(
                cell_set(
                    old(self).allocs(),
                    from as int,
                    rid as int,
                    old(self).alloc_of(from as int, rid as int) - 1,
                ),
                to as int,
                rid as int,
                old(self).alloc_of(to as int, rid as int) + 1,
            ),
    {
        let ghost old_self = *old(self);
        proof {
            lemma_views(&old_self);
            lemma_wf_cols(&old_self);
            lemma_col_sum_pair(
                old_self.allocs(),
                from as int,
                to as int,
                rid as int,
                old_self.n_threads(),
            );
            assert(old_self.avail_of(rid as int) + col_sum(
                old_self.allocs(),
                rid as int,
                old_self.n_threads(),
            ) == old_self.total_of(rid as int));
            assert(old_self.allocs()[from as int][rid as int] == old_self.alloc_of(
                from as int,
                rid as int,
            ));
            assert(old_self.allocs()[to as int][rid as int] == old_self.alloc_of(
                to as int,
                rid as int,
            ));
        }
        let fv = self.allocation[from][rid] - 1;
        self.allocation[from][rid] = fv;
        let tv = self.allocation[to][rid] + 1;
        self.allocation[to][rid] = tv;
        let nv = self.need[to][rid] - 1;
        self.need[to][rid] = nv;
        proof {
            let sf = *self;
            assert(sf.shaped());
            lemma_views(&sf);
            let mid = cell_set(
                old_self.allocs(),
                from as int,
                rid as int,
                old_self.alloc_of(from as int, rid as int) - 1,
            );
            assert(sf.needs() =~~= cell_set(
                old_self.needs(),
                to as int,
                rid as int,
                old_self.need_of(to as int, rid as int) - 1,
            ));
            assert(sf.allocs() =~~= cell_set(
                mid,
                to as int,
                rid as int,
                old_self.alloc_of(to as int, rid as int) + 1,
            ));
            assert(sf.avails() =~= old_self.avails());
            assert forall|tt: int, rr: int|
                0 <= tt < sf.n_threads() && 0 <= rr < sf.n_rids() implies #[trigger] sf.need_of(
                tt,
                rr,
            ) >= 0 by {
                assert(sf.needs()[tt][rr] == sf.need_of(tt, rr));
                assert(old_self.needs()[tt][rr] == old_self.need_of(tt, rr));
                assert(old_self.need_of(tt, rr) >= 0);
            }
            assert forall|tt: int, rr: int|
                0 <= tt < sf.n_threads() && 0 <= rr < sf.n_rids() implies #[trigger] sf.alloc_of(
                tt,
                rr,
            ) >= 0 by {
                assert(sf.allocs()[tt][rr] == sf.alloc_of(tt, rr));
                assert(old_self.allocs()[tt][rr] == old_self.alloc_of(tt, rr));
                assert(old_self.alloc_of(tt, rr) >= 0);
            }
            assert forall|r: int| 0 <= r < sf.n_rids() implies #[trigger] sf.avail_of(r) >= 0 by {
                assert(sf.avails()[r] == sf.avail_of(r));
                assert(old_self.avails()[r] == old_self.avail_of(r));
                assert(old_self.avail_of(r) >= 0);
            }
            assert forall|r: int| 0 <= r < sf.n_rids() implies sf.avail_of(r) + #[trigger] col_sum(
                sf.allocs(),
                r,
                sf.n_threads(),
            ) == sf.total_of(r) by {
                assert(old_self.avail_of(r) + col_sum(old_self.allocs(), r, old_self.n_threads())
                    == old_self.total_of(r));
                if r == rid as int {
                    lemma_col_sum_change_one(
                        old_self.allocs(),
                        mid,
                        from as int,
                        r,
                        sf.n_threads(),
                    );
                    lemma_col_sum_change_one(mid, sf.allocs(), to as int, r, sf.n_threads());
                } else {
                    lemma_col_sum_pointwise(
                        sf.allocs(),
                        old_self.allocs(),
                        Seq::empty(),
                        r,
                        sf.n_threads(),
                    );
                }
            }
        }
    }

    /// Thread `tid` releases one unit of `rid` back into the free pool.
    pub fn release(&mut self, tid: usize, rid: usize)
        requires
            old(self).wf(),
            tid < old(self).n_threads(),
            rid < old(self).n_rids(),
            old(self).alloc_of(tid as int, rid as int) >= 1,
        ensures
            final(self).wf(),
            final(self).n_threads() == old(self).n_threads(),
            final(self).n_rids() == old(self).n_rids(),
            final(self).total@ == old(self).total@,
            final(self).needs() == old(self).needs(),
            final(self).avails() == old(self).avails().update(
                rid as int,
                old(self).avail_of(rid as int) + 1,
            ),
            final(self).allocs() == cell_set(
                old(self).allocs(),
                tid as int,
                rid as int,
                old(self).alloc_of(tid as int, rid as int) - 1,
            ),
    {
        let ghost old_self = *old(self);
        proof {
            lemma_views(&old_self);
            lemma_wf_cols(&old_self);
            lemma_col_sum_entry(old_self.allocs(), tid as int, rid as int, old_self.n_threads());
            assert(old_self.avail_of(rid as int) + col_sum(
                old_self.allocs(),
                rid as int,
                old_self.n_threads(),
            ) == old_self.total_of(rid as int));
            assert(old_self.allocs()[tid as int][rid as int] == old_self.alloc_of(
                tid as int,
                rid as int,
            ));
        }
        let av = self.allocation[tid][rid] - 1;
        self.allocation[tid][rid] = av;
        let fv = self.available[rid] + 1;
        self.available[rid] = fv;
        proof {
            let sf = *self;
            assert(sf.shaped());
            lemma_views(&sf);
            assert(sf.needs() =~~= old_self.needs());
            assert(sf.allocs() =~~= cell_set(
                old_self.allocs(),
                tid as int,
                rid as int,
                old_self.alloc_of(tid as int, rid as int) - 1,
            ));
            assert(sf.avails() =~= old_self.avails().update(
                rid as int,
                old_self.avail_of(rid as int) + 1,
            ));
            lemma_nonneg_after(
                &old_self,
                &sf,
                tid as int,
                rid as int,
                old_self.need_of(tid as int, rid as int),
                old_self.alloc_of(tid as int, rid as int) - 1,
            );
            assert forall|r: int| 0 <= r < sf.n_rids() implies #[trigger] sf.avail_of(r) >= 0 by {
                assert(sf.avails()[r] == sf.avail_of(r));
                assert(old_self.avails()[r] == old_self.avail_of(r));
                assert(old_self.avail_of(r) >= 0);
            }
            assert forall|r: int| 0 <= r < sf.n_rids() implies sf.avail_of(r) + #[trigger] col_sum(
                sf.allocs(),
                r,
                sf.n_threads(),
            ) == sf.total_of(r) by {
                assert(old_self.avail_of(r) + col_sum(old_self.allocs(), r, old_self.n_threads())
                    == old_self.total_of(r));
                if r == rid as int {
                    lemma_col_sum_change_one(
                        old_self.allocs(),
                        sf.allocs(),
                        tid as int,
                        r,
                        sf.n_threads(),
                    );
                } else {
                    lemma_col_sum_pointwise(
                        sf.allocs(),
                        old_self.allocs(),
                        Seq::empty(),
                        r,
                        sf.n_threads(),
                    );
                }
            }
        }
    }
}

/// Bridge between the matrix views and the per-cell accessors.
pub proof fn lemma_views(reg: &ResourceRegistry)
    requires
        reg.shaped(),
    ensures
        forall|t: int, r: int|
            0 <= t < reg.n_threads() && 0 <= r < reg.n_rids() ==> #[trigger] reg.needs()[t][r]
                == reg.need_of(t, r),
        forall|t: int, r: int|
            0 <= t < reg.n_threads() && 0 <= r < reg.n_rids() ==> #[trigger] reg.allocs()[t][r]
                == reg.alloc_of(t, r),
        forall|r: int| 0 <= r < reg.n_rids() ==> #[trigger] reg.avails()[r] == reg.avail_of(r),
{
    assert forall|t: int, r: int|
        0 <= t < reg.n_threads() && 0 <= r < reg.n_rids() implies #[trigger] reg.needs()[t][r]
        == reg.need_of(t, r) && #[trigger] reg.allocs()[t][r] == reg.alloc_of(t, r) by {
        assert(reg.needs()[t] == ints_of(reg.need@[t]@));
        assert(reg.allocs()[t] == ints_of(reg.allocation@[t]@));
    }
}

/// In a well-formed registry every allocation column is nonnegative.
pub proof fn lemma_wf_cols(reg: &ResourceRegistry)
    requires
        reg.wf(),
    ensures
        forall|r: int|
            0 <= r < reg.n_rids() ==> #[trigger] col_nonneg(reg.allocs(), r, reg.n_threads()),
{
    lemma_views(reg);
    assert forall|r: int| 0 <= r < reg.n_rids() implies #[trigger] col_nonneg(
        reg.allocs(),
        r,
        reg.n_threads(),
    ) by {
        assert forall|t: int| 0 <= t < reg.n_threads() implies reg.allocs()[t][r] >= 0 by {
            assert(reg.allocs()[t][r] == reg.alloc_of(t, r));
            assert(reg.alloc_of(t, r) >= 0);
        }
    }
}

/// The nonnegativity clauses of `wf` carry over to a registry that differs
/// from a well-formed one in one `need` cell and one `allocation` cell, both
/// still nonnegative.
proof fn lemma_nonneg_after(
    old_reg: &ResourceRegistry,
    new_reg: &ResourceRegistry,
    tid: int,
    rid: int,
    nv: int,
    av: int,
)
    requires
        old_reg.wf(),
        new_reg.shaped(),
        new_reg.n_threads() == old_reg.n_threads(),
        new_reg.n_rids() == old_reg.n_rids(),
        0 <= tid < old_reg.n_threads(),
        0 <= rid < old_reg.n_rids(),
        nv >= 0,
        av >= 0,
        new_reg.needs() == cell_set(old_reg.needs(), tid, rid, nv) || new_reg.needs()
            == old_reg.needs(),
        new_reg.allocs() == cell_set(old_reg.allocs(), tid, rid, av) || new_reg.allocs()
            == old_reg.allocs(),
    ensures
        forall|t: int, r: int|
            0 <= t < new_reg.n_threads() && 0 <= r < new_reg.n_rids() ==> #[trigger] new_reg.need_of(
                t,
                r,
            ) >= 0,
        forall|t: int, r: int|
            0 <= t < new_reg.n_threads() && 0 <= r < new_reg.n_rids() ==> #[trigger] new_reg.alloc_of(
                t,
                r,
            ) >= 0,
{
    lemma_views(old_reg);
    lemma_views(new_reg);
    assert forall|t: int, r: int|
        0 <= t < new_reg.n_threads() && 0 <= r < new_reg.n_rids() implies #[trigger] new_reg.need_of(
        t,
        r,
    ) >= 0 by {
        assert(new_reg.needs()[t][r] == new_reg.need_of(t, r));
        assert(old_reg.needs()[t][r] == old_reg.need_of(t, r));
        assert(old_reg.need_of(t, r) >= 0);
    }
    assert forall|t: int, r: int|
        0 <= t < new_reg.n_threads() && 0 <= r < new_reg.n_rids() implies #[trigger] new_reg.alloc_of(
        t,
        r,
    ) >= 0 by {
        assert(new_reg.allocs()[t][r] == new_reg.alloc_of(t, r));
        assert(old_reg.allocs()[t][r] == old_reg.alloc_of(t, r));
        assert(old_reg.alloc_of(t, r) >= 0);
    }
}


/// Pointwise reading of a one-cell update of the need matrix.
pub proof fn lemma_needs_pointwise(a: &ResourceRegistry, b: &ResourceRegistry, tid: int, rid: int, v: int)
    requires
        a.shaped(),
        b.shaped(),
        b.n_threads() == a.n_threads(),
        b.n_rids() == a.n_rids(),
        0 <= tid < a.n_threads(),
        0 <= rid < a.n_rids(),
        b.needs() == cell_set(a.needs(), tid, rid, v),
    ensures
        b.need_of(tid, rid) == v,
        forall|t: int, r: int|
            0 <= t < a.n_threads() && 0 <= r < a.n_rids() && !(t == tid && r == rid)
                ==> #[trigger] b.need_of(t, r) == a.need_of(t, r),
{
    lemma_views(a);
    lemma_views(b);
    assert(b.needs()[tid][rid] == b.need_of(tid, rid));
    assert forall|t: int, r: int|
        0 <= t < a.n_threads() && 0 <= r < a.n_rids() && !(t == tid && r == rid)
            implies #[trigger] b.need_of(t, r) == a.need_of(t, r) by {
        assert(b.needs()[t][r] == b.need_of(t, r));
        assert(a.needs()[t][r] == a.need_of(t, r));
    }
}

/// Pointwise reading of an unchanged need matrix.
pub proof fn lemma_needs_equal(a: &ResourceRegistry, b: &ResourceRegistry)
    requires
        a.shaped(),
        b.shaped(),
        b.n_threads() == a.n_threads(),
        b.n_rids() == a.n_rids(),
        b.needs() == a.needs(),
    ensures
        forall|t: int, r: int|
            0 <= t < a.n_threads() && 0 <= r < a.n_rids() ==> #[trigger] b.need_of(t, r)
                == a.need_of(t, r),
{
    lemma_views(a);
    lemma_views(b);
    assert forall|t: int, r: int|
        0 <= t < a.n_threads() && 0 <= r < a.n_rids() implies #[trigger] b.need_of(t, r)
        == a.need_of(t, r) by {
        assert(b.needs()[t][r] == b.need_of(t, r));
        assert(a.needs()[t][r] == a.need_of(t, r));
    }
}

/// Pointwise reading of a one-cell update of the allocation matrix.
pub proof fn lemma_allocs_pointwise(a: &ResourceRegistry, b: &ResourceRegistry, tid: int, rid: int, v: int)
    requires
        a.shaped(),
        b.shaped(),
        b.n_threads() == a.n_threads(),
        b.n_rids() == a.n_rids(),
        0 <= tid < a.n_threads(),
        0 <= rid < a.n_rids(),
        b.allocs() == cell_set(a.allocs(), tid, rid, v),
    ensures
        b.alloc_of(tid, rid) == v,
        forall|t: int, r: int|
            0 <= t < a.n_threads() && 0 <= r < a.n_rids() && !(t == tid && r == rid)
                ==> #[trigger] b.alloc_of(t, r) == a.alloc_of(t, r),
{
    lemma_views(a);
    lemma_views(b);
    assert(b.allocs()[tid][rid] == b.alloc_of(tid, rid));
    assert forall|t: int, r: int|
        0 <= t < a.n_threads() && 0 <= r < a.n_rids() && !(t == tid && r == rid)
            implies #[trigger] b.alloc_of(t, r) == a.alloc_of(t, r) by {
        assert(b.allocs()[t][r] == b.alloc_of(t, r));
        assert(a.allocs()[t][r] == a.alloc_of(t, r));
    }
}

/// Pointwise reading of an unchanged allocation matrix.
pub proof fn lemma_allocs_equal(a: &ResourceRegistry, b: &ResourceRegistry)
    requires
        a.shaped(),
        b.shaped(),
        b.n_threads() == a.n_threads(),
        b.n_rids() == a.n_rids(),
        b.allocs() == a.allocs(),
    ensures
        forall|t: int, r: int|
            0 <= t < a.n_threads() && 0 <= r < a.n_rids() ==> #[trigger] b.alloc_of(t, r)
                == a.alloc_of(t, r),
{
    lemma_views(a);
    lemma_views(b);
    assert forall|t: int, r: int|
        0 <= t < a.n_threads() && 0 <= r < a.n_rids() implies #[trigger] b.alloc_of(t, r)
        == a.alloc_of(t, r) by {
        assert(b.allocs()[t][r] == b.alloc_of(t, r));
        assert(a.allocs()[t][r] == a.alloc_of(t, r));
    }
}

/// Pointwise reading of the free pool after an update at one resource.
pub proof fn lemma_avails_pointwise(a: &ResourceRegistry, b: &ResourceRegistry, rid: int, v: int)
    requires
        b.n_rids() == a.n_rids(),
        0 <= rid < a.n_rids(),
        b.avails() == a.avails().update(rid, v),
    ensures
        b.avail_of(rid) == v,
        forall|r: int|
            0 <= r < a.n_rids() && r != rid ==> #[trigger] b.avail_of(r) == a.avail_of(r),
{
    assert(b.avails()[rid] == b.avail_of(rid));
    assert forall|r: int| 0 <= r < a.n_rids() && r != rid implies #[trigger] b.avail_of(r)
        == a.avail_of(r) by {
        assert(b.avails()[r] == b.avail_of(r));
        assert(a.avails()[r] == a.avail_of(r));
    }
}

/// Pointwise reading of an unchanged free pool.
pub proof fn lemma_avails_equal(a: &ResourceRegistry, b: &ResourceRegistry)
    requires
        b.n_rids() == a.n_rids(),
        b.avails() == a.avails(),
    ensures
        forall|r: int| 0 <= r < a.n_rids() ==> #[trigger] b.avail_of(r) == a.avail_of(r),
{
    assert forall|r: int| 0 <= r < a.n_rids() implies #[trigger] b.avail_of(r) == a.avail_of(r) by {
        assert(b.avails()[r] == b.avail_of(r));
        assert(a.avails()[r] == a.avail_of(r));
    }
}

} // verus!
