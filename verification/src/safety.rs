//! The deadlock detector: a decision procedure for safety of a
//! resource-allocation state, in the sense of the Banker's algorithm.
//!
//! A state consists of the units still free (`avail`), the units each thread
//! holds (`alloc`) and the units each thread has asked for but not yet
//! received (`need`), one row per thread and one column per resource. The
//! state is *safe* when the threads can be run to completion one at a time,
//! each running only once the free pool (grown by everything earlier threads
//! released) covers its whole `need` row.

use vstd::prelude::*;

verus! {

/// Sum of column `r` over the first `n` rows of `m`.
pub open spec fn col_sum(m: Seq<Seq<int>>, r: int, n: int) -> int
    decreases n,
{
    if n <= 0 {
        0
    } else {
        col_sum(m, r, n - 1) + m[n - 1][r]
    }
}

/// Sum of column `r` over the first `n` rows of `m` whose `finish` bit is set.
pub open spec fn finished_col_sum(m: Seq<Seq<int>>, finish: Seq<bool>, r: int, n: int) -> int
    decreases n,
{
    if n <= 0 {
        0
    } else {
        finished_col_sum(m, finish, r, n - 1) + if finish[n - 1] {
            m[n - 1][r]
        } else {
            0
        }
    }
}

/// Units of resource `r` the run-to-completion simulation has on hand once
/// the threads marked in `finish` have run and released what they held.
pub open spec fn work_of(avail: Seq<int>, alloc: Seq<Seq<int>>, finish: Seq<bool>, r: int) -> int {
    avail[r] + finished_col_sum(alloc, finish, r, alloc.len() as int)
}

/// Thread `t` can run to completion right now: its whole `need` row is
/// covered by the current work vector.
pub open spec fn can_run(
    avail: Seq<int>,
    alloc: Seq<Seq<int>>,
    need: Seq<Seq<int>>,
    finish: Seq<bool>,
    t: int,
) -> bool {
    forall|r: int| 0 <= r < avail.len() ==> need[t][r] <= work_of(avail, alloc, finish, r)
}

pub open spec fn all_finished(finish: Seq<bool>) -> bool {
    forall|t: int| 0 <= t < finish.len() ==> finish[t]
}

/// How many threads have not yet run in the simulation.
pub open spec fn count_unfinished(finish: Seq<bool>) -> nat
    decreases finish.len(),
{
    if finish.len() == 0 {
        0nat
    } else {
        count_unfinished(finish.drop_last()) + if finish.last() {
            0nat
        } else {
            1nat
        }
    }
}

/// Safety from an intermediate simulation state: every thread already ran, or
/// some unfinished thread can run now and the state after it releases its
/// holdings is again safe.
pub open spec fn safe_from(
    avail: Seq<int>,
    alloc: Seq<Seq<int>>,
    need: Seq<Seq<int>>,
    finish: Seq<bool>,
) -> bool
    decreases count_unfinished(finish) via safe_from_decreases
{
    all_finished(finish) || exists|t: int|
        0 <= t < finish.len() && !finish[t] && can_run(avail, alloc, need, finish, t)
            && safe_from(avail, alloc, need, finish.update(t, true))
}

/// A resource-allocation state is safe when the simulation, started with no
/// thread finished, can run every thread to completion.
pub open spec fn safe_state(avail: Seq<int>, alloc: Seq<Seq<int>>, need: Seq<Seq<int>>) -> bool {
    safe_from(avail, alloc, need, Seq::new(need.len(), |t: int| false))
}

/// Marking an unfinished thread lowers the count of unfinished threads by one.
pub proof fn lemma_count_unfinished_update(finish: Seq<bool>, t: int)
    requires
        0 <= t < finish.len(),
        !finish[t],
    ensures
        count_unfinished(finish.update(t, true)) + 1 == count_unfinished(finish),
    decreases finish.len(),
{
    let upd = finish.update(t, true);
    if t == finish.len() - 1 {
        assert(upd.drop_last() =~= finish.drop_last());
    } else {
        assert(upd.drop_last() =~= finish.drop_last().update(t, true));
        lemma_count_unfinished_update(finish.drop_last(), t);
    }
}

#[via_fn]
proof fn safe_from_decreases(
    avail: Seq<int>,
    alloc: Seq<Seq<int>>,
    need: Seq<Seq<int>>,
    finish: Seq<bool>,
) {
    assert forall|t: int| 0 <= t < finish.len() && !finish[t] implies count_unfinished(
        finish.update(t, true),
    ) < count_unfinished(finish) by {
        lemma_count_unfinished_update(finish, t);
    }
}

/// All entries of column `r` over the first `n` rows are nonnegative.
pub open spec fn col_nonneg(m: Seq<Seq<int>>, r: int, n: int) -> bool {
    forall|t: int| 0 <= t < n ==> m[t][r] >= 0
}

/// A column sum, full or restricted to finished rows, stays between zero and
/// the full column sum when the column is nonnegative.
pub proof fn lemma_col_sum_bounds(m: Seq<Seq<int>>, finish: Seq<bool>, r: int, n: int)
    requires
        col_nonneg(m, r, n),
    ensures
        0 <= finished_col_sum(m, finish, r, n) <= col_sum(m, r, n),
    decreases n,
{
    if n > 0 {
        lemma_col_sum_bounds(m, finish, r, n - 1);
    }
}

/// Marking one more row adds exactly that row's entry to the finished sum.
pub proof fn lemma_finished_col_sum_update(m: Seq<Seq<int>>, finish: Seq<bool>, u: int, r: int, n: int)
    requires
        0 <= u < finish.len(),
        n <= finish.len(),
        !finish[u],
    ensures
        finished_col_sum(m, finish.update(u, true), r, n) == finished_col_sum(m, finish, r, n)
            + if u < n {
            m[u][r]
        } else {
            0
        },
    decreases n,
{
    if n > 0 {
        lemma_finished_col_sum_update(m, finish, u, r, n - 1);
    }
}

/// Two matrices that agree on column `r` (and two equal finish vectors) have
/// the same column sums there.
pub proof fn lemma_col_sum_pointwise(m1: Seq<Seq<int>>, m2: Seq<Seq<int>>, finish: Seq<bool>, r: int, n: int)
    requires
        forall|t: int| 0 <= t < n ==> m1[t][r] == m2[t][r],
    ensures
        col_sum(m1, r, n) == col_sum(m2, r, n),
        finished_col_sum(m1, finish, r, n) == finished_col_sum(m2, finish, r, n),
    decreases n,
{
    if n > 0 {
        lemma_col_sum_pointwise(m1, m2, finish, r, n - 1);
    }
}

/// Changing column `r` in a single row shifts the full column sum by the
/// difference in that one cell.
pub proof fn lemma_col_sum_change_one(m1: Seq<Seq<int>>, m2: Seq<Seq<int>>, t: int, r: int, n: int)
    requires
        0 <= t < n,
        forall|i: int| 0 <= i < n && i != t ==> m1[i][r] == m2[i][r],
    ensures
        col_sum(m2, r, n) == col_sum(m1, r, n) + m2[t][r] - m1[t][r],
    decreases n,
{
    if n - 1 == t {
        lemma_col_sum_pointwise(m1, m2, Seq::empty(), r, n - 1);
    } else {
        lemma_col_sum_change_one(m1, m2, t, r, n - 1);
    }
}

/// A single cell of a nonnegative column is at most the column sum.
pub proof fn lemma_col_sum_entry(m: Seq<Seq<int>>, t: int, r: int, n: int)
    requires
        col_nonneg(m, r, n),
        0 <= t < n,
    ensures
        m[t][r] <= col_sum(m, r, n),
    decreases n,
{
    if t < n - 1 {
        lemma_col_sum_entry(m, t, r, n - 1);
    } else {
        lemma_col_sum_bounds(m, Seq::empty(), r, n - 1);
    }
}

/// Two cells of a nonnegative column together are at most the column sum.
pub proof fn lemma_col_sum_pair(m: Seq<Seq<int>>, t1: int, t2: int, r: int, n: int)
    requires
        col_nonneg(m, r, n),
        0 <= t1 < n,
        0 <= t2 < n,
        t1 != t2,
    ensures
        m[t1][r] + m[t2][r] <= col_sum(m, r, n),
    decreases n,
{
    if t1 < n - 1 && t2 < n - 1 {
        lemma_col_sum_pair(m, t1, t2, r, n - 1);
    } else if t1 < n - 1 {
        lemma_col_sum_entry(m, t1, r, n - 1);
    } else {
        lemma_col_sum_entry(m, t2, r, n - 1);
    }
}

/// Work only grows as more threads finish, so a thread that can run keeps
/// being able to run.
pub proof fn lemma_can_run_grows(
    avail: Seq<int>,
    alloc: Seq<Seq<int>>,
    need: Seq<Seq<int>>,
    finish: Seq<bool>,
    u: int,
    t: int,
)
    requires
        alloc.len() == finish.len(),
        forall|r: int| 0 <= r < avail.len() ==> col_nonneg(alloc, r, alloc.len() as int),
        0 <= u < finish.len(),
        !finish[u],
        can_run(avail, alloc, need, finish, t),
    ensures
        can_run(avail, alloc, need, finish.update(u, true), t),
{
    let upd = finish.update(u, true);
    assert forall|r: int| 0 <= r < avail.len() implies need[t][r] <= work_of(avail, alloc, upd, r) by {
        assert(col_nonneg(alloc, r, alloc.len() as int));
        assert(need[t][r] <= work_of(avail, alloc, finish, r));
        lemma_finished_col_sum_update(alloc, finish, u, r, alloc.len() as int);
    }
}

/// The exchange argument behind the Banker's algorithm: running a runnable
/// thread first never turns a safe state unsafe. Greedily finishing any
/// runnable thread is therefore complete.
pub proof fn lemma_safe_exchange(
    avail: Seq<int>,
    alloc: Seq<Seq<int>>,
    need: Seq<Seq<int>>,
    finish: Seq<bool>,
    t: int,
)
    requires
        alloc.len() == finish.len(),
        forall|r: int| 0 <= r < avail.len() ==> col_nonneg(alloc, r, alloc.len() as int),
        0 <= t < finish.len(),
        !finish[t],
        can_run(avail, alloc, need, finish, t),
        safe_from(avail, alloc, need, finish),
    ensures
        safe_from(avail, alloc, need, finish.update(t, true)),
    decreases count_unfinished(finish),
{
    let fin_t = finish.update(t, true);
    if all_finished(fin_t) {
        assert(safe_from(avail, alloc, need, fin_t));
    } else {
        assert(!all_finished(finish));
        let u = choose|u: int|
            0 <= u < finish.len() && !finish[u] && can_run(avail, alloc, need, finish, u)
                && safe_from(avail, alloc, need, finish.update(u, true));
        if u == t {
            assert(safe_from(avail, alloc, need, fin_t));
        } else {
            let fin_u = finish.update(u, true);
            lemma_count_unfinished_update(finish, u);
            lemma_can_run_grows(avail, alloc, need, finish, u, t);
            lemma_safe_exchange(avail, alloc, need, fin_u, t);
            assert(fin_u.update(t, true) =~= fin_t.update(u, true));
            lemma_can_run_grows(avail, alloc, need, finish, t, u);
            assert(0 <= u < fin_t.len() && !fin_t[u] && can_run(avail, alloc, need, fin_t, u)
                && safe_from(avail, alloc, need, fin_t.update(u, true)));
            assert(safe_from(avail, alloc, need, fin_t));
        }
    }
}

/// A column holding only zeroes sums to zero.
pub proof fn lemma_col_sum_zero_col(m: Seq<Seq<int>>, r: int, n: int)
    requires
        forall|t: int| 0 <= t < n ==> m[t][r] == 0,
    ensures
        col_sum(m, r, n) == 0,
    decreases n,
{
    if n > 0 {
        lemma_col_sum_zero_col(m, r, n - 1);
    }
}

/// A finished-row column sum is zero when every finished row holds zero in
/// the column.
pub proof fn lemma_finished_col_sum_zero(m: Seq<Seq<int>>, finish: Seq<bool>, r: int, n: int)
    requires
        forall|t: int| 0 <= t < n && finish[t] ==> m[t][r] == 0,
    ensures
        finished_col_sum(m, finish, r, n) == 0,
    decreases n,
{
    if n > 0 {
        lemma_finished_col_sum_zero(m, finish, r, n - 1);
    }
}

/// A finished-row column sum is the whole column sum when every row not yet
/// finished holds zero in the column.
pub proof fn lemma_finished_col_sum_full(m: Seq<Seq<int>>, finish: Seq<bool>, r: int, n: int)
    requires
        forall|t: int| 0 <= t < n && !finish[t] ==> m[t][r] == 0,
    ensures
        finished_col_sum(m, finish, r, n) == col_sum(m, r, n),
    decreases n,
{
    if n > 0 {
        lemma_finished_col_sum_full(m, finish, r, n - 1);
    }
}

/// A state in which every unfinished thread's whole need row is already
/// covered by the current work vector is safe: the threads can run in any
/// order, since work only grows.
pub proof fn lemma_all_covered_safe_from(
    avail: Seq<int>,
    alloc: Seq<Seq<int>>,
    need: Seq<Seq<int>>,
    finish: Seq<bool>,
)
    requires
        alloc.len() == finish.len(),
        need.len() == finish.len(),
        forall|r: int| 0 <= r < avail.len() ==> col_nonneg(alloc, r, alloc.len() as int),
        forall|t: int|
            0 <= t < finish.len() && !finish[t] ==> can_run(avail, alloc, need, finish, t),
    ensures
        safe_from(avail, alloc, need, finish),
    decreases count_unfinished(finish),
{
    if !all_finished(finish) {
        let t = choose|t: int| 0 <= t < finish.len() && !finish[t];
        let upd = finish.update(t, true);
        lemma_count_unfinished_update(finish, t);
        assert forall|u: int| 0 <= u < upd.len() && !upd[u] implies can_run(
            avail,
            alloc,
            need,
            upd,
            u,
        ) by {
            lemma_can_run_grows(avail, alloc, need, finish, t, u);
        }
        lemma_all_covered_safe_from(avail, alloc, need, upd);
        assert(can_run(avail, alloc, need, finish, t));
        assert(safe_from(avail, alloc, need, finish));
    }
}

/// Safety of a one-resource request pattern: all requests sit on a single
/// column `rid`, no requester holds any of that resource, and every request
/// fits under what the column's holders and the free pool have together.
/// Then the holders (whose need rows are zero) can run first, releasing the
/// whole column, after which every requester's need is covered.
pub proof fn lemma_column_requests_safe_from(
    avail: Seq<int>,
    alloc: Seq<Seq<int>>,
    need: Seq<Seq<int>>,
    finish: Seq<bool>,
    rid: int,
)
    requires
        alloc.len() == finish.len(),
        need.len() == finish.len(),
        0 <= rid < avail.len(),
        forall|r: int| 0 <= r < avail.len() ==> avail[r] >= 0,
        forall|r: int| 0 <= r < avail.len() ==> col_nonneg(alloc, r, alloc.len() as int),
        forall|t: int, r: int|
            0 <= t < need.len() && 0 <= r < avail.len() && r != rid ==> #[trigger] need[t][r] <= 0,
        forall|t: int|
            0 <= t < need.len() && #[trigger] need[t][rid] > 0 ==> alloc[t][rid] == 0,
        forall|t: int|
            0 <= t < need.len() ==> #[trigger] need[t][rid] <= avail[rid] + col_sum(
                alloc,
                rid,
                alloc.len() as int,
            ),
    ensures
        safe_from(avail, alloc, need, finish),
    decreases count_unfinished(finish),
{
    let n = finish.len() as int;
    if !all_finished(finish) {
        if exists|t: int| 0 <= t < n && !finish[t] && need[t][rid] <= 0 {
            let t = choose|t: int| 0 <= t < n && !finish[t] && need[t][rid] <= 0;
            assert forall|r: int| 0 <= r < avail.len() implies need[t][r] <= work_of(
                avail,
                alloc,
                finish,
                r,
            ) by {
                lemma_col_sum_bounds(alloc, finish, r, n);
            }
            lemma_count_unfinished_update(finish, t);
            lemma_column_requests_safe_from(avail, alloc, need, finish.update(t, true), rid);
            assert(can_run(avail, alloc, need, finish, t));
            assert(safe_from(avail, alloc, need, finish));
        } else {
            // every unfinished thread is a requester holding none of `rid`,
            // so the finished threads have released the whole column
            lemma_finished_col_sum_full(alloc, finish, rid, n);
            assert forall|t: int| 0 <= t < n && !finish[t] implies can_run(
                avail,
                alloc,
                need,
                finish,
                t,
            ) by {
                assert forall|r: int| 0 <= r < avail.len() implies need[t][r] <= work_of(
                    avail,
                    alloc,
                    finish,
                    r,
                ) by {
                    lemma_col_sum_bounds(alloc, finish, r, n);
                    if r == rid {
                        assert(need[t][rid] <= avail[rid] + col_sum(alloc, rid, n));
                    }
                }
            }
            lemma_all_covered_safe_from(avail, alloc, need, finish);
        }
    }
}

/// A finished-row column sum over a finish vector with nothing set is zero.
pub proof fn lemma_finished_col_sum_none(m: Seq<Seq<int>>, finish: Seq<bool>, r: int, n: int)
    requires
        forall|t: int| 0 <= t < n ==> !finish[t],
    ensures
        finished_col_sum(m, finish, r, n) == 0,
    decreases n,
{
    if n > 0 {
        lemma_finished_col_sum_none(m, finish, r, n - 1);
    }
}

/// Marking a runnable thread as finished neither gains nor loses safety.
pub proof fn lemma_safe_mark(
    avail: Seq<int>,
    alloc: Seq<Seq<int>>,
    need: Seq<Seq<int>>,
    finish: Seq<bool>,
    t: int,
)
    requires
        alloc.len() == finish.len(),
        forall|r: int| 0 <= r < avail.len() ==> col_nonneg(alloc, r, alloc.len() as int),
        0 <= t < finish.len(),
        !finish[t],
        can_run(avail, alloc, need, finish, t),
    ensures
        safe_from(avail, alloc, need, finish) == safe_from(avail, alloc, need, finish.update(t, true)),
{
    if safe_from(avail, alloc, need, finish) {
        lemma_safe_exchange(avail, alloc, need, finish, t);
    }
    if safe_from(avail, alloc, need, finish.update(t, true)) {
        assert(safe_from(avail, alloc, need, finish));
    }
}

/// Spec view of a vector of machine integers.
pub open spec fn ints_of(v: Seq<isize>) -> Seq<int> {
    Seq::new(v.len(), |i: int| v[i] as int)
}

/// Spec view of a matrix held as a vector of rows.
pub open spec fn matrix_of(m: Seq<Vec<isize>>) -> Seq<Seq<int>> {
    Seq::new(m.len(), |i: int| ints_of(m[i]@))
}

/// The free pool and the allocation matrix are consistent: full rows, no
/// negative units, and enough headroom that the simulation's work vector
/// (free pool plus everything released) stays within `isize`.
pub open spec fn alloc_ok(avail: Seq<isize>, alloc: Seq<Vec<isize>>) -> bool {
    &&& forall|t: int| 0 <= t < alloc.len() ==> (#[trigger] alloc[t])@.len() == avail.len()
    &&& forall|r: int| 0 <= r < avail.len() ==> avail[r] >= 0
    &&& forall|t: int, r: int|
        0 <= t < alloc.len() && 0 <= r < avail.len() ==> #[trigger] alloc[t]@[r] >= 0
    &&& forall|r: int|
        0 <= r < avail.len() ==> avail[r] + col_sum(matrix_of(alloc), r, alloc.len() as int)
            <= isize::MAX
}

/// A full snapshot the detector can run on.
pub open spec fn detector_input_ok(
    avail: Seq<isize>,
    alloc: Seq<Vec<isize>>,
    need: Seq<Vec<isize>>,
) -> bool {
    &&& alloc_ok(avail, alloc)
    &&& alloc.len() == need.len()
    &&& forall|t: int| 0 <= t < need.len() ==> (#[trigger] need[t])@.len() == avail.len()
}

/// The work vector equals, entry for entry, the work the simulation has on
/// hand for the given finish vector.
pub open spec fn work_matches(
    avail: Seq<isize>,
    alloc: Seq<Vec<isize>>,
    finish: Seq<bool>,
    work: Seq<isize>,
) -> bool {
    &&& work.len() == avail.len()
    &&& forall|r: int|
        0 <= r < avail.len() ==> #[trigger] work[r] as int == work_of(
            ints_of(avail),
            matrix_of(alloc),
            finish,
            r,
        )
}

/// No unfinished thread can run any more: the simulation is over.
pub open spec fn simulation_stuck(
    avail: Seq<isize>,
    alloc: Seq<Vec<isize>>,
    need: Seq<Vec<isize>>,
    finish: Seq<bool>,
) -> bool {
    forall|t: int|
        0 <= t < finish.len() ==> finish[t] || !can_run(
            ints_of(avail),
            matrix_of(alloc),
            matrix_of(need),
            finish,
            t,
        )
}

/// Does this need row fit, entry for entry, under the work vector?
fn row_fits(need_row: &Vec<isize>, work: &Vec<isize>) -> (b: bool)
    requires
        need_row@.len() == work@.len(),
    ensures
        b == forall|r: int| 0 <= r < work@.len() ==> need_row@[r] <= #[trigger] work@[r],
{
    let n = work.len();
    let mut r: usize = 0;
    while r < n
        invariant
            r <= n,
            n == work@.len(),
            need_row@.len() == n,
            forall|j: int| 0 <= j < r ==> need_row@[j] <= #[trigger] work@[j],
        decreases n - r,
    {
        if need_row[r] > work[r] {
            assert(!(need_row@[r as int] <= work@[r as int]));
            return false;
        }
        r += 1;
    }
    true
}

/// Is every thread marked finished?
fn all_marked(finish: &Vec<bool>) -> (b: bool)
    ensures
        b == all_finished(finish@),
{
    let n = finish.len();
    let mut t: usize = 0;
    while t < n
        invariant
            t <= n,
            n == finish@.len(),
            forall|j: int| 0 <= j < t ==> finish@[j],
        decreases n - t,
    {
        if !finish[t] {
            assert(!finish@[t as int]);
            return false;
        }
        t += 1;
    }
    true
}

/// Mark thread `t` finished: release its holdings into the work pool.
#[verifier::loop_isolation(false)]
fn release_into_work(
    avail: &Vec<isize>,
    alloc: &Vec<Vec<isize>>,
    work: &mut Vec<isize>,
    finish: &mut Vec<bool>,
    t: usize,
)
    requires
        alloc_ok(avail@, alloc@),
        old(finish)@.len() == alloc@.len(),
        t < alloc@.len(),
        !old(finish)@[t as int],
        work_matches(avail@, alloc@, old(finish)@, old(work)@),
    ensures
        final(finish)@ == old(finish)@.update(t as int, true),
        work_matches(avail@, alloc@, final(finish)@, final(work)@),
{
    let ghost av = ints_of(avail@);
    let ghost al = matrix_of(alloc@);
    let ghost fin0 = finish@;
    let ghost upd = finish@.update(t as int, true);
    let m = avail.len();
    let row = &alloc[t];
    let mut r: usize = 0;
    while r < m
        invariant
            r <= m,
            work@.len() == m,
            finish@ == fin0,
            forall|j: int| 0 <= j < r ==> #[trigger] work@[j] as int == work_of(av, al, upd, j),
            forall|j: int| r <= j < m ==> #[trigger] work@[j] as int == work_of(av, al, fin0, j),
        decreases m - r,
    {
        proof {
            lemma_finished_col_sum_update(al, fin0, t as int, r as int, al.len() as int);
            lemma_col_sum_bounds(al, upd, r as int, al.len() as int);
            assert(avail@[r as int] + col_sum(al, r as int, al.len() as int) <= isize::MAX);
            assert(al[t as int][r as int] == alloc@[t as int]@[r as int] as int);
        }
        let w = work[r] + row[r];
        work[r] = w;
        r += 1;
    }
    finish[t] = true;
}

/// One full pass of the simulation: finish every thread whose need row fits
/// under the current work vector. Reports whether any thread was finished.
#[verifier::loop_isolation(false)]
fn mark_pass(
    avail: &Vec<isize>,
    alloc: &Vec<Vec<isize>>,
    need: &Vec<Vec<isize>>,
    work: &mut Vec<isize>,
    finish: &mut Vec<bool>,
) -> (progress: bool)
    requires
        detector_input_ok(avail@, alloc@, need@),
        old(finish)@.len() == need@.len(),
        work_matches(avail@, alloc@, old(finish)@, old(work)@),
    ensures
        final(finish)@.len() == need@.len(),
        work_matches(avail@, alloc@, final(finish)@, final(work)@),
        safe_from(ints_of(avail@), matrix_of(alloc@), matrix_of(need@), final(finish)@)
            == safe_from(ints_of(avail@), matrix_of(alloc@), matrix_of(need@), old(finish)@),
        progress ==> count_unfinished(final(finish)@) < count_unfinished(old(finish)@),
        !progress ==> final(finish)@ == old(finish)@ && simulation_stuck(
            avail@,
            alloc@,
            need@,
            final(finish)@,
        ),
{
    let ghost av = ints_of(avail@);
    let ghost al = matrix_of(alloc@);
    let ghost nd = matrix_of(need@);
    let n = need.len();
    let mut progress = false;
    let mut t: usize = 0;
    while t < n
        invariant
            t <= n,
            finish@.len() == n,
            work_matches(avail@, alloc@, finish@, work@),
            safe_from(av, al, nd, finish@) == safe_from(av, al, nd, old(finish)@),
            progress ==> count_unfinished(finish@) < count_unfinished(old(finish)@),
            !progress ==> finish@ == old(finish)@ && forall|i: int|
                0 <= i < t ==> finish@[i] || !can_run(av, al, nd, finish@, i),
        decreases n - t,
    {
        if !finish[t] && row_fits(&need[t], work) {
            proof {
                assert forall|r: int| 0 <= r < av.len() implies nd[t as int][r] <= work_of(
                    av,
                    al,
                    finish@,
                    r,
                ) by {
                    assert(need@[t as int]@[r] <= work@[r]);
                }
                assert(can_run(av, al, nd, finish@, t as int));
                lemma_safe_mark(av, al, nd, finish@, t as int);
                lemma_count_unfinished_update(finish@, t as int);
            }
            release_into_work(avail, alloc, work, finish, t);
            progress = true;
        }
        t += 1;
    }
    progress
}

/// Decide whether the state is safe, by run-to-completion simulation
/// (the Banker's algorithm): repeatedly finish any thread whose whole need
/// row is covered by the work vector, releasing its holdings into the pool;
/// the state is safe exactly when every thread finishes.
#[verifier::loop_isolation(false)]
pub fn is_safe(available: &Vec<isize>, allocation: &Vec<Vec<isize>>, need: &Vec<Vec<isize>>) -> (r:
    bool)
    requires
        detector_input_ok(available@, allocation@, need@),
    ensures
        r == safe_state(ints_of(available@), matrix_of(allocation@), matrix_of(need@)),
{
    let ghost av = ints_of(available@);
    let ghost al = matrix_of(allocation@);
    let ghost nd = matrix_of(need@);
    let n = need.len();
    let m = available.len();

    let mut work: Vec<isize> = Vec::new();
    let mut i: usize = 0;
    while i < m
        invariant
            i <= m,
            work@.len() == i,
            forall|j: int| 0 <= j < i ==> work@[j] == available@[j],
        decreases m - i,
    {
        work.push(available[i]);
        i += 1;
    }

    let mut finish: Vec<bool> = Vec::new();
    let mut t: usize = 0;
    while t < n
        invariant
            t <= n,
            finish@.len() == t,
            forall|j: int| 0 <= j < t ==> !finish@[j],
        decreases n - t,
    {
        finish.push(false);
        t += 1;
    }

    proof {
        assert(finish@ =~= Seq::new(nd.len(), |i: int| false));
        assert forall|r: int| 0 <= r < m implies #[trigger] work@[r] as int == work_of(
            av,
            al,
            finish@,
            r,
        ) by {
            lemma_finished_col_sum_none(al, finish@, r, al.len() as int);
        }
    }

    let mut progress = true;
    while progress
        invariant
            finish@.len() == n,
            work_matches(available@, allocation@, finish@, work@),
            safe_from(av, al, nd, finish@) == safe_state(av, al, nd),
            !progress ==> simulation_stuck(available@, allocation@, need@, finish@),
        decreases count_unfinished(finish@) + (if progress {
            1int
        } else {
            0int
        }),
    {
        progress = mark_pass(available, allocation, need, &mut work, &mut finish);
    }

    let all = all_marked(&finish);
    proof {
        if all {
            assert(safe_from(av, al, nd, finish@));
        } else {
            assert(!safe_from(av, al, nd, finish@)) by {
                if safe_from(av, al, nd, finish@) {
                    let u = choose|u: int|
                        0 <= u < finish@.len() && !finish@[u] && can_run(av, al, nd, finish@, u)
                            && safe_from(av, al, nd, finish@.update(u, true));
                    assert(finish@[u] || !can_run(av, al, nd, finish@, u));
                }
            }
        }
    }
    all
}

} // verus!
