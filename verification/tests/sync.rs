use os_kernel::mutex::LockResult;
use os_kernel::mutex::Mutex;
use os_kernel::mutex::MutexBlocking;
use os_kernel::mutex::MutexSpin;
use os_kernel::registry::ResourceRegistry;
use os_kernel::sched::TaskStatus;
use os_kernel::sched::ThreadTable;
use os_kernel::semaphore::Semaphore;

fn setup(n_threads: usize) -> (ResourceRegistry, ThreadTable) {
    let mut reg = ResourceRegistry::new();
    let mut th = ThreadTable::new();
    let mut i: usize = 0;
    while i < n_threads {
        reg.add_thread();
        th.add_thread();
        i += 1;
    }
    (reg, th)
}

#[test]
fn registry_growth() {
    let (mut reg, _th) = setup(2);
    let a = reg.alloc_rid(1);
    let b = reg.alloc_rid(3);
    assert_eq!(a, 0);
    assert_eq!(b, 1);
    assert_eq!(reg.available, vec![1, 3]);
    assert_eq!(reg.total, vec![1, 3]);
    assert_eq!(reg.need, vec![vec![0, 0], vec![0, 0]]);
    assert_eq!(reg.allocation, vec![vec![0, 0], vec![0, 0]]);
    let t = reg.add_thread();
    assert_eq!(t, 2);
    assert_eq!(reg.need[2], vec![0, 0]);
}

#[test]
fn detector_accepts_safe_state() {
    let (mut reg, _th) = setup(2);
    let a = reg.alloc_rid(1);
    // thread 0 takes the single unit; thread 1 asks for it
    reg.request(0, a);
    assert!(reg.deadlock_check());
    reg.grant(0, a);
    reg.request(1, a);
    // safe: thread 0 can finish and release the unit to thread 1
    assert!(reg.deadlock_check());
}

#[test]
fn detector_rejects_cross_wait() {
    let (mut reg, _th) = setup(2);
    let a = reg.alloc_rid(1);
    let b = reg.alloc_rid(1);
    reg.request(0, a);
    reg.grant(0, a);
    reg.request(1, b);
    reg.grant(1, b);
    // thread 0 (holding a) waits for b: still safe
    reg.request(0, b);
    assert!(reg.deadlock_check());
    // thread 1 (holding b) asks for a: circular wait, unsafe
    reg.request(1, a);
    assert!(!reg.deadlock_check());
}

#[test]
fn mutex_lock_and_handoff() {
    let (mut reg, mut th) = setup(2);
    let mut m = MutexBlocking::new(&mut reg, &th);
    let rid = m.inner.rid;
    assert_eq!(rid, 0);
    assert_eq!(reg.available[rid], 1);

    // thread 0 takes the mutex at once
    assert_eq!(m.lock(0, &mut reg, &mut th), LockResult::Acquired);
    assert!(m.inner.locked);
    assert_eq!(reg.available[rid], 0);
    assert_eq!(reg.allocation[0][rid], 1);

    // thread 1 blocks behind it
    assert_eq!(m.lock(1, &mut reg, &mut th), LockResult::Blocked);
    assert_eq!(m.inner.wait_queue, vec![1]);
    assert_eq!(th.status[1], TaskStatus::Blocked);

    // release hands the mutex straight to thread 1: it stays locked and the
    // free pool never sees the unit
    m.unlock(0, &mut reg, &mut th);
    assert!(m.inner.locked);
    assert!(m.inner.wait_queue.is_empty());
    assert_eq!(reg.allocation[0][rid], 0);
    assert_eq!(reg.allocation[1][rid], 1);
    assert_eq!(reg.available[rid], 0);
    assert_eq!(th.status[1], TaskStatus::Ready);

    // final release with nobody waiting frees the unit
    m.unlock(1, &mut reg, &mut th);
    assert!(!m.inner.locked);
    assert_eq!(reg.available[rid], 1);
}

#[test]
fn mutex_cross_lock_reports_deadlock() {
    let (mut reg, mut th) = setup(2);
    let mut ma = MutexBlocking::new(&mut reg, &th);
    let mut mb = MutexBlocking::new(&mut reg, &th);
    assert_eq!(ma.lock(0, &mut reg, &mut th), LockResult::Acquired);
    assert_eq!(mb.lock(1, &mut reg, &mut th), LockResult::Acquired);
    // thread 0 (holding a) waits for b: allowed, it blocks
    assert_eq!(mb.lock(0, &mut reg, &mut th), LockResult::Blocked);
    // thread 1 (holding b) asks for a: refused, thread 1 stays ready
    assert_eq!(ma.lock(1, &mut reg, &mut th), LockResult::DeadlockDetected);
    assert_eq!(th.status[1], TaskStatus::Ready);
    // the refused request is deliberately left in the need matrix
    assert_eq!(reg.need[1][ma.inner.rid], 1);
}

#[test]
fn semaphore_round_trip() {
    let (mut reg, mut th) = setup(2);
    let mut s = Semaphore::new(2, &mut reg, &th);
    let rid = s.inner.rid;

    // two units: two acquires go through without blocking
    assert_eq!(s.down(0, &mut reg, &mut th), LockResult::Acquired);
    assert_eq!(s.down(0, &mut reg, &mut th), LockResult::Acquired);
    assert_eq!(s.inner.count, 0);
    assert_eq!(reg.available[rid], 0);
    assert_eq!(reg.allocation[0][rid], 2);

    // a third acquire blocks
    assert_eq!(s.down(1, &mut reg, &mut th), LockResult::Blocked);
    assert_eq!(s.inner.count, -1);
    assert_eq!(th.status[1], TaskStatus::Blocked);

    // a release wakes it, handing the unit over directly
    s.up(0, &mut reg, &mut th);
    assert_eq!(s.inner.count, 0);
    assert!(s.inner.wait_queue.is_empty());
    assert_eq!(reg.allocation[1][rid], 1);
    assert_eq!(reg.available[rid], 0);
    assert_eq!(th.status[1], TaskStatus::Ready);
}

#[test]
fn semaphore_wakes_waiters_in_fifo_order() {
    let (mut reg, mut th) = setup(4);
    let mut s = Semaphore::new(3, &mut reg, &th);
    let rid = s.inner.rid;
    let holder = 0;
    // the holder exhausts the semaphore
    for _ in 0..3 {
        assert_eq!(s.down(holder, &mut reg, &mut th), LockResult::Acquired);
    }
    // threads 1, 2, 3 queue up in that order
    assert_eq!(s.down(1, &mut reg, &mut th), LockResult::Blocked);
    assert_eq!(s.down(2, &mut reg, &mut th), LockResult::Blocked);
    assert_eq!(s.down(3, &mut reg, &mut th), LockResult::Blocked);
    assert_eq!(s.inner.wait_queue, vec![1, 2, 3]);

    // releases wake them strictly in arrival order
    s.up(holder, &mut reg, &mut th);
    assert_eq!(th.status[1], TaskStatus::Ready);
    assert_eq!(th.status[2], TaskStatus::Blocked);
    assert_eq!(reg.allocation[1][rid], 1);
    s.up(holder, &mut reg, &mut th);
    assert_eq!(th.status[2], TaskStatus::Ready);
    assert_eq!(th.status[3], TaskStatus::Blocked);
    s.up(holder, &mut reg, &mut th);
    assert_eq!(th.status[3], TaskStatus::Ready);
    assert!(s.inner.wait_queue.is_empty());
    assert_eq!(s.inner.count, 0);
}

#[test]
fn semaphore_conserves_units() {
    let (mut reg, mut th) = setup(3);
    let mut s = Semaphore::new(2, &mut reg, &th);
    let rid = s.inner.rid;
    assert_eq!(s.down(0, &mut reg, &mut th), LockResult::Acquired);
    assert_eq!(s.down(1, &mut reg, &mut th), LockResult::Acquired);
    assert_eq!(s.down(2, &mut reg, &mut th), LockResult::Blocked);
    // available + sum of allocations equals the configured total, always
    let held: isize = (0..3).map(|t| reg.allocation[t][rid]).sum();
    assert_eq!(reg.available[rid] + held, reg.total[rid]);
    s.up(0, &mut reg, &mut th);
    let held: isize = (0..3).map(|t| reg.allocation[t][rid]).sum();
    assert_eq!(reg.available[rid] + held, reg.total[rid]);
}

#[test]
fn spin_mutex_yields_then_succeeds() {
    let (mut reg, mut th) = setup(2);
    let mut m = MutexSpin::new();
    assert_eq!(m.lock(0, &mut reg, &mut th), LockResult::Acquired);
    // a second caller spins: it stays ready and must retry
    assert_eq!(m.lock(1, &mut reg, &mut th), LockResult::Spinning);
    assert_eq!(th.status[1], TaskStatus::Ready);
    // once the holder releases, the retry succeeds
    m.unlock(0, &mut reg, &mut th);
    assert_eq!(m.lock(1, &mut reg, &mut th), LockResult::Acquired);
}

#[test]
fn empty_registry_is_safe() {
    let reg = ResourceRegistry::new();
    assert!(reg.deadlock_check());
}

#[test]
fn down_on_zero_semaphore_is_rejected() {
    let (mut reg, mut th) = setup(1);
    let mut s = Semaphore::new(0, &mut reg, &mut th);
    // no unit exists and none will ever be released: waiting would be a
    // deadlock, so the detector refuses the request
    assert_eq!(s.down(0, &mut reg, &mut th), LockResult::DeadlockDetected);
    assert_eq!(s.inner.count, 0);
}
