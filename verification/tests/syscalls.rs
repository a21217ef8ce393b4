use os_kernel::fs::CREATE;
use os_kernel::fs::FsState;
use os_kernel::fs::STAT_MODE_FILE;
use os_kernel::fs::Stat;
use os_kernel::fs::RDWR;
use os_kernel::fs::TRUNC;
use os_kernel::fs::WRONLY;
use os_kernel::process::ProcTable;
use os_kernel::process::MAX_SYSCALL_NUM;
use os_kernel::process::TaskInfo;
use os_kernel::process::TimeVal;
use os_kernel::process::sys_task_info;
use os_kernel::sched::TaskStatus;
use os_kernel::process::sys_mmap;
use os_kernel::process::sys_munmap;
use os_kernel::process::sys_set_priority;
use os_kernel::process::sys_spawn;

#[test]
fn open_write_read_close() {
    let mut fs = FsState::new();
    let path = b"log".to_vec();
    let fd = fs.sys_open(&path, CREATE | RDWR);
    assert_eq!(fd, 0);
    let written = fs.sys_write(fd as usize, &b"hello".to_vec());
    assert_eq!(written, 5);
    // the writer's offset is at the end: reading there gives nothing
    let (n, data) = fs.sys_read(fd as usize, 16);
    assert_eq!(n, 0);
    assert!(data.is_empty());
    // a second descriptor starts at offset zero
    let fd2 = fs.sys_open(&path, 0);
    assert_eq!(fd2, 1);
    let (n, data) = fs.sys_read(fd2 as usize, 16);
    assert_eq!(n, 5);
    assert_eq!(data, b"hello".to_vec());
    assert_eq!(fs.sys_close(fd as usize), 0);
    assert_eq!(fs.sys_close(fd as usize), -1);
    assert_eq!(fs.sys_close(99), -1);
    // the freed slot is reused
    let fd3 = fs.sys_open(&path, 0);
    assert_eq!(fd3, 0);
}

#[test]
fn open_missing_fails() {
    let mut fs = FsState::new();
    assert_eq!(fs.sys_open(&b"absent".to_vec(), 0), -1);
}

#[test]
fn permissions_are_checked() {
    let mut fs = FsState::new();
    let path = b"f".to_vec();
    let wfd = fs.sys_open(&path, CREATE | WRONLY);
    assert_eq!(fs.sys_write(wfd as usize, &b"x".to_vec()), 1);
    let (n, _) = fs.sys_read(wfd as usize, 1);
    assert_eq!(n, -1);
    let rfd = fs.sys_open(&path, 0);
    assert_eq!(fs.sys_write(rfd as usize, &b"y".to_vec()), -1);
    assert_eq!(fs.sys_write(99, &b"y".to_vec()), -1);
}

#[test]
fn truncate_empties_the_file() {
    let mut fs = FsState::new();
    let path = b"f".to_vec();
    let fd = fs.sys_open(&path, CREATE | RDWR);
    fs.sys_write(fd as usize, &b"data".to_vec());
    let fd2 = fs.sys_open(&path, TRUNC | RDWR);
    let (n, _) = fs.sys_read(fd2 as usize, 8);
    assert_eq!(n, 0);
}

#[test]
fn write_past_offset_zero_pads() {
    let mut fs = FsState::new();
    let path = b"f".to_vec();
    let fd = fs.sys_open(&path, CREATE | RDWR) as usize;
    fs.sys_write(fd, &b"ab".to_vec());
    // reopening with truncate, then writing via the stale descriptor whose
    // offset is past the (now empty) end, zero-pads the gap
    let _ = fs.sys_open(&path, TRUNC | RDWR);
    assert_eq!(fs.sys_write(fd, &b"cd".to_vec()), 2);
    let rfd = fs.sys_open(&path, 0) as usize;
    let (n, data) = fs.sys_read(rfd, 8);
    assert_eq!(n, 4);
    assert_eq!(data, vec![0, 0, b'c', b'd']);
}

#[test]
fn linkat_and_unlinkat() {
    let mut fs = FsState::new();
    let f = b"f".to_vec();
    let g = b"g".to_vec();
    let fd = fs.sys_open(&f, CREATE | RDWR);
    fs.sys_write(fd as usize, &b"shared".to_vec());
    fs.sys_close(fd as usize);

    assert_eq!(fs.sys_linkat(&f, &g), 0);
    assert_eq!(fs.sys_linkat(&f, &f), -1);
    assert_eq!(fs.sys_linkat(&b"absent".to_vec(), &g), -1);

    // the original name goes away; the second link still reaches the data
    assert_eq!(fs.sys_unlinkat(&f), 0);
    assert_eq!(fs.sys_unlinkat(&f), -1);
    let gfd = fs.sys_open(&g, 0);
    let (n, data) = fs.sys_read(gfd as usize, 16);
    assert_eq!(n, 6);
    assert_eq!(data, b"shared".to_vec());
    fs.sys_close(gfd as usize);

    // dropping the last link releases the inode
    assert_eq!(fs.sys_unlinkat(&g), 0);
    assert_eq!(fs.sys_open(&g, 0), -1);
    assert_eq!(fs.inodes, vec![None]);
}

#[test]
fn fstat_reports_inode_and_links() {
    let mut fs = FsState::new();
    let f = b"f".to_vec();
    let fd = fs.sys_open(&f, CREATE | RDWR) as usize;
    let (r, st) = fs.sys_fstat(fd);
    assert_eq!(r, 0);
    assert_eq!(st, Some(Stat { dev: 0, ino: 0, mode: STAT_MODE_FILE, nlink: 1 }));
    assert_eq!(fs.sys_linkat(&f, &b"g".to_vec()), 0);
    let (r, st) = fs.sys_fstat(fd);
    assert_eq!(r, 0);
    assert_eq!(st.unwrap().nlink, 2);
    assert_eq!(fs.sys_fstat(9).0, -1);
}

#[test]
fn fork_exit_waitpid() {
    let mut pt = ProcTable::boot();
    assert_eq!(pt.sys_getpid(), 0);
    let child = pt.sys_fork();
    assert_eq!(child, 1);

    // nothing matches pid 7; the real child is still running
    assert_eq!(pt.sys_waitpid(7), (-1, None));
    assert_eq!(pt.sys_waitpid(-1), (-2, None));
    assert_eq!(pt.sys_waitpid(1), (-2, None));

    // the child runs and exits
    pt.current = 1;
    pt.sys_exit(42);
    pt.current = 0;

    assert_eq!(pt.sys_waitpid(-1), (1, Some(42)));
    // collected: its slot is gone and nothing is left to wait for
    assert!(pt.procs[1].is_none());
    assert_eq!(pt.sys_waitpid(-1), (-1, None));
}

#[test]
fn waitpid_collects_first_zombie() {
    let mut pt = ProcTable::boot();
    let c1 = pt.sys_fork() as usize;
    let c2 = pt.sys_fork() as usize;
    pt.current = c2;
    pt.sys_exit(7);
    pt.current = 0;
    // c1 still runs; the first matching zombie is c2
    assert_eq!(pt.sys_waitpid(-1), (c2 as isize, Some(7)));
    assert_eq!(pt.sys_waitpid(c1 as isize), (-2, None));
}

#[test]
fn kill_checks_pid_and_signal() {
    let mut pt = ProcTable::boot();
    assert_eq!(pt.sys_kill(0, 1 << 2), 0);
    match &pt.procs[0] {
        Some(p) => assert_eq!(p.signals, 1 << 2),
        None => unreachable!(),
    }
    // unrecognised signal bits and unknown pids are errors
    assert_eq!(pt.sys_kill(0, 1), -1);
    assert_eq!(pt.sys_kill(5, 1 << 2), -1);
}

#[test]
fn yield_returns_zero() {
    let pt = ProcTable::boot();
    assert_eq!(pt.sys_yield(), 0);
}

#[test]
fn unimplemented_syscalls_return_minus_one() {
    assert_eq!(sys_mmap(0x1000, 4096, 3), -1);
    assert_eq!(sys_munmap(0x1000, 4096), -1);
    assert_eq!(sys_spawn(&b"prog".to_vec()), -1);
    assert_eq!(sys_set_priority(2), -1);
}

#[test]
fn task_info_is_unimplemented() {
    let mut ti = TaskInfo { status: TaskStatus::Ready, syscall_times: [0; MAX_SYSCALL_NUM], time: 0 };
    assert_eq!(sys_task_info(&mut ti), -1);
    assert_eq!(ti.time, 0);
}

#[test]
fn time_splits_into_seconds_and_micros() {
    let t = TimeVal::from_micros(3_500_042);
    assert_eq!(t.sec, 3);
    assert_eq!(t.usec, 500_042);
    let t = TimeVal::from_micros(999_999);
    assert_eq!(t.sec, 0);
    assert_eq!(t.usec, 999_999);
}
