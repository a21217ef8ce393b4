//! Synchronization layer of a cooperatively scheduled, single-core teaching
//! kernel: a per-process resource registry with a Banker's-algorithm deadlock
//! detector, blocking and spinning mutexes, counting semaphores, and models of
//! the syscall layer that sits above them.
//!
//! The kernel is single core and never preempts inside a kernel call, so every
//! operation here is one atomic transition on the process state. Exclusive
//! access to that state is expressed with `&mut`.

pub mod fs;
pub mod laws;
pub mod mutex;
pub mod process;
pub mod registry;
pub mod sched;
pub mod semaphore;
pub mod safety;
