//! Synchronization subsystem of a small multitasking kernel.
use vstd::prelude::*;

pub mod banker;
pub mod ledger;
pub mod mutex;
pub mod semaphore;
pub mod condvar;
pub mod process;
pub mod syscall;
pub mod laws;
