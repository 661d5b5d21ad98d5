//! The process, scheduling and address-space core of a small single-hart kernel.
//!
//! - `mm`: per-process address spaces, page by page, and all copying between user memory
//!   and the kernel, validated before any byte moves.
//! - `sched`: the stride scheduler's ready set, with wraparound-aware pass comparison.
//! - `task`: the process descriptor, the process table keyed by pid, and the glue between
//!   the running task and the ready set.
//! - `process`: the lifecycle and memory syscalls (fork, exec, spawn, exit, waitpid, mmap,
//!   munmap, get_time, set_priority).
//! - `fs`: descriptor tables, pipes, a flat directory of regular files, and the mailbox.
//! - `logging`: the policy of the console logger.

use vstd::prelude::*;

pub mod mm;
pub mod sched;
pub mod task;
pub mod fs;
pub mod process;
pub mod logging;

verus! {

} // verus!
