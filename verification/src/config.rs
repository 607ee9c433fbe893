use vstd::prelude::*;

verus! {

/// Bytes in one hardware page.
pub const PAGE_SIZE: usize = 4096;

/// Number of virtual pages a task may address.  Every user virtual address is
/// below `MAX_VPN * PAGE_SIZE`, which fits in `isize` on every target this
/// kernel runs on.
pub const MAX_VPN: usize = 0x40000;

/// One past the highest user virtual address.
pub const MAX_VA: usize = MAX_VPN * PAGE_SIZE;

/// Page-aligned base of every task's program-break (heap) segment.
pub const HEAP_BASE: usize = 0x1000_0000;

/// Ceiling on task slots ever created, so a pid always fits in `isize`.
pub const MAX_TASKS: usize = 0x10000;

/// Size of the per-task syscall counter table.
pub const MAX_SYSCALL_NUM: usize = 500;

/// Pid of the root (bootstrap) task; orphans are re-parented to it.
pub const ROOT_PID: usize = 1;

/// Priority given to a task created by `spawn` or at bootstrap.
pub const DEFAULT_PRIORITY: isize = 16;

pub const SYSCALL_EXIT: usize = 93;
pub const SYSCALL_YIELD: usize = 124;
pub const SYSCALL_SET_PRIORITY: usize = 140;
pub const SYSCALL_GET_TIME: usize = 169;
pub const SYSCALL_GETPID: usize = 172;
pub const SYSCALL_SBRK: usize = 214;
pub const SYSCALL_MUNMAP: usize = 215;
pub const SYSCALL_FORK: usize = 220;
pub const SYSCALL_EXEC: usize = 221;
pub const SYSCALL_MMAP: usize = 222;
pub const SYSCALL_WAITPID: usize = 260;
pub const SYSCALL_SPAWN: usize = 400;
pub const SYSCALL_TASK_INFO: usize = 410;

/// Byte length of the `TimeVal` record as laid out in user memory.
pub const TIME_VAL_BYTES: usize = 16;

/// Byte length of the `TaskInfo` record as laid out in user memory: one
/// word-sized status tag, the counter table, one word of cumulative time.
pub const TASK_INFO_BYTES: usize = 8 + 4 * MAX_SYSCALL_NUM + 8;

} // verus!
