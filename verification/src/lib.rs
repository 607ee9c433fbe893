//! Process-control and address-space layer of a small cooperative,
//! single-core teaching kernel: task creation (fork/spawn), image replacement
//! (exec), termination and reclamation (exit/waitpid), address-space mutation
//! (mmap/munmap/sbrk), and the cross-address-space translation every other
//! syscall writes its results through.

pub mod codec;
pub mod kernel;
pub mod config;
pub mod mem;
pub mod syscall;
pub mod task;
