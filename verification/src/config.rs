//! Constants of the kernel.

use vstd::prelude::*;

verus! {

/// Bytes in one page of virtual or physical memory.
pub const PAGE_SIZE: usize = 4096;

/// Bytes of user stack that a freshly loaded program gets.
pub const USER_STACK_SIZE: usize = 8192;

/// Number of distinct system call numbers that are counted per process.
pub const MAX_SYSCALL_NUM: usize = 500;

/// The stride that a process of priority 1 would advance by in one quantum.
pub const BIG_STRIDE: u64 = 0xFFFF_FFFF_FFFF_FFFF;

/// Priority of a process that never asked for another one.
pub const DEFAULT_PRIORITY: isize = 16;

/// The largest pid the table hands out. Pids are positive: the result 0 of
/// a fork tells the child that it is the child.
pub const MAX_PID: usize = 0xFFFF;

/// Bytes of kernel stack that each process has.
pub const KERNEL_STACK_SIZE: usize = 8192;

/// The highest page of every address space; kernel stacks lie below it.
pub const TRAMPOLINE: usize = usize::MAX - PAGE_SIZE + 1;

/// The largest stride that one quantum can add: that of priority 2.
pub const MAX_PASS: u64 = 0x7FFF_FFFF_FFFF_FFFF;

/// The pid of the root process, the first one: it is never collected, and
/// it adopts the children of processes that exit.
pub const ROOT_PID: usize = 1;

} // verus!
