//! A model of the process and memory core of a small RISC-V teaching kernel.
//!
//! The kernel state is an ordinary value, [`kernel::Kernel`]. Every system
//! call is a function that takes the kernel by mutable reference, acts for
//! the process that is running, and returns the signed result that the call
//! hands to user code. Exclusive access to a control block is the mutable
//! reference itself. Contracts are stated over views: an address space is a
//! map from virtual page numbers to pages, the process table a sequence of
//! optional control blocks indexed by pid.
//!
//! The parts, leaves first:
//!
//! - [`mm`]: address spaces made of regions of eagerly backed pages; mapping
//!   and unmapping that happen all or not at all; byte access for the user.
//! - [`loader`]: program images and the address space a program starts in.
//! - [`fs`]: the directory, inodes with their link counts, open files.
//! - [`task`]: process control blocks.
//! - [`tree`]: the process tree and the ready queue as plain values, and
//!   the steps that keep them sound.
//! - [`sched`]: stride scheduling and its fairness.
//! - [`kernel`]: the state of the kernel and the life of processes.
//! - [`syscall`]: the system calls.
//!
//! Some things the kernel takes from outside as plain values: program
//! images, which a loader makes of the bytes of a file; readings of the
//! timer; and the bytes that come from and go to the console.
//!
//! Choices that a kernel of this kind has to make, and that this one makes
//! as follows. A region has a frame for each of its pages from the moment
//! it exists; no page is filled in later. The children of a process that
//! exits become children of the root process, pid 1, which alone is never
//! collected. Of several ready processes with the least stride, the one
//! that waited longest runs. A new process, forked or spawned, starts with
//! the default priority and a stride of zero. Its descriptor slots name
//! the open files that the slots of its parent name: parent and child
//! share them, and where one of the two reads or writes, the file stands
//! further on for both. Only the root process starts with slots of its
//! own, for the console's input and output. A file's record, as `fstat`
//! writes it, holds the mode of an ordinary file for every open file, the
//! console streams too. A pid is free again once its process has been
//! collected, and the lowest free pid is handed out first.

pub mod codec;
pub mod config;
pub mod error;
pub mod fs;
pub mod kernel;
pub mod loader;
pub mod mm;
pub mod sched;
pub mod syscall;
pub mod task;
pub mod tree;
