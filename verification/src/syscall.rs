//! The system calls. Each one acts for the running process and returns the
//! signed result that the process finds when it goes on: zero or more on
//! success, -1 on failure, -2 where a wait finds that no child has exited yet.

pub mod fs;
pub mod process;
