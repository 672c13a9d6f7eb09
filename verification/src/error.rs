//! Error kinds of the kernel core and the integers they become at the call boundary.

use vstd::prelude::*;

verus! {

/// Why an operation of the core failed.
#[derive(Clone, Copy, Debug, PartialEq, Eq, Structural)]
pub enum KernelError {
    /// A misaligned address, malformed permission bits, a range that leaves
    /// the address space, identical link source and target.
    InvalidArgument,
    /// A page of the target range is already mapped.
    Overlap,
    /// A page of the target range is not mapped, or not with the access asked for.
    NotMapped,
    /// A bad descriptor, a missing path, no matching child.
    NotFound,
    /// A matching child exists but none has exited yet.
    NotReady,
}

impl KernelError {
    /// The result that user code sees for this error.
    pub open spec fn spec_code(self) -> int {
        if self is NotReady {
            -2
        } else {
            -1
        }
    }

    /// The result that user code sees: -2 for `NotReady`, -1 for every other kind.
    pub fn code(self) -> (r: isize)
        ensures
            r == self.spec_code(),
    {
        match self {
            KernelError::NotReady => -2,
            _ => -1,
        }
    }
}

} // verus!
