//! Failures reported by the operating system.

use vstd::prelude::*;

verus! {

/// A failed operating system call.
#[derive(Clone, Debug)]
pub struct IoError {
    /// Whether the call failed for want of permission.
    pub permission_denied: bool,
    /// The system's description of the failure.
    pub message: String,
}

} // verus!
