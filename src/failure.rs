use vstd::prelude::*;

use crate::allocator::AllocError;

verus! {

/// How a guest call ends when it cannot return a value: the terminal
/// states of a boundary call.
#[derive(Debug, PartialEq, Eq)]
pub enum Failure {
    /// The guest stops at once, with no message and no cleanup.
    Abort,
    /// The host is handed a UTF-8 diagnostic and unwinds the call on its side.
    Thrown(String),
    /// An internal fault: the host sees a trap with no message.
    Trapped,
}

/// An allocation that cannot be satisfied leaves a heap that cannot be
/// trusted, so it ends the guest.
pub fn alloc_failure(e: AllocError) -> (r: Failure)
    ensures
        r == Failure::Abort,
{
    Failure::Abort
}

} // verus!
