//! Coupling two sockets: bytes are copied both ways until one side ends.

use vstd::prelude::*;

verus! {

/// One of the two sockets of a pair.
#[derive(Debug, Clone, Copy, PartialEq, Eq, Structural)]
pub enum Side {
    /// The socket that the pair was opened for: the user on the server, the
    /// backend on the client.
    Near,
    /// The data socket between client and server.
    Tunnel,
}

/// What follows when a copy in one direction has returned.
#[derive(Debug, Clone, Copy, PartialEq, Eq, Structural)]
pub enum SpliceStep {
    /// Bytes were moved: copy on.
    Continue,
    /// The side that was read from has ended, and it was the first to end.
    Closed(Side),
}

/// The number of bytes that a copy moved: none where it failed.
pub open spec fn moved(copied: Result<u64, ()>) -> u64 {
    match copied {
        Ok(n) => n,
        Err(_) => 0,
    }
}

/// What follows a copy that read from `from`: a copy that moved nothing,
/// or failed, ends the splice.
pub open spec fn after_copy(from: Side, copied: Result<u64, ()>) -> SpliceStep {
    if moved(copied) == 0 {
        SpliceStep::Closed(from)
    } else {
        SpliceStep::Continue
    }
}

/// Decides what follows a copy that read from `from`.
pub fn splice_step(from: Side, copied: Result<u64, ()>) -> (step: SpliceStep)
    ensures
        step == after_copy(from, copied),
{
    let n: u64 = match copied {
        Ok(n) => n,
        Err(_) => 0,
    };
    if n == 0 {
        SpliceStep::Closed(from)
    } else {
        SpliceStep::Continue
    }
}

} // verus!
