//! Allocation of local port numbers for sessions started by one process.

use vstd::prelude::*;

verus! {

/// The first port handed out by a fresh counter.
pub const FIRST_PORT: usize = 35103;

/// Process-scoped port counter, owned by whatever starts sessions.
pub struct PortCounter {
    pub next: usize,
}

impl PortCounter {
    pub fn new() -> (r: PortCounter)
        ensures
            r.next == FIRST_PORT,
    {
        PortCounter { next: FIRST_PORT }
    }
}

/// The value that follows `n`, wrapping around at the top of `usize`.
pub open spec fn next_port(n: usize) -> usize {
    if n == usize::MAX {
        0
    } else {
        (n + 1) as usize
    }
}

/// Hands out the counter's current port and advances it by one (wrapping).
pub fn get_port_number(ports: &mut PortCounter) -> (r: usize)
    ensures
        r == old(ports).next,
        final(ports).next == next_port(old(ports).next),
{
    let r = ports.next;
    ports.next = if r == usize::MAX {
        0
    } else {
        r + 1
    };
    r
}

} // verus!
