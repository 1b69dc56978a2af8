//! Deciding, step by step, whether a freshly started server is up.

use vstd::prelude::*;

use crate::session::RootInfo;

verus! {

/// How long to wait before asking a starting server again.
pub const RETRY_DELAY_MS: u64 = 30;

/// What to do after one look at a starting server.
pub enum OnlineStep {
    /// It answered: here is what it said.
    Done(RootInfo),
    /// No answer yet: ask again after this many milliseconds.
    RetryAfterMs(u64),
    /// The server process has exited: give up.
    Fail,
}

/// The next step, given whether the process has exited and what the info
/// query answered, if anything.
pub fn online_step(exited: bool, answer: Option<RootInfo>) -> (r: OnlineStep)
    ensures
        exited ==> r is Fail,
        !exited && answer is Some ==> r == OnlineStep::Done(answer->Some_0),
        !exited && answer is None ==> r == OnlineStep::RetryAfterMs(RETRY_DELAY_MS),
{
    if exited {
        return OnlineStep::Fail;
    }
    match answer {
        Some(info) => OnlineStep::Done(info),
        None => OnlineStep::RetryAfterMs(RETRY_DELAY_MS),
    }
}

} // verus!
