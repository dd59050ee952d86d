//! Waiting for a server to come up: what to do after each try.
use vstd::prelude::*;

verus! {

/// The media type that the server is asked for.
pub const APPLICATION_JSON: &'static str = "application/json";

/// How long to wait between two tries, in milliseconds.
pub const RETRY_INTERVAL_MS: u64 = 100;

/// What to do after a try to reach the server.
#[derive(Debug, Clone, Copy, PartialEq, Eq, Structural)]
pub enum WaitStep {
    /// The server answered: stop waiting.
    Ready,
    /// The server did not answer, and there is time left: wait and try again.
    Retry,
    /// The server did not answer, and the time is over: give up.
    TimedOut,
}

/// What to do after a try that found the server up or not, `elapsed_secs`
/// seconds after the waiting began, with `timeout_sec` seconds to wait at
/// most.
pub fn wait_step(server_is_up: bool, elapsed_secs: u64, timeout_sec: u64) -> (r: WaitStep)
    ensures
        r == if server_is_up {
            WaitStep::Ready
        } else if elapsed_secs > timeout_sec {
            WaitStep::TimedOut
        } else {
            WaitStep::Retry
        },
{
    if server_is_up {
        WaitStep::Ready
    } else if elapsed_secs > timeout_sec {
        WaitStep::TimedOut
    } else {
        WaitStep::Retry
    }
}

} // verus!
