//! Waiting until a server listens.
use vstd::prelude::*;

verus! {

/// How often a server is tried.
pub const ATTEMPTS: u32 = 50;

/// The pause after an attempt that failed, in milliseconds.
pub const PAUSE_MS: u64 = 20;

/// What to do after an attempt to reach a server.
#[derive(Clone, Copy, Debug, PartialEq, Eq, Structural)]
pub enum WaitStep {
    /// The server is there.
    Ready,
    /// Pause, and try again.
    Retry { pause_ms: u64 },
    /// Pause, and give up: nothing is listening.
    GiveUp { pause_ms: u64 },
}

/// What to do after an attempt to reach a server, given how many have failed so far, this one
/// included where it did.
pub fn wait_step(failed: u32, connected: bool) -> (r: WaitStep)
    ensures
        connected ==> r == WaitStep::Ready,
        !connected && failed < ATTEMPTS ==> r == (WaitStep::Retry { pause_ms: PAUSE_MS }),
        !connected && failed >= ATTEMPTS ==> r == (WaitStep::GiveUp { pause_ms: PAUSE_MS }),
{
    if connected {
        WaitStep::Ready
    } else if failed < ATTEMPTS {
        WaitStep::Retry { pause_ms: PAUSE_MS }
    } else {
        WaitStep::GiveUp { pause_ms: PAUSE_MS }
    }
}

/// A server is waited for over a second: fifty attempts, with twenty milliseconds behind each.
pub proof fn law_how_long_is_waited()
    ensures
        ATTEMPTS == 50,
        PAUSE_MS == 20,
        ATTEMPTS * PAUSE_MS == 1000,
{
}

} // verus!
