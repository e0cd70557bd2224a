//! Decisions of the server's long-running loops: how the reaper waits and
//! how the accept loop backs off.
use vstd::prelude::*;

verus! {

/// How long the accept loop waits, at most, before giving up.
pub const MAX_BACKOFF_SECS: u64 = 64;

/// What the reaper does after a round.
#[derive(Debug, Clone, Copy, PartialEq, Eq, Structural)]
pub enum ReaperWait {
    /// The keyspace is shut down: stop.
    Exit,
    /// Sleep this many milliseconds, or until notified.
    Sleep(u64),
    /// Nothing expires: sleep until notified.
    UntilNotified,
}

/// The reaper's wait after a round at `now` that left `next` as the
/// earliest expiry.
pub fn reaper_wait(next: Option<u64>, now: u64, shut_down: bool) -> (r: ReaperWait)
    ensures
        shut_down ==> r == ReaperWait::Exit,
        !shut_down && next is None ==> r == ReaperWait::UntilNotified,
        !shut_down ==> (next matches Some(when) ==> r == ReaperWait::Sleep(
            if when > now {
                (when - now) as u64
            } else {
                0
            },
        )),
{
    if shut_down {
        ReaperWait::Exit
    } else {
        match next {
            Some(when) => ReaperWait::Sleep(
                if when > now {
                    when - now
                } else {
                    0
                },
            ),
            None => ReaperWait::UntilNotified,
        }
    }
}

/// After a failed accept with the current `backoff` in seconds: `None` to
/// give up, or the seconds to sleep and the next backoff, which doubles.
pub fn backoff_after_failure(backoff: u64) -> (r: Option<(u64, u64)>)
    ensures
        backoff > MAX_BACKOFF_SECS ==> r is None,
        backoff <= MAX_BACKOFF_SECS ==> r == Some((backoff, (2 * backoff) as u64)),
{
    if backoff > MAX_BACKOFF_SECS {
        None
    } else {
        Some((backoff, backoff * 2))
    }
}

} // verus!
