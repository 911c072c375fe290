//! Trying a call again a few times, waiting longer each time.
use vstd::prelude::*;

verus! {

/// How often a call is tried.
pub const MAX_ATTEMPTS: u32 = 3;

/// The first wait, in milliseconds.
pub const INITIAL_BACKOFF_MILLIS: u64 = 50;

/// How many pushed tasks may wait for the local client.
pub const TASK_CHANNEL_CAPACITY: usize = 16;

/// What to do about a call that failed.
#[derive(Debug, Clone, Copy, PartialEq, Eq, Structural)]
pub enum RetryStep {
    /// Wait this many milliseconds and try again.
    WaitThenRetry(u64),
    /// Report the failure.
    GiveUp,
}

/// The attempts of one call.
#[derive(Debug, Clone, Copy, PartialEq, Eq, Structural)]
pub struct RetryState {
    /// The number of the current attempt, from one up.
    pub attempt: u32,
    /// The next wait, in milliseconds.
    pub backoff_millis: u64,
}

/// The wait after failed attempt `attempt`: it doubles from the first one.
pub open spec fn wait_after(attempt: nat) -> nat
    decreases attempt,
{
    if attempt <= 1 {
        INITIAL_BACKOFF_MILLIS as nat
    } else {
        2 * wait_after((attempt - 1) as nat)
    }
}

impl RetryState {
    pub open spec fn well_formed(self) -> bool {
        &&& 1 <= self.attempt <= MAX_ATTEMPTS
        &&& self.backoff_millis as nat == wait_after(self.attempt as nat)
    }

    /// Before the first attempt.
    pub fn new() -> (r: RetryState)
        ensures
            r.well_formed(),
            r.attempt == 1,
    {
        RetryState { attempt: 1, backoff_millis: INITIAL_BACKOFF_MILLIS }
    }

    /// What follows a failed attempt: another one after a wait, until the
    /// last has failed.
    pub fn failed(&mut self) -> (r: RetryStep)
        requires
            old(self).well_formed(),
        ensures
            final(self).well_formed(),
            old(self).attempt < MAX_ATTEMPTS ==> r == RetryStep::WaitThenRetry(
                wait_after(old(self).attempt as nat) as u64,
            ) && final(self).attempt == old(self).attempt + 1,
            old(self).attempt == MAX_ATTEMPTS ==> r == RetryStep::GiveUp && *final(self)
                == *old(self),
    {
        proof {
            reveal_with_fuel(wait_after, 4);
        }
        if self.attempt < MAX_ATTEMPTS {
            let wait: u64 = self.backoff_millis;
            self.attempt = self.attempt + 1;
            self.backoff_millis = wait * 2;
            RetryStep::WaitThenRetry(wait)
        } else {
            RetryStep::GiveUp
        }
    }
}

} // verus!
