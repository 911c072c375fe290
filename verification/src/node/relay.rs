//! Relaying pushed tasks: one upstream subscription, opened again when it
//! ends.
use vstd::prelude::*;
use vstd::arithmetic::power2::pow2;
use crate::node::retry::{INITIAL_BACKOFF_MILLIS, MAX_ATTEMPTS};
use crate::text::{decimal, decimal_text};

verus! {

/// What happened.
#[derive(Debug, Clone, Copy, PartialEq, Eq, Structural)]
pub enum RelayEvent {
    /// The server accepted a subscription.
    Subscribed,
    /// The server refused a subscription.
    SubscribeFailed,
    /// A task arrived on the subscription.
    TaskArrived,
    /// The subscription ended, cleanly or not.
    StreamEnded,
    /// The local client is gone.
    LocalGone,
}

/// What to do next.
#[derive(Debug, Clone, Copy, PartialEq, Eq, Structural)]
pub enum RelayAction {
    /// Read the next message of the subscription.
    ReadNext,
    /// Hand the task to the local client, then read on.
    Forward,
    /// Wait this many milliseconds, then subscribe again.
    WaitThenSubscribe(u64),
    /// Tell the local client that the server is unavailable, and stop.
    GiveUp,
    /// Stop without a word.
    Stop,
}

/// Where a relay stands.
#[derive(Debug, Clone, Copy, PartialEq, Eq, Structural)]
pub struct RelayState {
    /// Subscriptions in a row that brought no task.
    pub consecutive_failures: u32,
    /// The next wait, in milliseconds.
    pub backoff_millis: u64,
    /// Whether the current subscription brought a task.
    pub delivered_any: bool,
}

impl RelayState {
    /// Fewer failures than would end the relay, and a wait that has doubled
    /// at most once for each failure and once more.
    pub open spec fn well_formed(self) -> bool {
        &&& self.consecutive_failures < MAX_ATTEMPTS
        &&& self.backoff_millis >= INITIAL_BACKOFF_MILLIS
        &&& self.consecutive_failures == 0 ==> self.backoff_millis <= 2 * INITIAL_BACKOFF_MILLIS
        &&& self.consecutive_failures == 1 ==> self.backoff_millis <= 4 * INITIAL_BACKOFF_MILLIS
        &&& self.consecutive_failures == 2 ==> self.backoff_millis <= 8 * INITIAL_BACKOFF_MILLIS
        &&& self.delivered_any ==> self.consecutive_failures == 0 && self.backoff_millis
            == INITIAL_BACKOFF_MILLIS
    }

    /// The state a relay starts in, before it subscribes.
    pub open spec fn initial() -> RelayState {
        RelayState {
            consecutive_failures: 0,
            backoff_millis: INITIAL_BACKOFF_MILLIS,
            delivered_any: false,
        }
    }

    /// What an attempt that ended amounts to, `failures` of them in a row
    /// having brought no task.
    pub open spec fn ended(self, failures: u32) -> (RelayAction, RelayState) {
        if failures >= MAX_ATTEMPTS {
            (
                RelayAction::GiveUp,
                RelayState { consecutive_failures: failures, delivered_any: false, ..self },
            )
        } else {
            (
                RelayAction::WaitThenSubscribe(self.backoff_millis),
                RelayState {
                    consecutive_failures: failures,
                    backoff_millis: (2 * self.backoff_millis) as u64,
                    delivered_any: false,
                },
            )
        }
    }

    /// The action and the state after an event. What counts a failure is a
    /// subscription that ends without a task; what forgives all of them is a
    /// task that arrives.
    pub open spec fn after(self, event: RelayEvent) -> (RelayAction, RelayState) {
        match event {
            RelayEvent::Subscribed => (
                RelayAction::ReadNext,
                RelayState { delivered_any: false, ..self },
            ),
            RelayEvent::TaskArrived => (
                RelayAction::Forward,
                RelayState {
                    consecutive_failures: 0,
                    backoff_millis: INITIAL_BACKOFF_MILLIS,
                    delivered_any: true,
                },
            ),
            RelayEvent::StreamEnded => self.ended(
                if self.delivered_any {
                    self.consecutive_failures
                } else {
                    (self.consecutive_failures + 1) as u32
                },
            ),
            RelayEvent::SubscribeFailed => self.ended((self.consecutive_failures + 1) as u32),
            RelayEvent::LocalGone => (RelayAction::Stop, self),
        }
    }

    /// The state a relay starts in.
    pub fn new() -> (r: RelayState)
        ensures
            r == RelayState::initial(),
            r.well_formed(),
    {
        RelayState {
            consecutive_failures: 0,
            backoff_millis: INITIAL_BACKOFF_MILLIS,
            delivered_any: false,
        }
    }

    fn end_attempt(&mut self, failures: u32) -> (r: RelayAction)
        requires
            old(self).backoff_millis <= 8 * INITIAL_BACKOFF_MILLIS,
        ensures
            (r, *final(self)) == old(self).ended(failures),
    {
        self.delivered_any = false;
        self.consecutive_failures = failures;
        if failures >= MAX_ATTEMPTS {
            RelayAction::GiveUp
        } else {
            let wait: u64 = self.backoff_millis;
            self.backoff_millis = wait * 2;
            RelayAction::WaitThenSubscribe(wait)
        }
    }

    /// Takes an event and says what to do.
    pub fn step(&mut self, event: RelayEvent) -> (r: RelayAction)
        requires
            old(self).well_formed(),
        ensures
            (r, *final(self)) == old(self).after(event),
            r != RelayAction::GiveUp ==> final(self).well_formed(),
            r == RelayAction::GiveUp ==> final(self).consecutive_failures == MAX_ATTEMPTS,
    {
        match event {
            RelayEvent::Subscribed => {
                self.delivered_any = false;
                RelayAction::ReadNext
            },
            RelayEvent::TaskArrived => {
                self.consecutive_failures = 0;
                self.backoff_millis = INITIAL_BACKOFF_MILLIS;
                self.delivered_any = true;
                RelayAction::Forward
            },
            RelayEvent::StreamEnded => {
                let failures: u32 = if self.delivered_any {
                    self.consecutive_failures
                } else {
                    self.consecutive_failures + 1
                };
                self.end_attempt(failures)
            },
            RelayEvent::SubscribeFailed => {
                let failures: u32 = self.consecutive_failures + 1;
                self.end_attempt(failures)
            },
            RelayEvent::LocalGone => RelayAction::Stop,
        }
    }
}

/// The last action and the state after `k` subscriptions that are accepted
/// and end without a task.
pub open spec fn after_empty(s: RelayState, k: nat) -> (RelayAction, RelayState)
    decreases k,
{
    if k == 0 {
        (RelayAction::ReadNext, s)
    } else {
        after_empty(s, (k - 1) as nat).1.after(RelayEvent::Subscribed).1.after(
            RelayEvent::StreamEnded,
        )
    }
}

/// A server that accepts subscriptions and closes each without a task is
/// given up as soon as three in a row have ended so, whatever the state it
/// began in; until then the wait doubles each time.
pub proof fn empty_subscriptions_end_the_relay(s: RelayState, k: nat)
    requires
        s.well_formed(),
        1 <= k <= MAX_ATTEMPTS - s.consecutive_failures,
    ensures
        after_empty(s, k).0 == if s.consecutive_failures + k == MAX_ATTEMPTS {
            RelayAction::GiveUp
        } else {
            RelayAction::WaitThenSubscribe((s.backoff_millis * pow2((k - 1) as nat)) as u64)
        },
{
    vstd::arithmetic::power2::lemma2_to64();
    reveal_with_fuel(after_empty, 4);
    let w = pow2((k - 1) as nat);
    assert(k == 1 || k == 2 || k == 3);
    if k == 1 {
        assert(s.backoff_millis * w == s.backoff_millis) by (nonlinear_arith) requires w == 1;
    } else if k == 2 {
        assert(s.backoff_millis * w == 2 * s.backoff_millis) by (nonlinear_arith) requires w == 2;
        assert(after_empty(s, 2) == after_empty(s, 1).1.after(RelayEvent::Subscribed).1.after(
            RelayEvent::StreamEnded,
        ));
    } else {
        assert(after_empty(s, 3) == after_empty(s, 2).1.after(RelayEvent::Subscribed).1.after(
            RelayEvent::StreamEnded,
        ));
    }
}

/// Whatever came before, a task that arrives makes the relay as patient as it
/// was at the start.
pub proof fn a_task_forgives_every_failure(s: RelayState)
    ensures
        s.after(RelayEvent::TaskArrived).1 == (RelayState {
            delivered_any: true,
            ..RelayState::initial()
        }),
        s.after(RelayEvent::TaskArrived).1.after(RelayEvent::StreamEnded).0
            == RelayAction::WaitThenSubscribe(INITIAL_BACKOFF_MILLIS),
{
}

/// What the local client is told when the relay gives up.
pub open spec fn give_up_text(failures: u32) -> Seq<char> {
    "push subscription to conflux-server failed "@ + decimal(failures as nat)
        + " consecutive times without delivering a task"@
}

/// What the local client is told when the relay gives up.
pub fn give_up_message(failures: u32) -> (r: String)
    ensures
        r@ == give_up_text(failures),
{
    "push subscription to conflux-server failed ".to_owned().concat(
        decimal_text(failures as u64).as_str(),
    ).concat(" consecutive times without delivering a task")
}

} // verus!
