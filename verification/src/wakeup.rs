//! Waiting for a message without losing a wakeup.
//!
//! To wait, a receiver arms its waiter and polls it once, and only then looks
//! into the ring. If the ring is empty it suspends on the waiter that is armed
//! already, or, where the poll was ready at once, goes round again. What it
//! does after a look is [`recv_step`]. The second half of this file models the
//! waiter and the peer and shows that a receiver which goes by `recv_step`
//! never sleeps on a message.

use vstd::prelude::*;

use crate::transport::RecvError;

verus! {

/// What a receiver that waits for a message does after one look into the ring.
#[derive(Debug, Copy, Clone, PartialEq, Eq)]
pub enum RecvStep {
    /// The wait is over, with this result.
    Done(Result<usize, RecvError>),
    /// The ring was empty and the waiter had been ready at once: arm it again
    /// and look again.
    Retry,
    /// The ring was empty and the waiter is armed: suspend until it resolves,
    /// then arm it again and look again.
    Wait,
}

impl RecvStep {
    /// The result of the look that led to this step.
    pub open spec fn attempt(&self) -> Result<usize, RecvError> {
        match *self {
            RecvStep::Done(r) => r,
            RecvStep::Retry => Err(RecvError::Empty),
            RecvStep::Wait => Err(RecvError::Empty),
        }
    }
}

/// The step after a look that returned `attempt`, where `notified` says whether
/// the waiter, polled once before the look, was ready.
pub open spec fn recv_step(notified: bool, attempt: Result<usize, RecvError>) -> RecvStep {
    if attempt == Err::<usize, RecvError>(RecvError::Empty) {
        if notified {
            RecvStep::Retry
        } else {
            RecvStep::Wait
        }
    } else {
        RecvStep::Done(attempt)
    }
}

/// Computes `recv_step`.
pub fn decide(notified: bool, attempt: Result<usize, RecvError>) -> (step: RecvStep)
    ensures
        step == recv_step(notified, attempt),
        step.attempt() == attempt,
{
    match attempt {
        Err(RecvError::Empty) => {
            if notified {
                RecvStep::Retry
            } else {
                RecvStep::Wait
            }
        },
        other => RecvStep::Done(other),
    }
}

/// Where a waiting receiver stands.
pub enum Stage {
    /// About to arm the waiter and poll it once.
    Arming,
    /// The waiter was polled, and was ready if `notified`; about to look into
    /// the ring.
    Polled { notified: bool },
    /// Suspended on the armed waiter.
    Suspended,
    /// Returned.
    Done,
}

/// A receiver that waits, its waiter, and the ring that it reads.
pub struct Wait {
    /// Where the receiver stands.
    pub stage: Stage,
    /// How many messages the ring holds.
    pub queued: nat,
    /// Whether the waiter holds a notification.
    pub signalled: bool,
}

/// What can happen to a `Wait`.
pub enum Event {
    /// The receiver takes its next step. `spurious` says whether the waiter
    /// resolves without a notification in this step; `attempt` is what a look
    /// into the ring returns in it.
    Receiver { spurious: bool, attempt: Result<usize, RecvError> },
    /// The peer sends a message and notifies. `kept` says whether the
    /// notification is kept if no waiter is armed.
    Peer { kept: bool },
}

impl Wait {
    /// Whether a waiter is armed and has not resolved: it then keeps every
    /// notification.
    pub open spec fn armed(&self) -> bool {
        self.stage == (Stage::Polled { notified: false }) || self.stage == Stage::Suspended
    }

    /// Whether the receiver sleeps and nothing that has happened will wake it.
    pub open spec fn asleep(&self) -> bool {
        self.stage == Stage::Suspended && !self.signalled
    }

    /// Whether `event` can happen now: a look into the ring finds it empty
    /// exactly if it is.
    pub open spec fn admits(&self, event: Event) -> bool {
        match event {
            Event::Receiver { spurious, attempt } => (attempt == Err::<usize, RecvError>(
                RecvError::Empty,
            )) <==> self.queued == 0,
            Event::Peer { kept } => true,
        }
    }

    /// The state after `event`.
    pub open spec fn after(&self, event: Event) -> Wait {
        match event {
            Event::Peer { kept } => Wait {
                stage: self.stage,
                queued: self.queued + 1,
                signalled: self.armed() || self.signalled || kept,
            },
            Event::Receiver { spurious, attempt } => match self.stage {
                Stage::Arming => Wait {
                    stage: Stage::Polled { notified: self.signalled || spurious },
                    queued: self.queued,
                    signalled: false,
                },
                Stage::Polled { notified } => match recv_step(notified, attempt) {
                    RecvStep::Done(r) => Wait {
                        stage: Stage::Done,
                        queued: if r is Ok {
                            (self.queued - 1) as nat
                        } else {
                            self.queued
                        },
                        signalled: self.signalled,
                    },
                    RecvStep::Retry => Wait { stage: Stage::Arming, ..*self },
                    RecvStep::Wait => Wait { stage: Stage::Suspended, ..*self },
                },
                Stage::Suspended => if self.signalled || spurious {
                    Wait { stage: Stage::Arming, queued: self.queued, signalled: false }
                } else {
                    *self
                },
                Stage::Done => *self,
            },
        }
    }

    /// The state after the events of `trace`, in order.
    pub open spec fn after_all(&self, trace: Seq<Event>) -> Wait
        decreases trace.len(),
    {
        if trace.len() == 0 {
            *self
        } else {
            self.after(trace[0]).after_all(trace.drop_first())
        }
    }

    /// Whether each event of `trace` can happen when its turn comes.
    pub open spec fn admits_all(&self, trace: Seq<Event>) -> bool
        decreases trace.len(),
    {
        trace.len() == 0 || (self.admits(trace[0]) && self.after(trace[0]).admits_all(
            trace.drop_first(),
        ))
    }

    /// Whether the receiver is safe from sleeping on a message: where it is
    /// suspended while the ring holds a message, its waiter holds a
    /// notification.
    pub open spec fn safe(&self) -> bool {
        self.stage == Stage::Suspended && self.queued > 0 ==> self.signalled
    }
}

/// No event makes a safe state unsafe.
pub proof fn lemma_safe_step(wait: Wait, event: Event)
    requires
        wait.safe(),
        wait.admits(event),
    ensures
        wait.after(event).safe(),
{
}

/// No row of events makes a safe state unsafe.
pub proof fn lemma_safe_trace(wait: Wait, trace: Seq<Event>)
    requires
        wait.safe(),
        wait.admits_all(trace),
    ensures
        wait.after_all(trace).safe(),
    decreases trace.len(),
{
    if trace.len() > 0 {
        lemma_safe_step(wait, trace[0]);
        lemma_safe_trace(wait.after(trace[0]), trace.drop_first());
    }
}

/// No lost wakeup: whenever the peer has sent and notified, at whatever point
/// of the receiver's wait, the receiver does not sleep on the message, and with
/// no further help from the peer it returns within three steps of its own.
///
/// `trace` is any row of steps of the receiver and of the peer after the
/// receiver began to wait; `own` is what happens in the receiver's next three
/// steps.
pub proof fn no_lost_wakeup(start: Wait, trace: Seq<Event>, own: Seq<Event>)
    requires
        start.stage == Stage::Arming,
        start.admits_all(trace),
        start.after_all(trace).queued > 0,
        own.len() == 3,
        forall|i: int| 0 <= i < 3 ==> #[trigger] own[i] is Receiver,
        start.after_all(trace).admits_all(own),
    ensures
        !start.after_all(trace).asleep(),
        start.after_all(trace).after_all(own).stage == Stage::Done,
{
    let now = start.after_all(trace);
    lemma_safe_trace(start, trace);
    let first = now.after(own[0]);
    let rest = own.drop_first();
    assert(rest[0] == own[1]);
    let second = first.after(own[1]);
    let last = rest.drop_first();
    assert(last[0] == own[2]);
    let third = second.after(own[2]);
    assert(last.drop_first().len() == 0);
    assert(now.after_all(own) == first.after_all(rest));
    assert(first.after_all(rest) == second.after_all(last));
    assert(second.after_all(last) == third.after_all(last.drop_first()));
    assert(now.admits(own[0]));
    assert(first.admits_all(rest));
    assert(first.admits(own[1]));
    assert(second.admits_all(last));
    assert(second.admits(own[2]));
}

} // verus!
