use icmsg::transport::RecvError;
use icmsg::wakeup::decide;
use icmsg::RecvStep;

#[test]
fn decide_returns_whatever_is_not_empty() {
    for notified in [false, true] {
        assert_eq!(decide(notified, Ok(0)), RecvStep::Done(Ok(0)));
        assert_eq!(decide(notified, Ok(17)), RecvStep::Done(Ok(17)));
        assert_eq!(
            decide(notified, Err(RecvError::MessageTooBig)),
            RecvStep::Done(Err(RecvError::MessageTooBig))
        );
        assert_eq!(
            decide(notified, Err(RecvError::InvalidMessage)),
            RecvStep::Done(Err(RecvError::InvalidMessage))
        );
    }
}

#[test]
fn decide_waits_on_an_empty_ring_unless_notified() {
    assert_eq!(decide(false, Err(RecvError::Empty)), RecvStep::Wait);
    assert_eq!(decide(true, Err(RecvError::Empty)), RecvStep::Retry);
}

/// A waiter that keeps a notification only while it is armed.
struct Waiter {
    armed: bool,
    signalled: bool,
}

impl Waiter {
    fn notify(&mut self) {
        if self.armed {
            self.signalled = true;
        }
    }

    fn arm_and_poll(&mut self) -> bool {
        let ready = self.signalled;
        self.signalled = false;
        self.armed = !ready;
        ready
    }
}

/// Runs a receiver against a peer that sends one message and notifies right
/// before the receiver's step number `at`; returns whether the receiver
/// returned, and sleeps never without a notification to come.
fn receiver_returns(at: usize) -> bool {
    let mut queued = 0;
    let mut waiter = Waiter { armed: false, signalled: false };
    let mut step = 0;
    let mut sent = false;
    for _round in 0..4 {
        if step == at {
            queued += 1;
            waiter.notify();
            sent = true;
        }
        step += 1;
        let notified = waiter.arm_and_poll();
        if step == at {
            queued += 1;
            waiter.notify();
            sent = true;
        }
        step += 1;
        let attempt = if queued > 0 { Ok(1) } else { Err(RecvError::Empty) };
        match decide(notified, attempt) {
            RecvStep::Done(r) => return r == Ok(1),
            RecvStep::Retry => {}
            RecvStep::Wait => {
                if step == at {
                    queued += 1;
                    waiter.notify();
                    sent = true;
                }
                step += 1;
                if !waiter.signalled {
                    // Asleep: only a peer that has not sent yet can help.
                    assert!(!sent, "a wakeup was lost");
                    queued += 1;
                    waiter.notify();
                    sent = true;
                }
            }
        }
    }
    false
}

#[test]
fn no_wakeup_is_lost_wherever_the_peer_notifies() {
    for at in 0..6 {
        assert!(receiver_returns(at), "peer sends before step {at}");
    }
}
