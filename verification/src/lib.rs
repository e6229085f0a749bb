//! ICMsg: a simple backend for IPC communication between two cores using a ring
//! buffer in shared memory.
//!
//! Each core writes into the ring of one region and reads the ring of the
//! other; a notifier tells the peer that there is something to read. Before any
//! payload the two sides bond: each sends [`MAGIC`] once and reads the other's.
//!
//! A region is a value, [`transport::SharedMemoryRegion`], that the caller hands
//! to each operation. Waiting is the caller's part: where an operation would
//! suspend, the functions here take what the wait brought as an argument and
//! say what to do next.

use vstd::prelude::*;

pub mod bonding;
pub mod laws;
pub mod ring;
pub mod transport;
pub mod wakeup;

pub use bonding::{Bonding, InitError, MemoryConfig, MAGIC};
pub use transport::Notifier;
pub use wakeup::RecvStep;

use transport::{RecvError, SendError, SharedMemoryRegion};
use wakeup::recv_step;

verus! {

/// A bonded channel.
pub struct IcMsg<M, const ALIGN: usize> where M: Notifier {
    sender: Sender<M, ALIGN>,
    receiver: Receiver<ALIGN>,
}

impl<M, const ALIGN: usize> IcMsg<M, ALIGN> where M: Notifier {
    /// The sending half.
    pub closed spec fn sender(&self) -> Sender<M, ALIGN> {
        self.sender
    }

    /// The receiving half.
    pub closed spec fn receiver(&self) -> Receiver<ALIGN> {
        self.receiver
    }

    /// Create a new IcMsg channel and begin bonding.
    ///
    /// Checks the configuration, sets the indices of the region that this
    /// endpoint writes to zero and sends the magic into it, which calls
    /// `notifier` once. What is returned waits for the peer: see [`Bonding`].
    pub fn init(config: MemoryConfig, send_region: &mut SharedMemoryRegion<ALIGN>, notifier: M) -> (r:
        Result<Bonding<M, ALIGN>, InitError>)
        requires
            config.checked() is Ok ==> old(send_region).data@.len() == config.send_buffer_len,
        ensures
            Bonding::begun(config, old(send_region), final(send_region), r),
            r is Ok ==> exists|m: &mut M|
                mut_ref_current(m) == notifier
                    && mut_ref_future(m) == r.unwrap().transport().sender().mbox()
                    && #[trigger] call_ensures(M::notify, (m,), ()),
    {
        Bonding::begin(config, send_region, notifier)
    }

    /// The channel that a finished bonding leaves.
    pub(crate) fn bonded(halves: (transport::Sender<M, ALIGN>, transport::Receiver<ALIGN>)) -> (icmsg:
        Self)
        ensures
            icmsg.sender().transport() == halves.0,
            icmsg.receiver().transport() == halves.1,
    {
        IcMsg { sender: Sender { transport: halves.0 }, receiver: Receiver { transport: halves.1 } }
    }

    /// Send a message
    pub fn send(&mut self, send_region: &mut SharedMemoryRegion<ALIGN>, msg: &[u8]) -> (r: Result<
        (),
        SendError,
    >)
        requires
            msg@.len() <= 65535,
            old(send_region).data@.len() == old(self).sender().transport().buffer_len(),
        ensures
            old(self).sender().transport().sent(
                &final(self).sender().transport(),
                old(send_region),
                final(send_region),
                msg@,
                r,
            ),
            r is Ok ==> exists|m: &mut M|
                mut_ref_current(m) == old(self).sender().transport().mbox()
                    && mut_ref_future(m) == final(self).sender().transport().mbox()
                    && #[trigger] call_ensures(M::notify, (m,), ()),
            final(self).receiver() == old(self).receiver(),
    {
        self.sender.send(send_region, msg)
    }

    /// Receive a message. On success, returns the size of the message.
    pub fn try_recv(&mut self, recv_region: &mut SharedMemoryRegion<ALIGN>, msg: &mut [u8]) -> (r:
        Result<usize, RecvError>)
        requires
            old(recv_region).data@.len() == old(self).receiver().transport().buffer_len(),
        ensures
            old(self).receiver().transport().received(
                &final(self).receiver().transport(),
                old(recv_region),
                final(recv_region),
                old(msg)@,
                final(msg)@,
                r,
            ),
            final(self).sender() == old(self).sender(),
    {
        self.receiver.try_recv(recv_region, msg)
    }

    /// One round of waiting for a message: see [`Receiver::recv`].
    pub fn recv(
        &mut self,
        recv_region: &mut SharedMemoryRegion<ALIGN>,
        msg: &mut [u8],
        notified: bool,
    ) -> (step: RecvStep)
        requires
            old(recv_region).data@.len() == old(self).receiver().transport().buffer_len(),
        ensures
            old(self).receiver().transport().received(
                &final(self).receiver().transport(),
                old(recv_region),
                final(recv_region),
                old(msg)@,
                final(msg)@,
                step.attempt(),
            ),
            step == recv_step(notified, step.attempt()),
            final(self).sender() == old(self).sender(),
    {
        self.receiver.recv(recv_region, msg, notified)
    }

    /// The two halves, each on its own.
    pub fn split(self) -> (halves: (Sender<M, ALIGN>, Receiver<ALIGN>))
        ensures
            halves.0 == self.sender(),
            halves.1 == self.receiver(),
    {
        (self.sender, self.receiver)
    }

    /// The two halves, borrowed.
    pub fn split_mut(&mut self) -> (halves: (&mut Sender<M, ALIGN>, &mut Receiver<ALIGN>))
        ensures
            *halves.0 == old(self).sender(),
            *halves.1 == old(self).receiver(),
            final(self).sender() == *final(halves.0),
            final(self).receiver() == *final(halves.1),
    {
        (&mut self.sender, &mut self.receiver)
    }
}

/// The sending half of a bonded channel.
pub struct Sender<M, const ALIGN: usize> where M: Notifier {
    transport: transport::Sender<M, ALIGN>,
}

impl<M, const ALIGN: usize> Sender<M, ALIGN> where M: Notifier {
    /// The half of the transport that this half drives.
    pub closed spec fn transport(&self) -> transport::Sender<M, ALIGN> {
        self.transport
    }

    /// Send a message
    pub fn send(&mut self, send_region: &mut SharedMemoryRegion<ALIGN>, msg: &[u8]) -> (r: Result<
        (),
        SendError,
    >)
        requires
            msg@.len() <= 65535,
            old(send_region).data@.len() == old(self).transport().buffer_len(),
        ensures
            old(self).transport().sent(
                &final(self).transport(),
                old(send_region),
                final(send_region),
                msg@,
                r,
            ),
            r is Ok ==> exists|m: &mut M|
                mut_ref_current(m) == old(self).transport().mbox()
                    && mut_ref_future(m) == final(self).transport().mbox()
                    && #[trigger] call_ensures(M::notify, (m,), ()),
    {
        self.transport.send(send_region, msg)
    }
}

/// The receiving half of a bonded channel.
pub struct Receiver<const ALIGN: usize> {
    transport: transport::Receiver<ALIGN>,
}

impl<const ALIGN: usize> Receiver<ALIGN> {
    /// The half of the transport that this half drives.
    pub closed spec fn transport(&self) -> transport::Receiver<ALIGN> {
        self.transport
    }

    /// Try to receive a message if one is available. On success, returns the
    /// size of the message.
    pub fn try_recv(&mut self, recv_region: &mut SharedMemoryRegion<ALIGN>, msg: &mut [u8]) -> (r:
        Result<usize, RecvError>)
        requires
            old(recv_region).data@.len() == old(self).transport().buffer_len(),
        ensures
            old(self).transport().received(
                &final(self).transport(),
                old(recv_region),
                final(recv_region),
                old(msg)@,
                final(msg)@,
                r,
            ),
    {
        self.transport.try_recv(recv_region, msg)
    }

    /// One round of waiting for a message.
    ///
    /// The caller arms its waiter and polls it once, then calls this with what
    /// the poll said: `notified` is whether the waiter was ready at once. This
    /// attempts to receive. The step returned is done with the attempt's result
    /// unless the ring was empty; then the caller goes round again, at once if
    /// `notified`, and else after the armed waiter has resolved.
    pub fn recv(
        &mut self,
        recv_region: &mut SharedMemoryRegion<ALIGN>,
        msg: &mut [u8],
        notified: bool,
    ) -> (step: RecvStep)
        requires
            old(recv_region).data@.len() == old(self).transport().buffer_len(),
        ensures
            old(self).transport().received(
                &final(self).transport(),
                old(recv_region),
                final(recv_region),
                old(msg)@,
                final(msg)@,
                step.attempt(),
            ),
            step == recv_step(notified, step.attempt()),
    {
        let attempt = self.transport.try_recv(recv_region, msg);
        wakeup::decide(notified, attempt)
    }
}

} // verus!
