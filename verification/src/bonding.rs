//! Bonding: the handshake before any payload.
//!
//! Each side sends [`MAGIC`] once and reads the other's. An endpoint goes
//! through four states. It is uninitialised until [`Bonding::begin`], which
//! leaves it with its magic sent: that state is a [`Bonding`]. While it waits
//! for the peer's notification it calls [`Bonding::pulse`] each time
//! [`PULSE_MS`] have passed, because the peer may have notified before anyone
//! waited. Once the wait has resolved, the peer has acknowledged, and the
//! endpoint calls [`Bonding::complete`], which reads the peer's magic. With
//! that it is bonded, and the channel is handed out. An error at any point ends
//! the bonding for good: the endpoint is consumed.

use vstd::prelude::*;

use crate::ring::{frame, frame_len, payload_at, ring_write};
use crate::transport::{
    recv_result, IcMsgTransport, Notifier, RecvError, SendError, SharedMemoryRegion,
};
use crate::IcMsg;

verus! {

/// The byte string that each side sends once, before any payload.
pub const MAGIC: [u8; 13] = [
    0x45, 0x6d, 0x31, 0x6c, 0x31, 0x4b, 0x30, 0x72, 0x6e, 0x33, 0x6c, 0x69, 0x34,
];

/// The milliseconds after which an endpoint that waits for its peer during
/// bonding notifies again.
pub const PULSE_MS: u32 = 1;

/// `MAGIC` as a sequence.
pub open spec fn magic() -> Seq<u8> {
    seq![
        0x45u8, 0x6du8, 0x31u8, 0x6cu8, 0x31u8, 0x4bu8, 0x30u8, 0x72u8, 0x6eu8, 0x33u8, 0x6cu8,
        0x69u8, 0x34u8,
    ]
}

/// Whether `message` begins with the magic; what follows it does not matter.
pub open spec fn begins_with_magic(message: Seq<u8>) -> bool {
    message.len() >= 13 && message.subrange(0, 13) == magic()
}

/// Computes `begins_with_magic`.
pub fn is_magic(message: &[u8]) -> (r: bool)
    ensures
        r == begins_with_magic(message@),
{
    if message.len() < 13 {
        return false;
    }
    let mut i: usize = 0;
    while i < 13
        invariant
            i <= 13,
            message.len() >= 13,
            forall|k: int| 0 <= k < i ==> message@[k] == #[trigger] magic()[k],
        decreases 13 - i,
    {
        if message[i] != MAGIC[i] {
            assert(message@.subrange(0, 13)[i as int] != magic()[i as int]);
            return false;
        }
        i += 1;
    }
    assert(message@.subrange(0, 13) =~= magic());
    true
}

/// The memory configuration of the channel.
///
/// `send_buffer_len` and `recv_buffer_len` are the sizes in bytes of the rings
/// of the two regions, without the headers. Each must be a multiple of 4 and at
/// least 24.
#[derive(Debug, Copy, Clone)]
pub struct MemoryConfig {
    /// Size of the ring of the region that this endpoint writes, in bytes.
    pub send_buffer_len: u32,
    /// Size of the ring of the region that this endpoint reads, in bytes.
    pub recv_buffer_len: u32,
}

#[derive(Debug, Copy, Clone, PartialEq, Eq, Structural)]
pub enum InitError {
    /// The send or recv regions were too small
    TooSmall,
    /// The send or recv buffer lengths were not a multiple of 4.
    InvalidSize,
    /// A `SendError` occurred during bonding.
    BondingSendError(SendError),
    /// A `RecvError` occurred during bonding.
    BondingRecvError(RecvError),
    /// The magic sequence was not received during bonding.
    BondingWrongMagic,
}

impl MemoryConfig {
    /// What is wrong with the configuration, if anything: a length that is no
    /// multiple of 4 counts before one that is too small.
    pub open spec fn checked(&self) -> Result<(), InitError> {
        if self.send_buffer_len % 4 != 0 || self.recv_buffer_len % 4 != 0 {
            Err(InitError::InvalidSize)
        } else if self.send_buffer_len < 24 || self.recv_buffer_len < 24 {
            Err(InitError::TooSmall)
        } else {
            Ok(())
        }
    }

    /// Computes `checked`.
    pub fn check(&self) -> (r: Result<(), InitError>)
        ensures
            r == self.checked(),
    {
        if self.send_buffer_len % 4 != 0 || self.recv_buffer_len % 4 != 0 {
            return Err(InitError::InvalidSize);
        }
        if self.send_buffer_len < 24 || self.recv_buffer_len < 24 {
            return Err(InitError::TooSmall);
        }
        Ok(())
    }
}

/// An endpoint that has sent its magic and waits for the peer's.
pub struct Bonding<M, const ALIGN: usize> where M: Notifier {
    transport: IcMsgTransport<M, ALIGN>,
}

impl<M, const ALIGN: usize> Bonding<M, ALIGN> where M: Notifier {
    /// The transport that is being bonded.
    pub closed spec fn transport(&self) -> IcMsgTransport<M, ALIGN> {
        self.transport
    }

    /// What beginning to bond makes of the region that the endpoint writes, and
    /// what it returns.
    ///
    /// A configuration that does not pass `checked` is refused with its error,
    /// and the region stays as it is. Else the region's indices are set to zero
    /// and the magic is sent: its frame lies at the ring's start, it is the one
    /// message queued, the writer's index stands behind it, and the count of
    /// notifications is one. This always succeeds, since the frame fits into
    /// every ring that passes the check.
    ///
    /// What becomes of the notifier is not said here but in the contract of
    /// `begin` itself.
    pub open spec fn begun(
        config: MemoryConfig,
        region: &SharedMemoryRegion<ALIGN>,
        region_after: &SharedMemoryRegion<ALIGN>,
        r: Result<Self, InitError>,
    ) -> bool {
        match config.checked() {
            Err(e) => {
                &&& r == Err::<Self, InitError>(e)
                &&& region_after.rd_idx() == region.rd_idx()
                &&& region_after.wr_idx() == region.wr_idx()
                &&& region_after.data@ == region.data@
            },
            Ok(()) => {
                &&& r is Ok
                &&& r.unwrap().transport().sender().buffer_len() == config.send_buffer_len
                &&& r.unwrap().transport().sender().wr_idx() == frame_len(13)
                &&& r.unwrap().transport().sender().notifications() == 1
                &&& r.unwrap().transport().receiver().buffer_len() == config.recv_buffer_len
                &&& r.unwrap().transport().receiver().rd_idx() == 0
                &&& region_after.rd_idx() == 0
                &&& region_after.wr_idx() == frame_len(13)
                &&& region_after.data@ == ring_write(region.data@, 0, frame(magic()))
                &&& region_after.queue() == Some(seq![magic()])
            },
        }
    }

    /// Begins to bond: checks the configuration, makes the transport and sends
    /// the magic. Sending calls `notifier` once: the notifier of the endpoint
    /// returned is what one call makes of it.
    pub fn begin(config: MemoryConfig, send_region: &mut SharedMemoryRegion<ALIGN>, notifier: M) -> (r:
        Result<Self, InitError>)
        requires
            config.checked() is Ok ==> old(send_region).data@.len() == config.send_buffer_len,
        ensures
            Self::begun(config, old(send_region), final(send_region), r),
            r is Ok ==> exists|m: &mut M|
                mut_ref_current(m) == notifier
                    && mut_ref_future(m) == r.unwrap().transport().sender().mbox()
                    && #[trigger] call_ensures(M::notify, (m,), ()),
    {
        match config.check() {
            Ok(()) => {},
            Err(e) => {
                return Err(e);
            },
        }
        let mut transport = IcMsgTransport::new(
            send_region,
            config.send_buffer_len,
            config.recv_buffer_len,
            notifier,
        );
        let ghost zeroed = *send_region;
        proof {
            assert(MAGIC@ =~= magic());
            crate::ring::lemma_free_plus_used(0, 0, config.send_buffer_len as int);
            crate::ring::lemma_ring_at_mod(0, frame_len(13), config.send_buffer_len as int);
            assert(zeroed.queue() == Some(Seq::<Seq<u8>>::empty()));
            assert(Seq::<Seq<u8>>::empty().push(magic()) =~= seq![magic()]);
        }
        match transport.send(send_region, MAGIC.as_slice()) {
            Ok(()) => {},
            Err(e) => {
                return Err(InitError::BondingSendError(e));
            },
        }
        Ok(Bonding { transport })
    }

    /// Notifies the peer again: calls the notifier once. This is for each time
    /// that the timer of [`PULSE_MS`] ran out before the waiter resolved.
    pub fn pulse(&mut self)
        ensures
            final(self).transport().sender().buffer_len()
                == old(self).transport().sender().buffer_len(),
            final(self).transport().sender().wr_idx() == old(self).transport().sender().wr_idx(),
            final(self).transport().sender().notifications()
                == old(self).transport().sender().notifications() + 1,
            final(self).transport().receiver() == old(self).transport().receiver(),
            exists|m: &mut M|
                mut_ref_current(m) == old(self).transport().sender().mbox()
                    && mut_ref_future(m) == final(self).transport().sender().mbox()
                    && #[trigger] call_ensures(M::notify, (m,), ()),
    {
        self.transport.notify()
    }

    /// What completing the bonding makes of the region that the endpoint reads,
    /// and what it returns.
    ///
    /// One message is received into a buffer of 32 bytes. If that fails, so
    /// does the bonding, with the error inside `BondingRecvError`, and the ring
    /// stays as it is. Else the message is taken out of the ring, and the
    /// bonding succeeds exactly if it begins with the magic. The channel then
    /// has the transport's two halves as they stand after the message was
    /// read, with a count of notifications that is one more.
    ///
    /// What becomes of the notifier is not said here but in the contract of
    /// `complete` itself.
    pub open spec fn completed(
        &self,
        region: &SharedMemoryRegion<ALIGN>,
        region_after: &SharedMemoryRegion<ALIGN>,
        r: Result<IcMsg<M, ALIGN>, InitError>,
    ) -> bool {
        let receiver = self.transport().receiver();
        let sender = self.transport().sender();
        let n = receiver.buffer_len() as int;
        &&& region_after.data@ == region.data@
        &&& region_after.wr_idx() == region.wr_idx()
        &&& match recv_result(region.data@, receiver.rd_idx(), region.wr_idx(), 32) {
            Err(e) => {
                &&& r == Err::<IcMsg<M, ALIGN>, InitError>(InitError::BondingRecvError(e))
                &&& region_after.rd_idx() == region.rd_idx()
            },
            Ok(len) => {
                &&& region_after.rd_idx() == (receiver.rd_idx() + frame_len(len as int)) % n
                &&& r is Ok <==> begins_with_magic(
                    payload_at(region.data@, receiver.rd_idx() as int),
                )
                &&& r is Err ==> r == Err::<IcMsg<M, ALIGN>, InitError>(
                    InitError::BondingWrongMagic,
                )
                &&& r is Ok ==> {
                    &&& r.unwrap().sender().transport().buffer_len() == sender.buffer_len()
                    &&& r.unwrap().sender().transport().wr_idx() == sender.wr_idx()
                    &&& r.unwrap().sender().transport().notifications() == sender.notifications()
                        + 1
                    &&& r.unwrap().receiver().transport().buffer_len() == receiver.buffer_len()
                    &&& r.unwrap().receiver().transport().rd_idx() == region_after.rd_idx()
                }
                &&& receiver.in_step(region) && region.queue() is Some ==> region_after.queue()
                    == Some(region.queue().unwrap().drop_first())
            },
        }
    }

    /// Completes the bonding, once the wait for the peer's notification has
    /// resolved: notifies the peer once more, so that it gets out of its own
    /// wait, then reads the peer's magic. The notifier of the channel returned
    /// is what that one call makes of the endpoint's.
    pub fn complete(self, recv_region: &mut SharedMemoryRegion<ALIGN>) -> (r: Result<
        IcMsg<M, ALIGN>,
        InitError,
    >)
        requires
            old(recv_region).data@.len() == self.transport().receiver().buffer_len(),
        ensures
            self.completed(old(recv_region), final(recv_region), r),
            r is Ok ==> exists|m: &mut M|
                mut_ref_current(m) == self.transport().sender().mbox()
                    && mut_ref_future(m) == r.unwrap().sender().transport().mbox()
                    && #[trigger] call_ensures(M::notify, (m,), ()),
    {
        let mut transport = self.transport;
        transport.notify();
        // Allow larger messages for forward compatibility.
        let mut message: [u8; 32] = [0; 32];
        let len: usize = match transport.try_recv(recv_region, &mut message) {
            Ok(len) => len,
            Err(e) => {
                return Err(InitError::BondingRecvError(e));
            },
        };
        let ghost payload = payload_at(
            old(recv_region).data@,
            self.transport().receiver().rd_idx() as int,
        );
        proof {
            assert(message@.subrange(0, len as int) =~= payload);
            if len >= 13 {
                assert(message@.subrange(0, 13) =~= payload.subrange(0, 13));
            } else {
                assert(message@[len as int] == 0u8);
                assert(magic()[len as int] != 0u8);
                assert(message@.subrange(0, 13)[len as int] == message@[len as int]);
            }
        }
        if !is_magic(message.as_slice()) {
            return Err(InitError::BondingWrongMagic);
        }
        Ok(IcMsg::bonded(transport.split()))
    }
}

} // verus!
