//! What holds of every ring.
//!
//! [`Ring`] is one direction of a channel seen from outside: the bytes and the
//! two indices, with both ends in step with them. Its `send` and `recv` are what
//! a successful `Sender::send` and `Receiver::try_recv` make of a region; the
//! first two laws say so. The others are stated of `Ring`.

use vstd::prelude::*;

use crate::bonding::{magic, Bonding, InitError, MemoryConfig};
use crate::ring::{
    frame, frame_len, free_space, header_len, lemma_free_plus_used, lemma_padded_len,
    lemma_queued_ignores_free, lemma_queued_pop, lemma_queued_push, lemma_queued_size,
    lemma_ring_at_mod, lemma_total_len_push, lemma_written_frame, offset_from, payload_at,
    queued, ring_write, total_len, valid_index, valid_len,
};
use crate::IcMsg;
use crate::transport::integer::le_value;
use crate::transport::{
    recv_result, Notifier, Receiver, RecvError, SendError, Sender, SharedMemoryRegion,
};

verus! {

/// The bytes of a ring and its two indices.
pub struct Ring {
    pub data: Seq<u8>,
    pub rd: int,
    pub wr: int,
}

/// One successful operation on a ring.
pub enum Step {
    /// A message is sent.
    Send(Seq<u8>),
    /// The oldest message is received.
    Recv,
}

impl Ring {
    /// The ring's length.
    pub open spec fn len(self) -> int {
        self.data.len() as int
    }

    /// Whether the indices are in place and the bytes from the reader's to the
    /// writer's are whole frames.
    pub open spec fn in_order(self) -> bool {
        queued(self.data, self.rd, self.wr) is Some
    }

    /// The messages written and not yet read, oldest first.
    pub open spec fn queue(self) -> Seq<Seq<u8>> {
        queued(self.data, self.rd, self.wr).unwrap()
    }

    /// Whether the ring holds no message.
    pub open spec fn is_empty(self) -> bool {
        self.rd == self.wr
    }

    /// Whether sending `msg` succeeds.
    pub open spec fn accepts(self, msg: Seq<u8>) -> bool {
        frame_len(msg.len() as int) <= free_space(self.rd, self.wr, self.len())
    }

    /// The ring after `msg` was sent.
    pub open spec fn send(self, msg: Seq<u8>) -> Ring {
        Ring {
            data: ring_write(self.data, self.wr, frame(msg)),
            rd: self.rd,
            wr: (self.wr + frame_len(msg.len() as int)) % self.len(),
        }
    }

    /// The message that receiving returns.
    pub open spec fn head(self) -> Seq<u8> {
        payload_at(self.data, self.rd)
    }

    /// The ring after its oldest message was received.
    pub open spec fn recv(self) -> Ring {
        Ring {
            data: self.data,
            rd: (self.rd + frame_len(header_len(self.data, self.rd))) % self.len(),
            wr: self.wr,
        }
    }

    /// Whether `step` succeeds.
    pub open spec fn permits(self, step: Step) -> bool {
        match step {
            Step::Send(msg) => msg.len() <= 65535 && self.accepts(msg),
            Step::Recv => !self.is_empty(),
        }
    }

    /// The ring after `step`.
    pub open spec fn after(self, step: Step) -> Ring {
        match step {
            Step::Send(msg) => self.send(msg),
            Step::Recv => self.recv(),
        }
    }

    /// Whether each of `steps` succeeds when its turn comes.
    pub open spec fn permits_all(self, steps: Seq<Step>) -> bool
        decreases steps.len(),
    {
        steps.len() == 0 || (self.permits(steps[0]) && self.after(steps[0]).permits_all(
            steps.drop_first(),
        ))
    }

    /// The ring after `steps`, in order.
    pub open spec fn after_all(self, steps: Seq<Step>) -> Ring
        decreases steps.len(),
    {
        if steps.len() == 0 {
            self
        } else {
            self.after(steps[0]).after_all(steps.drop_first())
        }
    }

    /// The messages that the receives among `steps` return, in order.
    pub open spec fn received(self, steps: Seq<Step>) -> Seq<Seq<u8>>
        decreases steps.len(),
    {
        if steps.len() == 0 {
            Seq::empty()
        } else {
            match steps[0] {
                Step::Send(msg) => self.after(steps[0]).received(steps.drop_first()),
                Step::Recv => seq![self.head()] + self.after(steps[0]).received(
                    steps.drop_first(),
                ),
            }
        }
    }
}

/// The messages that the sends among `steps` send, in order.
pub open spec fn sent(steps: Seq<Step>) -> Seq<Seq<u8>>
    decreases steps.len(),
{
    if steps.len() == 0 {
        Seq::empty()
    } else {
        match steps[0] {
            Step::Send(msg) => seq![msg] + sent(steps.drop_first()),
            Step::Recv => sent(steps.drop_first()),
        }
    }
}

/// The steps that send `msgs`, one after the other.
pub open spec fn sends(msgs: Seq<Seq<u8>>) -> Seq<Step> {
    Seq::new(msgs.len(), |i: int| Step::Send(msgs[i]))
}

/// A region as a ring.
pub open spec fn ring_of<const ALIGN: usize>(region: &SharedMemoryRegion<ALIGN>) -> Ring {
    Ring { data: region.data@, rd: region.rd_idx() as int, wr: region.wr_idx() as int }
}

/// Header placement: in memory a header begins with `rd_idx`, and `wr_idx`
/// stands `ALIGN` bytes behind it, each least significant byte first; the ring
/// begins behind twice `ALIGN` bytes.
pub proof fn header_placement<const ALIGN: usize>(
    region: &SharedMemoryRegion<ALIGN>,
    mem: Seq<u8>,
)
    requires
        ALIGN >= 4,
        region.lies_in(mem),
    ensures
        le_value(mem.subrange(0, 4)) == region.rd_idx(),
        le_value(mem.subrange(ALIGN as int, ALIGN + 4)) == region.wr_idx(),
        mem.subrange(2 * ALIGN, mem.len() as int) == region.data@,
{
    let header = mem.subrange(0, 2 * ALIGN);
    assert(header.subrange(0, 4) =~= mem.subrange(0, 4));
    assert(header.subrange(ALIGN as int, ALIGN + 4) =~= mem.subrange(ALIGN as int, ALIGN + 4));
}

/// What `Sender::send` makes of a region in step with the sender is what
/// `Ring::send` makes of the ring, and it succeeds exactly if the ring accepts
/// the message.
pub proof fn send_is_ring_send<M: Notifier, const ALIGN: usize>(
    sender: &Sender<M, ALIGN>,
    sender_after: &Sender<M, ALIGN>,
    region: &SharedMemoryRegion<ALIGN>,
    region_after: &SharedMemoryRegion<ALIGN>,
    msg: Seq<u8>,
    r: Result<(), SendError>,
)
    requires
        sender.in_step(region),
        sender.sent(sender_after, region, region_after, msg, r),
    ensures
        r is Ok <==> ring_of(region).accepts(msg),
        r is Ok ==> ring_of(region_after) == ring_of(region).send(msg),
        r is Err ==> ring_of(region_after) == ring_of(region),
        sender_after.in_step(region_after),
{
}

/// What `Receiver::try_recv` makes of a region in step with the receiver, where
/// the ring is in order, is what `Ring::recv` makes of the ring; it succeeds
/// exactly if the ring is not empty and the buffer can take the oldest message,
/// which it then holds.
pub proof fn try_recv_is_ring_recv<const ALIGN: usize>(
    receiver: &Receiver<ALIGN>,
    receiver_after: &Receiver<ALIGN>,
    region: &SharedMemoryRegion<ALIGN>,
    region_after: &SharedMemoryRegion<ALIGN>,
    buf: Seq<u8>,
    buf_after: Seq<u8>,
    r: Result<usize, RecvError>,
)
    requires
        receiver.in_step(region),
        ring_of(region).in_order(),
        receiver.received(receiver_after, region, region_after, buf, buf_after, r),
    ensures
        r is Ok <==> !ring_of(region).is_empty() && ring_of(region).head().len() <= buf.len(),
        r is Ok ==> ring_of(region_after) == ring_of(region).recv() && r.unwrap() == ring_of(
            region,
        ).head().len() && buf_after.subrange(0, r.unwrap() as int) == ring_of(region).head(),
        r is Err ==> ring_of(region_after) == ring_of(region),
        receiver_after.in_step(region_after),
{
    let ring = ring_of(region);
    lemma_queued_pop(ring.data, ring.rd, ring.wr);
    if !ring.is_empty() {
        lemma_padded_len(header_len(ring.data, ring.rd));
    }
}

/// A successful step keeps a ring in order, and does to the queue what it
/// says: a send adds its message at the end, a receive returns the message at
/// the front and takes it off.
pub proof fn step_keeps_order(ring: Ring, step: Step)
    requires
        ring.in_order(),
        ring.permits(step),
    ensures
        ring.after(step).in_order(),
        ring.after(step).len() == ring.len(),
        match step {
            Step::Send(msg) => ring.after(step).queue() == ring.queue().push(msg),
            Step::Recv => ring.queue().len() > 0 && ring.head() == ring.queue()[0] && ring.after(
                step,
            ).queue() == ring.queue().drop_first(),
        },
{
    match step {
        Step::Send(msg) => {
            lemma_queued_push(ring.data, ring.rd, ring.wr, msg);
        },
        Step::Recv => {
            lemma_queued_pop(ring.data, ring.rd, ring.wr);
        },
    }
}

/// No partial packet is visible: as long as the writer's index is not
/// published, bytes written behind it and in front of the reader's index
/// change nothing of what the reader finds queued. So a writer may put a frame
/// there piece by piece.
pub proof fn unpublished_bytes_are_not_seen(ring: Ring, at: int, bytes: Seq<u8>)
    requires
        0 <= ring.rd < ring.len(),
        0 <= ring.wr < ring.len(),
        0 <= at < ring.len(),
        offset_from(ring.rd, ring.wr, ring.len()) <= offset_from(ring.rd, at, ring.len()),
        offset_from(ring.rd, at, ring.len()) + bytes.len() <= ring.len(),
    ensures
        queued(ring_write(ring.data, at, bytes), ring.rd, ring.wr) == queued(
            ring.data,
            ring.rd,
            ring.wr,
        ),
{
    let n = ring.len();
    let other = ring_write(ring.data, at, bytes);
    assert forall|p: int|
        0 <= p < n && offset_from(ring.rd, p, n) < offset_from(
            ring.rd,
            ring.wr,
            n,
        ) implies other[p] == ring.data[p] by {
        assert(offset_from(at, p, n) == offset_from(ring.rd, p, n) + n - offset_from(
            ring.rd,
            at,
            n,
        ));
    }
    lemma_queued_ignores_free(ring.data, other, ring.rd, ring.wr);
}

/// FIFO ordering: after any row of successful sends and receives on a ring in
/// order, what was queued before and then sent is what was received and then
/// is still queued, message for message.
pub proof fn fifo(ring: Ring, steps: Seq<Step>)
    requires
        ring.in_order(),
        ring.permits_all(steps),
    ensures
        ring.after_all(steps).in_order(),
        ring.queue() + sent(steps) == ring.received(steps) + ring.after_all(steps).queue(),
    decreases steps.len(),
{
    if steps.len() == 0 {
        assert(ring.queue() + sent(steps) =~= ring.received(steps) + ring.queue());
    } else {
        let next = ring.after(steps[0]);
        let rest = steps.drop_first();
        step_keeps_order(ring, steps[0]);
        fifo(next, rest);
        let last = ring.after_all(steps).queue();
        match steps[0] {
            Step::Send(msg) => {
                assert(ring.queue() + (seq![msg] + sent(rest)) =~= ring.queue().push(msg) + sent(
                    rest,
                ));
            },
            Step::Recv => {
                assert(ring.queue() =~= seq![ring.head()] + ring.queue().drop_first());
                assert((seq![ring.head()] + ring.queue().drop_first()) + sent(rest) =~= seq![
                    ring.head(),
                ] + (ring.queue().drop_first() + sent(rest)));
                assert((seq![ring.head()] + next.received(rest)) + last =~= seq![ring.head()] + (
                next.received(rest) + last));
            },
        }
    }
}

/// FIFO ordering, from an empty ring: a reader that has received as often as
/// the writer has sent has received exactly the messages sent, in their order.
pub proof fn fifo_from_empty(ring: Ring, steps: Seq<Step>)
    requires
        ring.in_order(),
        ring.is_empty(),
        ring.permits_all(steps),
        ring.received(steps).len() == sent(steps).len(),
    ensures
        ring.received(steps) == sent(steps),
        ring.after_all(steps).is_empty(),
{
    fifo(ring, steps);
    lemma_queued_pop(ring.data, ring.rd, ring.wr);
    let end = ring.after_all(steps);
    lemma_queued_pop(end.data, end.rd, end.wr);
    assert(ring.queue() + sent(steps) =~= sent(steps));
    assert((ring.received(steps) + end.queue()).len() == sent(steps).len());
    assert(ring.received(steps) + end.queue() =~= ring.received(steps));
}

/// Round trip with wrap: a message whose frame fits into an empty ring is
/// accepted wherever the two indices stand, and is then the message received;
/// the ring is empty again after it.
pub proof fn round_trip(data: Seq<u8>, at: int, msg: Seq<u8>)
    requires
        valid_len(data.len() as int),
        valid_index(at, data.len() as int),
        msg.len() <= 65535,
        frame_len(msg.len() as int) <= data.len() - 1,
    ensures
        ({
            let ring = Ring { data, rd: at, wr: at };
            &&& ring.accepts(msg)
            &&& !ring.send(msg).is_empty()
            &&& header_len(ring.send(msg).data, at) == msg.len()
            &&& ring.send(msg).head() == msg
            &&& ring.send(msg).recv().is_empty()
        }),
{
    let ring = Ring { data, rd: at, wr: at };
    let n = data.len() as int;
    lemma_free_plus_used(at, at, n);
    lemma_padded_len(msg.len() as int);
    lemma_ring_at_mod(at, frame_len(msg.len() as int), n);
    assert(ring.in_order());
    step_keeps_order(ring, Step::Send(msg));
    let full = ring.send(msg);
    assert(full.queue() =~= seq![msg]);
    lemma_queued_pop(full.data, full.rd, full.wr);
    step_keeps_order(full, Step::Recv);
    let end = full.recv();
    assert(end.queue() =~= Seq::<Seq<u8>>::empty());
    lemma_queued_pop(end.data, end.rd, end.wr);
}

/// Capacity: a ring in order accepts a message exactly if the frames queued
/// and the message's frame together take no more than the ring's length less
/// one byte.
pub proof fn capacity(ring: Ring, msg: Seq<u8>)
    requires
        ring.in_order(),
    ensures
        ring.accepts(msg) <==> total_len(ring.queue()) + frame_len(msg.len() as int) <= ring.len()
            - 1,
        total_len(ring.queue()) <= ring.len() - 4,
        total_len(ring.queue()) == ring.len() - 4 ==> !ring.accepts(msg),
{
    lemma_queued_size(ring.data, ring.rd, ring.wr);
    lemma_free_plus_used(ring.rd, ring.wr, ring.len());
    lemma_padded_len(msg.len() as int);
}

/// Capacity exactness: into an empty ring, messages can be sent one after the
/// other exactly as long as their frames together take no more than the ring's
/// length less one byte.
pub proof fn capacity_from_empty(ring: Ring, msgs: Seq<Seq<u8>>)
    requires
        ring.in_order(),
        ring.is_empty(),
        forall|i: int| 0 <= i < msgs.len() ==> (#[trigger] msgs[i]).len() <= 65535,
    ensures
        ring.permits_all(sends(msgs)) <==> total_len(msgs) <= ring.len() - 1,
{
    lemma_queued_pop(ring.data, ring.rd, ring.wr);
    assert(ring.queue() =~= Seq::<Seq<u8>>::empty());
    lemma_sends_fit(ring, msgs);
}

/// Messages can be sent one after the other into a ring in order exactly as
/// long as their frames and those queued together take no more than the ring's
/// length less one byte.
proof fn lemma_sends_fit(ring: Ring, msgs: Seq<Seq<u8>>)
    requires
        ring.in_order(),
        forall|i: int| 0 <= i < msgs.len() ==> (#[trigger] msgs[i]).len() <= 65535,
    ensures
        ring.permits_all(sends(msgs)) <==> total_len(ring.queue()) + total_len(msgs) <= ring.len()
            - 1,
    decreases msgs.len(),
{
    capacity(ring, Seq::empty());
    if msgs.len() > 0 {
        let msg = msgs[0];
        let rest = msgs.drop_first();
        capacity(ring, msg);
        assert(sends(msgs)[0] == Step::Send(msg));
        assert(sends(msgs).drop_first() =~= sends(rest));
        lemma_padded_len(msg.len() as int);
        if ring.accepts(msg) {
            step_keeps_order(ring, Step::Send(msg));
            lemma_total_len_push(ring.queue(), msg);
            lemma_sends_fit(ring.send(msg), rest);
        } else {
            lemma_total_len_nonnegative(rest);
        }
    }
}

/// Frames take no negative number of bytes.
proof fn lemma_total_len_nonnegative(msgs: Seq<Seq<u8>>)
    ensures
        total_len(msgs) >= 0,
    decreases msgs.len(),
{
    if msgs.len() > 0 {
        lemma_padded_len(msgs[0].len() as int);
        lemma_total_len_nonnegative(msgs.drop_first());
    }
}

/// Message-too-big is non-destructive: where an attempt to receive from a ring
/// in order fails because the buffer is too small, the indices and the bytes
/// stay as they are, and an attempt with a buffer that can take the message
/// returns it.
pub proof fn too_big_keeps_message<const ALIGN: usize>(
    receiver: &Receiver<ALIGN>,
    receiver_after: &Receiver<ALIGN>,
    region: &SharedMemoryRegion<ALIGN>,
    region_after: &SharedMemoryRegion<ALIGN>,
    buf: Seq<u8>,
    buf_after: Seq<u8>,
    capacity: nat,
)
    requires
        receiver.in_step(region),
        ring_of(region).in_order(),
        receiver.received(
            receiver_after,
            region,
            region_after,
            buf,
            buf_after,
            Err(RecvError::MessageTooBig),
        ),
        capacity >= ring_of(region).head().len(),
    ensures
        receiver_after.rd_idx() == receiver.rd_idx(),
        ring_of(region_after) == ring_of(region),
        buf_after == buf,
        ring_of(region).queue().len() > 0,
        ring_of(region).head() == ring_of(region).queue()[0],
        recv_result(
            region_after.data@,
            receiver_after.rd_idx(),
            region_after.wr_idx(),
            capacity,
        ) == Ok::<usize, RecvError>(ring_of(region).head().len() as usize),
{
    let ring = ring_of(region);
    lemma_queued_pop(ring.data, ring.rd, ring.wr);
    lemma_padded_len(header_len(ring.data, ring.rd));
}

/// Bonding succeeds once the peer has begun: where the peer has begun on the
/// region that an endpoint reads, an endpoint that has read nothing yet
/// completes with success, however often it has notified in between. It has
/// then taken the peer's magic out of the ring, which is empty again, with both
/// indices behind that one frame.
pub proof fn bonding_succeeds<M: Notifier, P: Notifier, const ALIGN: usize>(
    endpoint: Bonding<M, ALIGN>,
    peer_config: MemoryConfig,
    region_before: &SharedMemoryRegion<ALIGN>,
    region: &SharedMemoryRegion<ALIGN>,
    peer: Bonding<P, ALIGN>,
    region_after: &SharedMemoryRegion<ALIGN>,
    r: Result<IcMsg<M, ALIGN>, InitError>,
)
    requires
        endpoint.transport().receiver().buffer_len() == peer_config.send_buffer_len,
        endpoint.transport().receiver().rd_idx() == 0,
        Bonding::begun(peer_config, region_before, region, Ok(peer)),
        region_before.data@.len() == peer_config.send_buffer_len,
        endpoint.completed(region, region_after, r),
    ensures
        r is Ok,
        region_after.queue() == Some(Seq::<Seq<u8>>::empty()),
        region_after.rd_idx() == frame_len(13),
        region_after.wr_idx() == frame_len(13),
{
    let n = peer_config.send_buffer_len as int;
    lemma_written_frame(region_before.data@, 0, magic());
    lemma_ring_at_mod(0, frame_len(13), n);
    assert(magic().subrange(0, 13) =~= magic());
}

} // verus!
