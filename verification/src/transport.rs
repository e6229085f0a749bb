//! Low-level ICMsg transport.
//!
//! This provides low-level send and receive primitives and does not include the
//! initial bonding.
//!
//! A region is held as a value, [`SharedMemoryRegion`], and handed to each
//! operation; the two halves of an endpoint keep only what is local to it. Each
//! half also says, from plain numbers, where a frame goes and where a payload
//! lies, for a caller that moves the bytes itself.

use core::sync::atomic::Ordering;
use vstd::prelude::*;

use crate::ring::{
    advance, frame, frame_len, free, free_space, header_len, lemma_padded_fits, lemma_padded_len,
    lemma_queued_pop, lemma_queued_push, lemma_ring_at_mod, lemma_ring_at_twice, offset_from,
    overwrite, pad, padded_len, payload_at, queued, ring_at, ring_read, ring_write, valid_index,
    valid_len,
};
use crate::transport::integer::{BeU16, LeAtomicU32};

pub mod integer;

verus! {

#[derive(Debug, Copy, Clone, PartialEq, Eq, PartialOrd, Ord, Hash, Structural)]
pub enum SendError {
    /// There was not enough space in the buffer to send the message.
    InsufficientCapacity,
}

#[derive(Debug, Copy, Clone, PartialEq, Eq, PartialOrd, Ord, Hash, Structural)]
pub enum RecvError {
    /// The message was bigger than the provided buffer.
    MessageTooBig,
    /// There were no messages to receive.
    Empty,
    /// An invalid message was received: a packet with a length greater than the
    /// ring. This is a fatal error.
    InvalidMessage,
}

/// The capability to poke the other end.
pub trait Notifier {
    fn notify(&mut self);
}

/// The four bytes in front of each payload.
#[derive(Clone, Copy)]
pub struct PacketHeader {
    pub len: BeU16,
    pub _reserved: [u8; 2],
}

impl PacketHeader {
    /// The header as it lies in the ring.
    pub open spec fn wire(&self) -> Seq<u8> {
        self.len.bytes@ + self._reserved@
    }

    /// The header of a payload of `len` bytes; the reserved bytes are zero.
    pub fn new(len: u16) -> (header: Self)
        ensures
            header.len@ == len,
            header.wire() == seq![(len / 256) as u8, (len % 256) as u8, 0u8, 0u8],
    {
        let header = Self { len: len.into(), _reserved: [0; 2] };
        assert(header.wire() =~= seq![(len / 256) as u8, (len % 256) as u8, 0u8, 0u8]);
        header
    }

    /// The header as four bytes.
    pub fn to_bytes(&self) -> (bytes: [u8; 4])
        ensures
            bytes@ == self.wire(),
    {
        let bytes: [u8; 4] = [
            self.len.bytes[0],
            self.len.bytes[1],
            self._reserved[0],
            self._reserved[1],
        ];
        assert(bytes@ =~= self.wire());
        bytes
    }

    /// The header that four bytes of the ring spell.
    pub fn from_bytes(bytes: [u8; 4]) -> (header: Self)
        ensures
            header.wire() == bytes@,
            header.len@ == bytes[0] * 256 + bytes[1],
    {
        let header = Self {
            len: BeU16 { bytes: [bytes[0], bytes[1]] },
            _reserved: [bytes[2], bytes[3]],
        };
        assert(header.wire() =~= bytes@);
        header
    }
}

/// One index word of a region's header, which takes `ALIGN` bytes of the region.
pub struct Index<const ALIGN: usize> {
    pub value: LeAtomicU32,
}

/// The two index words in front of a region's ring.
pub struct SharedMemoryRegionHeader<const ALIGN: usize> {
    pub rd_idx: Index<ALIGN>,
    pub wr_idx: Index<ALIGN>,
}

impl<const ALIGN: usize> SharedMemoryRegionHeader<ALIGN> {
    /// Whether `mem` can be the header's bytes in memory: `rd_idx` in front,
    /// `wr_idx` after `ALIGN` bytes, each least significant byte first. The
    /// bytes between and behind them are free.
    pub open spec fn lies_in(&self, mem: Seq<u8>) -> bool {
        &&& mem.len() == 2 * ALIGN
        &&& mem.subrange(0, 4) == self.rd_idx.value.bytes@
        &&& mem.subrange(ALIGN as int, ALIGN + 4) == self.wr_idx.value.bytes@
    }

    /// Where `rd_idx` stands in the header.
    pub fn rd_idx_offset() -> (offset: usize)
        ensures
            offset == 0,
    {
        0
    }

    /// Where `wr_idx` stands in the header.
    pub fn wr_idx_offset() -> (offset: usize)
        ensures
            offset == ALIGN,
    {
        ALIGN
    }

    /// The header's size, which is where the ring begins in its region.
    pub fn size() -> (size: usize)
        requires
            2 * ALIGN <= usize::MAX,
        ensures
            size == 2 * ALIGN,
    {
        2 * ALIGN
    }

    /// The header as bytes, with zero between and behind the two words.
    pub fn to_bytes(&self) -> (mem: Vec<u8>)
        requires
            4 <= ALIGN,
            2 * ALIGN <= usize::MAX,
        ensures
            self.lies_in(mem@),
            forall|i: int|
                4 <= i < ALIGN || ALIGN + 4 <= i < 2 * ALIGN ==> #[trigger] mem@[i] == 0u8,
    {
        let mut mem: Vec<u8> = Vec::new();
        let mut i: usize = 0;
        while i < 2 * ALIGN
            invariant
                4 <= ALIGN,
                2 * ALIGN <= usize::MAX,
                i <= 2 * ALIGN,
                mem@.len() == i,
                forall|k: int|
                    0 <= k < i ==> #[trigger] mem@[k] == if k < 4 {
                        self.rd_idx.value.bytes@[k]
                    } else if ALIGN <= k < ALIGN + 4 {
                        self.wr_idx.value.bytes@[k - ALIGN]
                    } else {
                        0u8
                    },
            decreases 2 * ALIGN - i,
        {
            let byte: u8 = if i < 4 {
                self.rd_idx.value.bytes[i]
            } else if ALIGN <= i && i - ALIGN < 4 {
                self.wr_idx.value.bytes[i - ALIGN]
            } else {
                0
            };
            mem.push(byte);
            i += 1;
        }
        assert(mem@.subrange(0, 4) =~= self.rd_idx.value.bytes@);
        assert(mem@.subrange(ALIGN as int, ALIGN + 4) =~= self.wr_idx.value.bytes@);
        mem
    }
}

/// A region: the header and the ring behind it.
pub struct SharedMemoryRegion<const ALIGN: usize> {
    pub header: SharedMemoryRegionHeader<ALIGN>,
    pub data: Vec<u8>,
}

impl<const ALIGN: usize> SharedMemoryRegion<ALIGN> {
    /// The reader's index as the region holds it.
    pub open spec fn rd_idx(&self) -> u32 {
        self.header.rd_idx.value@
    }

    /// The writer's index as the region holds it.
    pub open spec fn wr_idx(&self) -> u32 {
        self.header.wr_idx.value@
    }

    /// The messages written and not yet read, oldest first; `None` where the
    /// region's indices and bytes are not those of a ring in order.
    pub open spec fn queue(&self) -> Option<Seq<Seq<u8>>> {
        queued(self.data@, self.rd_idx() as int, self.wr_idx() as int)
    }

    /// Whether `mem` can be the region's bytes in memory: the header, then the
    /// ring.
    pub open spec fn lies_in(&self, mem: Seq<u8>) -> bool {
        &&& mem.len() == 2 * ALIGN + self.data@.len()
        &&& self.header.lies_in(mem.subrange(0, 2 * ALIGN))
        &&& mem.subrange(2 * ALIGN, mem.len() as int) == self.data@
    }

    /// Reads the reader's index, before anything that depends on it.
    pub fn acquire_rd_idx(&self) -> (idx: u32)
        ensures
            idx == self.rd_idx(),
    {
        self.header.rd_idx.value.load(Ordering::Acquire)
    }

    /// Reads the writer's index, before any byte that it covers is read.
    pub fn acquire_wr_idx(&self) -> (idx: u32)
        ensures
            idx == self.wr_idx(),
    {
        self.header.wr_idx.value.load(Ordering::Acquire)
    }

    /// Publishes the reader's index, after the bytes in front of it were read.
    pub fn release_rd_idx(&mut self, idx: u32)
        ensures
            final(self).rd_idx() == idx,
            final(self).wr_idx() == old(self).wr_idx(),
            final(self).data == old(self).data,
    {
        self.header.rd_idx.value.store(idx, Ordering::Release);
    }

    /// Publishes the writer's index, after the bytes in front of it were
    /// written.
    pub fn release_wr_idx(&mut self, idx: u32)
        ensures
            final(self).wr_idx() == idx,
            final(self).rd_idx() == old(self).rd_idx(),
            final(self).data == old(self).data,
    {
        self.header.wr_idx.value.store(idx, Ordering::Release);
    }

    /// Sets both indices to zero.
    pub fn reset(&mut self)
        ensures
            final(self).rd_idx() == 0,
            final(self).wr_idx() == 0,
            final(self).data == old(self).data,
    {
        self.header.wr_idx.value.store(0, Ordering::Relaxed);
        self.header.rd_idx.value.store(0, Ordering::Relaxed);
    }

    /// A region whose ring has `buffer_len` bytes, all of it zero.
    pub fn new(buffer_len: u32) -> (region: Self)
        ensures
            region.rd_idx() == 0,
            region.wr_idx() == 0,
            region.data@ == Seq::new(buffer_len as nat, |i: int| 0u8),
    {
        let mut data: Vec<u8> = Vec::new();
        let mut i: u32 = 0;
        while i < buffer_len
            invariant
                i <= buffer_len,
                data@ == Seq::new(i as nat, |k: int| 0u8),
            decreases buffer_len - i,
        {
            data.push(0);
            i += 1;
            assert(data@ =~= Seq::new(i as nat, |k: int| 0u8));
        }
        SharedMemoryRegion {
            header: SharedMemoryRegionHeader {
                rd_idx: Index { value: LeAtomicU32 { bytes: [0; 4] } },
                wr_idx: Index { value: LeAtomicU32 { bytes: [0; 4] } },
            },
            data,
        }
    }
}

/// Copies `count` bytes of `src`, from `from` on, into `data` at `at`.
fn copy_in(data: &mut Vec<u8>, at: usize, src: &[u8], from: usize, count: usize)
    requires
        at + count <= old(data).len(),
        from + count <= src.len(),
    ensures
        final(data)@ == overwrite(old(data)@, at as int, src@.subrange(from as int, from + count)),
{
    let mut k: usize = 0;
    while k < count
        invariant
            k <= count,
            at + count <= data.len(),
            from + count <= src.len(),
            data@.len() == old(data)@.len(),
            forall|i: int|
                0 <= i < data@.len() ==> #[trigger] data@[i] == if at <= i < at + k {
                    src@[i - at + from]
                } else {
                    old(data)@[i]
                },
        decreases count - k,
    {
        data[at + k] = src[from + k];
        k += 1;
    }
    assert(data@ =~= overwrite(old(data)@, at as int, src@.subrange(from as int, from + count)));
}

/// Writes `count` zero bytes into `data` at `at`.
fn fill_zero(data: &mut Vec<u8>, at: usize, count: usize)
    requires
        at + count <= old(data).len(),
    ensures
        final(data)@ == overwrite(old(data)@, at as int, Seq::new(count as nat, |i: int| 0u8)),
{
    let mut k: usize = 0;
    while k < count
        invariant
            k <= count,
            at + count <= data.len(),
            data@.len() == old(data)@.len(),
            forall|i: int|
                0 <= i < data@.len() ==> #[trigger] data@[i] == if at <= i < at + k {
                    0u8
                } else {
                    old(data)@[i]
                },
        decreases count - k,
    {
        data[at + k] = 0;
        k += 1;
    }
    assert(data@ =~= overwrite(old(data)@, at as int, Seq::new(count as nat, |i: int| 0u8)));
}

/// Copies `count` bytes of `data`, from `at` on, into `out` at `to`.
fn copy_out(data: &Vec<u8>, at: usize, out: &mut [u8], to: usize, count: usize)
    requires
        at + count <= data.len(),
        to + count <= old(out).len(),
    ensures
        final(out)@ == overwrite(old(out)@, to as int, data@.subrange(at as int, at + count)),
{
    let mut k: usize = 0;
    while k < count
        invariant
            k <= count,
            at + count <= data.len(),
            to + count <= out.len(),
            out@.len() == old(out)@.len(),
            forall|i: int|
                0 <= i < out@.len() ==> #[trigger] out@[i] == if to <= i < to + k {
                    data@[i - to + at]
                } else {
                    old(out)@[i]
                },
        decreases count - k,
    {
        out[to + k] = data[at + k];
        k += 1;
    }
    assert(out@ =~= overwrite(old(out)@, to as int, data@.subrange(at as int, at + count)));
}

/// Where the frame of one message goes in a ring, and the index that the writer
/// publishes once the bytes are there.
pub struct WritePlan {
    /// Where the header's four bytes go.
    pub header_at: u32,
    /// The payload's length, which the header announces.
    pub len: u16,
    /// Where the payload begins.
    pub payload_at: u32,
    /// How many payload bytes go there, up to the ring's end.
    pub head_len: u32,
    /// How many payload bytes follow at the ring's start.
    pub tail_len: u32,
    /// Where the zero bytes behind the payload begin.
    pub padding_at: u32,
    /// How many zero bytes there are.
    pub padding_len: u32,
    /// The writer's index behind the frame.
    pub wr_idx: u32,
}

/// The plan for a message of `len` bytes that a writer at `wr` puts into a ring
/// of `n` bytes.
pub open spec fn write_plan(wr: u32, n: u32, len: u16) -> WritePlan {
    let payload_at = ring_at(wr as int, 4, n as int);
    let head_len = if len <= n - payload_at {
        len as int
    } else {
        n - payload_at
    };
    WritePlan {
        header_at: wr,
        len,
        payload_at: payload_at as u32,
        head_len: head_len as u32,
        tail_len: (len - head_len) as u32,
        padding_at: ring_at(payload_at, len as int, n as int) as u32,
        padding_len: (padded_len(len as int) - len) as u32,
        wr_idx: ring_at(wr as int, frame_len(len as int), n as int) as u32,
    }
}

impl WritePlan {
    /// The ring after the four copies that the plan stands for: the header,
    /// the payload's first part, the payload's second part at the ring's
    /// start, and the zero bytes behind the payload.
    pub open spec fn written(&self, data: Seq<u8>, msg: Seq<u8>) -> Seq<u8> {
        let header = seq![(self.len / 256) as u8, (self.len % 256) as u8, 0u8, 0u8];
        let head = msg.subrange(0, self.head_len as int);
        let tail = msg.subrange(self.head_len as int, self.head_len + self.tail_len);
        let padding = Seq::new(self.padding_len as nat, |i: int| 0u8);
        let with_header = overwrite(data, self.header_at as int, header);
        let with_head = overwrite(with_header, self.payload_at as int, head);
        let with_tail = overwrite(with_head, 0, tail);
        overwrite(with_tail, self.padding_at as int, padding)
    }
}

/// The four copies of a plan put the frame into the ring: they write what one
/// write that wraps at the ring's end would.
pub proof fn lemma_write_plan_puts_frame(data: Seq<u8>, wr: u32, msg: Seq<u8>)
    requires
        data.len() <= u32::MAX,
        valid_len(data.len() as int),
        valid_index(wr as int, data.len() as int),
        msg.len() <= 65535,
        frame_len(msg.len() as int) < data.len(),
    ensures
        write_plan(wr, data.len() as u32, msg.len() as u16).written(data, msg) == ring_write(
            data,
            wr as int,
            frame(msg),
        ),
{
    let n = data.len() as int;
    let len = msg.len() as int;
    let plan = write_plan(wr, data.len() as u32, msg.len() as u16);
    let header = seq![(plan.len / 256) as u8, (plan.len % 256) as u8, 0u8, 0u8];
    let head = msg.subrange(0, plan.head_len as int);
    let tail = msg.subrange(plan.head_len as int, plan.head_len + plan.tail_len);
    let padding = Seq::new(plan.padding_len as nat, |i: int| 0u8);
    let d1 = overwrite(data, plan.header_at as int, header);
    let d2 = overwrite(d1, plan.payload_at as int, head);
    let d3 = overwrite(d2, 0, tail);
    let d4 = overwrite(d3, plan.padding_at as int, padding);
    let written = ring_write(data, wr as int, frame(msg));
    lemma_padded_len(len);
    assert forall|i: int| 0 <= i < n implies d4[i] == written[i] by {
        let k = offset_from(wr as int, i, n);
        if k < 4 {
            assert(i == wr + k);
            assert(d1[i] == header[k]);
            assert(frame(msg)[k] == header[k]);
        } else if k < 4 + len {
            assert(frame(msg)[k] == msg[k - 4]);
            if k - 4 < plan.head_len {
                assert(i == plan.payload_at + (k - 4));
                assert(d2[i] == head[k - 4]);
            } else {
                assert(i == k - 4 - plan.head_len);
                assert(d3[i] == tail[i]);
            }
        } else if k < frame_len(len) {
            assert(frame(msg)[k] == 0u8);
            assert(i == plan.padding_at + (k - 4 - len));
            assert(d4[i] == padding[k - 4 - len]);
        } else {
            assert(d1[i] == data[i]);
            assert(d2[i] == d1[i]);
            assert(d3[i] == d2[i]);
        }
    }
    assert(d4 =~= written);
}

/// Puts the frame of `msg` into the ring as `plan` says.
fn write_frame(data: &mut Vec<u8>, plan: &WritePlan, msg: &[u8])
    requires
        old(data).len() <= u32::MAX,
        valid_len(old(data).len() as int),
        valid_index(plan.header_at as int, old(data).len() as int),
        msg.len() <= 65535,
        frame_len(msg.len() as int) < old(data).len(),
        *plan == write_plan(plan.header_at, old(data).len() as u32, msg.len() as u16),
    ensures
        final(data)@ == plan.written(old(data)@, msg@),
        final(data)@ == ring_write(old(data)@, plan.header_at as int, frame(msg@)),
{
    let header: [u8; 4] = PacketHeader::new(plan.len).to_bytes();
    proof {
        lemma_padded_len(msg.len() as int);
        lemma_write_plan_puts_frame(old(data)@, plan.header_at, msg@);
        assert(header@.subrange(0, 4) =~= header@);
    }
    copy_in(data, plan.header_at as usize, header.as_slice(), 0, 4);
    copy_in(data, plan.payload_at as usize, msg, 0, plan.head_len as usize);
    copy_in(data, 0, msg, plan.head_len as usize, plan.tail_len as usize);
    fill_zero(data, plan.padding_at as usize, plan.padding_len as usize);
}

/// Computes `write_plan`, for a frame that fits into the ring.
fn plan_write(wr: u32, n: u32, len: u16) -> (plan: WritePlan)
    requires
        valid_len(n as int),
        valid_index(wr as int, n as int),
        frame_len(len as int) < n,
    ensures
        plan == write_plan(wr, n, len),
        plan.wr_idx == (wr + frame_len(len as int)) % (n as int),
        valid_index(plan.wr_idx as int, n as int),
{
    let padded: u32 = pad(len);
    let len32: u32 = len as u32;
    let payload_at: u32 = advance(wr, 4, n);
    let head_len: u32 = if len32 <= n - payload_at {
        len32
    } else {
        n - payload_at
    };
    proof {
        lemma_ring_at_mod(wr as int, padded + 4, n as int);
    }
    WritePlan {
        header_at: wr,
        len,
        payload_at,
        head_len,
        tail_len: len32 - head_len,
        padding_at: advance(payload_at, len32, n),
        padding_len: padded - len32,
        wr_idx: advance(wr, padded + 4, n),
    }
}

/// The length of a ring and an index into it, as one side keeps them.
struct Cursor {
    // size of the data field, not including the header. must be a multiple of 4
    len: u32,
    // local copy to prevent the other side from interfering
    idx: u32,
}

impl Cursor {
    #[verifier::type_invariant]
    spec fn inv(self) -> bool {
        &&& valid_len(self.len as int)
        &&& valid_index(self.idx as int, self.len as int)
    }
}

/// The sending half of the low-level ICMsg transport.
pub struct Sender<M, const ALIGN: usize> where M: Notifier {
    cursor: Cursor,
    mbox: M,
    // raised with each call of `mbox`
    fired: Ghost<nat>,
}

impl<M, const ALIGN: usize> Sender<M, ALIGN> where M: Notifier {
    /// The length of the ring that this half writes.
    pub closed spec fn buffer_len(&self) -> u32 {
        self.cursor.len
    }

    /// The writer's index as this half remembers it.
    pub closed spec fn wr_idx(&self) -> u32 {
        self.cursor.idx
    }

    /// The notifier.
    pub closed spec fn mbox(&self) -> M {
        self.mbox
    }

    /// A count that this half keeps beside its notifier. It is raised by one
    /// wherever a function of this half calls the notifier; that the call is
    /// made is what the function's own contract says of the notifier before
    /// and after.
    pub closed spec fn notifications(&self) -> nat {
        self.fired@
    }

    /// Whether `region` is the region of this half, with the index that this
    /// half published last.
    pub open spec fn in_step(&self, region: &SharedMemoryRegion<ALIGN>) -> bool {
        &&& region.data@.len() == self.buffer_len()
        &&& region.wr_idx() == self.wr_idx()
    }

    /// What sending `msg` makes of this half and of `region`, and what it
    /// returns.
    ///
    /// It succeeds exactly if the frame fits into the free bytes, counted from
    /// the reader's index as the region holds it and the writer's index as this
    /// half remembers it. Then the frame lies in the ring from the writer's
    /// index on, the index behind it is published and remembered, and the
    /// count of notifications is one more. Else nothing changes. In a region
    /// in step with this half whose ring is in order, a success adds `msg` at
    /// the end of the queue. The index that this half remembers is a multiple
    /// of four within the ring before and after.
    ///
    /// What becomes of the notifier is not said here but in the contract of
    /// `send` itself.
    pub open spec fn sent(
        &self,
        after: &Self,
        region: &SharedMemoryRegion<ALIGN>,
        region_after: &SharedMemoryRegion<ALIGN>,
        msg: Seq<u8>,
        r: Result<(), SendError>,
    ) -> bool {
        let n = self.buffer_len() as int;
        let wr = self.wr_idx() as int;
        let f = frame_len(msg.len() as int);
        &&& after.buffer_len() == self.buffer_len()
        &&& valid_len(n)
        &&& valid_index(wr, n)
        &&& valid_index(after.wr_idx() as int, n)
        &&& region_after.rd_idx() == region.rd_idx()
        &&& r is Ok <==> f <= free_space(region.rd_idx() as int, wr, n)
        &&& r is Err ==> {
            &&& r == Err::<(), SendError>(SendError::InsufficientCapacity)
            &&& after.wr_idx() == self.wr_idx()
            &&& after.mbox() == self.mbox()
            &&& after.notifications() == self.notifications()
            &&& region_after.wr_idx() == region.wr_idx()
            &&& region_after.data@ == region.data@
        }
        &&& r is Ok ==> {
            &&& region_after.data@ == ring_write(region.data@, wr, frame(msg))
            &&& region_after.wr_idx() == (wr + f) % n
            &&& after.wr_idx() == region_after.wr_idx()
            &&& after.notifications() == self.notifications() + 1
        }
        &&& r is Ok && self.in_step(region) && region.queue() is Some ==> region_after.queue()
            == Some(region.queue().unwrap().push(msg))
    }

    /// The sending half for a ring of `send_buffer_len` bytes, with the writer's
    /// index at zero.
    pub fn new(send_buffer_len: u32, mbox: M) -> (sender: Self)
        requires
            valid_len(send_buffer_len as int),
        ensures
            sender.buffer_len() == send_buffer_len,
            sender.wr_idx() == 0,
            sender.mbox() == mbox,
            sender.notifications() == 0,
    {
        Sender { cursor: Cursor { len: send_buffer_len, idx: 0 }, mbox, fired: Ghost(0) }
    }

    /// The length of the ring that this half writes.
    pub fn send_buffer_len(&self) -> (len: u32)
        ensures
            len == self.buffer_len(),
            valid_len(len as int),
    {
        proof {
            use_type_invariant(&self.cursor);
        }
        self.cursor.len
    }

    /// The writer's index as this half remembers it.
    pub fn send_wr_idx(&self) -> (idx: u32)
        ensures
            idx == self.wr_idx(),
            valid_index(idx as int, self.buffer_len() as int),
    {
        proof {
            use_type_invariant(&self.cursor);
        }
        self.cursor.idx
    }

    /// Decides whether a message of `len` bytes fits while the reader's index
    /// holds `rd_idx`, whatever that is. If it fits, moves the writer's index
    /// behind the frame and says where the frame goes.
    pub fn reserve(&mut self, rd_idx: u32, len: u16) -> (r: Result<WritePlan, SendError>)
        ensures
            final(self).buffer_len() == old(self).buffer_len(),
            final(self).mbox() == old(self).mbox(),
            final(self).notifications() == old(self).notifications(),
            valid_len(old(self).buffer_len() as int),
            valid_index(old(self).wr_idx() as int, old(self).buffer_len() as int),
            valid_index(final(self).wr_idx() as int, old(self).buffer_len() as int),
            r is Ok <==> frame_len(len as int) <= free_space(
                rd_idx as int,
                old(self).wr_idx() as int,
                old(self).buffer_len() as int,
            ),
            r is Err ==> r == Err::<WritePlan, SendError>(SendError::InsufficientCapacity)
                && final(self).wr_idx() == old(self).wr_idx(),
            r is Ok ==> r.unwrap() == write_plan(old(self).wr_idx(), old(self).buffer_len(), len)
                && frame_len(len as int) < old(self).buffer_len()
                && final(self).wr_idx() == r.unwrap().wr_idx
                && final(self).wr_idx() == (old(self).wr_idx() + frame_len(len as int))
                % (old(self).buffer_len() as int),
    {
        proof {
            use_type_invariant(&self.cursor);
        }
        let n: u32 = self.cursor.len;
        let wr: u32 = self.cursor.idx;
        let needed: u32 = pad(len) + 4;
        if free(rd_idx, wr, n) < needed {
            return Err(SendError::InsufficientCapacity);
        }
        let plan = plan_write(wr, n, len);
        self.cursor.idx = plan.wr_idx;
        Ok(plan)
    }

    /// Send a message.
    ///
    /// Writes the frame of `msg` at the writer's index and publishes the index
    /// behind it, then notifies the other end; or, if the frame does not fit
    /// into the free bytes of the ring, changes nothing. With a success the
    /// notifier was called once: the one that this half holds afterwards is
    /// what one call makes of the one that it held before.
    pub fn send(&mut self, region: &mut SharedMemoryRegion<ALIGN>, msg: &[u8]) -> (r: Result<
        (),
        SendError,
    >)
        requires
            msg@.len() <= 65535,
            old(region).data@.len() == old(self).buffer_len(),
        ensures
            old(self).sent(final(self), old(region), final(region), msg@, r),
            r is Ok ==> exists|m: &mut M|
                mut_ref_current(m) == old(self).mbox() && mut_ref_future(m) == final(self).mbox()
                    && #[trigger] call_ensures(M::notify, (m,), ()),
    {
        let rd_idx: u32 = region.acquire_rd_idx();
        let plan = match self.reserve(rd_idx, msg.len() as u16) {
            Ok(plan) => plan,
            Err(e) => {
                return Err(e);
            },
        };
        write_frame(&mut region.data, &plan, msg);
        region.release_wr_idx(plan.wr_idx);
        self.notify();
        proof {
            if old(self).in_step(old(region)) && old(region).queue() is Some {
                lemma_queued_push(
                    old(region).data@,
                    old(region).rd_idx() as int,
                    old(region).wr_idx() as int,
                    msg@,
                );
            }
        }
        Ok(())
    }

    /// Notify the other end.
    ///
    /// Calls the notifier once: the notifier that this half holds afterwards is
    /// what one call makes of the one that it held before. Nothing else of
    /// this half changes, but for the count of the calls.
    pub fn notify(&mut self)
        ensures
            final(self).buffer_len() == old(self).buffer_len(),
            final(self).wr_idx() == old(self).wr_idx(),
            final(self).notifications() == old(self).notifications() + 1,
            exists|m: &mut M|
                mut_ref_current(m) == old(self).mbox() && mut_ref_future(m) == final(self).mbox()
                    && #[trigger] call_ensures(M::notify, (m,), ()),
    {
        self.mbox.notify();
        self.fired = Ghost(self.fired@ + 1);
    }
}

/// Where the payload of the oldest frame lies in a ring, and the index that the
/// reader publishes once the bytes are out.
pub struct ReadPlan {
    /// The payload's length.
    pub len: u16,
    /// Where the payload begins.
    pub payload_at: u32,
    /// How many payload bytes lie there, up to the ring's end.
    pub head_len: u32,
    /// How many payload bytes follow at the ring's start.
    pub tail_len: u32,
    /// The reader's index behind the frame.
    pub rd_idx: u32,
}

/// The plan for a payload of `len` bytes that a reader at `rd` takes out of a
/// ring of `n` bytes.
pub open spec fn read_plan(rd: u32, n: u32, len: u16) -> ReadPlan {
    let payload_at = ring_at(rd as int, 4, n as int);
    let head_len = if len <= n - payload_at {
        len as int
    } else {
        n - payload_at
    };
    ReadPlan {
        len,
        payload_at: payload_at as u32,
        head_len: head_len as u32,
        tail_len: (len - head_len) as u32,
        rd_idx: ring_at(payload_at, padded_len(len as int), n as int) as u32,
    }
}

/// Computes `read_plan`, for a payload that is no longer than the ring.
fn plan_read(rd: u32, n: u32, len: u16) -> (plan: ReadPlan)
    requires
        valid_len(n as int),
        valid_index(rd as int, n as int),
        len <= n,
    ensures
        plan == read_plan(rd, n, len),
        valid_index(plan.rd_idx as int, n as int),
{
    let padded: u32 = pad(len);
    let len32: u32 = len as u32;
    let payload_at: u32 = advance(rd, 4, n);
    let head_len: u32 = if len32 <= n - payload_at {
        len32
    } else {
        n - payload_at
    };
    proof {
        lemma_padded_fits(len as int, n as int);
    }
    ReadPlan {
        len,
        payload_at,
        head_len,
        tail_len: len32 - head_len,
        rd_idx: advance(payload_at, padded, n),
    }
}

/// The index that a plan to read gives the reader is the index behind the
/// frame, modulo the ring's length.
pub proof fn lemma_read_plan_wraps(rd: u32, n: u32, len: u16)
    requires
        valid_len(n as int),
        valid_index(rd as int, n as int),
        len <= n,
    ensures
        read_plan(rd, n, len).rd_idx == (rd + frame_len(len as int)) % (n as int),
{
    lemma_padded_fits(len as int, n as int);
    lemma_ring_at_twice(rd as int, 4, padded_len(len as int), n as int);
}

/// Reads the header that stands at `at`.
fn read_header(data: &Vec<u8>, at: u32) -> (header: PacketHeader)
    requires
        valid_len(data.len() as int),
        valid_index(at as int, data.len() as int),
    ensures
        header.len@ == header_len(data@, at as int),
        header.wire() == data@.subrange(at as int, at + 4),
{
    let at: usize = at as usize;
    let header = PacketHeader::from_bytes([data[at], data[at + 1], data[at + 2], data[at + 3]]);
    assert(header.wire() =~= data@.subrange(at as int, at + 4));
    header
}

impl ReadPlan {
    /// The payload as the two copies that the plan stands for take it out of
    /// the ring: its first part, and its second part from the ring's start.
    pub open spec fn taken(&self, data: Seq<u8>) -> Seq<u8> {
        data.subrange(self.payload_at as int, self.payload_at + self.head_len) + data.subrange(
            0,
            self.tail_len as int,
        )
    }
}

/// The two copies of a plan take the payload out of the ring: they read what
/// one read that wraps at the ring's end would.
pub proof fn lemma_read_plan_takes_payload(data: Seq<u8>, rd: u32, len: u16)
    requires
        data.len() <= u32::MAX,
        valid_len(data.len() as int),
        valid_index(rd as int, data.len() as int),
        len <= data.len(),
    ensures
        read_plan(rd, data.len() as u32, len).taken(data) == ring_read(
            data,
            ring_at(rd as int, 4, data.len() as int),
            len as int,
        ),
        header_len(data, rd as int) == len ==> read_plan(rd, data.len() as u32, len).taken(data)
            == payload_at(data, rd as int),
{
    let n = data.len() as int;
    let plan = read_plan(rd, data.len() as u32, len);
    let start = ring_at(rd as int, 4, n);
    let read = ring_read(data, start, len as int);
    assert forall|k: int| 0 <= k < len implies plan.taken(data)[k] == read[k] by {
        if k < plan.head_len {
            assert(ring_at(start, k, n) == plan.payload_at + k);
        } else {
            assert(ring_at(start, k, n) == k - plan.head_len);
        }
    }
    assert(plan.taken(data) =~= read);
}

/// Copies the payload that `plan` describes to the front of `out`.
fn read_payload(data: &Vec<u8>, plan: &ReadPlan, out: &mut [u8])
    requires
        data.len() <= u32::MAX,
        plan.len <= old(out).len(),
        plan.payload_at + plan.head_len <= data.len(),
        plan.tail_len <= data.len(),
        plan.len == plan.head_len + plan.tail_len,
    ensures
        final(out)@ == plan.taken(data@) + old(out)@.subrange(
            plan.len as int,
            old(out)@.len() as int,
        ),
        final(out)@.subrange(0, plan.len as int) == plan.taken(data@),
{
    copy_out(data, plan.payload_at as usize, out, 0, plan.head_len as usize);
    copy_out(data, 0, out, plan.head_len as usize, plan.tail_len as usize);
    assert(out@ =~= plan.taken(data@) + old(out)@.subrange(
        plan.len as int,
        old(out)@.len() as int,
    ));
    assert(out@.subrange(0, plan.len as int) =~= plan.taken(data@));
}

/// The receiving half of the low-level ICMsg transport.
pub struct Receiver<const ALIGN: usize> {
    cursor: Cursor,
}

impl<const ALIGN: usize> Receiver<ALIGN> {
    /// The length of the ring that this half reads.
    pub closed spec fn buffer_len(&self) -> u32 {
        self.cursor.len
    }

    /// The reader's index as this half remembers it.
    pub closed spec fn rd_idx(&self) -> u32 {
        self.cursor.idx
    }

    /// Whether `region` is the region of this half, with the index that this
    /// half published last.
    pub open spec fn in_step(&self, region: &SharedMemoryRegion<ALIGN>) -> bool {
        &&& region.data@.len() == self.buffer_len()
        &&& region.rd_idx() == self.rd_idx()
    }

    /// What an attempt to receive into `buf` makes of this half, of `region` and
    /// of the buffer, and what it returns.
    ///
    /// The result is `recv_result`, decided from the writer's index as the
    /// region holds it, the reader's index as this half remembers it, and the
    /// header found there. With an error nothing changes. With a success the
    /// payload lies at the front of the buffer, the rest of the buffer is as it
    /// was, and the index behind the frame is published and remembered. In a
    /// region in step with this half whose ring is in order, the ring is found
    /// empty exactly if the queue is, no frame is found invalid, and a success
    /// takes the oldest message off the queue. The index that this half
    /// remembers is a multiple of four within the ring before and after.
    pub open spec fn received(
        &self,
        after: &Self,
        region: &SharedMemoryRegion<ALIGN>,
        region_after: &SharedMemoryRegion<ALIGN>,
        buf: Seq<u8>,
        buf_after: Seq<u8>,
        r: Result<usize, RecvError>,
    ) -> bool {
        let n = self.buffer_len() as int;
        let rd = self.rd_idx() as int;
        &&& after.buffer_len() == self.buffer_len()
        &&& valid_len(n)
        &&& valid_index(rd, n)
        &&& valid_index(after.rd_idx() as int, n)
        &&& region_after.data@ == region.data@
        &&& region_after.wr_idx() == region.wr_idx()
        &&& r == recv_result(region.data@, self.rd_idx(), region.wr_idx(), buf.len())
        &&& r is Err ==> {
            &&& after.rd_idx() == self.rd_idx()
            &&& region_after.rd_idx() == region.rd_idx()
            &&& buf_after == buf
        }
        &&& r is Ok ==> {
            &&& buf_after == payload_at(region.data@, rd) + buf.subrange(
                r.unwrap() as int,
                buf.len() as int,
            )
            &&& after.rd_idx() == (rd + frame_len(r.unwrap() as int)) % n
            &&& region_after.rd_idx() == after.rd_idx()
        }
        &&& self.in_step(region) && region.queue() is Some ==> {
            let queue = region.queue().unwrap();
            &&& r != Err::<usize, RecvError>(RecvError::InvalidMessage)
            &&& r == Err::<usize, RecvError>(RecvError::Empty) <==> queue.len() == 0
            &&& r is Ok ==> buf_after.subrange(0, r.unwrap() as int) == queue[0]
                && region_after.queue() == Some(queue.drop_first())
        }
    }

    /// The receiving half for a ring of `recv_buffer_len` bytes, with the
    /// reader's index at zero.
    pub fn new(recv_buffer_len: u32) -> (receiver: Self)
        requires
            valid_len(recv_buffer_len as int),
        ensures
            receiver.buffer_len() == recv_buffer_len,
            receiver.rd_idx() == 0,
    {
        Receiver { cursor: Cursor { len: recv_buffer_len, idx: 0 } }
    }

    /// The length of the ring that this half reads.
    pub fn recv_buffer_len(&self) -> (len: u32)
        ensures
            len == self.buffer_len(),
            valid_len(len as int),
    {
        proof {
            use_type_invariant(&self.cursor);
        }
        self.cursor.len
    }

    /// The reader's index as this half remembers it.
    pub fn recv_rd_idx(&self) -> (idx: u32)
        ensures
            idx == self.rd_idx(),
            valid_index(idx as int, self.buffer_len() as int),
    {
        proof {
            use_type_invariant(&self.cursor);
        }
        self.cursor.idx
    }

    /// Says where the oldest frame's header stands while the writer's index
    /// holds `wr_idx`, whatever that is; the ring is empty where the two
    /// indices are equal.
    pub fn locate(&self, wr_idx: u32) -> (r: Result<u32, RecvError>)
        ensures
            valid_len(self.buffer_len() as int),
            valid_index(self.rd_idx() as int, self.buffer_len() as int),
            wr_idx == self.rd_idx() ==> r == Err::<u32, RecvError>(RecvError::Empty),
            wr_idx != self.rd_idx() ==> r == Ok::<u32, RecvError>(self.rd_idx()),
    {
        proof {
            use_type_invariant(&self.cursor);
        }
        if wr_idx == self.cursor.idx {
            Err(RecvError::Empty)
        } else {
            Ok(self.cursor.idx)
        }
    }

    /// Decides on the frame whose header was found at the reader's index, for a
    /// buffer of `capacity` bytes. If the payload fits into the buffer and into
    /// the ring, moves the reader's index behind the frame and says where the
    /// payload lies.
    pub fn accept(&mut self, header: PacketHeader, capacity: usize) -> (r: Result<
        ReadPlan,
        RecvError,
    >)
        ensures
            final(self).buffer_len() == old(self).buffer_len(),
            valid_len(old(self).buffer_len() as int),
            valid_index(old(self).rd_idx() as int, old(self).buffer_len() as int),
            valid_index(final(self).rd_idx() as int, old(self).buffer_len() as int),
            header.len@ > capacity ==> r == Err::<ReadPlan, RecvError>(RecvError::MessageTooBig),
            header.len@ <= capacity && header.len@ > old(self).buffer_len() ==> r == Err::<
                ReadPlan,
                RecvError,
            >(RecvError::InvalidMessage),
            header.len@ <= capacity && header.len@ <= old(self).buffer_len() ==> r == Ok::<
                ReadPlan,
                RecvError,
            >(read_plan(old(self).rd_idx(), old(self).buffer_len(), header.len@)),
            r is Err ==> final(self).rd_idx() == old(self).rd_idx(),
            r is Ok ==> final(self).rd_idx() == r.unwrap().rd_idx,
    {
        proof {
            use_type_invariant(&self.cursor);
        }
        let n: u32 = self.cursor.len;
        let rd: u32 = self.cursor.idx;
        let len: u16 = header.len.value();
        if len as usize > capacity {
            return Err(RecvError::MessageTooBig);
        }
        if len as u32 > n {
            return Err(RecvError::InvalidMessage);
        }
        let plan = plan_read(rd, n, len);
        self.cursor.idx = plan.rd_idx;
        Ok(plan)
    }

    /// Receive a message. On success, returns the size of the message.
    ///
    /// Takes the oldest frame out of the ring: copies its payload to the front
    /// of `msg` and publishes the index behind it. With an error nothing
    /// changes, and the frame stays where it is.
    pub fn try_recv(&mut self, region: &mut SharedMemoryRegion<ALIGN>, msg: &mut [u8]) -> (r:
        Result<usize, RecvError>)
        requires
            old(region).data@.len() == old(self).buffer_len(),
        ensures
            old(self).received(final(self), old(region), final(region), old(msg)@, final(msg)@, r),
    {
        proof {
            if old(self).in_step(old(region)) && old(region).queue() is Some {
                lemma_recv_in_order(
                    old(region).data@,
                    old(region).rd_idx(),
                    old(region).wr_idx(),
                    old(msg)@.len(),
                );
            }
        }
        let wr_idx: u32 = region.acquire_wr_idx();
        let at: u32 = match self.locate(wr_idx) {
            Ok(at) => at,
            Err(e) => {
                return Err(e);
            },
        };
        let header = read_header(&region.data, at);
        let plan = match self.accept(header, msg.len()) {
            Ok(plan) => plan,
            Err(e) => {
                return Err(e);
            },
        };
        proof {
            lemma_read_plan_takes_payload(old(region).data@, old(self).rd_idx(), plan.len);
            lemma_read_plan_wraps(old(self).rd_idx(), old(self).buffer_len(), plan.len);
        }
        read_payload(&region.data, &plan, msg);
        region.release_rd_idx(plan.rd_idx);
        Ok(plan.len as usize)
    }
}

/// From a ring in order an attempt to receive finds no frame invalid, finds
/// the ring empty exactly if the queue is, and where it succeeds, takes the
/// oldest message off the queue.
pub proof fn lemma_recv_in_order(data: Seq<u8>, rd: u32, wr: u32, capacity: nat)
    requires
        queued(data, rd as int, wr as int) is Some,
    ensures
        ({
            let queue = queued(data, rd as int, wr as int).unwrap();
            let r = recv_result(data, rd, wr, capacity);
            &&& r != Err::<usize, RecvError>(RecvError::InvalidMessage)
            &&& r == Err::<usize, RecvError>(RecvError::Empty) <==> queue.len() == 0
            &&& r != Err::<usize, RecvError>(RecvError::Empty) ==> (r is Ok <==> queue[0].len()
                <= capacity)
            &&& r is Ok ==> {
                &&& r.unwrap() == queue[0].len()
                &&& payload_at(data, rd as int) == queue[0]
                &&& queued(
                    data,
                    (rd + frame_len(r.unwrap() as int)) % (data.len() as int),
                    wr as int,
                ) == Some(queue.drop_first())
            }
        }),
{
    lemma_queued_pop(data, rd as int, wr as int);
    if rd != wr {
        lemma_padded_len(header_len(data, rd as int));
    }
}

/// What an attempt to receive returns, from a ring holding `data` whose reader
/// stands at `rd` while the writer's index holds `wr`, into a buffer of
/// `capacity` bytes.
pub open spec fn recv_result(data: Seq<u8>, rd: u32, wr: u32, capacity: nat) -> Result<
    usize,
    RecvError,
> {
    let len = header_len(data, rd as int);
    if wr == rd {
        Err(RecvError::Empty)
    } else if len > capacity {
        Err(RecvError::MessageTooBig)
    } else if len > data.len() {
        Err(RecvError::InvalidMessage)
    } else {
        Ok(len as usize)
    }
}

/// The low-level ICMsg transport.
pub struct IcMsgTransport<M, const ALIGN: usize> where M: Notifier {
    sender: Sender<M, ALIGN>,
    receiver: Receiver<ALIGN>,
}

impl<M, const ALIGN: usize> IcMsgTransport<M, ALIGN> where M: Notifier {
    /// The sending half.
    pub closed spec fn sender(&self) -> Sender<M, ALIGN> {
        self.sender
    }

    /// The receiving half.
    pub closed spec fn receiver(&self) -> Receiver<ALIGN> {
        self.receiver
    }

    /// Create and initialize a new `IcMsgTransport`. This does NOT perform the
    /// initial bonding.
    ///
    /// Both indices of the region that this endpoint writes are set to zero;
    /// the region that it reads is left to the other end.
    pub fn new(
        send_region: &mut SharedMemoryRegion<ALIGN>,
        send_buffer_len: u32,
        recv_buffer_len: u32,
        mbox: M,
    ) -> (transport: Self)
        requires
            valid_len(send_buffer_len as int),
            valid_len(recv_buffer_len as int),
        ensures
            transport.sender().buffer_len() == send_buffer_len,
            transport.sender().wr_idx() == 0,
            transport.sender().mbox() == mbox,
            transport.sender().notifications() == 0,
            transport.receiver().buffer_len() == recv_buffer_len,
            transport.receiver().rd_idx() == 0,
            final(send_region).rd_idx() == 0,
            final(send_region).wr_idx() == 0,
            final(send_region).data == old(send_region).data,
    {
        send_region.reset();
        let sender = Sender::new(send_buffer_len, mbox);
        let receiver = Receiver::new(recv_buffer_len);
        Self { sender, receiver }
    }

    /// Notify the other end.
    pub fn notify(&mut self)
        ensures
            final(self).sender().buffer_len() == old(self).sender().buffer_len(),
            final(self).sender().wr_idx() == old(self).sender().wr_idx(),
            final(self).sender().notifications() == old(self).sender().notifications() + 1,
            final(self).receiver() == old(self).receiver(),
            exists|m: &mut M|
                mut_ref_current(m) == old(self).sender().mbox()
                    && mut_ref_future(m) == final(self).sender().mbox()
                    && #[trigger] call_ensures(M::notify, (m,), ()),
    {
        self.sender.notify()
    }

    /// Send a message into the region that this endpoint writes.
    pub fn send(&mut self, send_region: &mut SharedMemoryRegion<ALIGN>, msg: &[u8]) -> (r: Result<
        (),
        SendError,
    >)
        requires
            msg@.len() <= 65535,
            old(send_region).data@.len() == old(self).sender().buffer_len(),
        ensures
            old(self).sender().sent(
                &final(self).sender(),
                old(send_region),
                final(send_region),
                msg@,
                r,
            ),
            r is Ok ==> exists|m: &mut M|
                mut_ref_current(m) == old(self).sender().mbox()
                    && mut_ref_future(m) == final(self).sender().mbox()
                    && #[trigger] call_ensures(M::notify, (m,), ()),
            final(self).receiver() == old(self).receiver(),
    {
        self.sender.send(send_region, msg)
    }

    /// Receive a message from the region that this endpoint reads. On success,
    /// returns the size of the message.
    pub fn try_recv(&mut self, recv_region: &mut SharedMemoryRegion<ALIGN>, msg: &mut [u8]) -> (r:
        Result<usize, RecvError>)
        requires
            old(recv_region).data@.len() == old(self).receiver().buffer_len(),
        ensures
            old(self).receiver().received(
                &final(self).receiver(),
                old(recv_region),
                final(recv_region),
                old(msg)@,
                final(msg)@,
                r,
            ),
            final(self).sender() == old(self).sender(),
    {
        self.receiver.try_recv(recv_region, msg)
    }

    /// The two halves, each on its own.
    pub fn split(self) -> (halves: (Sender<M, ALIGN>, Receiver<ALIGN>))
        ensures
            halves.0 == self.sender(),
            halves.1 == self.receiver(),
    {
        (self.sender, self.receiver)
    }

    /// The two halves, borrowed.
    pub fn split_mut(&mut self) -> (halves: (&mut Sender<M, ALIGN>, &mut Receiver<ALIGN>))
        ensures
            *halves.0 == old(self).sender(),
            *halves.1 == old(self).receiver(),
            final(self).sender() == *final(halves.0),
            final(self).receiver() == *final(halves.1),
    {
        (&mut self.sender, &mut self.receiver)
    }
}

} // verus!
