use std::cell::Cell;
use std::rc::Rc;

use icmsg::bonding::{is_magic, PULSE_MS};
use icmsg::transport::{Notifier, Receiver, RecvError, Sender, SharedMemoryRegion};
use icmsg::{IcMsg, InitError, MemoryConfig, RecvStep, MAGIC};

/// A mailbox of one flag: a notification sets it, a poll takes it.
#[derive(Clone)]
struct Mailbox(Rc<Cell<bool>>);

impl Mailbox {
    fn new() -> Self {
        Mailbox(Rc::new(Cell::new(false)))
    }

    fn poll(&self) -> bool {
        self.0.replace(false)
    }
}

impl Notifier for Mailbox {
    fn notify(&mut self) {
        self.0.set(true);
    }
}

struct Noop;

impl Notifier for Noop {
    fn notify(&mut self) {}
}

const EXPECTED_MESSAGES: &[&[u8]] = &[
    b"",
    b"0",
    b"01",
    b"012",
    b"0123",
    b"01234",
    b"012345",
    b"0123456",
    b"01234567",
];

fn config(len: u32) -> MemoryConfig {
    MemoryConfig {
        send_buffer_len: len,
        recv_buffer_len: len,
    }
}

/// Waits for one message as a task would: polls the mailbox once, looks into
/// the ring, and lets `peer` run where the task would be suspended.
fn recv<M: Notifier>(
    icmsg: &mut IcMsg<M, 4>,
    region: &mut SharedMemoryRegion<4>,
    mailbox: &Mailbox,
    buf: &mut [u8],
    peer: &mut dyn FnMut(&mut SharedMemoryRegion<4>),
) -> Result<usize, RecvError> {
    loop {
        let notified = mailbox.poll();
        match icmsg.recv(region, buf, notified) {
            RecvStep::Done(r) => return r,
            RecvStep::Retry => {}
            RecvStep::Wait => {
                peer(region);
                assert!(mailbox.0.get(), "the peer has to notify");
            }
        }
    }
}

#[test]
fn test_bonding() {
    const ALIGN: usize = 4;
    let buf_size = 24;
    let mut shared_region_1 = SharedMemoryRegion::<ALIGN>::new(buf_size);
    let mut shared_region_2 = SharedMemoryRegion::<ALIGN>::new(buf_size);
    let notify_1 = Mailbox::new();
    let notify_2 = Mailbox::new();

    // Task 2 writes region 2 and reads region 1; task 1 the other way round.
    let bonding_2 =
        IcMsg::<_, ALIGN>::init(config(buf_size), &mut shared_region_2, notify_2.clone()).unwrap();
    let bonding_1 =
        IcMsg::<_, ALIGN>::init(config(buf_size), &mut shared_region_1, notify_1.clone()).unwrap();
    let mut icmsg_1 = bonding_1.complete(&mut shared_region_2).unwrap();
    let mut icmsg_2 = bonding_2.complete(&mut shared_region_1).unwrap();

    // Task 1 sends, task 2 receives.
    let mut next = 0;
    let mut buf = [0; 8];
    for &expected_message in EXPECTED_MESSAGES {
        let n = recv(
            &mut icmsg_2,
            &mut shared_region_1,
            &notify_1,
            &mut buf,
            &mut |region| {
                assert!(icmsg_1.send(region, EXPECTED_MESSAGES[next]).is_ok());
                next += 1;
            },
        )
        .unwrap();
        assert_eq!(&buf[..n], expected_message);
    }

    // Task 2 sends, task 1 receives.
    let mut next = 0;
    let mut buf = [0; 8];
    for &expected_message in EXPECTED_MESSAGES {
        let n = recv(
            &mut icmsg_1,
            &mut shared_region_2,
            &notify_2,
            &mut buf,
            &mut |region| {
                assert!(icmsg_2.send(region, EXPECTED_MESSAGES[next]).is_ok());
                next += 1;
            },
        )
        .unwrap();
        assert_eq!(&buf[..n], expected_message);
    }
}

#[test]
fn magic_is_the_thirteen_bytes() {
    assert_eq!(
        MAGIC,
        [0x45, 0x6d, 0x31, 0x6c, 0x31, 0x4b, 0x30, 0x72, 0x6e, 0x33, 0x6c, 0x69, 0x34]
    );
    assert_eq!(&MAGIC, b"Em1l1K0rn3li4");
}

#[test]
fn is_magic_looks_at_the_first_thirteen_bytes_only() {
    assert!(is_magic(&MAGIC));
    let mut longer = [0u8; 32];
    longer[..13].copy_from_slice(&MAGIC);
    assert!(is_magic(&longer));
    longer[13] = 0xff;
    assert!(is_magic(&longer));
    longer[12] ^= 1;
    assert!(!is_magic(&longer));
    longer[12] ^= 1;
    longer[0] = 0;
    assert!(!is_magic(&longer));
    assert!(!is_magic(&MAGIC[..12]));
    assert!(!is_magic(b""));
}

#[test]
fn config_check_refuses_bad_lengths() {
    let c = |s, r| MemoryConfig { send_buffer_len: s, recv_buffer_len: r }.check();
    assert_eq!(c(24, 24), Ok(()));
    assert_eq!(c(28, 4096), Ok(()));
    assert_eq!(c(20, 24), Err(InitError::TooSmall));
    assert_eq!(c(24, 20), Err(InitError::TooSmall));
    assert_eq!(c(0, 0), Err(InitError::TooSmall));
    assert_eq!(c(25, 24), Err(InitError::InvalidSize));
    assert_eq!(c(24, 26), Err(InitError::InvalidSize));
    // A length that is no multiple of 4 counts before one that is too small.
    assert_eq!(c(3, 24), Err(InitError::InvalidSize));
    assert_eq!(c(16, 23), Err(InitError::InvalidSize));
}

#[test]
fn init_refuses_a_bad_config_and_leaves_the_region() {
    let mut region = SharedMemoryRegion::<4>::new(16);
    region.release_rd_idx(4);
    region.release_wr_idx(8);
    let r = IcMsg::<_, 4>::init(config(16), &mut region, Noop);
    assert_eq!(r.err(), Some(InitError::TooSmall));
    assert_eq!(region.acquire_rd_idx(), 4);
    assert_eq!(region.acquire_wr_idx(), 8);
    assert_eq!(region.data, vec![0u8; 16]);

    let mut region = SharedMemoryRegion::<4>::new(26);
    let r = IcMsg::<_, 4>::init(config(26), &mut region, Noop);
    assert_eq!(r.err(), Some(InitError::InvalidSize));
}

#[test]
fn init_sends_the_magic_and_notifies() {
    let mailbox = Mailbox::new();
    let mut region = SharedMemoryRegion::<4>::new(24);
    region.release_rd_idx(8);
    region.release_wr_idx(8);
    let r = IcMsg::<_, 4>::init(config(24), &mut region, mailbox.clone());
    assert!(r.is_ok());
    assert!(mailbox.poll());
    assert_eq!(region.acquire_rd_idx(), 0);
    assert_eq!(region.acquire_wr_idx(), 20);
    assert_eq!(&region.data[..4], &[0, 13, 0, 0]);
    assert_eq!(&region.data[4..17], &MAGIC);
    assert_eq!(&region.data[17..], &[0u8; 7]);
}

#[test]
fn bonding_smoke_test() {
    let mut region_a = SharedMemoryRegion::<4>::new(24);
    let mut region_b = SharedMemoryRegion::<4>::new(24);
    let a = IcMsg::<_, 4>::init(config(24), &mut region_a, Noop).unwrap();
    let b = IcMsg::<_, 4>::init(config(24), &mut region_b, Noop).unwrap();
    let mut a = a.complete(&mut region_b).unwrap();
    let mut b = b.complete(&mut region_a).unwrap();
    let mut buf = [0u8; 32];
    assert_eq!(a.try_recv(&mut region_b, &mut buf), Err(RecvError::Empty));
    assert_eq!(b.try_recv(&mut region_a, &mut buf), Err(RecvError::Empty));
    // The indices show that one magic went each way.
    assert_eq!((region_a.acquire_rd_idx(), region_a.acquire_wr_idx()), (20, 20));
    assert_eq!((region_b.acquire_rd_idx(), region_b.acquire_wr_idx()), (20, 20));
    // The first message after bonding is the application's.
    assert_eq!(a.send(&mut region_a, b"hi"), Ok(()));
    assert_eq!(b.try_recv(&mut region_a, &mut buf), Ok(2));
    assert_eq!(&buf[..2], b"hi");
}

#[test]
fn bonding_with_a_stale_pre_notify() {
    let to_a = Mailbox::new();
    let to_b = Mailbox::new();
    let mut region_a = SharedMemoryRegion::<4>::new(24);
    let mut region_b = SharedMemoryRegion::<4>::new(24);

    // B begins and notifies before A exists: nobody waits, the signal is lost.
    let mut b = IcMsg::<_, 4>::init(config(24), &mut region_b, to_a.clone()).unwrap();
    assert!(to_a.poll());

    // A begins; its notification reaches B, which waits.
    let mut a = IcMsg::<_, 4>::init(config(24), &mut region_a, to_b.clone()).unwrap();
    assert!(!to_a.0.get());
    // A's timer runs out before its waiter resolves: it notifies again.
    a.pulse();
    // B's wait resolves; it notifies once more and reads A's magic.
    assert!(to_b.poll());
    b.pulse();
    assert!(to_a.0.get());
    let b = b.complete(&mut region_a);
    assert!(b.is_ok());
    // That wakes A, which reads B's magic.
    assert!(to_a.poll());
    let a = a.complete(&mut region_b);
    assert!(a.is_ok());
}

#[test]
fn complete_notifies_the_peer_once_more() {
    let mailbox = Mailbox::new();
    let mut region_a = SharedMemoryRegion::<4>::new(24);
    let mut region_b = SharedMemoryRegion::<4>::new(24);
    let a = IcMsg::<_, 4>::init(config(24), &mut region_a, mailbox.clone()).unwrap();
    let _b = IcMsg::<_, 4>::init(config(24), &mut region_b, Noop).unwrap();
    assert!(mailbox.poll());
    assert!(a.complete(&mut region_b).is_ok());
    assert!(mailbox.poll());
}

#[test]
fn complete_without_a_message_is_a_recv_error() {
    let mut region_a = SharedMemoryRegion::<4>::new(24);
    let mut region_b = SharedMemoryRegion::<4>::new(24);
    let a = IcMsg::<_, 4>::init(config(24), &mut region_a, Noop).unwrap();
    assert_eq!(
        a.complete(&mut region_b).err(),
        Some(InitError::BondingRecvError(RecvError::Empty))
    );
    assert_eq!(region_b.acquire_rd_idx(), 0);
}

#[test]
fn complete_with_a_message_beyond_the_buffer_is_a_recv_error() {
    let mut region_a = SharedMemoryRegion::<4>::new(24);
    let mut region_b = SharedMemoryRegion::<4>::new(64);
    let a = IcMsg::<_, 4>::init(
        MemoryConfig { send_buffer_len: 24, recv_buffer_len: 64 },
        &mut region_a,
        Noop,
    )
    .unwrap();
    let mut peer = Sender::<_, 4>::new(64, Noop);
    assert_eq!(peer.send(&mut region_b, &[1u8; 33]), Ok(()));
    assert_eq!(
        a.complete(&mut region_b).err(),
        Some(InitError::BondingRecvError(RecvError::MessageTooBig))
    );
    assert_eq!(region_b.acquire_rd_idx(), 0);
}

#[test]
fn complete_with_an_invalid_frame_is_a_recv_error() {
    let mut region_a = SharedMemoryRegion::<4>::new(24);
    let mut region_b = SharedMemoryRegion::<4>::new(24);
    let a = IcMsg::<_, 4>::init(config(24), &mut region_a, Noop).unwrap();
    region_b.data[1] = 25;
    region_b.release_wr_idx(4);
    assert_eq!(
        a.complete(&mut region_b).err(),
        Some(InitError::BondingRecvError(RecvError::InvalidMessage))
    );
}

#[test]
fn complete_with_another_message_is_wrong_magic() {
    for wrong in [&b"Em1l1K0rn3li"[..], &b"Em1l1K0rn3li5"[..], &b""[..], &b"hello, world!!"[..]] {
        let mut region_a = SharedMemoryRegion::<4>::new(24);
        let mut region_b = SharedMemoryRegion::<4>::new(24);
        let a = IcMsg::<_, 4>::init(config(24), &mut region_a, Noop).unwrap();
        let mut peer = Sender::<_, 4>::new(24, Noop);
        assert_eq!(peer.send(&mut region_b, wrong), Ok(()));
        assert_eq!(
            a.complete(&mut region_b).err(),
            Some(InitError::BondingWrongMagic)
        );
        // The message was taken out of the ring all the same.
        assert_eq!(region_b.acquire_rd_idx(), region_b.acquire_wr_idx());
    }
}

#[test]
fn complete_accepts_a_longer_message_that_begins_with_the_magic() {
    let mut region_a = SharedMemoryRegion::<4>::new(24);
    let mut region_b = SharedMemoryRegion::<4>::new(48);
    let a = IcMsg::<_, 4>::init(
        MemoryConfig { send_buffer_len: 24, recv_buffer_len: 48 },
        &mut region_a,
        Noop,
    )
    .unwrap();
    let mut peer = Sender::<_, 4>::new(48, Noop);
    let mut msg = MAGIC.to_vec();
    msg.extend_from_slice(b"-v2");
    assert_eq!(peer.send(&mut region_b, &msg), Ok(()));
    let mut a = a.complete(&mut region_b).unwrap();
    let mut buf = [0u8; 8];
    assert_eq!(a.try_recv(&mut region_b, &mut buf), Err(RecvError::Empty));
    assert_eq!(region_b.acquire_rd_idx(), 20);
}

#[test]
fn a_bonded_channel_splits_into_independent_halves() {
    let mut region_a = SharedMemoryRegion::<4>::new(24);
    let mut region_b = SharedMemoryRegion::<4>::new(24);
    let a = IcMsg::<_, 4>::init(config(24), &mut region_a, Noop).unwrap();
    let b = IcMsg::<_, 4>::init(config(24), &mut region_b, Noop).unwrap();
    let mut a = a.complete(&mut region_b).unwrap();
    let b = b.complete(&mut region_a).unwrap();
    {
        let (s, r) = a.split_mut();
        assert_eq!(s.send(&mut region_a, b"ping"), Ok(()));
        let mut buf = [0u8; 4];
        assert_eq!(r.try_recv(&mut region_b, &mut buf), Err(RecvError::Empty));
    }
    let (mut b_send, mut b_recv) = b.split();
    let mut buf = [0u8; 4];
    assert_eq!(b_recv.try_recv(&mut region_a, &mut buf), Ok(4));
    assert_eq!(&buf, b"ping");
    assert_eq!(b_send.send(&mut region_b, b"pong"), Ok(()));
    let (_a_send, mut a_recv) = a.split();
    assert_eq!(a_recv.recv(&mut region_b, &mut buf, false), RecvStep::Done(Ok(4)));
    assert_eq!(&buf, b"pong");
    assert_eq!(a_recv.recv(&mut region_b, &mut buf, false), RecvStep::Wait);
    assert_eq!(a_recv.recv(&mut region_b, &mut buf, true), RecvStep::Retry);
    let _unused: Option<Receiver<4>> = None;
}

/// Counts the notifications.
struct Counter(Rc<Cell<u32>>);

impl Notifier for Counter {
    fn notify(&mut self) {
        self.0.set(self.0.get() + 1);
    }
}

#[test]
fn pulse_period_is_one_millisecond() {
    assert_eq!(PULSE_MS, 1);
}

#[test]
fn bonding_notifies_once_to_begin_once_for_each_pulse_and_once_to_complete() {
    for pulses in 0..5 {
        let count = Rc::new(Cell::new(0));
        let mut region_a = SharedMemoryRegion::<4>::new(24);
        let mut region_b = SharedMemoryRegion::<4>::new(24);
        let mut a =
            IcMsg::<_, 4>::init(config(24), &mut region_a, Counter(Rc::clone(&count))).unwrap();
        assert_eq!(count.get(), 1);
        let _b = IcMsg::<_, 4>::init(config(24), &mut region_b, Noop).unwrap();
        for _ in 0..pulses {
            a.pulse();
        }
        assert_eq!(count.get(), 1 + pulses);
        let mut a = a.complete(&mut region_b).unwrap();
        assert_eq!(count.get(), pulses + 2);
        // A message that does not fit notifies nobody.
        assert!(a.send(&mut region_a, b"0123").is_err());
        assert_eq!(count.get(), pulses + 2);
    }
}

#[test]
fn init_with_a_bad_config_notifies_nobody() {
    let count = Rc::new(Cell::new(0));
    let mut region = SharedMemoryRegion::<4>::new(20);
    assert!(IcMsg::<_, 4>::init(config(20), &mut region, Counter(Rc::clone(&count))).is_err());
    assert_eq!(count.get(), 0);
}
