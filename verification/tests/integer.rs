use core::sync::atomic::Ordering;
use icmsg::transport::integer::{BeU16, LeAtomicU32};

#[test]
fn be_u16_keeps_the_high_byte_first() {
    let x = BeU16::from(0x1234);
    assert_eq!(x.bytes, [0x12, 0x34]);
    assert_eq!(x.value(), 0x1234);
    assert_eq!(u16::from(x), 0x1234);
}

#[test]
fn be_u16_round_trips_at_the_edges() {
    for v in [0u16, 1, 255, 256, 0x00ff, 0xff00, 65535] {
        assert_eq!(BeU16::from(v).value(), v);
    }
    assert_eq!(BeU16 { bytes: [0xff, 0xfe] }.value(), 0xfffe);
}

#[test]
fn le_atomic_u32_keeps_the_low_byte_first() {
    let mut x = LeAtomicU32 { bytes: [0; 4] };
    x.store(0x0102_0304, Ordering::Release);
    assert_eq!(x.bytes, [4, 3, 2, 1]);
    assert_eq!(x.load(Ordering::Acquire), 0x0102_0304);
}

#[test]
fn le_atomic_u32_round_trips_at_the_edges() {
    let mut x = LeAtomicU32 { bytes: [0xaa; 4] };
    for v in [0u32, 1, 255, 256, 65535, 65536, 0x00ff_ffff, 0x0100_0000, u32::MAX] {
        x.store(v, Ordering::Relaxed);
        assert_eq!(x.load(Ordering::Relaxed), v);
    }
    assert_eq!(LeAtomicU32 { bytes: [0x78, 0x56, 0x34, 0x12] }.load(Ordering::Acquire), 0x1234_5678);
}
