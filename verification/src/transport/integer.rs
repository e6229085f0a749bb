//! The two fixed-endian integers of the wire format.
//!
//! Both are kept as the bytes that lie in memory, so that what a peer of either
//! byte order finds there is part of each contract.

use core::sync::atomic::Ordering;
use vstd::prelude::*;
use vstd::std_specs::convert::{FromSpec, FromSpecImpl};

verus! {

/// The two bytes of `value`, most significant first.
pub open spec fn be_bytes(value: u16) -> Seq<u8> {
    seq![(value / 256) as u8, (value % 256) as u8]
}

/// The number that two bytes spell, most significant first.
pub open spec fn be_value(bytes: Seq<u8>) -> u16
    recommends
        bytes.len() == 2,
{
    (bytes[0] * 256 + bytes[1]) as u16
}

/// The four bytes of `value`, least significant first.
pub open spec fn le_bytes(value: u32) -> Seq<u8> {
    seq![
        (value % 256) as u8,
        (value / 256 % 256) as u8,
        (value / 65536 % 256) as u8,
        (value / 16777216) as u8,
    ]
}

/// The number that four bytes spell, least significant first.
pub open spec fn le_value(bytes: Seq<u8>) -> u32
    recommends
        bytes.len() == 4,
{
    (bytes[0] + bytes[1] * 256 + bytes[2] * 65536 + bytes[3] * 16777216) as u32
}

/// The two bytes of a number spell it again, and two bytes are the bytes of
/// the number that they spell.
pub proof fn lemma_be_round_trip(value: u16, bytes: Seq<u8>)
    requires
        bytes.len() == 2,
    ensures
        be_bytes(value).len() == 2,
        be_value(be_bytes(value)) == value,
        be_bytes(be_value(bytes)) == bytes,
{
    assert(be_bytes(be_value(bytes)) =~= bytes);
}

/// The four bytes of a number spell it again, and four bytes are the bytes of
/// the number that they spell.
pub proof fn lemma_le_round_trip(value: u32, bytes: Seq<u8>)
    requires
        bytes.len() == 4,
    ensures
        le_bytes(value).len() == 4,
        le_value(le_bytes(value)) == value,
        le_bytes(le_value(bytes)) == bytes,
{
    let upper = bytes[1] + 256 * (bytes[2] + 256 * bytes[3]);
    let value = bytes[0] + 256 * upper;
    assert(value % 256 == bytes[0] && value / 256 == upper);
    assert(upper % 256 == bytes[1] && upper / 256 == bytes[2] + 256 * bytes[3]);
    assert(value / 65536 == upper / 256);
    assert(value / 16777216 == bytes[3]);
    assert(le_bytes(le_value(bytes)) =~= bytes);
}

/// A big-endian u16.
#[derive(Clone, Copy)]
pub struct BeU16 {
    /// The bytes as they lie in memory.
    pub bytes: [u8; 2],
}

impl View for BeU16 {
    type V = u16;

    open spec fn view(&self) -> u16 {
        be_value(self.bytes@)
    }
}

impl BeU16 {
    /// The number held.
    pub fn value(self) -> (value: u16)
        ensures
            value == self@,
    {
        self.into()
    }
}

impl From<u16> for BeU16 {
    fn from(t: u16) -> (r: Self) {
        BeU16 { bytes: [(t / 256) as u8, (t % 256) as u8] }
    }
}

impl FromSpecImpl<u16> for BeU16 {
    open spec fn obeys_from_spec() -> bool {
        true
    }

    open spec fn from_spec(t: u16) -> Self {
        BeU16 { bytes: [(t / 256) as u8, (t % 256) as u8] }
    }
}

/// The number that went into a `BeU16` is the number held, and its bytes lie
/// most significant first.
pub proof fn lemma_from_u16(t: u16)
    ensures
        <BeU16 as FromSpec<u16>>::from_spec(t)@ == t,
        <BeU16 as FromSpec<u16>>::from_spec(t).bytes@ == be_bytes(t),
{
    assert(<BeU16 as FromSpec<u16>>::from_spec(t).bytes@ =~= be_bytes(t));
}

impl From<BeU16> for u16 {
    fn from(t: BeU16) -> (r: Self) {
        let hi: u16 = t.bytes[0] as u16;
        let lo: u16 = t.bytes[1] as u16;
        hi * 256 + lo
    }
}

impl FromSpecImpl<BeU16> for u16 {
    open spec fn obeys_from_spec() -> bool {
        true
    }

    open spec fn from_spec(t: BeU16) -> Self {
        t@
    }
}

/// An atomic little-endian u32: an index word of a region.
///
/// A region is held as a value, so every load and every store is one step and
/// none can be torn. The ordering that each takes is the one that the same
/// access needs where the word lies in memory shared with another core; here
/// it changes nothing.
pub struct LeAtomicU32 {
    /// The bytes as they lie in memory.
    pub bytes: [u8; 4],
}

impl View for LeAtomicU32 {
    type V = u32;

    open spec fn view(&self) -> u32 {
        le_value(self.bytes@)
    }
}

impl LeAtomicU32 {
    /// Reads the word.
    pub fn load(&self, order: Ordering) -> (value: u32)
        ensures
            value == self@,
    {
        decode(&self.bytes)
    }

    /// Writes the word.
    pub fn store(&mut self, val: u32, order: Ordering)
        ensures
            final(self)@ == val,
            final(self).bytes@ == le_bytes(val),
    {
        self.bytes = encode(val);
    }
}

fn decode(bytes: &[u8; 4]) -> (value: u32)
    ensures
        value == le_value(bytes@),
{
    let b0: u32 = bytes[0] as u32;
    let b1: u32 = bytes[1] as u32;
    let b2: u32 = bytes[2] as u32;
    let b3: u32 = bytes[3] as u32;
    b0 + b1 * 256 + b2 * 65536 + b3 * 16777216
}

fn encode(value: u32) -> (bytes: [u8; 4])
    ensures
        bytes@ == le_bytes(value),
        le_value(bytes@) == value,
{
    let bytes: [u8; 4] = [
        (value % 256) as u8,
        (value / 256 % 256) as u8,
        (value / 65536 % 256) as u8,
        (value / 16777216) as u8,
    ];
    assert(bytes@ =~= le_bytes(value));
    bytes
}

} // verus!
