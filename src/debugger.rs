use vstd::prelude::*;
use byteorder::{ByteOrder, NetworkEndian};
use crate::instruction::Instruction;

verus! {

/// The loopback port on which the debug server listens.
pub const DEBUGGER_PORT: u16 = 38100;

/// What the debug server sends for each dispatched instruction, and once
/// more, without an instruction, when the program has finished.
#[derive(Debug, Clone, PartialEq, Eq)]
pub struct DebugInformation {
    /// The instruction about to be dispatched; absent on the final record.
    pub instr: Option<Instruction>,
    /// True only on the final record.
    pub terminate: bool,
}

impl DebugInformation {
    /// The record sent when the program has finished.
    pub fn termination() -> (r: DebugInformation)
        ensures
            r.instr is None,
            r.terminate,
    {
        DebugInformation { instr: None, terminate: true }
    }
}

/// The four bytes of `n`, most significant first.
pub open spec fn be_bytes(n: u32) -> Seq<u8> {
    seq![(n >> 24u32) as u8, (n >> 16u32) as u8, (n >> 8u32) as u8, n as u8]
}

/// The number that the first four bytes of `b` give, most significant first.
pub open spec fn be_value(b: Seq<u8>) -> u32 {
    ((b[0] as u32) << 24u32) | ((b[1] as u32) << 16u32) | ((b[2] as u32) << 8u32) | (b[3] as u32)
}

/// Relies on byteorder's `NetworkEndian::write_u32`: writes `n` into the
/// first four bytes of a buffer, most significant byte first.
#[verifier::external_body]
fn network_bytes(n: u32) -> (r: Vec<u8>)
    ensures
        r@ == be_bytes(n),
{
    let mut buf = vec![0u8; 4];
    NetworkEndian::write_u32(&mut buf, n);
    buf
}

/// Relies on byteorder's `NetworkEndian::read_u32`: reads the first four
/// bytes of `b` as a number, most significant byte first; it panics on fewer
/// than four.
#[verifier::external_body]
fn network_u32(b: &[u8]) -> (r: u32)
    requires
        b@.len() >= 4,
    ensures
        r == be_value(b@),
{
    NetworkEndian::read_u32(b)
}

/// A frame for the debugger connection: the payload's length as a
/// big-endian `u32`, then the payload. `None` where the length does not fit.
pub fn frame_record(payload: &[u8]) -> (r: Option<Vec<u8>>)
    ensures
        payload@.len() <= u32::MAX <==> r is Some,
        r matches Some(f) ==> f@ == be_bytes(payload@.len() as u32) + payload@,
{
    if payload.len() > u32::MAX as usize {
        return None;
    }
    let mut frame = network_bytes(payload.len() as u32);
    let ghost head = frame@;
    let mut i: usize = 0;
    while i < payload.len()
        invariant
            i <= payload@.len(),
            frame@ == head + payload@.take(i as int),
        decreases payload@.len() - i,
    {
        assert(payload@.take(i + 1) =~= payload@.take(i as int).push(payload@[i as int]));
        frame.push(payload[i]);
        i = i + 1;
    }
    assert(payload@.take(i as int) =~= payload@);
    Some(frame)
}

/// The payload length that a frame starts with, if `header` holds the four
/// bytes of one.
pub fn frame_length(header: &[u8]) -> (r: Option<u32>)
    ensures
        header@.len() >= 4 <==> r is Some,
        r matches Some(n) ==> n == be_value(header@),
{
    if header.len() < 4 {
        None
    } else {
        Some(network_u32(header))
    }
}

/// A frame's header gives back the length of its payload.
pub proof fn lemma_frame_round_trip(payload: Seq<u8>)
    requires
        payload.len() <= u32::MAX,
    ensures
        be_value(be_bytes(payload.len() as u32) + payload) == payload.len(),
{
    let n = payload.len() as u32;
    let f = be_bytes(n) + payload;
    assert(f[0] == (n >> 24u32) as u8);
    assert(f[1] == (n >> 16u32) as u8);
    assert(f[2] == (n >> 8u32) as u8);
    assert(f[3] == n as u8);
    assert((((n >> 24u32) as u8 as u32) << 24u32) | (((n >> 16u32) as u8 as u32) << 16u32) | (((n
        >> 8u32) as u8 as u32) << 8u32) | (n as u8 as u32) == n) by (bit_vector);
}

} // verus!
