use vstd::prelude::*;

use crate::aligned::BLOCK_SIZE;

verus! {

/// Size of a log frame's header; the payload follows it.
pub const HEADER_SIZE: usize = 32;

/// The largest payload one frame can carry.
pub const MAX_PAYLOAD: usize = 4064;

/// The generator polynomial of CRC-32 (IEEE), in reflected form.
pub const CRC32_POLYNOMIAL: u32 = 0xEDB8_8320;

/// One bit step of the reflected CRC-32 register.
pub open spec fn crc_shift(c: u32) -> u32 {
    if c & 1 != 0 {
        (c >> 1) ^ CRC32_POLYNOMIAL
    } else {
        c >> 1
    }
}

/// `n` bit steps of the CRC-32 register.
pub open spec fn crc_shift_n(c: u32, n: nat) -> u32
    decreases n,
{
    if n == 0 {
        c
    } else {
        crc_shift(crc_shift_n(c, (n - 1) as nat))
    }
}

/// The CRC-32 register after absorbing `byte`.
pub open spec fn crc_byte(c: u32, byte: u8) -> u32 {
    crc_shift_n(c ^ (byte as u32), 8)
}

/// The CRC-32 register after absorbing `bytes` in order, starting from `c`.
pub open spec fn crc_update(c: u32, bytes: Seq<u8>) -> u32
    decreases bytes.len(),
{
    if bytes.len() == 0 {
        c
    } else {
        crc_byte(crc_update(c, bytes.drop_last()), bytes.last())
    }
}

/// The standard CRC-32 (IEEE 802.3) of `bytes`.
pub open spec fn crc32(bytes: Seq<u8>) -> u32 {
    !crc_update(0xFFFF_FFFF, bytes)
}

/// The big-endian bytes of `x`.
pub open spec fn be_u32_bytes(x: u32) -> Seq<u8> {
    seq![(x >> 24) as u8, (x >> 16) as u8, (x >> 8) as u8, x as u8]
}

/// The big-endian bytes of `x`.
pub open spec fn be_u64_bytes(x: u64) -> Seq<u8> {
    seq![
        (x >> 56) as u8, (x >> 48) as u8, (x >> 40) as u8, (x >> 32) as u8,
        (x >> 24) as u8, (x >> 16) as u8, (x >> 8) as u8, x as u8,
    ]
}

/// The number whose big-endian bytes are the first four of `b`.
pub open spec fn be_u32_value(b: Seq<u8>) -> u32 {
    ((b[0] as u32) << 24) | ((b[1] as u32) << 16) | ((b[2] as u32) << 8) | (b[3] as u32)
}

/// The number whose big-endian bytes are the first eight of `b`.
pub open spec fn be_u64_value(b: Seq<u8>) -> u64 {
    ((b[0] as u64) << 56) | ((b[1] as u64) << 48) | ((b[2] as u64) << 40) | ((b[3] as u64) << 32)
        | ((b[4] as u64) << 24) | ((b[5] as u64) << 16) | ((b[6] as u64) << 8) | (b[7] as u64)
}

/// Reading back big-endian bytes gives the number that was written.
pub proof fn lemma_be_u32_roundtrip(x: u32)
    ensures
        be_u32_value(be_u32_bytes(x)) == x,
{
    let b = be_u32_bytes(x);
    assert(b[0] == (x >> 24) as u8 && b[1] == (x >> 16) as u8 && b[2] == (x >> 8) as u8 && b[3] == x as u8);
    assert(((((x >> 24) as u8) as u32) << 24) | ((((x >> 16) as u8) as u32) << 16)
        | ((((x >> 8) as u8) as u32) << 8) | ((x as u8) as u32) == x) by (bit_vector);
}

/// Reading back big-endian bytes gives the number that was written.
pub proof fn lemma_be_u64_roundtrip(x: u64)
    ensures
        be_u64_value(be_u64_bytes(x)) == x,
{
    let b = be_u64_bytes(x);
    assert(b[0] == (x >> 56) as u8 && b[1] == (x >> 48) as u8 && b[2] == (x >> 40) as u8
        && b[3] == (x >> 32) as u8 && b[4] == (x >> 24) as u8 && b[5] == (x >> 16) as u8
        && b[6] == (x >> 8) as u8 && b[7] == x as u8);
    assert(((((x >> 56) as u8) as u64) << 56) | ((((x >> 48) as u8) as u64) << 48)
        | ((((x >> 40) as u8) as u64) << 40) | ((((x >> 32) as u8) as u64) << 32)
        | ((((x >> 24) as u8) as u64) << 24) | ((((x >> 16) as u8) as u64) << 16)
        | ((((x >> 8) as u8) as u64) << 8) | ((x as u8) as u64) == x) by (bit_vector);
}

/// The frame signature "A016".
pub open spec fn frame_magic() -> Seq<u8> {
    seq![0x41u8, 0x30u8, 0x31u8, 0x36u8]
}

/// Four zero bytes.
pub open spec fn zero4() -> Seq<u8> {
    seq![0u8, 0u8, 0u8, 0u8]
}

/// A frame before its checksum is stored: magic, a zero checksum slot,
/// sequence ID, target block, payload size, reserved zeros, the payload, and
/// zero padding to a full block.
pub open spec fn frame_image(sequence_id: u64, target_block_id: u64, payload: Seq<u8>) -> Seq<u8> {
    frame_magic() + zero4() + be_u64_bytes(sequence_id) + be_u64_bytes(target_block_id)
        + be_u32_bytes(payload.len() as u32) + zero4() + payload
        + Seq::new((MAX_PAYLOAD - payload.len()) as nat, |i: int| 0u8)
}

/// `frame` with its checksum slot (bytes 4..8) replaced by `slot`.
pub open spec fn with_checksum_slot(frame: Seq<u8>, slot: Seq<u8>) -> Seq<u8> {
    frame.subrange(0, 4) + slot + frame.subrange(8, frame.len() as int)
}

/// The complete frame: the image with the CRC-32 of the image stored in its
/// checksum slot.
pub open spec fn serialized_frame(sequence_id: u64, target_block_id: u64, payload: Seq<u8>) -> Seq<u8> {
    let image = frame_image(sequence_id, target_block_id, payload);
    with_checksum_slot(image, be_u32_bytes(crc32(image)))
}

/// A block of 4096 bytes, padded with zeros after `payload`.
pub open spec fn padded_block(payload: Seq<u8>) -> Seq<u8> {
    payload + Seq::new((BLOCK_SIZE - payload.len()) as nat, |i: int| 0u8)
}

/// The big-endian bytes of `x`.
pub fn u32_to_be(x: u32) -> (bytes: [u8; 4])
    ensures
        bytes@ == be_u32_bytes(x),
{
    let bytes = [(x >> 24) as u8, (x >> 16) as u8, (x >> 8) as u8, x as u8];
    assert(bytes@ =~= be_u32_bytes(x));
    bytes
}

/// The big-endian bytes of `x`.
pub fn u64_to_be(x: u64) -> (bytes: [u8; 8])
    ensures
        bytes@ == be_u64_bytes(x),
{
    let bytes = [
        (x >> 56) as u8, (x >> 48) as u8, (x >> 40) as u8, (x >> 32) as u8,
        (x >> 24) as u8, (x >> 16) as u8, (x >> 8) as u8, x as u8,
    ];
    assert(bytes@ =~= be_u64_bytes(x));
    bytes
}

/// The number stored big-endian in `data[at..at + 4]`.
pub fn u32_from_be(data: &[u8], at: usize) -> (x: u32)
    requires
        at + 4 <= data@.len(),
    ensures
        x == be_u32_value(data@.subrange(at as int, at + 4)),
{
    ((data[at] as u32) << 24) | ((data[at + 1] as u32) << 16) | ((data[at + 2] as u32) << 8) | (data[at + 3] as u32)
}

/// The number stored big-endian in `data[at..at + 8]`.
pub fn u64_from_be(data: &[u8], at: usize) -> (x: u64)
    requires
        at + 8 <= data@.len(),
    ensures
        x == be_u64_value(data@.subrange(at as int, at + 8)),
{
    ((data[at] as u64) << 56) | ((data[at + 1] as u64) << 48) | ((data[at + 2] as u64) << 40)
        | ((data[at + 3] as u64) << 32) | ((data[at + 4] as u64) << 24) | ((data[at + 5] as u64) << 16)
        | ((data[at + 6] as u64) << 8) | (data[at + 7] as u64)
}

/// Whether every byte of `data` is zero.
pub fn all_zero(data: &[u8]) -> (zero: bool)
    ensures
        zero == (forall|i: int| 0 <= i < data@.len() ==> data@[i] == 0),
{
    let mut i: usize = 0;
    while i < data.len()
        invariant
            i <= data@.len(),
            forall|j: int| 0 <= j < i ==> data@[j] == 0,
        decreases data@.len() - i,
    {
        if data[i] != 0 {
            return false;
        }
        i = i + 1;
    }
    true
}

} // verus!
