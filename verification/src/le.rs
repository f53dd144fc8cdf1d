//! Little-endian byte order for the integers that travel on the connection.

use vstd::prelude::*;

verus! {

/// Byte `i` of `x` in little-endian order: `x / 256^i mod 256`, for the
/// positions a `u64` has.
pub open spec fn le_byte(x: int, i: int) -> int {
    if i == 0 {
        x % 0x100
    } else if i == 1 {
        (x / 0x100) % 0x100
    } else if i == 2 {
        (x / 0x1_0000) % 0x100
    } else if i == 3 {
        (x / 0x100_0000) % 0x100
    } else if i == 4 {
        (x / 0x1_0000_0000) % 0x100
    } else if i == 5 {
        (x / 0x100_0000_0000) % 0x100
    } else if i == 6 {
        (x / 0x1_0000_0000_0000) % 0x100
    } else {
        (x / 0x100_0000_0000_0000) % 0x100
    }
}

/// The first `n` little-endian bytes of `x`.
pub open spec fn le_bytes(x: int, n: nat) -> Seq<u8> {
    Seq::new(n, |i: int| le_byte(x, i) as u8)
}

/// The number whose little-endian bytes are the first four of `bytes`.
pub open spec fn le_u32(bytes: Seq<u8>) -> int {
    bytes[0] + bytes[1] * 0x100 + bytes[2] * 0x1_0000 + bytes[3] * 0x100_0000
}

/// Reads a `u32` from the first four bytes of `array`, least significant first.
pub fn as_u32_le(array: &[u8]) -> (value: u32)
    requires
        array@.len() >= 4,
    ensures
        value as int == le_u32(array@),
{
    let b0: u32 = array[0] as u32;
    let b1: u32 = array[1] as u32;
    let b2: u32 = array[2] as u32;
    let b3: u32 = array[3] as u32;
    assert((b0 | (b1 << 8) | (b2 << 16) | (b3 << 24)) == b0 + b1 * 0x100 + b2 * 0x1_0000 + b3
        * 0x100_0000) by (bit_vector)
        requires
            b0 < 256,
            b1 < 256,
            b2 < 256,
            b3 < 256,
    ;
    b0 | (b1 << 8) | (b2 << 16) | (b3 << 24)
}

/// The four bytes of `x`, least significant first.
pub fn u32_as_u8_le(x: u32) -> (bytes: [u8; 4])
    ensures
        bytes@ == le_bytes(x as int, 4),
{
    assert(x & 0xff == x % 0x100) by (bit_vector);
    assert((x >> 8) & 0xff == (x / 0x100) % 0x100) by (bit_vector);
    assert((x >> 16) & 0xff == (x / 0x1_0000) % 0x100) by (bit_vector);
    assert((x >> 24) & 0xff == (x / 0x100_0000) % 0x100) by (bit_vector);
    let bytes = [
        (x & 0xff) as u8,
        ((x >> 8) & 0xff) as u8,
        ((x >> 16) & 0xff) as u8,
        ((x >> 24) & 0xff) as u8,
    ];
    assert(bytes@ =~= le_bytes(x as int, 4));
    bytes
}

/// The eight bytes of `x`, least significant first.
pub fn u64_as_u8_le(x: u64) -> (bytes: [u8; 8])
    ensures
        bytes@ == le_bytes(x as int, 8),
{
    assert(x & 0xff == x % 0x100) by (bit_vector);
    assert((x >> 8) & 0xff == (x / 0x100) % 0x100) by (bit_vector);
    assert((x >> 16) & 0xff == (x / 0x1_0000) % 0x100) by (bit_vector);
    assert((x >> 24) & 0xff == (x / 0x100_0000) % 0x100) by (bit_vector);
    assert((x >> 32) & 0xff == (x / 0x1_0000_0000) % 0x100) by (bit_vector);
    assert((x >> 40) & 0xff == (x / 0x100_0000_0000) % 0x100) by (bit_vector);
    assert((x >> 48) & 0xff == (x / 0x1_0000_0000_0000) % 0x100) by (bit_vector);
    assert((x >> 56) & 0xff == (x / 0x100_0000_0000_0000) % 0x100) by (bit_vector);
    let bytes = [
        (x & 0xff) as u8,
        ((x >> 8) & 0xff) as u8,
        ((x >> 16) & 0xff) as u8,
        ((x >> 24) & 0xff) as u8,
        ((x >> 32) & 0xff) as u8,
        ((x >> 40) & 0xff) as u8,
        ((x >> 48) & 0xff) as u8,
        ((x >> 56) & 0xff) as u8,
    ];
    assert(bytes@ =~= le_bytes(x as int, 8));
    bytes
}

/// Reading back the four bytes written for `x` gives `x`.
pub proof fn lemma_u32_le_round_trip(x: u32)
    ensures
        le_u32(le_bytes(x as int, 4)) == x,
{
    let bytes = le_bytes(x as int, 4);
    assert(bytes[0] == x % 0x100);
    assert(bytes[1] == (x / 0x100) % 0x100);
    assert(bytes[2] == (x / 0x1_0000) % 0x100);
    assert(bytes[3] == (x / 0x100_0000) % 0x100);
    assert(x == x % 0x100 + ((x / 0x100) % 0x100) * 0x100 + ((x / 0x1_0000) % 0x100) * 0x1_0000
        + ((x / 0x100_0000) % 0x100) * 0x100_0000) by (bit_vector);
}

/// Four bytes written for the number they spell are the same four bytes.
pub proof fn lemma_le_bytes_of_le_u32(bytes: Seq<u8>)
    requires
        bytes.len() == 4,
    ensures
        0 <= le_u32(bytes) <= u32::MAX,
        le_bytes(le_u32(bytes), 4) == bytes,
{
    let b0 = bytes[0] as u64;
    let b1 = bytes[1] as u64;
    let b2 = bytes[2] as u64;
    let b3 = bytes[3] as u64;
    let v = (b0 + b1 * 0x100 + b2 * 0x1_0000 + b3 * 0x100_0000) as u64;
    assert(v == le_u32(bytes));
    assert(v % 0x100 == b0 && (v / 0x100) % 0x100 == b1 && (v / 0x1_0000) % 0x100 == b2 && (v
        / 0x100_0000) % 0x100 == b3) by (bit_vector)
        requires
            b0 < 256,
            b1 < 256,
            b2 < 256,
            b3 < 256,
            v == b0 + b1 * 0x100 + b2 * 0x1_0000 + b3 * 0x100_0000,
    ;
    assert(le_bytes(le_u32(bytes), 4) =~= bytes);
}

} // verus!
