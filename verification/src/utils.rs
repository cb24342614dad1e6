//! Conversions between integers and their big-endian byte arrays.

use vstd::prelude::*;

verus! {

/// The value that two big-endian bytes denote.
pub open spec fn be16(hi: u8, lo: u8) -> int {
    hi * 256 + lo
}

/// Reads a `u16` from two big-endian bytes.
pub fn u8_array_to_u16(array: [u8; 2]) -> (r: u16)
    ensures
        r == be16(array[0], array[1]),
{
    let hi: u8 = array[0];
    let lo: u8 = array[1];
    let r: u16 = ((hi as u16) << 8) | (lo as u16);
    proof {
        assert(((hi as u16) << 8) | (lo as u16) == hi * 256 + lo) by (bit_vector);
    }
    r
}

/// Writes a `u16` as two big-endian bytes.
pub fn u16_to_u8_array(value: u16) -> (r: [u8; 2])
    ensures
        r[0] == value / 256,
        r[1] == value % 256,
        be16(r[0], r[1]) == value,
{
    let hi: u8 = (value >> 8) as u8;
    let lo: u8 = value as u8;
    proof {
        assert((value >> 8) as u8 == value / 256 && value as u8 == value % 256) by (bit_vector);
    }
    [hi, lo]
}

/// Writes a `u64` as eight big-endian bytes.
pub fn u64_to_u8_array(value: u64) -> (r: [u8; 8])
    ensures
        forall|k: int|
            0 <= k < 8 ==> r[k] == ((value >> (56 - 8 * k) as u64) & 0xff) as u8,
{
    let r: [u8; 8] = [
        (value >> 56) as u8,
        (value >> 48) as u8,
        (value >> 40) as u8,
        (value >> 32) as u8,
        (value >> 24) as u8,
        (value >> 16) as u8,
        (value >> 8) as u8,
        value as u8,
    ];
    proof {
        assert((value >> 56) as u8 == ((value >> 56) & 0xff) as u8
            && (value >> 48) as u8 == ((value >> 48) & 0xff) as u8
            && (value >> 40) as u8 == ((value >> 40) & 0xff) as u8
            && (value >> 32) as u8 == ((value >> 32) & 0xff) as u8
            && (value >> 24) as u8 == ((value >> 24) & 0xff) as u8
            && (value >> 16) as u8 == ((value >> 16) & 0xff) as u8
            && (value >> 8) as u8 == ((value >> 8) & 0xff) as u8
            && value as u8 == ((value >> 0) & 0xff) as u8) by (bit_vector);
    }
    r
}

/// Reads a `u64` from eight big-endian bytes.
pub fn u8_array_to_u64(array: [u8; 8]) -> (r: u64)
    ensures
        r == ((array[0] as u64) << 56) | ((array[1] as u64) << 48) | ((array[2] as u64) << 40)
            | ((array[3] as u64) << 32) | ((array[4] as u64) << 24) | ((array[5] as u64) << 16)
            | ((array[6] as u64) << 8) | (array[7] as u64),
{
    ((array[0] as u64) << 56) | ((array[1] as u64) << 48) | ((array[2] as u64) << 40)
        | ((array[3] as u64) << 32) | ((array[4] as u64) << 24) | ((array[5] as u64) << 16)
        | ((array[6] as u64) << 8) | (array[7] as u64)
}

/// Writing a `u64` as big-endian bytes and reading them back yields the
/// original value.
pub proof fn lemma_u64_bytes_round_trip(value: u64)
    ensures
        ((((value >> 56) & 0xff) as u64) << 56) | ((((value >> 48) & 0xff) as u64) << 48)
            | ((((value >> 40) & 0xff) as u64) << 40) | ((((value >> 32) & 0xff) as u64) << 32)
            | ((((value >> 24) & 0xff) as u64) << 24) | ((((value >> 16) & 0xff) as u64) << 16)
            | ((((value >> 8) & 0xff) as u64) << 8) | (((value >> 0) & 0xff) as u64) == value,
{
    assert(((((value >> 56) & 0xff) as u64) << 56) | ((((value >> 48) & 0xff) as u64) << 48)
        | ((((value >> 40) & 0xff) as u64) << 40) | ((((value >> 32) & 0xff) as u64) << 32)
        | ((((value >> 24) & 0xff) as u64) << 24) | ((((value >> 16) & 0xff) as u64) << 16)
        | ((((value >> 8) & 0xff) as u64) << 8) | (((value >> 0) & 0xff) as u64) == value)
        by (bit_vector);
}

} // verus!
