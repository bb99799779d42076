//! Conversions between the column values stored in tuples and their on-page
//! byte representation. Integers are stored as four big-endian bytes; text is
//! stored as its UTF-8 bytes.

use vstd::prelude::*;

verus! {

use vstd::string::StringSliceAdditionalSpecFns;

/// The big-endian bytes of `value` interpreted through its unsigned
/// two's-complement image.
pub open spec fn spec_int_to_bytes(value: i32) -> Seq<u8> {
    let u = (value as i32) as u32;
    seq![
        (u / 0x1000000) as u8,
        ((u / 0x10000) % 0x100) as u8,
        ((u / 0x100) % 0x100) as u8,
        (u % 0x100) as u8,
    ]
}

/// The signed integer read back from four big-endian bytes.
pub open spec fn spec_bytes_to_int(bytes: Seq<u8>) -> i32 {
    ((bytes[0] * 0x1000000 + bytes[1] * 0x10000 + bytes[2] * 0x100 + bytes[3]) as u32) as i32
}

/// Serialises an integer column value as four big-endian bytes.
pub fn int_to_bytes(value: &i32) -> (r: [u8; 4])
    ensures
        r@ == spec_int_to_bytes(*value),
{
    let u = *value as u32;
    let b0 = (u >> 24) as u8;
    let b1 = ((u >> 16) & 0xff) as u8;
    let b2 = ((u >> 8) & 0xff) as u8;
    let b3 = (u & 0xff) as u8;
    proof {
        assert((u >> 24) == u / 0x1000000 && (u >> 16) & 0xff == (u / 0x10000) % 0x100 && (u >> 8)
            & 0xff == (u / 0x100) % 0x100 && u & 0xff == u % 0x100) by (bit_vector);
    }
    [b0, b1, b2, b3]
}

/// Reads an integer column value back from four big-endian bytes.
pub fn bytes_to_int(bytes: &[u8; 4]) -> (r: i32)
    ensures
        r == spec_bytes_to_int(bytes@),
{
    let u = ((bytes[0] as u32) << 24) | ((bytes[1] as u32) << 16) | ((bytes[2] as u32) << 8) | (
    bytes[3] as u32);
    proof {
        let b0 = bytes@[0];
        let b1 = bytes@[1];
        let b2 = bytes@[2];
        let b3 = bytes@[3];
        assert(((b0 as u32) << 24) | ((b1 as u32) << 16) | ((b2 as u32) << 8) | (b3 as u32) == (
        b0 as u32) * 0x1000000 + (b1 as u32) * 0x10000 + (b2 as u32) * 0x100 + (b3 as u32))
            by (bit_vector);
    }
    u as i32
}

/// Serialisation and parsing round-trip on integer column values: reading the
/// four bytes written for `value` gives `value` back.
pub proof fn lemma_int_bytes_round_trip(value: i32)
    ensures
        spec_bytes_to_int(spec_int_to_bytes(value)) == value,
{
    let u = value as u32;
    let b0 = (u / 0x1000000) as u8;
    let b1 = ((u / 0x10000) % 0x100) as u8;
    let b2 = ((u / 0x100) % 0x100) as u8;
    let b3 = (u % 0x100) as u8;
    assert((b0 as u32) * 0x1000000 + (b1 as u32) * 0x10000 + (b2 as u32) * 0x100 + (b3 as u32)
        == u) by (bit_vector)
        requires
            b0 == (u / 0x1000000) as u8 && b1 == ((u / 0x10000) % 0x100) as u8 && b2 == ((u
                / 0x100) % 0x100) as u8 && b3 == (u % 0x100) as u8,
    ;
    assert(((value as u32) as i32) == value) by (bit_vector);
}

/// The UTF-8 bytes of a text column value.
pub fn string_to_bytes(value: &str) -> (r: &[u8])
    ensures
        r@ == value.spec_bytes(),
{
    value.as_bytes()
}

} // verus!
