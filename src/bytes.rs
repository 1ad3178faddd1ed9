//! Little-endian encoding of 32-bit integers.

use vstd::prelude::*;

verus! {

/// The four little-endian bytes of `x`.
pub open spec fn le_bytes(x: u32) -> Seq<u8> {
    seq![
        (x & 0xff) as u8,
        ((x >> 8u32) & 0xff) as u8,
        ((x >> 16u32) & 0xff) as u8,
        ((x >> 24u32) & 0xff) as u8,
    ]
}

/// The integer held little-endian in the first four bytes of `b`.
pub open spec fn le_value(b: Seq<u8>) -> u32
    recommends
        b.len() >= 4,
{
    (b[0] as u32) | ((b[1] as u32) << 8u32) | ((b[2] as u32) << 16u32) | ((b[3] as u32) << 24u32)
}

/// Reading back the four bytes of `x` gives `x`.
pub proof fn lemma_le_value_of_bytes(x: u32)
    ensures
        le_value(le_bytes(x)) == x,
{
    let b = le_bytes(x);
    let b0 = (x & 0xff) as u8;
    let b1 = ((x >> 8u32) & 0xff) as u8;
    let b2 = ((x >> 16u32) & 0xff) as u8;
    let b3 = ((x >> 24u32) & 0xff) as u8;
    assert(b[0] == b0 && b[1] == b1 && b[2] == b2 && b[3] == b3);
    assert((b0 as u32) | ((b1 as u32) << 8u32) | ((b2 as u32) << 16u32) | ((b3 as u32) << 24u32)
        == x) by (bit_vector)
        requires
            b0 == (x & 0xff) as u8,
            b1 == ((x >> 8u32) & 0xff) as u8,
            b2 == ((x >> 16u32) & 0xff) as u8,
            b3 == ((x >> 24u32) & 0xff) as u8,
    ;
}

/// The little-endian bytes of `x`.
pub fn to_4u8(x: u32) -> (r: [u8; 4])
    ensures
        r@ == le_bytes(x),
{
    let r = [
        (x & 0xff) as u8,
        ((x >> 8u32) & 0xff) as u8,
        ((x >> 16u32) & 0xff) as u8,
        ((x >> 24u32) & 0xff) as u8,
    ];
    assert(r@ =~= le_bytes(x));
    r
}

/// The integer held little-endian in the first four bytes of `x`, or `None`
/// where `x` is shorter than four bytes.
pub fn to_u32(x: &[u8]) -> (r: Option<u32>)
    ensures
        x@.len() < 4 ==> r is None,
        x@.len() >= 4 ==> r == Some(le_value(x@)),
{
    if x.len() < 4 {
        return None;
    }
    Some((x[0] as u32) | ((x[1] as u32) << 8u32) | ((x[2] as u32) << 16u32) | ((x[3] as u32)
        << 24u32))
}

} // verus!
