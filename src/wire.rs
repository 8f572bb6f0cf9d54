//! Big-endian packing of the 32-bit length prefix.

use vstd::prelude::*;

verus! {

/// The value of four bytes read most significant first.
pub open spec fn be_value(b: Seq<u8>) -> nat
    recommends
        b.len() == 4,
{
    b[0] as nat * 16777216 + b[1] as nat * 65536 + b[2] as nat * 256 + b[3] as nat
}

/// The four bytes of `n`, most significant first.
pub open spec fn be_bytes(n: u32) -> Seq<u8> {
    seq![
        (n / 16777216) as u8,
        ((n / 65536) % 256) as u8,
        ((n / 256) % 256) as u8,
        (n % 256) as u8,
    ]
}

/// Splits `input` into its four bytes, most significant first.
pub fn split_u32_into_u8s(input: u32) -> (r: [u8; 4])
    ensures
        r@ == be_bytes(input),
{
    assert(input >> 24u32 == input / 16777216) by (bit_vector);
    assert((input >> 16u32) & 0xFFu32 == (input / 65536) % 256) by (bit_vector);
    assert((input >> 8u32) & 0xFFu32 == (input / 256) % 256) by (bit_vector);
    assert(input & 0xFFu32 == input % 256) by (bit_vector);
    let byte1 = (input >> 24u32) as u8;
    let byte2 = ((input >> 16u32) & 0xFFu32) as u8;
    let byte3 = ((input >> 8u32) & 0xFFu32) as u8;
    let byte4 = (input & 0xFFu32) as u8;
    let r = [byte1, byte2, byte3, byte4];
    assert(r@ =~= be_bytes(input));
    r
}

/// Joins four bytes, most significant first, into one number.
pub fn combine_u8s_into_u32(bytes: [u8; 4]) -> (r: u32)
    ensures
        r as nat == be_value(bytes@),
{
    let b0 = bytes[0];
    let b1 = bytes[1];
    let b2 = bytes[2];
    let b3 = bytes[3];
    let byte1 = (b0 as u32) << 24u32;
    let byte2 = (b1 as u32) << 16u32;
    let byte3 = (b2 as u32) << 8u32;
    let byte4 = b3 as u32;
    let r = byte1 | byte2 | byte3 | byte4;
    assert(r == (b0 as u32) * 16777216 + (b1 as u32) * 65536 + (b2 as u32) * 256 + (b3 as u32))
        by (bit_vector)
        requires
            r == ((b0 as u32) << 24u32) | ((b1 as u32) << 16u32) | ((b2 as u32) << 8u32) | (b3 as u32),
    ;
    r
}

/// Reading back the four bytes of a number gives the number.
pub proof fn lemma_be_value_of_bytes(n: u32)
    ensures
        be_value(be_bytes(n)) == n as nat,
{
    let b = be_bytes(n);
    assert(b[0] as nat * 16777216 + b[1] as nat * 65536 + b[2] as nat * 256 + b[3] as nat
        == n as nat) by (nonlinear_arith)
        requires
            b[0] == (n / 16777216) as u8,
            b[1] == ((n / 65536) % 256) as u8,
            b[2] == ((n / 256) % 256) as u8,
            b[3] == (n % 256) as u8,
    ;
}

} // verus!
