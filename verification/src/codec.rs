//! Little-endian encoding of 64-bit integers, used for the persisted metadata
//! fields (the region count, the vector length, and each record's length frame).

use vstd::prelude::*;

verus! {

/// The eight little-endian bytes of a 64-bit integer, least significant first.
pub open spec fn u64_le_bytes(x: u64) -> Seq<u8> {
    seq![
        (x & 0xff) as u8,
        ((x >> 8) & 0xff) as u8,
        ((x >> 16) & 0xff) as u8,
        ((x >> 24) & 0xff) as u8,
        ((x >> 32) & 0xff) as u8,
        ((x >> 40) & 0xff) as u8,
        ((x >> 48) & 0xff) as u8,
        ((x >> 56) & 0xff) as u8,
    ]
}

/// The integer denoted by eight little-endian bytes.
pub open spec fn le64_val(bs: Seq<u8>) -> int {
    bs[0] as int
        + 256 * (bs[1] as int
        + 256 * (bs[2] as int
        + 256 * (bs[3] as int
        + 256 * (bs[4] as int
        + 256 * (bs[5] as int
        + 256 * (bs[6] as int
        + 256 * (bs[7] as int)))))))
}

/// Decoding the little-endian bytes of `x` gives back `x`.
pub proof fn lemma_le64_val_of_bytes(x: u64)
    ensures
        le64_val(u64_le_bytes(x)) == x,
{
    assert((x & 0xff) as u8 as int + 256 * (((x >> 8) & 0xff) as u8 as int + 256
        * (((x >> 16) & 0xff) as u8 as int + 256 * (((x >> 24) & 0xff) as u8 as int + 256
        * (((x >> 32) & 0xff) as u8 as int + 256 * (((x >> 40) & 0xff) as u8 as int + 256
        * (((x >> 48) & 0xff) as u8 as int + 256 * (((x >> 56) & 0xff) as u8 as int)))))))
        == x) by (bit_vector);
}

/// Two integers with the same little-endian bytes are equal.
pub proof fn lemma_u64_le_bytes_inj(a: u64, b: u64)
    requires
        u64_le_bytes(a) == u64_le_bytes(b),
    ensures
        a == b,
{
    lemma_le64_val_of_bytes(a);
    lemma_le64_val_of_bytes(b);
}

/// Encode a 64-bit integer as its eight little-endian bytes.
pub fn u64_to_le(x: u64) -> (r: Vec<u8>)
    ensures
        r@ == u64_le_bytes(x),
{
    proof {
        assert(x & 0xff < 256 && (x >> 8) & 0xff < 256 && (x >> 16) & 0xff < 256 && (x >> 24)
            & 0xff < 256 && (x >> 32) & 0xff < 256 && (x >> 40) & 0xff < 256 && (x >> 48) & 0xff
            < 256 && (x >> 56) & 0xff < 256) by (bit_vector);
    }
    let mut v: Vec<u8> = Vec::new();
    v.push((x & 0xff) as u8);
    v.push(((x >> 8) & 0xff) as u8);
    v.push(((x >> 16) & 0xff) as u8);
    v.push(((x >> 24) & 0xff) as u8);
    v.push(((x >> 32) & 0xff) as u8);
    v.push(((x >> 40) & 0xff) as u8);
    v.push(((x >> 48) & 0xff) as u8);
    v.push(((x >> 56) & 0xff) as u8);
    proof {
        assert(v@ =~= u64_le_bytes(x));
    }
    v
}

/// Decode eight little-endian bytes into the unique integer they denote.
pub fn u64_from_le(b: &Vec<u8>) -> (r: u64)
    requires
        b@.len() == 8,
    ensures
        u64_le_bytes(r) == b@,
        r as int == le64_val(b@),
{
    let b0 = b[0];
    let b1 = b[1];
    let b2 = b[2];
    let b3 = b[3];
    let b4 = b[4];
    let b5 = b[5];
    let b6 = b[6];
    let b7 = b[7];
    let x: u64 = (b0 as u64) | ((b1 as u64) << 8) | ((b2 as u64) << 16) | ((b3 as u64) << 24) | (
    (b4 as u64) << 32) | ((b5 as u64) << 40) | ((b6 as u64) << 48) | ((b7 as u64) << 56);
    proof {
        let y = x;
        assert((y & 0xff) as u8 == b0 && ((y >> 8) & 0xff) as u8 == b1 && ((y >> 16) & 0xff) as u8
            == b2 && ((y >> 24) & 0xff) as u8 == b3 && ((y >> 32) & 0xff) as u8 == b4 && ((y >> 40)
            & 0xff) as u8 == b5 && ((y >> 48) & 0xff) as u8 == b6 && ((y >> 56) & 0xff) as u8 == b7)
            by (bit_vector)
            requires
                y == (b0 as u64) | ((b1 as u64) << 8) | ((b2 as u64) << 16) | ((b3 as u64) << 24)
                    | ((b4 as u64) << 32) | ((b5 as u64) << 40) | ((b6 as u64) << 48) | ((
                b7 as u64) << 56),
        ;
        assert(u64_le_bytes(x) =~= b@);
        lemma_le64_val_of_bytes(x);
    }
    x
}

} // verus!
