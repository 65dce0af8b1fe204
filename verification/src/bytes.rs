//! Big-endian byte spellings of the 64-bit short ids, which is how every key
//! and stored value of the room services writes a number.

use vstd::prelude::*;

verus! {

/// The eight big-endian bytes of `x`.
pub open spec fn be_bytes(x: u64) -> Seq<u8> {
    seq![
        (x >> 56u64) as u8,
        (x >> 48u64) as u8,
        (x >> 40u64) as u8,
        (x >> 32u64) as u8,
        (x >> 24u64) as u8,
        (x >> 16u64) as u8,
        (x >> 8u64) as u8,
        x as u8,
    ]
}

/// The number eight big-endian bytes spell, starting at `at`.
pub open spec fn from_be_bytes(b: Seq<u8>, at: int) -> u64 {
    (b[at] as u64) << 56u64 | (b[at + 1] as u64) << 48u64 | (b[at + 2] as u64) << 40u64 | (
    b[at + 3] as u64) << 32u64 | (b[at + 4] as u64) << 24u64 | (b[at + 5] as u64) << 16u64 | (
    b[at + 6] as u64) << 8u64 | (b[at + 7] as u64)
}

/// Reading back what was written gives the number that was written.
pub proof fn lemma_be_bytes_round_trip(x: u64)
    ensures
        from_be_bytes(be_bytes(x), 0) == x,
{
    let b = be_bytes(x);
    assert(b[0] == (x >> 56u64) as u8 && b[1] == (x >> 48u64) as u8 && b[2] == (x >> 40u64) as u8
        && b[3] == (x >> 32u64) as u8 && b[4] == (x >> 24u64) as u8 && b[5] == (x >> 16u64) as u8
        && b[6] == (x >> 8u64) as u8 && b[7] == x as u8);
    assert(((((x >> 56u64) as u8) as u64) << 56u64 | (((x >> 48u64) as u8) as u64) << 48u64 | (((x
        >> 40u64) as u8) as u64) << 40u64 | (((x >> 32u64) as u8) as u64) << 32u64 | (((x
        >> 24u64) as u8) as u64) << 24u64 | (((x >> 16u64) as u8) as u64) << 16u64 | (((x
        >> 8u64) as u8) as u64) << 8u64 | ((x as u8) as u64)) == x) by (bit_vector);
}

/// Writing back what was read gives the bytes that were read.
pub proof fn lemma_from_be_bytes_round_trip(b: Seq<u8>, at: int)
    requires
        0 <= at,
        at + 8 <= b.len(),
    ensures
        be_bytes(from_be_bytes(b, at)) == b.subrange(at, at + 8),
{
    let (b0, b1, b2, b3, b4, b5, b6, b7) = (
        b[at],
        b[at + 1],
        b[at + 2],
        b[at + 3],
        b[at + 4],
        b[at + 5],
        b[at + 6],
        b[at + 7],
    );
    let x = from_be_bytes(b, at);
    assert(x == (b0 as u64) << 56u64 | (b1 as u64) << 48u64 | (b2 as u64) << 40u64 | (b3 as u64)
        << 32u64 | (b4 as u64) << 24u64 | (b5 as u64) << 16u64 | (b6 as u64) << 8u64 | (b7 as u64));
    assert({
        let y = (b0 as u64) << 56u64 | (b1 as u64) << 48u64 | (b2 as u64) << 40u64 | (b3 as u64)
            << 32u64 | (b4 as u64) << 24u64 | (b5 as u64) << 16u64 | (b6 as u64) << 8u64 | (
        b7 as u64);
        &&& (y >> 56u64) as u8 == b0
        &&& (y >> 48u64) as u8 == b1
        &&& (y >> 40u64) as u8 == b2
        &&& (y >> 32u64) as u8 == b3
        &&& (y >> 24u64) as u8 == b4
        &&& (y >> 16u64) as u8 == b5
        &&& (y >> 8u64) as u8 == b6
        &&& y as u8 == b7
    }) by (bit_vector);
    assert(be_bytes(x) =~= b.subrange(at, at + 8));
}

/// The eight big-endian bytes of `x`, as `u64::to_be_bytes` spells them.
pub fn u64_be_bytes(x: u64) -> (b: [u8; 8])
    ensures
        b@ == be_bytes(x),
{
    let b = [
        (x >> 56u64) as u8,
        (x >> 48u64) as u8,
        (x >> 40u64) as u8,
        (x >> 32u64) as u8,
        (x >> 24u64) as u8,
        (x >> 16u64) as u8,
        (x >> 8u64) as u8,
        x as u8,
    ];
    assert(b@ =~= be_bytes(x));
    b
}

/// The number eight big-endian bytes spell, as `u64::from_be_bytes` reads
/// them, starting at `at`.
pub fn u64_from_be_bytes(b: &[u8], at: usize) -> (x: u64)
    requires
        at + 8 <= b@.len(),
    ensures
        x == from_be_bytes(b@, at as int),
{
    (b[at] as u64) << 56u64 | (b[at + 1] as u64) << 48u64 | (b[at + 2] as u64) << 40u64 | (b[at
        + 3] as u64) << 32u64 | (b[at + 4] as u64) << 24u64 | (b[at + 5] as u64) << 16u64 | (b[at
        + 6] as u64) << 8u64 | (b[at + 7] as u64)
}

} // verus!
