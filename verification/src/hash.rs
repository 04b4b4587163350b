//! Content hashing and partition selection.
//!
//! A key's partition is the top `prefix_bits` bits of its 64-bit
//! content hash; it depends on the key bytes alone, so a key maps to
//! the same partition for the lifetime of a store.

use vstd::prelude::*;

verus! {

/// The 64-bit content hash of a byte string. The hash is a pure
/// function of the bytes; no statement is made about its value.
pub uninterp spec fn xxh3_of(key: Seq<u8>) -> u64;

/// Relies on `xxhash_rust::xxh3::xxh3_64`: a seedless 64-bit hash
/// determined by the input bytes alone.
#[verifier::external_body]
pub(crate) fn xxh3_hash(key: &[u8]) -> (r: u64)
    ensures
        r == xxh3_of(key@),
{
    xxhash_rust::xxh3::xxh3_64(key)
}

/// The partition a 64-bit hash selects: its top `bits` bits.
pub open spec fn part_of_hash(h: u64, bits: usize) -> u64
    recommends
        1 <= bits <= 30,
{
    h >> ((64 - bits) as u64)
}

/// The number of partitions a store with `bits` prefix bits has.
pub open spec fn part_count(bits: usize) -> u64
    recommends
        1 <= bits <= 30,
{
    1u64 << (bits as u64)
}

/// A partition id is always below the partition count.
pub proof fn lemma_part_in_range(h: u64, bits: usize)
    requires
        1 <= bits <= 30,
    ensures
        part_of_hash(h, bits) < part_count(bits),
        part_count(bits) <= 0x4000_0000,
{
    let b = bits as u64;
    assert(1 <= b <= 30 ==> (h >> ((64 - b) as u64)) < (1u64 << b) && (1u64 << b)
        <= 0x4000_0000u64) by (bit_vector);
}

/// Hashes `key` and selects its partition under `bits` prefix bits.
pub fn key_partition(key: &[u8], bits: usize) -> (r: (u32, u64))
    requires
        1 <= bits <= 30,
    ensures
        r.1 == xxh3_of(key@),
        r.0 == part_of_hash(r.1, bits),
        r.0 < part_count(bits),
{
    let h = xxh3_hash(key);
    proof {
        lemma_part_in_range(h, bits);
    }
    let shift = (64 - bits) as u64;
    let part64 = h >> shift;
    assert(part64 == part_of_hash(h, bits));
    (part64 as u32, h)
}

} // verus!
