//! Big-endian byte-level primitives shared by the binary layouts of
//! `Commit`, `CommitStateInner`, `Index` and `Pack`.

use vstd::prelude::*;

verus! {

/// The two big-endian bytes of a 16-bit value.
pub open spec fn be16(v: u16) -> Seq<u8> {
    seq![((v >> 8) & 0xff) as u8, (v & 0xff) as u8]
}

/// The 16-bit value read big-endian from the first two bytes.
pub open spec fn de16(b: Seq<u8>) -> u16
    recommends
        b.len() >= 2,
{
    (((b[0] as u16) << 8) | (b[1] as u16)) as u16
}

/// The four big-endian bytes of a 32-bit value.
pub open spec fn be32(v: u32) -> Seq<u8> {
    seq![
        ((v >> 24) & 0xff) as u8,
        ((v >> 16) & 0xff) as u8,
        ((v >> 8) & 0xff) as u8,
        (v & 0xff) as u8,
    ]
}

/// The 32-bit value read big-endian from the first four bytes.
pub open spec fn de32(b: Seq<u8>) -> u32
    recommends
        b.len() >= 4,
{
    (((b[0] as u32) << 24) | ((b[1] as u32) << 16) | ((b[2] as u32) << 8) | (b[3] as u32)) as u32
}

/// The eight big-endian bytes of a 64-bit value.
pub open spec fn be64(v: u64) -> Seq<u8> {
    seq![
        ((v >> 56) & 0xff) as u8,
        ((v >> 48) & 0xff) as u8,
        ((v >> 40) & 0xff) as u8,
        ((v >> 32) & 0xff) as u8,
        ((v >> 24) & 0xff) as u8,
        ((v >> 16) & 0xff) as u8,
        ((v >> 8) & 0xff) as u8,
        (v & 0xff) as u8,
    ]
}

/// Reading back the two bytes of `be16` recovers the value.
pub(crate) proof fn lemma_de16_be16(v: u16)
    ensures
        de16(be16(v)) == v,
{
    assert(((((((v >> 8) & 0xff) as u8) as u16) << 8) | (((v & 0xff) as u8) as u16)) as u16 == v)
        by (bit_vector);
}

/// Reading back the four bytes of `be32` recovers the value.
pub(crate) proof fn lemma_de32_be32(v: u32)
    ensures
        de32(be32(v)) == v,
{
    assert((((((v >> 24) & 0xff) as u8) as u32) << 24 | ((((v >> 16) & 0xff) as u8) as u32) << 16
        | ((((v >> 8) & 0xff) as u8) as u32) << 8 | (((v & 0xff) as u8) as u32)) as u32 == v)
        by (bit_vector);
}

/// Appends the two big-endian bytes of `v`.
pub fn push_u16(buf: &mut Vec<u8>, v: u16)
    ensures
        final(buf)@ == old(buf)@ + be16(v),
{
    buf.push(((v >> 8) & 0xff) as u8);
    buf.push((v & 0xff) as u8);
    assert(buf@ =~= old(buf)@ + be16(v));
}

/// Appends the four big-endian bytes of `v`.
pub fn push_u32(buf: &mut Vec<u8>, v: u32)
    ensures
        final(buf)@ == old(buf)@ + be32(v),
{
    buf.push(((v >> 24) & 0xff) as u8);
    buf.push(((v >> 16) & 0xff) as u8);
    buf.push(((v >> 8) & 0xff) as u8);
    buf.push((v & 0xff) as u8);
    assert(buf@ =~= old(buf)@ + be32(v));
}

/// Reads a 16-bit value big-endian at offset `i`.
pub fn read_u16(buf: &[u8], i: usize) -> (r: u16)
    requires
        i + 2 <= buf@.len(),
    ensures
        r == de16(buf@.skip(i as int)),
{
    let b0 = buf[i];
    let b1 = buf[i + 1];
    assert(buf@.skip(i as int)[0] == b0);
    assert(buf@.skip(i as int)[1] == b1);
    ((b0 as u16) << 8) | (b1 as u16)
}

/// Reads a 32-bit value big-endian at offset `i`.
pub fn read_u32(buf: &[u8], i: usize) -> (r: u32)
    requires
        i + 4 <= buf@.len(),
    ensures
        r == de32(buf@.skip(i as int)),
{
    let b0 = buf[i];
    let b1 = buf[i + 1];
    let b2 = buf[i + 2];
    let b3 = buf[i + 3];
    assert(buf@.skip(i as int)[0] == b0);
    assert(buf@.skip(i as int)[1] == b1);
    assert(buf@.skip(i as int)[2] == b2);
    assert(buf@.skip(i as int)[3] == b3);
    ((b0 as u32) << 24) | ((b1 as u32) << 16) | ((b2 as u32) << 8) | (b3 as u32)
}

/// Appends every byte of `s`.
pub fn push_bytes(buf: &mut Vec<u8>, s: &[u8])
    ensures
        final(buf)@ == old(buf)@ + s@,
{
    let n = s.len();
    let mut i: usize = 0;
    while i < n
        invariant
            n == s@.len(),
            0 <= i <= n,
            buf@ == old(buf)@ + s@.take(i as int),
        decreases n - i,
    {
        buf.push(s[i]);
        assert(buf@ =~= old(buf)@ + s@.take(i + 1));
        i = i + 1;
    }
    assert(s@.take(n as int) =~= s@);
}

/// Whether two byte strings hold the same bytes.
pub fn bytes_eq(a: &[u8], b: &[u8]) -> (r: bool)
    ensures
        r <==> a@ == b@,
{
    if a.len() != b.len() {
        assert(a@.len() != b@.len());
        return false;
    }
    let n = a.len();
    let mut i: usize = 0;
    while i < n
        invariant
            n == a@.len(),
            n == b@.len(),
            0 <= i <= n,
            forall|k: int| 0 <= k < i ==> a@[k] == b@[k],
        decreases n - i,
    {
        if a[i] != b[i] {
            return false;
        }
        i = i + 1;
    }
    proof {
        assert(a@ =~= b@);
    }
    true
}

} // verus!
