//! The partition index of one version: for every partition, the
//! version whose Pack holds that partition's latest entries.

use vstd::prelude::*;

use crate::codec::{be16, de16, lemma_de16_be16, push_u16, read_u16};
use crate::error::Error;
use crate::hash::{key_partition, part_count, part_of_hash, xxh3_of};
use crate::codec::be64;

verus! {

/// The byte layout of a version list: each version two bytes
/// big-endian, in partition order.
pub open spec fn enc_vers(s: Seq<u16>) -> Seq<u8>
    decreases s.len(),
{
    if s.len() == 0 {
        Seq::empty()
    } else {
        be16(s[0]) + enc_vers(s.drop_first())
    }
}

/// The version list read from bytes; the whole buffer must be
/// consumed in two-byte steps.
pub open spec fn dec_vers(b: Seq<u8>) -> Option<Seq<u16>>
    decreases b.len(),
{
    if b.len() == 0 {
        Some(Seq::empty())
    } else if b.len() < 2 {
        None
    } else {
        match dec_vers(b.skip(2)) {
            Some(rest) => Some(seq![de16(b)] + rest),
            None => None,
        }
    }
}

pub(crate) proof fn lemma_enc_vers_snoc(s: Seq<u16>, v: u16)
    ensures
        enc_vers(s.push(v)) == enc_vers(s) + be16(v),
    decreases s.len(),
{
    if s.len() == 0 {
        assert(s.push(v).drop_first() =~= Seq::<u16>::empty());
        assert(s.push(v)[0] == v);
        assert(enc_vers(Seq::<u16>::empty()) == Seq::<u8>::empty());
        assert(enc_vers(s.push(v)) == be16(v) + Seq::<u8>::empty());
        assert(enc_vers(s.push(v)) =~= enc_vers(s) + be16(v));
    } else {
        assert(s.push(v).drop_first() =~= s.drop_first().push(v));
        lemma_enc_vers_snoc(s.drop_first(), v);
        assert(s.push(v)[0] == s[0]);
        assert(enc_vers(s.push(v)) == be16(s[0]) + (enc_vers(s.drop_first()) + be16(v)));
        assert(be16(s[0]) + (enc_vers(s.drop_first()) + be16(v)) =~= (be16(s[0]) + enc_vers(
            s.drop_first(),
        )) + be16(v));
        assert(enc_vers(s.push(v)) =~= enc_vers(s) + be16(v));
    }
}

pub(crate) proof fn lemma_dec_enc_vers(s: Seq<u16>)
    ensures
        dec_vers(enc_vers(s)) == Some(s),
    decreases s.len(),
{
    if s.len() == 0 {
    } else {
        let b = enc_vers(s);
        assert(b.len() >= 2);
        assert(b.skip(2) =~= enc_vers(s.drop_first()));
        lemma_dec_enc_vers(s.drop_first());
        lemma_de16_be16(s[0]);
        assert(b[0] == be16(s[0])[0] && b[1] == be16(s[0])[1]);
        assert(de16(b) == de16(be16(s[0])));
        assert(seq![s[0]] + s.drop_first() =~= s);
    }
}

/// The byte layout of an index: its version, the prefix-bit count as
/// one byte, then the dense version list.
pub open spec fn enc_index(ver: u16, prefix_bits: usize, vlist: Seq<u16>) -> Seq<u8> {
    be16(ver) + seq![prefix_bits as u8] + enc_vers(vlist)
}

/// The index read from bytes: the prefix-bit count must be between 1
/// and 30 and the version list exactly one entry per partition.
pub open spec fn dec_index(b: Seq<u8>) -> Option<(u16, usize, Seq<u16>)> {
    if b.len() >= 3 {
        let bits = b[2] as usize;
        if 1 <= bits <= 30 {
            match dec_vers(b.skip(3)) {
                Some(vs) => if vs.len() == part_count(bits) {
                    Some((de16(b), bits, vs))
                } else {
                    None
                },
                None => None,
            }
        } else {
            None
        }
    } else {
        None
    }
}

/// Serializing and then deserializing an index recovers it.
pub proof fn lemma_index_round_trip(ver: u16, prefix_bits: usize, vlist: Seq<u16>)
    requires
        1 <= prefix_bits <= 30,
        vlist.len() == part_count(prefix_bits),
    ensures
        dec_index(enc_index(ver, prefix_bits, vlist)) == Some((ver, prefix_bits, vlist)),
{
    let b = enc_index(ver, prefix_bits, vlist);
    assert(b.skip(3) =~= enc_vers(vlist));
    lemma_dec_enc_vers(vlist);
    lemma_de16_be16(ver);
    assert(b[0] == be16(ver)[0] && b[1] == be16(ver)[1]);
    assert(de16(b) == de16(be16(ver)));
    assert(b[2] == prefix_bits as u8);
    assert((prefix_bits as u8) as usize == prefix_bits);
}

/// Partitioning is stable across serialization: an index rebuilt
/// from another's serialized bytes carries the same prefix-bit
/// count, so it sends every key to the same partition.
pub proof fn lemma_partition_stable(idx: &Index, k: Seq<u8>)
    requires
        idx.wf(),
    ensures
        ({
            let b = enc_index(idx.ver_spec(), idx.prefix_bits_spec(), idx.vlist());
            &&& dec_index(b) matches Some(v)
            &&& part_of_hash(xxh3_of(k), dec_index(b)->Some_0.1) == part_of_hash(
                xxh3_of(k),
                idx.prefix_bits_spec(),
            )
        }),
{
    lemma_index_round_trip(idx.ver_spec(), idx.prefix_bits_spec(), idx.vlist());
}

/// The partition index bound to one version: `version_list[p]` holds
/// the version whose Pack last wrote partition `p`, 0 for never.
#[derive(Debug, Clone)]
pub struct Index {
    ver: u16,
    prefix_bits: usize,
    version_list: Vec<u16>,
}

impl Index {
    /// The bound version, for specification use.
    pub closed spec fn ver_spec(&self) -> u16 {
        self.ver
    }

    /// The prefix-bit count, for specification use.
    pub closed spec fn prefix_bits_spec(&self) -> usize {
        self.prefix_bits
    }

    /// The dense version list, for specification use.
    pub closed spec fn vlist(&self) -> Seq<u16> {
        self.version_list@
    }

    /// The prefix-bit count is in range and the list is one entry per
    /// partition.
    pub open spec fn wf(&self) -> bool {
        &&& 1 <= self.prefix_bits_spec() <= 30
        &&& self.vlist().len() == part_count(self.prefix_bits_spec())
    }

    /// A fresh index for `ver`: every partition unwritten.
    pub fn new(prefix_bits: usize, ver: u16) -> (r: Index)
        requires
            1 <= prefix_bits <= 30,
        ensures
            r.wf(),
            r.ver_spec() == ver,
            r.prefix_bits_spec() == prefix_bits,
            r.vlist() == Seq::<u16>::new(part_count(prefix_bits) as nat, |i: int| 0u16),
    {
        let n64: u64 = 1u64 << (prefix_bits as u64);
        proof {
            let b = prefix_bits as u64;
            assert(1 <= b <= 30 ==> (1u64 << b) <= 0x4000_0000u64) by (bit_vector);
        }
        let n: usize = n64 as usize;
        let mut version_list: Vec<u16> = Vec::new();
        let mut i: usize = 0;
        while i < n
            invariant
                0 <= i <= n,
                version_list@.len() == i,
                forall|k: int| 0 <= k < i ==> version_list@[k] == 0u16,
            decreases n - i,
        {
            version_list.push(0);
            i = i + 1;
        }
        let r = Index { ver, prefix_bits, version_list };
        proof {
            assert(r.vlist() =~= Seq::<u16>::new(part_count(prefix_bits) as nat, |i: int| 0u16));
        }
        r
    }

    /// Rebinds the index to another version; the list is untouched.
    pub fn set_version(&mut self, ver: u16)
        ensures
            final(self).ver_spec() == ver,
            final(self).prefix_bits_spec() == old(self).prefix_bits_spec(),
            final(self).vlist() == old(self).vlist(),
            old(self).wf() ==> final(self).wf(),
    {
        self.ver = ver;
    }

    /// The prefix-bit count the index was built with.
    pub fn prefix_bits(&self) -> (r: usize)
        ensures
            r == self.prefix_bits_spec(),
    {
        self.prefix_bits
    }

    /// The number of partitions, which is also the list's length.
    pub fn len(&self) -> (r: usize)
        requires
            self.wf(),
        ensures
            r == self.vlist().len(),
            r == part_count(self.prefix_bits_spec()),
    {
        self.version_list.len()
    }

    /// The version recorded for partition `pos`.
    pub fn get_prefix_version(&self, pos: usize) -> (r: u16)
        requires
            self.wf(),
            pos < self.vlist().len(),
        ensures
            r == self.vlist()[pos as int],
    {
        self.version_list[pos]
    }

    /// Hashes the key and returns the version recorded for its
    /// partition, the partition id, and the hash's eight bytes.
    pub fn get_part(&self, key: &[u8]) -> (r: (u16, u32, [u8; 8]))
        requires
            self.wf(),
        ensures
            r.1 == part_of_hash(xxh3_of(key@), self.prefix_bits_spec()),
            r.1 < part_count(self.prefix_bits_spec()),
            r.0 == self.vlist()[r.1 as int],
            r.2@ == be64(xxh3_of(key@)),
    {
        let (part, h) = key_partition(key, self.prefix_bits);
        let ver = self.version_list[part as usize];
        let hb: [u8; 8] = [
            ((h >> 56) & 0xff) as u8,
            ((h >> 48) & 0xff) as u8,
            ((h >> 40) & 0xff) as u8,
            ((h >> 32) & 0xff) as u8,
            ((h >> 24) & 0xff) as u8,
            ((h >> 16) & 0xff) as u8,
            ((h >> 8) & 0xff) as u8,
            (h & 0xff) as u8,
        ];
        proof {
            assert(hb@ =~= be64(h));
        }
        (ver, part, hb)
    }

    /// Records `ver` as the version holding partition `part`'s Pack;
    /// an unconditional overwrite.
    pub fn set_part(&mut self, part: u32, ver: u16)
        requires
            old(self).wf(),
            part < part_count(old(self).prefix_bits_spec()),
        ensures
            final(self).wf(),
            final(self).ver_spec() == old(self).ver_spec(),
            final(self).prefix_bits_spec() == old(self).prefix_bits_spec(),
            final(self).vlist() == old(self).vlist().update(part as int, ver),
    {
        self.version_list.set(part as usize, ver);
    }

    /// Serializes the index under the stable binary layout.
    pub fn to_vec(&self) -> (r: Result<Vec<u8>, Error>)
        ensures
            r matches Ok(b) && b@ == enc_index(
                self.ver_spec(),
                self.prefix_bits_spec(),
                self.vlist(),
            ),
    {
        let mut buf: Vec<u8> = Vec::new();
        push_u16(&mut buf, self.ver);
        buf.push(self.prefix_bits as u8);
        let n = self.version_list.len();
        let mut i: usize = 0;
        while i < n
            invariant
                n == self.version_list.len(),
                0 <= i <= n,
                buf@ == be16(self.ver_spec()) + seq![self.prefix_bits_spec() as u8] + enc_vers(
                    self.vlist().take(i as int),
                ),
            decreases n - i,
        {
            push_u16(&mut buf, self.version_list[i]);
            proof {
                lemma_enc_vers_snoc(self.vlist().take(i as int), self.vlist()[i as int]);
                assert(self.vlist().take(i as int).push(self.vlist()[i as int]) =~= self.vlist()
                    .take(i + 1));
                assert(buf@ =~= be16(self.ver_spec()) + seq![self.prefix_bits_spec() as u8]
                    + enc_vers(self.vlist().take(i + 1)));
            }
            i = i + 1;
        }
        proof {
            assert(self.vlist().take(n as int) =~= self.vlist());
            assert(buf@ =~= enc_index(self.ver_spec(), self.prefix_bits_spec(), self.vlist()));
        }
        Ok(buf)
    }

    /// Deserializes an index; the version list must consume the
    /// buffer and match the prefix-bit count.
    pub fn new_with_buf(buf: &[u8]) -> (r: Result<Index, Error>)
        ensures
            match r {
                Ok(idx) => {
                    &&& dec_index(buf@) matches Some(v)
                    &&& idx.ver_spec() == v.0
                    &&& idx.prefix_bits_spec() == v.1
                    &&& idx.vlist() == v.2
                    &&& idx.wf()
                },
                Err(e) => dec_index(buf@) is None && e == Error::DecodeError,
            },
    {
        if buf.len() < 3 {
            return Err(Error::DecodeError);
        }
        let ver = read_u16(buf, 0);
        assert(buf@.skip(0) =~= buf@);
        let prefix_bits_u8 = buf[2];
        let prefix_bits = prefix_bits_u8 as usize;
        if prefix_bits < 1 || prefix_bits > 30 {
            return Err(Error::DecodeError);
        }
        let mut version_list: Vec<u16> = Vec::new();
        let mut i: usize = 3;
        while buf.len() - i >= 2
            invariant
                3 <= i <= buf@.len(),
                dec_vers(buf@.skip(3)) == (match dec_vers(buf@.skip(i as int)) {
                    Some(rest) => Some(version_list@ + rest),
                    None => None::<Seq<u16>>,
                }),
            decreases buf@.len() - i,
        {
            let v = read_u16(buf, i);
            proof {
                let tail = buf@.skip(i as int);
                assert(tail.len() >= 2);
                assert(tail.skip(2) =~= buf@.skip(i + 2));
                assert(de16(tail) == v);
                assert(forall|rest: Seq<u16>| (version_list@ + (seq![v] + rest))
                    =~= (version_list@.push(v) + rest));
            }
            version_list.push(v);
            i = i + 2;
        }
        if i != buf.len() {
            proof {
                assert(buf@.skip(i as int).len() == 1);
                assert(dec_vers(buf@.skip(i as int)) is None);
            }
            return Err(Error::DecodeError);
        }
        proof {
            assert(buf@.skip(i as int).len() == 0);
            assert(dec_vers(buf@.skip(i as int)) == Some(Seq::<u16>::empty()));
            assert(version_list@ + Seq::<u16>::empty() =~= version_list@);
        }
        let n64: u64 = 1u64 << (prefix_bits as u64);
        proof {
            let b = prefix_bits as u64;
            assert(1 <= b <= 30 ==> (1u64 << b) <= 0x4000_0000u64) by (bit_vector);
        }
        let expected: usize = n64 as usize;
        if version_list.len() != expected {
            return Err(Error::DecodeError);
        }
        Ok(Index { ver, prefix_bits, version_list })
    }
}

} // verus!
