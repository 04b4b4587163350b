//! The single-version key-value backend contract, and an in-memory
//! backend that satisfies it.
//!
//! Any durable store meeting this contract is interchangeable; the
//! versioned layer above never looks inside it.

use vstd::prelude::*;

use crate::codec::{be16, bytes_eq, push_u16};
use crate::error::KvError;

verus! {

/// A single-version key-value backend: byte values stored under an
/// explicit version number and a byte key. Versioned namespacing is
/// the backend's own responsibility.
pub trait KeyValue: Sized {
    /// The backend's abstract content: what each (version, key) pair
    /// currently holds.
    spec fn kv_map(&self) -> Map<(u16, Seq<u8>), Seq<u8>>;

    /// Stores `val` under `(ver, key)`, replacing any earlier value.
    fn put(&mut self, ver: u16, key: &[u8], val: Vec<u8>) -> (r: Result<(), KvError>)
        ensures
            r is Ok ==> final(self).kv_map() == old(self).kv_map().insert((ver, key@), val@),
            r is Err ==> final(self).kv_map() == old(self).kv_map(),
    ;

    /// Reads the value stored under `(ver, key)`, if any.
    fn get(&self, ver: u16, key: &[u8]) -> (r: Result<Option<Vec<u8>>, KvError>)
        ensures
            match r {
                Ok(Some(v)) => self.kv_map().contains_key((ver, key@)) && v@ == self.kv_map()[
                    (ver, key@)
                ],
                Ok(None) => !self.kv_map().contains_key((ver, key@)),
                Err(_) => true,
            },
    ;

    /// Removes whatever is stored under `(ver, key)`.
    fn delete(&mut self, ver: u16, key: &[u8]) -> (r: Result<(), KvError>)
        ensures
            r is Ok ==> final(self).kv_map() == old(self).kv_map().remove((ver, key@)),
            r is Err ==> final(self).kv_map() == old(self).kv_map(),
    ;

    /// Makes earlier writes durable; the content is untouched.
    fn sync(&mut self) -> (r: Result<(), KvError>)
        ensures
            final(self).kv_map() == old(self).kv_map(),
    ;

    /// Prepares a version's namespace; the content is untouched.
    fn create_version(&mut self, ver: u16) -> (r: Result<(), KvError>)
        ensures
            final(self).kv_map() == old(self).kv_map(),
    ;
}

/// A physical key a backend may use to namespace by version: the
/// version big-endian, a separator byte, then the logical key.
pub fn make_key(ver: u16, key: &[u8]) -> (r: Vec<u8>)
    ensures
        r@ == be16(ver) + seq![58u8] + key@,
{
    let mut buf: Vec<u8> = Vec::new();
    push_u16(&mut buf, ver);
    buf.push(58);
    crate::codec::push_bytes(&mut buf, key);
    assert(buf@ =~= be16(ver) + seq![58u8] + key@);
    buf
}

/// One record of the in-memory backend.
#[derive(Debug)]
pub struct MemEntry {
    pub ver: u16,
    pub key: Vec<u8>,
    pub val: Vec<u8>,
}

/// The map a record sequence stands for; a later record overrides an
/// earlier one under the same (version, key).
pub open spec fn mem_map(s: Seq<MemEntry>) -> Map<(u16, Seq<u8>), Seq<u8>>
    decreases s.len(),
{
    if s.len() == 0 {
        Map::empty()
    } else {
        mem_map(s.drop_last()).insert((s.last().ver, s.last().key@), s.last().val@)
    }
}

pub(crate) proof fn lemma_mem_map_found(s: Seq<MemEntry>, i: int, ver: u16, k: Seq<u8>)
    requires
        0 <= i < s.len(),
        s[i].ver == ver && s[i].key@ == k,
        forall|j: int| i < j < s.len() ==> !(s[j].ver == ver && s[j].key@ == k),
    ensures
        mem_map(s).contains_key((ver, k)),
        mem_map(s)[(ver, k)] == s[i].val@,
    decreases s.len(),
{
    if i == s.len() - 1 {
    } else {
        assert(forall|j: int| i < j < s.drop_last().len() ==> s.drop_last()[j] == s[j]);
        lemma_mem_map_found(s.drop_last(), i, ver, k);
        assert(!(s.last().ver == ver && s.last().key@ == k));
    }
}

pub(crate) proof fn lemma_mem_map_absent(s: Seq<MemEntry>, ver: u16, k: Seq<u8>)
    requires
        forall|j: int| 0 <= j < s.len() ==> !(s[j].ver == ver && s[j].key@ == k),
    ensures
        !mem_map(s).contains_key((ver, k)),
    decreases s.len(),
{
    if s.len() > 0 {
        assert(forall|j: int| 0 <= j < s.drop_last().len() ==> s.drop_last()[j] == s[j]);
        lemma_mem_map_absent(s.drop_last(), ver, k);
        assert(s[s.len() - 1] == s.last());
    }
}

/// A backend that keeps everything in memory: the reference
/// implementation of the contract, and the one the tests run on.
#[derive(Debug)]
pub struct MemKV {
    entries: Vec<MemEntry>,
}

impl MemKV {
    /// An empty backend.
    pub fn new() -> (r: MemKV)
        ensures
            r.kv_map() == Map::<(u16, Seq<u8>), Seq<u8>>::empty(),
    {
        MemKV { entries: Vec::new() }
    }
}

impl KeyValue for MemKV {
    closed spec fn kv_map(&self) -> Map<(u16, Seq<u8>), Seq<u8>> {
        mem_map(self.entries@)
    }

    fn put(&mut self, ver: u16, key: &[u8], val: Vec<u8>) -> (r: Result<(), KvError>) {
        let e = MemEntry { ver, key: vstd::slice::slice_to_vec(key), val };
        proof {
            assert(self.entries@.push(e).drop_last() =~= self.entries@);
        }
        self.entries.push(e);
        Ok(())
    }

    fn get(&self, ver: u16, key: &[u8]) -> (r: Result<Option<Vec<u8>>, KvError>) {
        let n = self.entries.len();
        let mut i: usize = n;
        while i > 0
            invariant
                n == self.entries.len(),
                0 <= i <= n,
                forall|j: int| i <= j < n ==> !(self.entries@[j].ver == ver
                    && self.entries@[j].key@ == key@),
            decreases i,
        {
            i = i - 1;
            let e = &self.entries[i];
            if e.ver == ver {
                let same = bytes_eq(e.key.as_slice(), key);
                if same {
                    proof {
                        lemma_mem_map_found(self.entries@, i as int, ver, key@);
                    }
                    return Ok(Some(vstd::slice::slice_to_vec(e.val.as_slice())));
                }
            }
        }
        proof {
            lemma_mem_map_absent(self.entries@, ver, key@);
        }
        Ok(None)
    }

    fn delete(&mut self, ver: u16, key: &[u8]) -> (r: Result<(), KvError>) {
        let n = self.entries.len();
        let mut kept: Vec<MemEntry> = Vec::new();
        let mut i: usize = 0;
        while i < n
            invariant
                n == self.entries.len(),
                0 <= i <= n,
                *self == *old(self),
                mem_map(kept@) == mem_map(self.entries@.take(i as int)).remove((ver, key@)),
            decreases n - i,
        {
            let e = &self.entries[i];
            let matches_key = if e.ver == ver {
                bytes_eq(e.key.as_slice(), key)
            } else {
                false
            };
            proof {
                assert(self.entries@.take(i + 1).drop_last() =~= self.entries@.take(i as int));
                assert(self.entries@.take(i + 1).last() == self.entries@[i as int]);
            }
            if !matches_key {
                let copy = MemEntry {
                    ver: e.ver,
                    key: vstd::slice::slice_to_vec(e.key.as_slice()),
                    val: vstd::slice::slice_to_vec(e.val.as_slice()),
                };
                proof {
                    let ghost ek = self.entries@[i as int];
                    assert(kept@.push(copy).drop_last() =~= kept@);
                    assert(mem_map(kept@.push(copy)) == mem_map(kept@).insert(
                        (copy.ver, copy.key@),
                        copy.val@,
                    ));
                    assert(copy.ver == ek.ver && copy.key@ == ek.key@ && copy.val@ == ek.val@);
                    assert((ek.ver, ek.key@) != (ver, key@));
                    assert(mem_map(kept@).insert((ek.ver, ek.key@), ek.val@) =~= mem_map(
                        self.entries@.take(i + 1),
                    ).remove((ver, key@)));
                }
                kept.push(copy);
            } else {
                proof {
                    let ghost ek = self.entries@[i as int];
                    assert((ek.ver, ek.key@) == (ver, key@));
                    assert(mem_map(kept@) =~= mem_map(self.entries@.take(i + 1)).remove(
                        (ver, key@),
                    ));
                }
            }
            i = i + 1;
        }
        proof {
            assert(self.entries@.take(n as int) =~= self.entries@);
        }
        self.entries = kept;
        Ok(())
    }

    fn sync(&mut self) -> (r: Result<(), KvError>) {
        Ok(())
    }

    fn create_version(&mut self, ver: u16) -> (r: Result<(), KvError>) {
        Ok(())
    }
}

} // verus!
