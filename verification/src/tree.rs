//! The transactional tree: key access bound to one commit version,
//! routed through the Index to the Pack stored in the backend.

use vstd::prelude::*;
use vstd::slice::slice_to_vec;
use vstd::string::StringSliceAdditionalSpecFns;

use crate::codec::{be32, push_u32};
use crate::commit::Commit;
use crate::error::Error;
use crate::hash::{part_count, part_of_hash, xxh3_of};
use crate::index::{dec_index, Index};
use crate::kv::KeyValue;
use crate::pack::{dec_pack, pack_map, Pack};

verus! {

/// The backend key under which a partition's Pack is stored: the
/// partition id as four big-endian bytes.
pub open spec fn slot_key(part: u32) -> Seq<u8> {
    be32(part)
}

/// The fixed backend key under which an Index is stored.
pub open spec fn index_key() -> Seq<u8> {
    seq![105u8, 110u8, 100u8, 101u8, 120u8]
}

/// Builds the backend key for a partition's Pack.
pub(crate) fn part_key(part: u32) -> (r: Vec<u8>)
    ensures
        r@ == slot_key(part),
{
    let mut buf: Vec<u8> = Vec::new();
    push_u32(&mut buf, part);
    assert(buf@ =~= slot_key(part));
    buf
}

/// Builds the fixed backend key for an Index.
pub(crate) fn index_key_bytes() -> (r: Vec<u8>)
    ensures
        r@ == index_key(),
{
    let mut buf: Vec<u8> = Vec::new();
    buf.push(105);
    buf.push(110);
    buf.push(100);
    buf.push(101);
    buf.push(120);
    assert(buf@ =~= index_key());
    buf
}

/// The Pack content a backend record stands for, if it decodes.
pub open spec fn pack_map_of_bytes(b: Seq<u8>) -> Option<Map<Seq<u8>, (u16, Seq<u8>)>> {
    match dec_pack(b) {
        Some(ve) => Some(pack_map(ve.1)),
        None => None,
    }
}

/// What resolving a key against an index and a backend content can
/// come to.
pub enum Lookup {
    /// The key's partition was never written, or its Pack lacks the
    /// key.
    Absent,
    /// The key is present: the version that wrote it and its value.
    Found(u16, Seq<u8>),
    /// The index names a version for the partition but the backend
    /// holds no Pack there: `(version, partition)`.
    MissingPack(u16, u32),
    /// The backend record for the partition does not decode.
    Corrupt,
}

/// Resolves a key: hash to a partition, the partition to the version
/// holding its Pack, the Pack to the key's entry.
pub open spec fn tree_lookup(
    bits: usize,
    vlist: Seq<u16>,
    kvm: Map<(u16, Seq<u8>), Seq<u8>>,
    k: Seq<u8>,
) -> Lookup {
    let part = part_of_hash(xxh3_of(k), bits) as u32;
    let pver = vlist[part as int];
    if pver == 0 {
        Lookup::Absent
    } else if !kvm.contains_key((pver, slot_key(part))) {
        Lookup::MissingPack(pver, part)
    } else {
        match pack_map_of_bytes(kvm[(pver, slot_key(part))]) {
            None => Lookup::Corrupt,
            Some(m) => if m.contains_key(k) {
                Lookup::Found(m[k].0, m[k].1)
            } else {
                Lookup::Absent
            },
        }
    }
}

/// Where a commit's Index is loaded from: the record at its own
/// version, else the record at its predecessor, else nowhere.
pub open spec fn resolve_index_bytes(kvm: Map<(u16, Seq<u8>), Seq<u8>>, c: Commit) -> Option<
    Seq<u8>,
> {
    if kvm.contains_key((c.ver, index_key())) {
        Some(kvm[(c.ver, index_key())])
    } else if c.prev_ver != 0 && kvm.contains_key((c.prev_ver, index_key())) {
        Some(kvm[(c.prev_ver, index_key())])
    } else {
        None
    }
}

/// A read/write transaction bound to one commit version.
pub struct Tree {
    pub(crate) idx: Index,
    pub commit: Commit,
}

/// A read-only transaction; it only ever resolves existing state.
pub struct ImmutableTree {
    pub(crate) t: Tree,
}

impl Tree {
    /// The commit this transaction is bound to, for specification
    /// use.
    pub closed spec fn commit_spec(&self) -> Commit {
        self.commit
    }

    /// The prefix-bit count of the tree's index.
    pub closed spec fn bits(&self) -> usize {
        self.idx.prefix_bits_spec()
    }

    /// The version list of the tree's index.
    pub closed spec fn vlist(&self) -> Seq<u16> {
        self.idx.vlist()
    }

    /// The version the tree's index is bound to.
    pub closed spec fn idx_ver(&self) -> u16 {
        self.idx.ver_spec()
    }

    /// The index is well-formed and the commit version is real.
    pub open spec fn wf(&self) -> bool {
        &&& 1 <= self.bits() <= 30
        &&& self.vlist().len() == part_count(self.bits())
        &&& self.commit_spec().ver != 0
    }

    /// Loads the Pack stored for `(ver, part)`, if one is there.
    fn load_pack<KV: KeyValue>(kv: &KV, ver: u16, part: u32) -> (r: Result<Option<Pack>, Error>)
        ensures
            match r {
                Ok(Some(p)) => {
                    &&& kv.kv_map().contains_key((ver, slot_key(part)))
                    &&& pack_map_of_bytes(kv.kv_map()[(ver, slot_key(part))]) == Some(p@)
                    &&& dec_pack(kv.kv_map()[(ver, slot_key(part))]) == Some(
                        (p.version_spec(), p.entries_spec()),
                    )
                    &&& p.wf()
                },
                Ok(None) => !kv.kv_map().contains_key((ver, slot_key(part))),
                Err(e) => e matches Error::KVError(_) || (kv.kv_map().contains_key(
                    (ver, slot_key(part)),
                ) && pack_map_of_bytes(kv.kv_map()[(ver, slot_key(part))]) is None && e
                    == Error::DecodeError),
            },
    {
        let key = part_key(part);
        match kv.get(ver, key.as_slice()) {
            Err(e) => Err(Error::KVError(e)),
            Ok(None) => Ok(None),
            Ok(Some(buf)) => match Pack::from_buf(buf.as_slice()) {
                Ok(p) => Ok(Some(p)),
                Err(_) => Err(Error::DecodeError),
            },
        }
    }

    /// Loads the Index stored at `ver`, if one is there.
    pub(crate) fn load_index_at<KV: KeyValue>(ver: u16, kv: &KV) -> (r: Result<Option<Index>, Error>)
        ensures
            match r {
                Ok(Some(idx)) => {
                    &&& kv.kv_map().contains_key((ver, index_key()))
                    &&& dec_index(kv.kv_map()[(ver, index_key())]) == Some(
                        (idx.ver_spec(), idx.prefix_bits_spec(), idx.vlist()),
                    )
                    &&& idx.wf()
                },
                Ok(None) => !kv.kv_map().contains_key((ver, index_key())),
                Err(e) => e matches Error::KVError(_) || (kv.kv_map().contains_key(
                    (ver, index_key()),
                ) && dec_index(kv.kv_map()[(ver, index_key())]) is None && e
                    == Error::DecodeError),
            },
    {
        let key = index_key_bytes();
        match kv.get(ver, key.as_slice()) {
            Err(e) => Err(Error::KVError(e)),
            Ok(None) => Ok(None),
            Ok(Some(buf)) => match Index::new_with_buf(buf.as_slice()) {
                Ok(idx) => Ok(Some(idx)),
                Err(_) => Err(Error::DecodeError),
            },
        }
    }

    /// Loads a commit's Index from its own version or its
    /// predecessor, if either is there.
    fn load_index<KV: KeyValue>(c: &Commit, kv: &KV) -> (r: Result<Option<Index>, Error>)
        ensures
            match r {
                Ok(Some(idx)) => {
                    &&& resolve_index_bytes(kv.kv_map(), *c) matches Some(b)
                    &&& dec_index(b) == Some((idx.ver_spec(), idx.prefix_bits_spec(), idx.vlist()))
                    &&& idx.wf()
                },
                Ok(None) => resolve_index_bytes(kv.kv_map(), *c) is None,
                Err(e) => e matches Error::KVError(_) || (resolve_index_bytes(
                    kv.kv_map(),
                    *c,
                ) matches Some(b) && dec_index(b) is None && e == Error::DecodeError),
            },
    {
        match Self::load_index_at(c.ver, kv) {
            Err(e) => Err(e),
            Ok(Some(idx)) => Ok(Some(idx)),
            Ok(None) => {
                if c.prev_ver == 0 {
                    Ok(None)
                } else {
                    Self::load_index_at(c.prev_ver, kv)
                }
            },
        }
    }

    /// Binds a transaction to `c`: its Index is loaded from `c`'s
    /// version or its predecessor, or starts fresh with every
    /// partition unwritten; either way it is rebound to `c.ver`.
    pub fn new<KV: KeyValue>(c: Commit, kv: &KV) -> (r: Result<Tree, Error>)
        requires
            c.ver != 0,
        ensures
            match r {
                Ok(t) => {
                    &&& t.wf()
                    &&& t.commit_spec() == c
                    &&& t.idx_ver() == c.ver
                    &&& match resolve_index_bytes(kv.kv_map(), c) {
                        Some(b) => dec_index(b) matches Some(v) && t.bits() == v.1 && t.vlist()
                            == v.2,
                        None => t.bits() == 20 && t.vlist() == Seq::<u16>::new(
                            part_count(20) as nat,
                            |i: int| 0u16,
                        ),
                    }
                },
                Err(e) => e matches Error::KVError(_) || (resolve_index_bytes(
                    kv.kv_map(),
                    c,
                ) matches Some(b) && dec_index(b) is None && e == Error::DecodeError),
            },
    {
        let mut idx = match Self::load_index(&c, kv) {
            Err(e) => {
                return Err(e);
            },
            Ok(Some(idx)) => idx,
            Ok(None) => Index::new(20, c.ver),
        };
        idx.set_version(c.ver);
        Ok(Tree { idx, commit: c })
    }

    /// Binds a read-only transaction to `c`; a missing Index is
    /// refused rather than invented.
    pub fn new_readonly<KV: KeyValue>(c: Commit, kv: &KV) -> (r: Result<Tree, Error>)
        requires
            c.ver != 0,
        ensures
            match r {
                Ok(t) => {
                    &&& t.wf()
                    &&& t.commit_spec() == c
                    &&& resolve_index_bytes(kv.kv_map(), c) matches Some(b)
                    &&& dec_index(b) matches Some(v) && t.bits() == v.1 && t.vlist() == v.2
                        && t.idx_ver() == v.0
                },
                Err(e) => e matches Error::KVError(_) || (match resolve_index_bytes(
                    kv.kv_map(),
                    c,
                ) {
                    None => e == Error::IndexNotFound,
                    Some(b) => dec_index(b) is None && e == Error::DecodeError,
                }),
            },
    {
        match Self::load_index(&c, kv) {
            Err(e) => Err(e),
            Ok(None) => Err(Error::IndexNotFound),
            Ok(Some(idx)) => Ok(Tree { idx, commit: c }),
        }
    }

    /// Looks `key` up in the version this tree is bound to.
    pub fn get<KV: KeyValue>(&self, kv: &KV, key: &[u8]) -> (r: Result<Option<Vec<u8>>, Error>)
        requires
            self.wf(),
        ensures
            self.vlist()[part_of_hash(xxh3_of(key@), self.bits()) as u32 as int] == 0 ==> (r
                matches Ok(ov) && ov is None),
            match r {
                Ok(ov) => match tree_lookup(self.bits(), self.vlist(), kv.kv_map(), key@) {
                    Lookup::Absent => ov is None,
                    Lookup::Found(fv, fval) => ov matches Some(v) && v@ == fval,
                    _ => false,
                },
                Err(e) => e matches Error::KVError(_) || (match tree_lookup(
                    self.bits(),
                    self.vlist(),
                    kv.kv_map(),
                    key@,
                ) {
                    Lookup::MissingPack(pv, p) => e == Error::PackNotFound(pv, p),
                    Lookup::Corrupt => e == Error::DecodeError,
                    _ => false,
                }),
            },
    {
        let (p_ver, p, _) = self.idx.get_part(key);
        if p_ver == 0 {
            return Ok(None);
        }
        let pack = match Self::load_pack(kv, p_ver, p) {
            Err(e) => {
                return Err(e);
            },
            Ok(None) => {
                return Err(Error::PackNotFound(p_ver, p));
            },
            Ok(Some(pk)) => pk,
        };
        match pack.get(key) {
            None => Ok(None),
            Some((_, val_buf)) => Ok(Some(val_buf)),
        }
    }

    /// Looks a string key up by its bytes.
    pub fn get_str<KV: KeyValue>(&self, kv: &KV, key: &str) -> (r: Result<Option<Vec<u8>>, Error>)
        requires
            self.wf(),
        ensures
            self.vlist()[part_of_hash(xxh3_of(key.spec_bytes()), self.bits()) as u32 as int] == 0
                ==> (r matches Ok(ov) && ov is None),
            match r {
                Ok(ov) => match tree_lookup(
                    self.bits(),
                    self.vlist(),
                    kv.kv_map(),
                    key.spec_bytes(),
                ) {
                    Lookup::Absent => ov is None,
                    Lookup::Found(fv, fval) => ov matches Some(v) && v@ == fval,
                    _ => false,
                },
                Err(e) => e matches Error::KVError(_) || (match tree_lookup(
                    self.bits(),
                    self.vlist(),
                    kv.kv_map(),
                    key.spec_bytes(),
                ) {
                    Lookup::MissingPack(pv, p) => e == Error::PackNotFound(pv, p),
                    Lookup::Corrupt => e == Error::DecodeError,
                    _ => false,
                }),
            },
    {
        self.get(kv, key.as_bytes())
    }

    /// Stores `key -> val` at this tree's version: the partition's
    /// Pack is loaded (or started empty), extended, persisted at the
    /// current version, and the Index repointed in memory.
    pub fn put<KV: KeyValue>(&mut self, kv: &mut KV, key: &[u8], val: &[u8]) -> (r: Result<
        (),
        Error,
    >)
        requires
            old(self).wf(),
            key@.len() <= 0xffff_ffff,
            val@.len() <= 0xffff_ffff,
        ensures
            final(self).wf(),
            final(self).commit_spec() == old(self).commit_spec(),
            final(self).bits() == old(self).bits(),
            match r {
                Ok(()) => {
                    let part = part_of_hash(xxh3_of(key@), old(self).bits()) as u32;
                    let cver = old(self).commit_spec().ver;
                    let pver = old(self).vlist()[part as int];
                    let pm = if pver == 0 {
                        Map::<Seq<u8>, (u16, Seq<u8>)>::empty()
                    } else {
                        pack_map_of_bytes(old(kv).kv_map()[(pver, slot_key(part))])->Some_0
                    };
                    &&& pver != 0 ==> old(kv).kv_map().contains_key((pver, slot_key(part)))
                        && pack_map_of_bytes(old(kv).kv_map()[(pver, slot_key(part))]) is Some
                    &&& final(self).vlist() == old(self).vlist().update(part as int, cver)
                    &&& exists|b: Seq<u8>|
                        {
                            &&& final(kv).kv_map() == old(kv).kv_map().insert(
                                (cver, slot_key(part)),
                                b,
                            )
                            &&& #[trigger] pack_map_of_bytes(b) == Some(
                                pm.insert(key@, (cver, val@)),
                            )
                        }
                },
                Err(e) => {
                    &&& *final(self) == *old(self)
                    &&& final(kv).kv_map() == old(kv).kv_map()
                    &&& (e matches Error::KVError(_) || (match tree_lookup(
                        old(self).bits(),
                        old(self).vlist(),
                        old(kv).kv_map(),
                        key@,
                    ) {
                        Lookup::MissingPack(pv, p) => e == Error::PackNotFound(pv, p),
                        Lookup::Corrupt => e == Error::DecodeError,
                        _ => false,
                    }))
                },
            },
    {
        let (p_ver, p, _) = self.idx.get_part(key);
        let mut pack = if p_ver == 0 {
            Pack::new()
        } else {
            match Self::load_pack(kv, p_ver, p) {
                Err(e) => {
                    return Err(e);
                },
                Ok(None) => {
                    return Err(Error::PackNotFound(p_ver, p));
                },
                Ok(Some(pk)) => pk,
            }
        };
        pack.put(self.commit.ver, key, slice_to_vec(val));
        let buf = match pack.to_vec() {
            Ok(b) => b,
            Err(e) => {
                return Err(e);
            },
        };
        let ghost stored = buf@;
        proof {
            pack.lemma_round_trip();
        }
        let slot = part_key(p);
        match kv.put(self.commit.ver, slot.as_slice(), buf) {
            Err(e) => {
                return Err(Error::KVError(e));
            },
            Ok(()) => {},
        }
        self.idx.set_part(p, self.commit.ver);
        proof {
            assert(pack_map_of_bytes(stored) == Some(pack@));
        }
        Ok(())
    }

    /// Stores a string key by its bytes.
    pub fn put_str<KV: KeyValue>(&mut self, kv: &mut KV, key: &str, val: &[u8]) -> (r: Result<
        (),
        Error,
    >)
        requires
            old(self).wf(),
            key.spec_bytes().len() <= 0xffff_ffff,
            val@.len() <= 0xffff_ffff,
        ensures
            final(self).wf(),
            final(self).commit_spec() == old(self).commit_spec(),
            final(self).bits() == old(self).bits(),
            r is Ok ==> final(self).vlist() == old(self).vlist().update(
                part_of_hash(xxh3_of(key.spec_bytes()), old(self).bits()) as u32 as int,
                old(self).commit_spec().ver,
            ),
            r is Ok ==> tree_lookup(
                final(self).bits(),
                final(self).vlist(),
                final(kv).kv_map(),
                key.spec_bytes(),
            ) == Lookup::Found(old(self).commit_spec().ver, val@),
            r is Err ==> *final(self) == *old(self) && final(kv).kv_map() == old(kv).kv_map(),
    {
        let r = self.put(kv, key.as_bytes(), val);
        proof {
            if r is Ok {
                let part = part_of_hash(xxh3_of(key.spec_bytes()), old(self).bits()) as u32;
                let cver = old(self).commit_spec().ver;
                let b = choose|b: Seq<u8>|
                    {
                        &&& final(kv).kv_map() == old(kv).kv_map().insert(
                            (cver, slot_key(part)),
                            b,
                        )
                        &&& #[trigger] pack_map_of_bytes(b) matches Some(m) && m.contains_key(
                            key.spec_bytes(),
                        ) && m[key.spec_bytes()] == (cver, val@)
                    };
                lemma_put_then_get(
                    old(self).bits(),
                    old(self).vlist(),
                    old(kv).kv_map(),
                    key.spec_bytes(),
                    cver,
                    val@,
                    b,
                );
            }
        }
        r
    }

    /// Removes `key` at this tree's version. A partition never
    /// written, or a Pack without the key's entry, is a no-op; an
    /// existing Pack is re-persisted at the current version without
    /// the entry and the Index repointed.
    pub fn delete<KV: KeyValue>(&mut self, kv: &mut KV, key: &[u8]) -> (r: Result<(), Error>)
        requires
            old(self).wf(),
            key@.len() <= 0xffff_ffff,
        ensures
            final(self).wf(),
            final(self).commit_spec() == old(self).commit_spec(),
            final(self).bits() == old(self).bits(),
            old(self).vlist()[part_of_hash(xxh3_of(key@), old(self).bits()) as u32 as int] == 0
                ==> r is Ok,
            match r {
                Ok(()) => {
                    let part = part_of_hash(xxh3_of(key@), old(self).bits()) as u32;
                    let cver = old(self).commit_spec().ver;
                    let pver = old(self).vlist()[part as int];
                    if pver == 0 || !old(kv).kv_map().contains_key((pver, slot_key(part))) {
                        &&& *final(self) == *old(self)
                        &&& final(kv).kv_map() == old(kv).kv_map()
                    } else {
                        &&& pack_map_of_bytes(old(kv).kv_map()[(pver, slot_key(part))]) matches
                            Some(pm)
                        &&& final(self).vlist() == old(self).vlist().update(part as int, cver)
                        &&& exists|b: Seq<u8>|
                            {
                                &&& final(kv).kv_map() == old(kv).kv_map().insert(
                                    (cver, slot_key(part)),
                                    b,
                                )
                                &&& #[trigger] pack_map_of_bytes(b) == Some(pm.remove(key@))
                            }
                    }
                },
                Err(e) => {
                    &&& *final(self) == *old(self)
                    &&& final(kv).kv_map() == old(kv).kv_map()
                    &&& (e matches Error::KVError(_) || (match tree_lookup(
                        old(self).bits(),
                        old(self).vlist(),
                        old(kv).kv_map(),
                        key@,
                    ) {
                        Lookup::Corrupt => e == Error::DecodeError,
                        _ => false,
                    }))
                },
            },
    {
        let (p_ver, p, _) = self.idx.get_part(key);
        if p_ver == 0 {
            return Ok(());
        }
        let mut pack = match Self::load_pack(kv, p_ver, p) {
            Err(e) => {
                return Err(e);
            },
            Ok(None) => {
                return Ok(());
            },
            Ok(Some(pk)) => pk,
        };
        pack.remove(key);
        let buf = match pack.to_vec() {
            Ok(b) => b,
            Err(e) => {
                return Err(e);
            },
        };
        let ghost stored = buf@;
        proof {
            pack.lemma_round_trip();
        }
        let slot = part_key(p);
        match kv.put(self.commit.ver, slot.as_slice(), buf) {
            Err(e) => {
                return Err(Error::KVError(e));
            },
            Ok(()) => {},
        }
        self.idx.set_part(p, self.commit.ver);
        proof {
            assert(pack_map_of_bytes(stored) == Some(pack@));
        }
        Ok(())
    }

    /// The version this transaction writes at.
    pub fn tree_version(&self) -> (r: u16)
        ensures
            r == self.commit_spec().ver,
    {
        self.commit.ver
    }

    /// Serializes this tree's Index; the bytes decode back to it.
    pub fn index_bytes(&self) -> (r: Result<Vec<u8>, Error>)
        requires
            self.wf(),
        ensures
            r matches Ok(b) && dec_index(b@) == Some((self.idx_ver(), self.bits(), self.vlist())),
    {
        let r = self.idx.to_vec();
        proof {
            crate::index::lemma_index_round_trip(
                self.idx.ver_spec(),
                self.idx.prefix_bits_spec(),
                self.idx.vlist(),
            );
        }
        r
    }

    /// Removes a string key by its bytes.
    pub fn delete_str<KV: KeyValue>(&mut self, kv: &mut KV, key: &str) -> (r: Result<(), Error>)
        requires
            old(self).wf(),
            key.spec_bytes().len() <= 0xffff_ffff,
        ensures
            final(self).wf(),
            final(self).commit_spec() == old(self).commit_spec(),
            final(self).bits() == old(self).bits(),
            old(self).vlist()[part_of_hash(xxh3_of(key.spec_bytes()), old(self).bits()) as u32 as int]
                == 0 ==> r is Ok,
            match r {
                Ok(()) => {
                    let part = part_of_hash(xxh3_of(key.spec_bytes()), old(self).bits()) as u32;
                    let cver = old(self).commit_spec().ver;
                    let pver = old(self).vlist()[part as int];
                    if pver == 0 || !old(kv).kv_map().contains_key((pver, slot_key(part))) {
                        &&& *final(self) == *old(self)
                        &&& final(kv).kv_map() == old(kv).kv_map()
                    } else {
                        &&& pack_map_of_bytes(old(kv).kv_map()[(pver, slot_key(part))]) matches
                            Some(pm)
                        &&& final(self).vlist() == old(self).vlist().update(part as int, cver)
                        &&& exists|b: Seq<u8>|
                            {
                                &&& final(kv).kv_map() == old(kv).kv_map().insert(
                                    (cver, slot_key(part)),
                                    b,
                                )
                                &&& #[trigger] pack_map_of_bytes(b) == Some(
                                    pm.remove(key.spec_bytes()),
                                )
                            }
                    }
                },
                Err(e) => {
                    &&& *final(self) == *old(self)
                    &&& final(kv).kv_map() == old(kv).kv_map()
                    &&& (e matches Error::KVError(_) || (match tree_lookup(
                        old(self).bits(),
                        old(self).vlist(),
                        old(kv).kv_map(),
                        key.spec_bytes(),
                    ) {
                        Lookup::Corrupt => e == Error::DecodeError,
                        _ => false,
                    }))
                },
            },
    {
        self.delete(kv, key.as_bytes())
    }
}

/// A write at the current version is visible to a read through the
/// same tree: after the Pack for the key's partition is stored with
/// `key -> (cver, v)` and the Index repointed to `cver`, resolving
/// the key finds exactly that entry.
pub proof fn lemma_put_then_get(
    bits: usize,
    vlist: Seq<u16>,
    kvm: Map<(u16, Seq<u8>), Seq<u8>>,
    k: Seq<u8>,
    cver: u16,
    v: Seq<u8>,
    b: Seq<u8>,
)
    requires
        1 <= bits <= 30,
        vlist.len() == part_count(bits),
        cver != 0,
        pack_map_of_bytes(b) matches Some(m) && m.contains_key(k) && m[k] == (cver, v),
    ensures
        ({
            let part = part_of_hash(xxh3_of(k), bits) as u32;
            tree_lookup(
                bits,
                vlist.update(part as int, cver),
                kvm.insert((cver, slot_key(part)), b),
                k,
            ) == Lookup::Found(cver, v)
        }),
{
    crate::hash::lemma_part_in_range(xxh3_of(k), bits);
}

impl ImmutableTree {
    /// Wraps a tree read-only.
    pub(crate) fn from_tree(t: Tree) -> (r: ImmutableTree)
        ensures
            r.tree_spec() == t,
    {
        ImmutableTree { t }
    }

    /// The underlying tree, for specification use.
    pub closed spec fn tree_spec(&self) -> Tree {
        self.t
    }

    /// The underlying tree is well-formed.
    pub open spec fn wf(&self) -> bool {
        self.tree_spec().wf()
    }

    /// The prefix-bit count of the underlying index.
    pub open spec fn bits(&self) -> usize {
        self.tree_spec().bits()
    }

    /// The version list of the underlying index.
    pub open spec fn vlist(&self) -> Seq<u16> {
        self.tree_spec().vlist()
    }

    /// Looks `key` up in the version this tree is bound to.
    pub fn get<KV: KeyValue>(&self, kv: &KV, key: &[u8]) -> (r: Result<Option<Vec<u8>>, Error>)
        requires
            self.wf(),
        ensures
            self.vlist()[part_of_hash(xxh3_of(key@), self.bits()) as u32 as int] == 0 ==> (r
                matches Ok(ov) && ov is None),
            match r {
                Ok(ov) => match tree_lookup(self.bits(), self.vlist(), kv.kv_map(), key@) {
                    Lookup::Absent => ov is None,
                    Lookup::Found(fv, fval) => ov matches Some(v) && v@ == fval,
                    _ => false,
                },
                Err(e) => e matches Error::KVError(_) || (match tree_lookup(
                    self.bits(),
                    self.vlist(),
                    kv.kv_map(),
                    key@,
                ) {
                    Lookup::MissingPack(pv, p) => e == Error::PackNotFound(pv, p),
                    Lookup::Corrupt => e == Error::DecodeError,
                    _ => false,
                }),
            },
    {
        self.t.get(kv, key)
    }

    /// Looks a string key up by its bytes.
    pub fn get_str<KV: KeyValue>(&self, kv: &KV, key: &str) -> (r: Result<Option<Vec<u8>>, Error>)
        requires
            self.wf(),
        ensures
            self.vlist()[part_of_hash(xxh3_of(key.spec_bytes()), self.bits()) as u32 as int] == 0
                ==> (r matches Ok(ov) && ov is None),
            match r {
                Ok(ov) => match tree_lookup(
                    self.bits(),
                    self.vlist(),
                    kv.kv_map(),
                    key.spec_bytes(),
                ) {
                    Lookup::Absent => ov is None,
                    Lookup::Found(fv, fval) => ov matches Some(v) && v@ == fval,
                    _ => false,
                },
                Err(e) => e matches Error::KVError(_) || (match tree_lookup(
                    self.bits(),
                    self.vlist(),
                    kv.kv_map(),
                    key.spec_bytes(),
                ) {
                    Lookup::MissingPack(pv, p) => e == Error::PackNotFound(pv, p),
                    Lookup::Corrupt => e == Error::DecodeError,
                    _ => false,
                }),
            },
    {
        self.t.get_str(kv, key)
    }
}

} // verus!
