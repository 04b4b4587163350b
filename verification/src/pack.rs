//! The per-partition value bundle: every key of one partition mapped
//! to the version that wrote it and its value bytes.

use vstd::prelude::*;
use vstd::slice::{slice_subrange, slice_to_vec};

use crate::codec::{be16, be32, de16, de32, lemma_de16_be16, lemma_de32_be32, push_u16, push_u32, read_u16, read_u32};
use crate::error::Error;

verus! {

/// The fixed schema tag written at the head of every pack record.
pub const PACK_VERSION: u32 = 1;

/// One entry of a pack: a raw key, the version that wrote it, and
/// the value bytes.
#[derive(Debug)]
pub struct PackEntry {
    pub key: Vec<u8>,
    pub ver: u16,
    pub val: Vec<u8>,
}

/// The abstract content of a `PackEntry`.
#[verifier::ext_equal]
pub struct PackEntryView {
    pub key: Seq<u8>,
    pub ver: u16,
    pub val: Seq<u8>,
}

impl View for PackEntry {
    type V = PackEntryView;

    open spec fn view(&self) -> PackEntryView {
        PackEntryView { key: self.key@, ver: self.ver, val: self.val@ }
    }
}

/// The abstract content of a sequence of entries.
pub open spec fn entries_view(s: Seq<PackEntry>) -> Seq<PackEntryView> {
    s.map_values(|e: PackEntry| e@)
}

/// The map a sequence of entries stands for, keyed by the raw key; a
/// later entry overrides an earlier one with the same key.
pub open spec fn pack_map(s: Seq<PackEntryView>) -> Map<Seq<u8>, (u16, Seq<u8>)>
    decreases s.len(),
{
    if s.len() == 0 {
        Map::empty()
    } else {
        pack_map(s.drop_last()).insert(s.last().key, (s.last().ver, s.last().val))
    }
}

/// No two entries in the sequence claim the same key.
pub open spec fn unique_keys(s: Seq<PackEntryView>) -> bool {
    forall|i: int, j: int| 0 <= i < j < s.len() ==> s[i].key != s[j].key
}

/// Every key and value is short enough for its four-byte length field.
pub open spec fn bounded_entries(s: Seq<PackEntryView>) -> bool {
    forall|i: int| 0 <= i < s.len() ==> (#[trigger] s[i]).key.len() <= 0xffff_ffff && s[i].val.len()
        <= 0xffff_ffff
}

pub(crate) proof fn lemma_pack_map_push(s: Seq<PackEntryView>, e: PackEntryView)
    ensures
        pack_map(s.push(e)) == pack_map(s).insert(e.key, (e.ver, e.val)),
{
    assert(s.push(e).drop_last() =~= s);
    assert(s.push(e).last() == e);
}

pub(crate) proof fn lemma_pack_map_update(s: Seq<PackEntryView>, i: int, e: PackEntryView)
    requires
        unique_keys(s),
        0 <= i < s.len(),
        s[i].key == e.key,
    ensures
        pack_map(s.update(i, e)) == pack_map(s).insert(e.key, (e.ver, e.val)),
    decreases s.len(),
{
    let t = s.update(i, e);
    if i == s.len() - 1 {
        assert(t.drop_last() =~= s.drop_last());
        assert(pack_map(t) =~= pack_map(s).insert(e.key, (e.ver, e.val)));
    } else {
        assert(t.drop_last() =~= s.drop_last().update(i, e));
        lemma_pack_map_update(s.drop_last(), i, e);
        assert(s.last().key != e.key);
        assert(pack_map(t) =~= pack_map(s).insert(e.key, (e.ver, e.val)));
    }
}

pub proof fn lemma_pack_map_domain(s: Seq<PackEntryView>, k: Seq<u8>)
    ensures
        pack_map(s).contains_key(k) <==> exists|i: int| 0 <= i < s.len() && s[i].key == k,
    decreases s.len(),
{
    if s.len() > 0 {
        lemma_pack_map_domain(s.drop_last(), k);
        if s.last().key == k {
            assert(s[s.len() - 1].key == k);
        } else {
            if exists|i: int| 0 <= i < s.drop_last().len() && s.drop_last()[i].key == k {
                let i = choose|i: int| 0 <= i < s.drop_last().len() && s.drop_last()[i].key == k;
                assert(s[i].key == k);
            }
            if exists|i: int| 0 <= i < s.len() && s[i].key == k {
                let i = choose|i: int| 0 <= i < s.len() && s[i].key == k;
                assert(s.drop_last()[i].key == k);
            }
        }
    }
}

pub proof fn lemma_pack_map_find(s: Seq<PackEntryView>, i: int)
    requires
        unique_keys(s),
        0 <= i < s.len(),
    ensures
        pack_map(s).contains_key(s[i].key),
        pack_map(s)[s[i].key] == (s[i].ver, s[i].val),
    decreases s.len(),
{
    if i == s.len() - 1 {
    } else {
        lemma_pack_map_find(s.drop_last(), i);
        assert(s.drop_last()[i] == s[i]);
        assert(s.last().key != s[i].key);
    }
}

pub(crate) proof fn lemma_pack_map_remove(s: Seq<PackEntryView>, i: int)
    requires
        unique_keys(s),
        0 <= i < s.len(),
    ensures
        pack_map(s.remove(i)) == pack_map(s).remove(s[i].key),
    decreases s.len(),
{
    if i == s.len() - 1 {
        assert(s.remove(i) =~= s.drop_last());
        lemma_pack_map_domain(s.drop_last(), s[i].key);
        assert(forall|j: int| 0 <= j < s.drop_last().len() ==> s.drop_last()[j].key != s[i].key);
        assert(pack_map(s.drop_last()) =~= pack_map(s).remove(s[i].key));
    } else {
        let t = s.remove(i);
        assert(t.drop_last() =~= s.drop_last().remove(i));
        assert(t.last() == s.last());
        lemma_pack_map_remove(s.drop_last(), i);
        assert(s.drop_last()[i] == s[i]);
        assert(s.last().key != s[i].key);
        assert(pack_map(t) =~= pack_map(s).remove(s[i].key));
    }
}

/// The byte layout of one entry: the key under a four-byte length,
/// the writing version, then the value under a four-byte length.
pub open spec fn enc_entry(e: PackEntryView) -> Seq<u8> {
    be32(e.key.len() as u32) + e.key + be16(e.ver) + be32(e.val.len() as u32) + e.val
}

/// The byte layout of an entry sequence: each entry in order.
pub open spec fn enc_entries(s: Seq<PackEntryView>) -> Seq<u8>
    decreases s.len(),
{
    if s.len() == 0 {
        Seq::empty()
    } else {
        enc_entry(s[0]) + enc_entries(s.drop_first())
    }
}

/// The entry sequence read from bytes; the whole buffer must be
/// consumed entry by entry.
pub open spec fn dec_entries(b: Seq<u8>) -> Option<Seq<PackEntryView>>
    decreases b.len(),
{
    if b.len() == 0 {
        Some(Seq::empty())
    } else if b.len() < 10 {
        None
    } else {
        let klen = de32(b) as int;
        if b.len() >= 10 + klen {
            let key = b.subrange(4, 4 + klen);
            let ver = de16(b.skip(4 + klen));
            let vlen = de32(b.skip(6 + klen)) as int;
            if b.len() >= 10 + klen + vlen {
                let val = b.subrange(10 + klen, 10 + klen + vlen);
                match dec_entries(b.skip(10 + klen + vlen)) {
                    Some(rest) => Some(seq![PackEntryView { key, ver, val }] + rest),
                    None => None,
                }
            } else {
                None
            }
        } else {
            None
        }
    }
}

/// The byte layout of a pack: the schema tag, then every entry.
pub open spec fn enc_pack(version: u32, s: Seq<PackEntryView>) -> Seq<u8> {
    be32(version) + enc_entries(s)
}

/// The pack read from bytes: the tag, then the entries, whose keys
/// must be pairwise distinct.
pub open spec fn dec_pack(b: Seq<u8>) -> Option<(u32, Seq<PackEntryView>)> {
    if b.len() >= 4 {
        match dec_entries(b.skip(4)) {
            Some(s) => if unique_keys(s) {
                Some((de32(b), s))
            } else {
                None
            },
            None => None,
        }
    } else {
        None
    }
}

pub(crate) proof fn lemma_enc_entries_snoc(s: Seq<PackEntryView>, e: PackEntryView)
    ensures
        enc_entries(s.push(e)) == enc_entries(s) + enc_entry(e),
    decreases s.len(),
{
    if s.len() == 0 {
        assert(s.push(e).drop_first() =~= Seq::<PackEntryView>::empty());
        assert(s.push(e)[0] == e);
        assert(enc_entries(Seq::<PackEntryView>::empty()) == Seq::<u8>::empty());
        assert(enc_entries(s.push(e)) == enc_entry(e) + Seq::<u8>::empty());
        assert(enc_entries(s.push(e)) =~= enc_entries(s) + enc_entry(e));
    } else {
        assert(s.push(e).drop_first() =~= s.drop_first().push(e));
        lemma_enc_entries_snoc(s.drop_first(), e);
        assert(s.push(e)[0] == s[0]);
        assert(enc_entries(s.push(e)) == enc_entry(s[0]) + (enc_entries(s.drop_first())
            + enc_entry(e)));
        assert(enc_entry(s[0]) + (enc_entries(s.drop_first()) + enc_entry(e)) =~= (enc_entry(s[0])
            + enc_entries(s.drop_first())) + enc_entry(e));
        assert(enc_entries(s.push(e)) =~= enc_entries(s) + enc_entry(e));
    }
}

/// Decoding what one entry encodes, followed by anything, peels the
/// entry off.
#[verifier::rlimit(100)]
pub(crate) proof fn lemma_dec_entries_step(e: PackEntryView, rest: Seq<u8>)
    requires
        e.key.len() <= 0xffff_ffff,
        e.val.len() <= 0xffff_ffff,
    ensures
        dec_entries(enc_entry(e) + rest) == (match dec_entries(rest) {
            Some(es) => Some(seq![e] + es),
            None => None::<Seq<PackEntryView>>,
        }),
{
    let b = enc_entry(e) + rest;
    let klen = e.key.len() as int;
    let vlen = e.val.len() as int;
    lemma_de32_be32(e.key.len() as u32);
    assert(b[0] == be32(e.key.len() as u32)[0] && b[1] == be32(e.key.len() as u32)[1] && b[2]
        == be32(e.key.len() as u32)[2] && b[3] == be32(e.key.len() as u32)[3]);
    assert(de32(b) == de32(be32(e.key.len() as u32)));
    assert(b.subrange(4, 4 + klen) =~= e.key);
    lemma_de16_be16(e.ver);
    assert(b.skip(4 + klen)[0] == be16(e.ver)[0] && b.skip(4 + klen)[1] == be16(e.ver)[1]);
    assert(de16(b.skip(4 + klen)) == de16(be16(e.ver)));
    lemma_de32_be32(e.val.len() as u32);
    assert(b.skip(6 + klen)[0] == be32(e.val.len() as u32)[0] && b.skip(6 + klen)[1] == be32(
        e.val.len() as u32,
    )[1] && b.skip(6 + klen)[2] == be32(e.val.len() as u32)[2] && b.skip(6 + klen)[3] == be32(
        e.val.len() as u32,
    )[3]);
    assert(de32(b.skip(6 + klen)) == de32(be32(e.val.len() as u32)));
    assert(b.subrange(10 + klen, 10 + klen + vlen) =~= e.val);
    assert(b.skip(10 + klen + vlen) =~= rest);
    assert(b.len() == 10 + klen + vlen + rest.len());
    assert(PackEntryView {
        key: b.subrange(4, 4 + klen),
        ver: de16(b.skip(4 + klen)),
        val: b.subrange(10 + klen, 10 + klen + vlen),
    } =~= e);
}

#[verifier::spinoff_prover]
#[verifier::rlimit(100)]
pub(crate) proof fn lemma_dec_enc_entries(s: Seq<PackEntryView>)
    requires
        bounded_entries(s),
    ensures
        dec_entries(enc_entries(s)) == Some(s),
    decreases s.len(),
{
    if s.len() == 0 {
    } else {
        let e = s[0];
        assert(enc_entries(s) == enc_entry(e) + enc_entries(s.drop_first()));
        lemma_dec_entries_step(e, enc_entries(s.drop_first()));
        assert(bounded_entries(s.drop_first()));
        lemma_dec_enc_entries(s.drop_first());
        assert(seq![e] + s.drop_first() =~= s);
    }
}

/// Serializing and then deserializing a pack recovers it.
pub proof fn lemma_pack_round_trip(version: u32, s: Seq<PackEntryView>)
    requires
        bounded_entries(s),
        unique_keys(s),
    ensures
        dec_pack(enc_pack(version, s)) == Some((version, s)),
{
    let b = enc_pack(version, s);
    assert(b.skip(4) =~= enc_entries(s));
    lemma_dec_enc_entries(s);
    lemma_de32_be32(version);
    assert(b[0] == be32(version)[0] && b[1] == be32(version)[1] && b[2] == be32(version)[2] && b[3]
        == be32(version)[3]);
    assert(de32(b) == de32(be32(version)));
}

/// An in-memory bundle of every key of one partition, each with the
/// version that wrote it and its value bytes.
#[derive(Debug)]
pub struct Pack {
    version: u32,
    entries: Vec<PackEntry>,
}

impl View for Pack {
    type V = Map<Seq<u8>, (u16, Seq<u8>)>;

    open spec fn view(&self) -> Map<Seq<u8>, (u16, Seq<u8>)> {
        pack_map(self.entries_spec())
    }
}

impl Pack {
    /// The entries in storage order, for specification use.
    pub closed spec fn entries_spec(&self) -> Seq<PackEntryView> {
        entries_view(self.entries@)
    }

    /// The schema tag, for specification use.
    pub closed spec fn version_spec(&self) -> u32 {
        self.version
    }

    /// Keys are pairwise distinct and every length fits its field.
    pub open spec fn wf(&self) -> bool {
        unique_keys(self.entries_spec()) && bounded_entries(self.entries_spec())
    }

    /// The pack's own serialization decodes back to its content.
    pub proof fn lemma_round_trip(&self)
        requires
            self.wf(),
        ensures
            dec_pack(enc_pack(self.version_spec(), self.entries_spec())) == Some(
                (self.version_spec(), self.entries_spec()),
            ),
    {
        lemma_pack_round_trip(self.version_spec(), self.entries_spec());
    }

    /// An empty pack under the current schema tag.
    pub fn new() -> (r: Pack)
        ensures
            r.wf(),
            r@ == Map::<Seq<u8>, (u16, Seq<u8>)>::empty(),
            r.entries_spec() == Seq::<PackEntryView>::empty(),
            r.version_spec() == PACK_VERSION,
    {
        Pack { version: PACK_VERSION, entries: Vec::new() }
    }

    /// The number of entries held.
    pub fn entry_count(&self) -> (r: usize)
        ensures
            r == self.entries_spec().len(),
    {
        self.entries.len()
    }

    /// The entry at position `i` in storage order.
    pub fn entry_at(&self, i: usize) -> (r: &PackEntry)
        requires
            i < self.entries_spec().len(),
        ensures
            r@ == self.entries_spec()[i as int],
    {
        &self.entries[i]
    }

    /// Records `key -> (ver, val)`, overriding any earlier entry.
    pub fn put(&mut self, ver: u16, key: &[u8], val: Vec<u8>)
        requires
            old(self).wf(),
            key@.len() <= 0xffff_ffff,
            val@.len() <= 0xffff_ffff,
        ensures
            final(self).wf(),
            final(self)@ == old(self)@.insert(key@, (ver, val@)),
            final(self).version_spec() == old(self).version_spec(),
    {
        let e = PackEntry { key: slice_to_vec(key), ver, val };
        let ghost ev = e@;
        assert(ev.key == key@ && ev.ver == ver && ev.val == val@);
        assert(ev.key.len() <= 0xffff_ffff && ev.val.len() <= 0xffff_ffff);
        let n = self.entries.len();
        let mut i: usize = 0;
        while i < n
            invariant
                n == self.entries.len(),
                0 <= i <= n,
                forall|k: int| 0 <= k < i ==> entries_view(self.entries@)[k].key != key@,
                old(self).wf(),
                *self == *old(self),
                e@ == ev,
                ev.key == key@ && ev.ver == ver && ev.val == val@,
                ev.key.len() <= 0xffff_ffff && ev.val.len() <= 0xffff_ffff,
            decreases n - i,
        {
            let same = crate::codec::bytes_eq(self.entries[i].key.as_slice(), key);
            if same {
                proof {
                    let vs = entries_view(self.entries@);
                    assert(vs[i as int].key == key@);
                    lemma_pack_map_update(vs, i as int, ev);
                    let us = entries_view(self.entries@.update(i as int, e));
                    assert(us.len() == self.entries@.len());
                    assert forall|k: int| 0 <= k < us.len() implies us[k] == vs.update(
                        i as int,
                        ev,
                    )[k] by {
                        assert(us[k] == self.entries@.update(i as int, e)[k]@);
                        assert(vs[k] == self.entries@[k]@);
                        if k == i {
                            assert(us[k] == e@);
                        } else {
                            assert(self.entries@.update(i as int, e)[k] == self.entries@[k]);
                        }
                    }
                    assert(us =~= vs.update(i as int, ev));
                }
                self.entries.set(i, e);
                proof {
                    let vs = entries_view(old(self).entries@);
                    let ns = entries_view(self.entries@);
                    assert(ns == vs.update(i as int, ev));
                    assert forall|a: int, b: int|
                        0 <= a < b < ns.len() implies ns[a].key != ns[b].key by {
                        assert(vs[a].key != vs[b].key);
                        if a == i {
                            assert(ns[a].key == vs[a as int].key);
                        }
                        if b == i {
                            assert(ns[b].key == vs[b as int].key);
                        }
                    }
                    assert forall|k: int|
                        0 <= k < ns.len() implies (#[trigger] ns[k]).key.len() <= 0xffff_ffff
                        && ns[k].val.len() <= 0xffff_ffff by {
                        if k != i {
                            assert(ns[k] == vs[k]);
                        } else {
                            assert(ns[k] == ev);
                            assert(ev.key.len() <= 0xffff_ffff && ev.val.len() <= 0xffff_ffff);
                        }
                    }
                }
                return ;
            }
            i = i + 1;
        }
        proof {
            lemma_pack_map_push(entries_view(self.entries@), ev);
            assert(entries_view(self.entries@.push(e)) =~= entries_view(self.entries@).push(ev));
        }
        self.entries.push(e);
        proof {
            let vs = entries_view(old(self).entries@);
            let ns = entries_view(self.entries@);
            assert(ns == vs.push(ev));
            assert forall|a: int, b: int|
                0 <= a < b < ns.len() implies ns[a].key != ns[b].key by {
                if b == ns.len() - 1 {
                    assert(ns[a] == vs[a]);
                    assert(ns[b] == ev);
                } else {
                    assert(ns[a] == vs[a] && ns[b] == vs[b]);
                }
            }
            assert forall|k: int|
                0 <= k < ns.len() implies (#[trigger] ns[k]).key.len() <= 0xffff_ffff
                && ns[k].val.len() <= 0xffff_ffff by {
                if k != ns.len() - 1 {
                    assert(ns[k] == vs[k]);
                } else {
                    assert(ns[k] == ev);
                    assert(ev.key.len() <= 0xffff_ffff && ev.val.len() <= 0xffff_ffff);
                }
            }
        }
    }

    /// Looks the key up; the version that wrote it and a copy of the
    /// value come back.
    pub fn get(&self, key: &[u8]) -> (r: Option<(u16, Vec<u8>)>)
        requires
            self.wf(),
        ensures
            match r {
                Some(vv) => self@.contains_key(key@) && self@[key@] == (vv.0, vv.1@),
                None => !self@.contains_key(key@),
            },
    {
        let n = self.entries.len();
        let mut i: usize = 0;
        while i < n
            invariant
                n == self.entries.len(),
                0 <= i <= n,
                forall|k: int| 0 <= k < i ==> entries_view(self.entries@)[k].key != key@,
                self.wf(),
            decreases n - i,
        {
            let same = crate::codec::bytes_eq(self.entries[i].key.as_slice(), key);
            if same {
                proof {
                    lemma_pack_map_find(entries_view(self.entries@), i as int);
                }
                let e = &self.entries[i];
                return Some((e.ver, slice_to_vec(e.val.as_slice())));
            }
            i = i + 1;
        }
        proof {
            lemma_pack_map_domain(entries_view(self.entries@), key@);
        }
        None
    }

    /// Drops the key's entry if one is there; absence is a no-op.
    pub fn remove(&mut self, key: &[u8])
        requires
            old(self).wf(),
        ensures
            final(self).wf(),
            final(self)@ == old(self)@.remove(key@),
            final(self).version_spec() == old(self).version_spec(),
    {
        let n = self.entries.len();
        let mut i: usize = 0;
        while i < n
            invariant
                n == self.entries.len(),
                0 <= i <= n,
                forall|k: int| 0 <= k < i ==> entries_view(self.entries@)[k].key != key@,
                old(self).wf(),
                *self == *old(self),
            decreases n - i,
        {
            let same = crate::codec::bytes_eq(self.entries[i].key.as_slice(), key);
            if same {
                proof {
                    lemma_pack_map_remove(entries_view(self.entries@), i as int);
                    assert(entries_view(self.entries@.remove(i as int)) =~= entries_view(
                        self.entries@,
                    ).remove(i as int));
                }
                self.entries.remove(i);
                return ;
            }
            i = i + 1;
        }
        proof {
            lemma_pack_map_domain(entries_view(self.entries@), key@);
            assert(old(self)@.remove(key@) =~= old(self)@);
        }
    }

    /// Serializes the pack under the stable binary layout.
    pub fn to_vec(&self) -> (r: Result<Vec<u8>, Error>)
        ensures
            r matches Ok(b) && b@ == enc_pack(self.version_spec(), self.entries_spec()),
    {
        let mut buf: Vec<u8> = Vec::new();
        push_u32(&mut buf, self.version);
        let n = self.entries.len();
        let mut i: usize = 0;
        while i < n
            invariant
                n == self.entries.len(),
                0 <= i <= n,
                buf@ == be32(self.version_spec()) + enc_entries(self.entries_spec().take(i as int)),
            decreases n - i,
        {
            let ghost pre = buf@;
            let e = &self.entries[i];
            let klen = e.key.len() as u32;
            push_u32(&mut buf, klen);
            crate::codec::push_bytes(&mut buf, e.key.as_slice());
            push_u16(&mut buf, e.ver);
            let vlen = e.val.len() as u32;
            push_u32(&mut buf, vlen);
            crate::codec::push_bytes(&mut buf, e.val.as_slice());
            proof {
                assert(buf@ =~= pre + enc_entry(self.entries_spec()[i as int]));
                lemma_enc_entries_snoc(self.entries_spec().take(i as int), self.entries_spec()[i as int]);
                assert(self.entries_spec().take(i as int).push(self.entries_spec()[i as int])
                    =~= self.entries_spec().take(i + 1));
                assert(buf@ =~= be32(self.version_spec()) + enc_entries(
                    self.entries_spec().take(i + 1),
                ));
            }
            i = i + 1;
        }
        proof {
            assert(self.entries_spec().take(n as int) =~= self.entries_spec());
        }
        Ok(buf)
    }

    /// Deserializes a pack; the entries must consume the buffer and
    /// may not repeat a key.
    pub fn from_buf(buf: &[u8]) -> (r: Result<Pack, Error>)
        ensures
            match r {
                Ok(p) => {
                    &&& dec_pack(buf@) matches Some(ve)
                    &&& p.version_spec() == ve.0
                    &&& p.entries_spec() == ve.1
                    &&& p.wf()
                },
                Err(e) => dec_pack(buf@) is None && e == Error::DecodeError,
            },
    {
        if buf.len() < 4 {
            return Err(Error::DecodeError);
        }
        let version = read_u32(buf, 0);
        assert(buf@.skip(0) =~= buf@);
        let mut entries: Vec<PackEntry> = Vec::new();
        let mut i: usize = 4;
        while i < buf.len()
            invariant
                4 <= i <= buf@.len(),
                de32(buf@) == version,
                buf@.len() >= 4,
                dec_entries(buf@.skip(4)) == (match dec_entries(buf@.skip(i as int)) {
                    Some(rest) => Some(entries_view(entries@) + rest),
                    None => None::<Seq<PackEntryView>>,
                }),
                bounded_entries(entries_view(entries@)),
            decreases buf@.len() - i,
        {
            let rem = buf.len() - i;
            if rem < 10 {
                return Err(Error::DecodeError);
            }
            let klen32 = read_u32(buf, i);
            let klen = klen32 as usize;
            if rem - 10 < klen {
                proof {
                    assert(buf@.skip(i as int).len() < 10 + de32(buf@.skip(i as int)));
                }
                return Err(Error::DecodeError);
            }
            let key = slice_to_vec(slice_subrange(buf, i + 4, i + 4 + klen));
            let ver = read_u16(buf, i + 4 + klen);
            let vlen32 = read_u32(buf, i + 6 + klen);
            let vlen = vlen32 as usize;
            if rem - 10 - klen < vlen {
                proof {
                    let tail = buf@.skip(i as int);
                    assert(tail.skip(4 + klen as int) =~= buf@.skip(i + 4 + klen));
                    assert(tail.skip(6 + klen as int) =~= buf@.skip(i + 6 + klen));
                    assert(de32(tail.skip(6 + klen as int)) == vlen);
                    assert(tail.len() < 10 + klen + vlen);
                }
                return Err(Error::DecodeError);
            }
            let val = slice_to_vec(slice_subrange(buf, i + 10 + klen, i + 10 + klen + vlen));
            let e = PackEntry { key, ver, val };
            proof {
                let tail = buf@.skip(i as int);
                assert(tail.skip(4 + klen as int) =~= buf@.skip(i + 4 + klen));
                assert(tail.skip(6 + klen as int) =~= buf@.skip(i + 6 + klen));
                assert(tail.skip(10 + klen + vlen as int) =~= buf@.skip(i + 10 + klen + vlen));
                assert(tail.subrange(4, 4 + klen as int) =~= buf@.subrange(
                    i + 4,
                    i + 4 + klen,
                ));
                assert(tail.subrange(10 + klen as int, 10 + klen + vlen as int) =~= buf@.subrange(
                    i + 10 + klen,
                    i + 10 + klen + vlen,
                ));
                assert(dec_entries(tail) == (match dec_entries(buf@.skip(i + 10 + klen + vlen)) {
                    Some(rest) => Some(seq![e@] + rest),
                    None => None::<Seq<PackEntryView>>,
                }));
                assert(forall|rest: Seq<PackEntryView>| (entries_view(entries@) + (seq![e@] + rest))
                    =~= (entries_view(entries@).push(e@) + rest));
                assert(entries_view(entries@.push(e)) =~= entries_view(entries@).push(e@));
            }
            entries.push(e);
            i = i + 10 + klen + vlen;
        }
        proof {
            assert(buf@.skip(i as int).len() == 0);
            assert(dec_entries(buf@.skip(i as int)) == Some(Seq::<PackEntryView>::empty()));
            assert(entries_view(entries@) + Seq::<PackEntryView>::empty() =~= entries_view(
                entries@,
            ));
        }
        // reject a repeated key: the map view would be ambiguous
        let n = entries.len();
        let mut a: usize = 0;
        while a < n
            invariant
                n == entries.len(),
                0 <= a <= n,
                de32(buf@) == version,
                buf@.len() >= 4,
                dec_entries(buf@.skip(4)) == Some(entries_view(entries@)),
                bounded_entries(entries_view(entries@)),
                forall|x: int, y: int| 0 <= x < y < entries@.len() && x < a ==> entries_view(
                    entries@,
                )[x].key != entries_view(entries@)[y].key,
            decreases n - a,
        {
            let mut b: usize = a + 1;
            while b < n
                invariant
                    n == entries.len(),
                    0 <= a < b <= n,
                    de32(buf@) == version,
                    buf@.len() >= 4,
                    dec_entries(buf@.skip(4)) == Some(entries_view(entries@)),
                    forall|y: int| a < y < b ==> entries_view(entries@)[a as int].key
                        != entries_view(entries@)[y].key,
                decreases n - b,
            {
                let same = crate::codec::bytes_eq(
                    entries[a].key.as_slice(),
                    entries[b].key.as_slice(),
                );
                if same {
                    proof {
                        let s = entries_view(entries@);
                        assert(s[a as int] == entries@[a as int]@);
                        assert(s[b as int] == entries@[b as int]@);
                        assert(s[a as int].key == s[b as int].key);
                        assert(!unique_keys(s));
                    }
                    return Err(Error::DecodeError);
                }
                b = b + 1;
            }
            a = a + 1;
        }
        Ok(Pack { version, entries })
    }
}

} // verus!
