//! The top-level facade: store initialization, the transaction
//! lifecycle, and cross-version diff construction.

use vstd::prelude::*;

use crate::commit::{
    commit_spec, commits_map, dec_cstate, enc_cstate, lemma_cstate_round_trip, lemma_state_keyed,
    open_spec, Commit, CommitStateInner, CommitStateView,
};
use crate::diff::DiffIter;
use crate::error::Error;
use crate::index::dec_index;
use crate::kv::KeyValue;
use crate::tree::{index_key, resolve_index_bytes, ImmutableTree, Tree};

verus! {

/// The fixed backend key of the one-byte init marker.
pub open spec fn init_key() -> Seq<u8> {
    seq![105u8, 110u8, 105u8, 116u8]
}

/// The fixed backend key of the persisted commit state.
pub open spec fn commits_key() -> Seq<u8> {
    seq![99u8, 111u8, 109u8, 109u8, 105u8, 116u8, 115u8]
}

/// A valid init marker: at least one byte, the first being 100.
pub open spec fn marker_ok(b: Seq<u8>) -> bool {
    b.len() >= 1 && b[0] == 100u8
}

/// The state of a store that was never opened.
pub open spec fn empty_state() -> CommitStateView {
    CommitStateView { head_ver: 0u16, open_ver: 0u16, cmap: Map::empty() }
}

/// Builds the fixed backend key of the init marker.
fn init_key_bytes() -> (r: Vec<u8>)
    ensures
        r@ == init_key(),
{
    let mut buf: Vec<u8> = Vec::new();
    buf.push(105);
    buf.push(110);
    buf.push(105);
    buf.push(116);
    assert(buf@ =~= init_key());
    buf
}

/// Builds the fixed backend key of the persisted commit state.
fn commits_key_bytes() -> (r: Vec<u8>)
    ensures
        r@ == commits_key(),
{
    let mut buf: Vec<u8> = Vec::new();
    buf.push(99);
    buf.push(111);
    buf.push(109);
    buf.push(109);
    buf.push(105);
    buf.push(116);
    buf.push(115);
    assert(buf@ =~= commits_key());
    buf
}

/// The top-level versioned store: the commit state, and the
/// orchestration of trees and diffs over a backend.
pub struct VStore {
    cstate: CommitStateInner,
}

impl VStore {
    /// The commit state, for specification use.
    pub closed spec fn cstate_spec(&self) -> CommitStateInner {
        self.cstate
    }

    /// The commit state is well-formed.
    pub open spec fn wf(&self) -> bool {
        self.cstate_spec().wf()
    }

    /// The abstract commit state.
    pub open spec fn state(&self) -> CommitStateView {
        self.cstate_spec()@
    }

    /// Opens a store on the backend: a missing init marker means
    /// first-time initialization (an empty commit state and the
    /// marker are persisted and synced); a present marker must be
    /// valid and the persisted commit state must decode.
    pub fn new<KV: KeyValue>(kv: &mut KV) -> (r: Result<VStore, Error>)
        ensures
            match r {
                Ok(v) => {
                    &&& v.wf()
                    &&& if !old(kv).kv_map().contains_key((0u16, init_key())) {
                        &&& v.state() == empty_state()
                        &&& final(kv).kv_map() == old(kv).kv_map().insert(
                            (0u16, commits_key()),
                            enc_cstate(0, 0, Seq::<Commit>::empty()),
                        ).insert((0u16, init_key()), seq![100u8])
                    } else {
                        &&& marker_ok(old(kv).kv_map()[(0u16, init_key())])
                        &&& old(kv).kv_map().contains_key((0u16, commits_key()))
                        &&& dec_cstate(old(kv).kv_map()[(0u16, commits_key())]) matches Some(hos)
                            && v.state() == (CommitStateView {
                            head_ver: hos.0,
                            open_ver: hos.1,
                            cmap: commits_map(hos.2),
                        })
                        &&& final(kv).kv_map() == old(kv).kv_map()
                    }
                },
                Err(e) => e matches Error::KVError(_) || (old(kv).kv_map().contains_key(
                    (0u16, init_key()),
                ) && {
                    let marker = old(kv).kv_map()[(0u16, init_key())];
                    ||| !marker_ok(marker) && e matches Error::InitError(_)
                    ||| marker_ok(marker) && !old(kv).kv_map().contains_key((0u16, commits_key()))
                        && e matches Error::InitError(_)
                    ||| marker_ok(marker) && old(kv).kv_map().contains_key((0u16, commits_key()))
                        && dec_cstate(old(kv).kv_map()[(0u16, commits_key())]) is None && e
                        == Error::DecodeError
                }),
            },
    {
        let ikey = init_key_bytes();
        let ckey = commits_key_bytes();
        let marker = match kv.get(0, ikey.as_slice()) {
            Err(e) => {
                return Err(Error::KVError(e));
            },
            Ok(m) => m,
        };
        match marker {
            None => {
                let cstate = CommitStateInner::new();
                let buf = match cstate.to_vec() {
                    Ok(b) => b,
                    Err(e) => {
                        return Err(e);
                    },
                };
                match kv.put(0, ckey.as_slice(), buf) {
                    Err(e) => {
                        return Err(Error::KVError(e));
                    },
                    Ok(()) => {},
                }
                let mut mark: Vec<u8> = Vec::new();
                mark.push(100);
                assert(mark@ =~= seq![100u8]);
                match kv.put(0, ikey.as_slice(), mark) {
                    Err(e) => {
                        return Err(Error::KVError(e));
                    },
                    Ok(()) => {},
                }
                match kv.sync() {
                    Err(e) => {
                        return Err(Error::KVError(e));
                    },
                    Ok(()) => {},
                }
                Ok(VStore { cstate })
            },
            Some(mbuf) => {
                if mbuf.len() == 0 {
                    return Err(Error::InitError("Store not initialized properly".to_owned()));
                }
                if mbuf[0] != 100 {
                    return Err(Error::InitError("Store not initialized properly".to_owned()));
                }
                let cbuf = match kv.get(0, ckey.as_slice()) {
                    Err(e) => {
                        return Err(Error::KVError(e));
                    },
                    Ok(None) => {
                        return Err(Error::InitError("Commits key not found".to_owned()));
                    },
                    Ok(Some(b)) => b,
                };
                match CommitStateInner::from_buf(cbuf.as_slice()) {
                    Ok(cstate) => Ok(VStore { cstate }),
                    Err(_) => Err(Error::DecodeError),
                }
            },
        }
    }

    /// Persists the commit state under its fixed key.
    fn write_commit_state<KV: KeyValue>(&self, kv: &mut KV) -> (r: Result<(), Error>)
        requires
            self.wf(),
        ensures
            match r {
                Ok(()) => final(kv).kv_map() == old(kv).kv_map().insert(
                    (0u16, commits_key()),
                    enc_cstate(
                        self.cstate_spec().head_ver_spec(),
                        self.cstate_spec().open_ver_spec(),
                        self.cstate_spec().commits_spec(),
                    ),
                ),
                Err(e) => e matches Error::KVError(_) && final(kv).kv_map() == old(kv).kv_map(),
            },
    {
        let ckey = commits_key_bytes();
        let buf = match self.cstate.to_vec() {
            Ok(b) => b,
            Err(e) => {
                return Err(e);
            },
        };
        match kv.put(0, ckey.as_slice(), buf) {
            Err(e) => Err(Error::KVError(e)),
            Ok(()) => Ok(()),
        }
    }

    /// Opens (or resumes) the writable version as the commit state
    /// machine says, makes the updated state durable, and binds a
    /// Tree to the resulting commit.
    pub fn writable<KV: KeyValue>(&mut self, kv: &mut KV) -> (r: Result<Tree, Error>)
        requires
            old(self).wf(),
        ensures
            final(self).wf(),
            open_spec(old(self).state()) matches Err(e2) ==> (r matches Err(e3) && e3 == e2
                && final(self).state() == old(self).state() && final(kv).kv_map() == old(
                kv,
            ).kv_map()),
            match r {
                Ok(t) => {
                    &&& open_spec(old(self).state()) matches Ok(sc)
                    &&& final(self).state() == open_spec(old(self).state())->Ok_0.0
                    &&& t.commit_spec() == open_spec(old(self).state())->Ok_0.1
                    &&& t.wf()
                    &&& t.idx_ver() == t.commit_spec().ver
                    &&& exists|b: Seq<u8>|
                        {
                            &&& final(kv).kv_map() == old(kv).kv_map().insert(
                                (0u16, commits_key()),
                                b,
                            )
                            &&& #[trigger] dec_cstate(b) matches Some(hos)
                                && hos.0 == final(self).state().head_ver
                                && hos.1 == final(self).state().open_ver
                                && commits_map(hos.2) == final(self).state().cmap
                        }
                    &&& match resolve_index_bytes(old(kv).kv_map(), t.commit_spec()) {
                        Some(ib) => dec_index(ib) matches Some(v) && t.bits() == v.1 && t.vlist()
                            == v.2,
                        None => t.bits() == 20 && t.vlist() == Seq::<u16>::new(
                            crate::hash::part_count(20) as nat,
                            |i: int| 0u16,
                        ),
                    }
                },
                Err(e) => {
                    ||| e matches Error::KVError(_)
                    ||| (open_spec(old(self).state()) matches Err(e2) && e == e2
                        && final(self).state() == old(self).state()
                        && final(kv).kv_map() == old(kv).kv_map())
                    ||| (open_spec(old(self).state()) matches Ok(sc) && (resolve_index_bytes(
                        old(kv).kv_map(),
                        sc.1,
                    ) matches Some(ib) && dec_index(ib) is None) && e == Error::DecodeError)
                },
            },
    {
        proof {
            lemma_state_keyed(&self.cstate);
        }
        let c = match self.cstate.open() {
            Ok(c) => c,
            Err(e) => {
                return Err(e);
            },
        };
        match self.write_commit_state(kv) {
            Err(e) => {
                return Err(e);
            },
            Ok(()) => {},
        }
        match kv.sync() {
            Err(e) => {
                return Err(Error::KVError(e));
            },
            Ok(()) => {},
        }
        proof {
            lemma_cstate_round_trip(
                self.cstate.head_ver_spec(),
                self.cstate.open_ver_spec(),
                self.cstate.commits_spec(),
            );
            assert(c.ver != 0);
            assert(commits_key().len() == 7 && index_key().len() == 5);
            assert(commits_key() != index_key());
            assert(resolve_index_bytes(kv.kv_map(), c) == resolve_index_bytes(
                old(kv).kv_map(),
                c,
            )) by {
                assert((0u16, commits_key()) != (c.ver, index_key()));
                if c.prev_ver != 0 {
                    assert((0u16, commits_key()) != (c.prev_ver, index_key()));
                } else {
                    assert((0u16, commits_key()).1 != (c.prev_ver, index_key()).1);
                }
            }
        }
        Tree::new(c, kv)
    }

    /// Builds a read-only tree over the commit recorded for `ver`; a
    /// version without a persisted Index is refused.
    pub fn immutable<KV: KeyValue>(&self, kv: &KV, ver: u16) -> (r: Result<ImmutableTree, Error>)
        requires
            self.wf(),
        ensures
            (ver == 0 || !self.state().cmap.contains_key(ver)) ==> (r matches Err(e) && e
                == Error::CommitNotFound(ver)),
            match r {
                Ok(it) => {
                    &&& ver != 0
                    &&& self.state().cmap.contains_key(ver)
                    &&& it.wf()
                    &&& it.tree_spec().commit_spec() == self.state().cmap[ver]
                    &&& resolve_index_bytes(kv.kv_map(), self.state().cmap[ver]) matches Some(b)
                    &&& dec_index(resolve_index_bytes(kv.kv_map(), self.state().cmap[ver])->Some_0)
                        matches Some(v) && it.bits() == v.1 && it.vlist() == v.2
                },
                Err(e) => {
                    ||| e matches Error::KVError(_)
                    ||| ((ver == 0 || !self.state().cmap.contains_key(ver)) && e
                        == Error::CommitNotFound(ver))
                    ||| (ver != 0 && self.state().cmap.contains_key(ver) && resolve_index_bytes(
                        kv.kv_map(),
                        self.state().cmap[ver],
                    ) is None && e == Error::IndexNotFound)
                    ||| (ver != 0 && self.state().cmap.contains_key(ver) && (resolve_index_bytes(
                        kv.kv_map(),
                        self.state().cmap[ver],
                    ) matches Some(b) && dec_index(b) is None && e == Error::DecodeError))
                },
            },
    {
        if ver == 0 {
            return Err(Error::CommitNotFound(ver));
        }
        let c = match self.cstate.get_commit(ver) {
            None => {
                return Err(Error::CommitNotFound(ver));
            },
            Some(c) => c,
        };
        proof {
            lemma_state_keyed(&self.cstate);
            assert(c.ver == ver);
        }
        match Tree::new_readonly(c, kv) {
            Err(e) => Err(e),
            Ok(t) => Ok(ImmutableTree::from_tree(t)),
        }
    }

    /// Makes a tree's Index durable under the tree's own version,
    /// re-persists the commit state, and syncs the backend.
    pub fn sync_tree<KV: KeyValue>(&self, kv: &mut KV, t: &Tree) -> (r: Result<(), Error>)
        requires
            self.wf(),
            t.wf(),
        ensures
            match r {
                Ok(()) => exists|ib: Seq<u8>, cb: Seq<u8>|
                    #![trigger dec_index(ib), dec_cstate(cb)]
                    {
                        &&& final(kv).kv_map() == old(kv).kv_map().insert(
                            (t.commit_spec().ver, index_key()),
                            ib,
                        ).insert((0u16, commits_key()), cb)
                        &&& dec_index(ib) == Some((t.idx_ver(), t.bits(), t.vlist()))
                        &&& dec_cstate(cb) matches Some(hos) && hos.0 == self.state().head_ver
                            && hos.1 == self.state().open_ver && commits_map(hos.2)
                            == self.state().cmap
                    },
                Err(e) => e matches Error::KVError(_),
            },
    {
        let ikey = crate::tree::index_key_bytes();
        let buf = match t.index_bytes() {
            Ok(b) => b,
            Err(e) => {
                return Err(e);
            },
        };
        match kv.put(t.tree_version(), ikey.as_slice(), buf) {
            Err(e) => {
                return Err(Error::KVError(e));
            },
            Ok(()) => {},
        }
        match self.write_commit_state(kv) {
            Err(e) => {
                return Err(e);
            },
            Ok(()) => {},
        }
        match kv.sync() {
            Err(e) => {
                return Err(Error::KVError(e));
            },
            Ok(()) => {},
        }
        proof {
            lemma_cstate_round_trip(
                self.cstate.head_ver_spec(),
                self.cstate.open_ver_spec(),
                self.cstate.commits_spec(),
            );
        }
        Ok(())
    }

    /// Seals the open version, then persists the Index and the
    /// commit state as `sync_tree` does. After it, a later
    /// `writable` derives a new version.
    pub fn commit<KV: KeyValue>(&mut self, kv: &mut KV, t: Tree) -> (r: Result<(), Error>)
        requires
            old(self).wf(),
            t.wf(),
        ensures
            final(self).wf(),
            final(self).state() == commit_spec(old(self).state()),
            match r {
                Ok(()) => exists|ib: Seq<u8>, cb: Seq<u8>|
                    #![trigger dec_index(ib), dec_cstate(cb)]
                    {
                        &&& final(kv).kv_map() == old(kv).kv_map().insert(
                            (t.commit_spec().ver, index_key()),
                            ib,
                        ).insert((0u16, commits_key()), cb)
                        &&& dec_index(ib) == Some((t.idx_ver(), t.bits(), t.vlist()))
                        &&& dec_cstate(cb) matches Some(hos)
                            && hos.0 == final(self).state().head_ver
                            && hos.1 == 0
                            && commits_map(hos.2) == final(self).state().cmap
                    },
                Err(e) => e matches Error::KVError(_),
            },
    {
        self.cstate.commit();
        self.sync_tree(kv, &t)
    }

    /// The commit state, for inspection.
    pub fn commit_state(&self) -> (r: &CommitStateInner)
        ensures
            *r == self.cstate_spec(),
    {
        &self.cstate
    }

    /// Loads both versions' Indexes and starts a partition-by-
    /// partition diff scan between them.
    pub fn diff<KV: KeyValue>(&self, kv: &KV, aver: u16, bver: u16) -> (r: Result<DiffIter, Error>)
        requires
            self.wf(),
        ensures
            match r {
                Ok(d) => {
                    &&& d.wf()
                    &&& d.pos_spec() == 0
                    &&& kv.kv_map().contains_key((aver, index_key()))
                    &&& kv.kv_map().contains_key((bver, index_key()))
                    &&& dec_index(kv.kv_map()[(aver, index_key())]) matches Some(av)
                        && d.a_vlist() == av.2
                    &&& dec_index(kv.kv_map()[(bver, index_key())]) matches Some(bv)
                        && d.b_vlist() == bv.2
                },
                Err(e) => {
                    ||| e matches Error::KVError(_)
                    ||| ((!kv.kv_map().contains_key((aver, index_key())) || !kv.kv_map()
                        .contains_key((bver, index_key()))) && e == Error::IndexNotFound)
                    ||| (((kv.kv_map().contains_key((aver, index_key())) && dec_index(
                        kv.kv_map()[(aver, index_key())],
                    ) is None) || (kv.kv_map().contains_key((bver, index_key())) && dec_index(
                        kv.kv_map()[(bver, index_key())],
                    ) is None)) && e == Error::DecodeError)
                    ||| (kv.kv_map().contains_key((aver, index_key())) && kv.kv_map()
                        .contains_key((bver, index_key())) && (dec_index(
                        kv.kv_map()[(aver, index_key())],
                    ) matches Some(av) && (dec_index(kv.kv_map()[(bver, index_key())]) matches
                        Some(bv) && av.1 != bv.1)) && e == Error::InvalidDiffState)
                },
            },
    {
        let a_idx = match Tree::load_index_at(aver, kv) {
            Err(e) => {
                return Err(e);
            },
            Ok(None) => {
                return Err(Error::IndexNotFound);
            },
            Ok(Some(idx)) => idx,
        };
        let b_idx = match Tree::load_index_at(bver, kv) {
            Err(e) => {
                return Err(e);
            },
            Ok(None) => {
                return Err(Error::IndexNotFound);
            },
            Ok(Some(idx)) => idx,
        };
        if a_idx.prefix_bits() != b_idx.prefix_bits() {
            return Err(Error::InvalidDiffState);
        }
        Ok(DiffIter::new(a_idx, b_idx))
    }
}

} // verus!
