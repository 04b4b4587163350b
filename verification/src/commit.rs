//! The version lineage: `Commit` nodes and the `CommitStateInner`
//! state machine that opens and seals versions.

use vstd::prelude::*;

use crate::codec::{be16, de16, lemma_de16_be16, push_u16, read_u16};
use crate::error::Error;

verus! {

/// One node of the singly-linked version chain: a version and its
/// predecessor. Version 0 is reserved to mean "unset".
#[derive(Debug, Clone, Copy, PartialEq, Eq, Structural)]
pub struct Commit {
    pub ver: u16,
    pub prev_ver: u16,
}

/// The byte layout of a `Commit`: its version and predecessor, each
/// two bytes big-endian.
pub open spec fn enc_commit(c: Commit) -> Seq<u8> {
    be16(c.ver) + be16(c.prev_ver)
}

/// The `Commit` read from the first four bytes, if enough are there.
pub open spec fn dec_commit_at(b: Seq<u8>) -> Option<Commit> {
    if b.len() >= 4 {
        Some(Commit { ver: de16(b), prev_ver: de16(b.skip(2)) })
    } else {
        None
    }
}

impl Commit {
    /// Derives the next commit: the current version becomes the
    /// predecessor and the version advances by one.
    pub fn increment(&mut self)
        requires
            old(self).ver < 0xffff,
        ensures
            final(self).prev_ver == old(self).ver,
            final(self).ver == old(self).ver + 1,
    {
        self.prev_ver = self.ver;
        self.ver = self.ver + 1;
    }

    /// Serializes the commit under the stable binary layout.
    pub fn to_vec(&self) -> (r: Result<Vec<u8>, Error>)
        ensures
            r matches Ok(b) && b@ == enc_commit(*self),
    {
        let mut buf: Vec<u8> = Vec::new();
        push_u16(&mut buf, self.ver);
        push_u16(&mut buf, self.prev_ver);
        assert(buf@ =~= enc_commit(*self));
        Ok(buf)
    }

    /// Deserializes a commit; exactly four bytes are expected.
    pub fn from_buf(buf: &[u8]) -> (r: Result<Commit, Error>)
        ensures
            match r {
                Ok(c) => buf@.len() == 4 && dec_commit_at(buf@) == Some(c),
                Err(e) => buf@.len() != 4 && e == Error::DecodeError,
            },
    {
        if buf.len() != 4 {
            return Err(Error::DecodeError);
        }
        let ver = read_u16(buf, 0);
        let prev_ver = read_u16(buf, 2);
        assert(buf@.skip(0) =~= buf@);
        Ok(Commit { ver, prev_ver })
    }
}

/// Serializing and then deserializing a commit recovers it.
pub proof fn lemma_commit_round_trip(c: Commit)
    ensures
        dec_commit_at(enc_commit(c)) == Some(c),
{
    let b = enc_commit(c);
    lemma_de16_be16(c.ver);
    lemma_de16_be16(c.prev_ver);
    assert(b[0] == be16(c.ver)[0] && b[1] == be16(c.ver)[1]);
    assert(b.skip(2) =~= be16(c.prev_ver));
    assert(de16(b) == de16(be16(c.ver)));
}

/// The abstract content of a `CommitStateInner`: the head version,
/// the open version, and the map from version to its commit.
#[verifier::ext_equal]
pub struct CommitStateView {
    pub head_ver: u16,
    pub open_ver: u16,
    pub cmap: Map<u16, Commit>,
}

/// The map a sequence of commits stands for, keyed by version; a
/// later entry overrides an earlier one with the same version.
pub open spec fn commits_map(s: Seq<Commit>) -> Map<u16, Commit>
    decreases s.len(),
{
    if s.len() == 0 {
        Map::empty()
    } else {
        commits_map(s.drop_last()).insert(s.last().ver, s.last())
    }
}

/// No two commits in the sequence claim the same version.
pub open spec fn unique_vers(s: Seq<Commit>) -> bool {
    forall|i: int, j: int| 0 <= i < j < s.len() ==> s[i].ver != s[j].ver
}

/// Every commit in the map sits at the key of its own version.
pub open spec fn keyed(s: CommitStateView) -> bool {
    forall|v: u16| s.cmap.contains_key(v) ==> (#[trigger] s.cmap[v]).ver == v
}

pub(crate) proof fn lemma_commits_map_push(s: Seq<Commit>, c: Commit)
    ensures
        commits_map(s.push(c)) == commits_map(s).insert(c.ver, c),
{
    assert(s.push(c).drop_last() =~= s);
    assert(s.push(c).last() == c);
}

pub(crate) proof fn lemma_commits_map_update(s: Seq<Commit>, i: int, c: Commit)
    requires
        unique_vers(s),
        0 <= i < s.len(),
        s[i].ver == c.ver,
    ensures
        commits_map(s.update(i, c)) == commits_map(s).insert(c.ver, c),
    decreases s.len(),
{
    let t = s.update(i, c);
    if i == s.len() - 1 {
        assert(t.drop_last() =~= s.drop_last());
        assert(commits_map(t) =~= commits_map(s).insert(c.ver, c));
    } else {
        assert(t.drop_last() =~= s.drop_last().update(i, c));
        lemma_commits_map_update(s.drop_last(), i, c);
        assert(s.last().ver != c.ver);
        assert(commits_map(t) =~= commits_map(s).insert(c.ver, c));
    }
}

pub(crate) proof fn lemma_commits_map_domain(s: Seq<Commit>, v: u16)
    ensures
        commits_map(s).contains_key(v) <==> exists|i: int| 0 <= i < s.len() && s[i].ver == v,
    decreases s.len(),
{
    if s.len() > 0 {
        lemma_commits_map_domain(s.drop_last(), v);
        if s.last().ver == v {
            assert(s[s.len() - 1].ver == v);
        } else {
            if exists|i: int| 0 <= i < s.drop_last().len() && s.drop_last()[i].ver == v {
                let i = choose|i: int| 0 <= i < s.drop_last().len() && s.drop_last()[i].ver
                    == v;
                assert(s[i].ver == v);
            }
            if exists|i: int| 0 <= i < s.len() && s[i].ver == v {
                let i = choose|i: int| 0 <= i < s.len() && s[i].ver == v;
                assert(s.drop_last()[i].ver == v);
            }
        }
    }
}

pub(crate) proof fn lemma_commits_map_find(s: Seq<Commit>, i: int)
    requires
        unique_vers(s),
        0 <= i < s.len(),
    ensures
        commits_map(s).contains_key(s[i].ver),
        commits_map(s)[s[i].ver] == s[i],
    decreases s.len(),
{
    if i == s.len() - 1 {
    } else {
        lemma_commits_map_find(s.drop_last(), i);
        assert(s.drop_last()[i] == s[i]);
        assert(s.last().ver != s[i].ver);
    }
}

pub(crate) proof fn lemma_commits_map_keyed(s: Seq<Commit>)
    ensures
        forall|v: u16| commits_map(s).contains_key(v) ==> (#[trigger] commits_map(s)[v]).ver
            == v,
    decreases s.len(),
{
    if s.len() > 0 {
        lemma_commits_map_keyed(s.drop_last());
        assert forall|v: u16| commits_map(s).contains_key(v) implies (#[trigger] commits_map(
            s,
        )[v]).ver == v by {
            if v != s.last().ver {
                assert(commits_map(s.drop_last()).contains_key(v));
                assert(commits_map(s)[v] == commits_map(s.drop_last())[v]);
            }
        }
    }
}

/// The byte layout of a commit sequence: each commit in order.
pub open spec fn enc_commits(s: Seq<Commit>) -> Seq<u8>
    decreases s.len(),
{
    if s.len() == 0 {
        Seq::empty()
    } else {
        enc_commit(s[0]) + enc_commits(s.drop_first())
    }
}

/// The commit sequence read from bytes; the whole buffer must be
/// consumed in four-byte steps.
pub open spec fn dec_commits_seq(b: Seq<u8>) -> Option<Seq<Commit>>
    decreases b.len(),
{
    if b.len() == 0 {
        Some(Seq::empty())
    } else if b.len() < 4 {
        None
    } else {
        match dec_commits_seq(b.skip(4)) {
            Some(rest) => Some(seq![dec_commit_at(b)->Some_0] + rest),
            None => None,
        }
    }
}

pub(crate) proof fn lemma_enc_commits_snoc(s: Seq<Commit>, c: Commit)
    ensures
        enc_commits(s.push(c)) == enc_commits(s) + enc_commit(c),
    decreases s.len(),
{
    if s.len() == 0 {
        assert(s.push(c).drop_first() =~= Seq::<Commit>::empty());
        assert(s.push(c)[0] == c);
        assert(enc_commits(Seq::<Commit>::empty()) == Seq::<u8>::empty());
        assert(enc_commits(s.push(c)) == enc_commit(c) + Seq::<u8>::empty());
        assert(enc_commits(s.push(c)) =~= enc_commits(s) + enc_commit(c));
    } else {
        assert(s.push(c).drop_first() =~= s.drop_first().push(c));
        lemma_enc_commits_snoc(s.drop_first(), c);
        assert(s.push(c)[0] == s[0]);
        assert(enc_commits(s.push(c)) == enc_commit(s[0]) + (enc_commits(s.drop_first())
            + enc_commit(c)));
        assert(enc_commit(s[0]) + (enc_commits(s.drop_first()) + enc_commit(c)) =~= (enc_commit(
            s[0],
        ) + enc_commits(s.drop_first())) + enc_commit(c));
        assert(enc_commits(s.push(c)) =~= enc_commits(s) + enc_commit(c));
    }
}

pub(crate) proof fn lemma_dec_enc_commits(s: Seq<Commit>)
    ensures
        dec_commits_seq(enc_commits(s)) == Some(s),
    decreases s.len(),
{
    if s.len() == 0 {
    } else {
        let b = enc_commits(s);
        assert(b.len() >= 4);
        assert(b.skip(4) =~= enc_commits(s.drop_first()));
        lemma_dec_enc_commits(s.drop_first());
        lemma_commit_round_trip(s[0]);
        assert(b[0] == enc_commit(s[0])[0] && b[1] == enc_commit(s[0])[1] && b[2]
            == enc_commit(s[0])[2] && b[3] == enc_commit(s[0])[3]);
        assert(b.skip(2)[0] == enc_commit(s[0]).skip(2)[0] && b.skip(2)[1] == enc_commit(
            s[0],
        ).skip(2)[1]);
        assert(dec_commit_at(b) == Some(s[0]));
        assert(seq![s[0]] + s.drop_first() =~= s);
    }
}

/// The byte layout of a commit state: head and open version, each two
/// bytes big-endian, then every known commit.
pub open spec fn enc_cstate(head_ver: u16, open_ver: u16, s: Seq<Commit>) -> Seq<u8> {
    be16(head_ver) + be16(open_ver) + enc_commits(s)
}

/// The commit state read from bytes: versions rejecting short input,
/// then the commit list, whose versions must be pairwise distinct.
pub open spec fn dec_cstate(b: Seq<u8>) -> Option<(u16, u16, Seq<Commit>)> {
    if b.len() >= 4 {
        match dec_commits_seq(b.skip(4)) {
            Some(s) => if unique_vers(s) {
                Some((de16(b), de16(b.skip(2)), s))
            } else {
                None
            },
            None => None,
        }
    } else {
        None
    }
}

/// Serializing and then deserializing a commit state recovers it.
pub proof fn lemma_cstate_round_trip(head_ver: u16, open_ver: u16, s: Seq<Commit>)
    requires
        unique_vers(s),
    ensures
        dec_cstate(enc_cstate(head_ver, open_ver, s)) == Some((head_ver, open_ver, s)),
{
    let b = enc_cstate(head_ver, open_ver, s);
    assert(b.skip(4) =~= enc_commits(s));
    lemma_dec_enc_commits(s);
    lemma_de16_be16(head_ver);
    lemma_de16_be16(open_ver);
    assert(b[0] == be16(head_ver)[0] && b[1] == be16(head_ver)[1]);
    assert(de16(b) == de16(be16(head_ver)));
    assert(b.skip(2)[0] == be16(open_ver)[0] && b.skip(2)[1] == be16(open_ver)[1]);
    assert(de16(b.skip(2)) == de16(be16(open_ver)));
}

/// What `open` does to a commit state: create version 1 from nothing,
/// resume the open version unchanged, or derive the next version from
/// the head; the resulting commit is recorded and made head and open.
pub open spec fn open_spec(s: CommitStateView) -> Result<(CommitStateView, Commit), Error> {
    if s.head_ver == 0 {
        let c = Commit { ver: 1u16, prev_ver: 0u16 };
        Ok((CommitStateView { head_ver: 1u16, open_ver: 1u16, cmap: s.cmap.insert(1u16, c) }, c))
    } else if s.open_ver != 0 {
        if s.cmap.contains_key(s.open_ver) {
            let c = s.cmap[s.open_ver];
            Ok(
                (
                    CommitStateView {
                        head_ver: c.ver,
                        open_ver: c.ver,
                        cmap: s.cmap.insert(c.ver, c),
                    },
                    c,
                ),
            )
        } else {
            Err(Error::VersionNotFound(s.open_ver))
        }
    } else {
        if s.cmap.contains_key(s.head_ver) {
            let prev = s.cmap[s.head_ver];
            if prev.ver == 0xffff {
                Err(Error::VersionOverflow)
            } else {
                let c = Commit { ver: (prev.ver + 1) as u16, prev_ver: prev.ver };
                Ok(
                    (
                        CommitStateView {
                            head_ver: c.ver,
                            open_ver: c.ver,
                            cmap: s.cmap.insert(c.ver, c),
                        },
                        c,
                    ),
                )
            }
        } else {
            Err(Error::HeadVersionNotFound(s.head_ver))
        }
    }
}

/// What `commit` does to a commit state: seal the open version.
pub open spec fn commit_spec(s: CommitStateView) -> CommitStateView {
    CommitStateView { head_ver: s.head_ver, open_ver: 0u16, cmap: s.cmap }
}

/// The version-lifecycle state: the head version, the open version,
/// and every (version, predecessor) pair ever recorded.
pub struct CommitStateInner {
    head_ver: u16,
    open_ver: u16,
    cmap: Vec<Commit>,
}

impl View for CommitStateInner {
    type V = CommitStateView;

    open spec fn view(&self) -> CommitStateView {
        CommitStateView {
            head_ver: self.head_ver_spec(),
            open_ver: self.open_ver_spec(),
            cmap: commits_map(self.commits_spec()),
        }
    }
}

impl CommitStateInner {
    /// The commit list holds each version at most once.
    pub open spec fn wf(&self) -> bool {
        unique_vers(self.commits_spec())
    }

    /// An empty state: nothing opened, nothing recorded.
    pub fn new() -> (r: CommitStateInner)
        ensures
            r.wf(),
            r@.head_ver == 0,
            r@.open_ver == 0,
            r@.cmap == Map::<u16, Commit>::empty(),
            r.head_ver_spec() == 0,
            r.open_ver_spec() == 0,
            r.commits_spec() == Seq::<Commit>::empty(),
    {
        CommitStateInner { head_ver: 0, open_ver: 0, cmap: Vec::new() }
    }

    /// The latest version ever opened, 0 if none.
    pub fn head_version(&self) -> (r: u16)
        ensures
            r == self@.head_ver,
    {
        self.head_ver
    }

    /// The version currently open for writing, 0 if none.
    pub fn open_version(&self) -> (r: u16)
        ensures
            r == self@.open_ver,
    {
        self.open_ver
    }

    /// Looks the commit for a version up; absence is not an error.
    pub fn get_commit(&self, ver: u16) -> (r: Option<Commit>)
        requires
            self.wf(),
        ensures
            match r {
                Some(c) => self@.cmap.contains_key(ver) && c == self@.cmap[ver],
                None => !self@.cmap.contains_key(ver),
            },
    {
        let n = self.cmap.len();
        let mut i: usize = 0;
        while i < n
            invariant
                n == self.cmap.len(),
                0 <= i <= n,
                forall|k: int| 0 <= k < i ==> self.cmap@[k].ver != ver,
                self.wf(),
            decreases n - i,
        {
            if self.cmap[i].ver == ver {
                proof {
                    lemma_commits_map_find(self.cmap@, i as int);
                }
                return Some(self.cmap[i]);
            }
            i = i + 1;
        }
        proof {
            lemma_commits_map_domain(self.cmap@, ver);
        }
        None
    }

    /// Records `c` under its own version, overriding any older entry.
    fn insert_commit(&mut self, c: Commit)
        requires
            old(self).wf(),
        ensures
            final(self).wf(),
            final(self)@.head_ver == old(self)@.head_ver,
            final(self)@.open_ver == old(self)@.open_ver,
            final(self)@.cmap == old(self)@.cmap.insert(c.ver, c),
    {
        let n = self.cmap.len();
        let mut i: usize = 0;
        while i < n
            invariant
                n == self.cmap.len(),
                0 <= i <= n,
                forall|k: int| 0 <= k < i ==> self.cmap@[k].ver != c.ver,
                old(self).wf(),
                *self == *old(self),
            decreases n - i,
        {
            if self.cmap[i].ver == c.ver {
                proof {
                    lemma_commits_map_update(self.cmap@, i as int, c);
                }
                self.cmap.set(i, c);
                return ;
            }
            i = i + 1;
        }
        proof {
            lemma_commits_map_push(self.cmap@, c);
        }
        self.cmap.push(c);
        assert forall|a: int, b: int|
            0 <= a < b < self.cmap@.len() implies self.cmap@[a].ver != self.cmap@[b].ver by {
            if b == self.cmap@.len() - 1 {
                assert(self.cmap@[a] == old(self).cmap@[a]);
            }
        }
    }

    /// The commit a fresh store starts from: version 1 after version 0.
    pub fn create_first_version(&self) -> (r: Commit)
        ensures
            r.ver == 1,
            r.prev_ver == 0,
    {
        Commit { ver: 1, prev_ver: 0 }
    }

    /// Derives the next commit from the commit recorded at the head
    /// version; the state itself is left unchanged.
    pub fn new_version_from_head(&mut self) -> (r: Result<Commit, Error>)
        requires
            old(self).wf(),
        ensures
            *final(self) == *old(self),
            match r {
                Ok(c) => old(self)@.cmap.contains_key(old(self)@.head_ver) && c.prev_ver == old(
                    self,
                )@.cmap[old(self)@.head_ver].ver && c.ver == c.prev_ver + 1,
                Err(e) => if !old(self)@.cmap.contains_key(old(self)@.head_ver) {
                    e == Error::HeadVersionNotFound(old(self)@.head_ver)
                } else {
                    old(self)@.cmap[old(self)@.head_ver].ver == 0xffff && e
                        == Error::VersionOverflow
                },
            },
    {
        match self.get_commit(self.head_ver) {
            None => Err(Error::HeadVersionNotFound(self.head_ver)),
            Some(mut c) => {
                if c.ver == 0xffff {
                    return Err(Error::VersionOverflow);
                }
                c.increment();
                Ok(c)
            },
        }
    }

    /// Seals the open version; the head and the map are untouched.
    pub fn commit(&mut self)
        requires
            old(self).wf(),
        ensures
            final(self).wf(),
            final(self)@ == commit_spec(old(self)@),
    {
        self.open_ver = 0;
        assert(self@ =~= commit_spec(old(self)@));
    }

    /// Opens a version as `open_spec` says: the first version on an
    /// untouched state, the open version unchanged if one is open,
    /// else the successor of the head; the result becomes head and
    /// open and is recorded in the map.
    pub fn open(&mut self) -> (r: Result<Commit, Error>)
        requires
            old(self).wf(),
        ensures
            final(self).wf(),
            match open_spec(old(self)@) {
                Ok(sc) => r matches Ok(c) && c == sc.1 && final(self)@ == sc.0,
                Err(e) => r matches Err(e2) && e2 == e && final(self)@ == old(self)@,
            },
    {
        let c: Commit;
        if self.head_ver == 0 {
            c = self.create_first_version();
        } else if self.open_ver != 0 {
            match self.get_commit(self.open_ver) {
                Some(cc) => {
                    c = cc;
                },
                None => {
                    return Err(Error::VersionNotFound(self.open_ver));
                },
            }
        } else {
            match self.new_version_from_head() {
                Ok(cc) => {
                    c = cc;
                },
                Err(e) => {
                    return Err(e);
                },
            }
        }
        self.head_ver = c.ver;
        self.open_ver = c.ver;
        self.insert_commit(c);
        assert(final(self)@ =~= open_spec(old(self)@)->Ok_0.0);
        Ok(c)
    }

    /// Serializes the state under the stable binary layout.
    pub fn to_vec(&self) -> (r: Result<Vec<u8>, Error>)
        ensures
            r matches Ok(b) && b@ == enc_cstate(self.head_ver_spec(), self.open_ver_spec(), self.commits_spec()),
    {
        let mut buf: Vec<u8> = Vec::new();
        push_u16(&mut buf, self.head_ver);
        push_u16(&mut buf, self.open_ver);
        let n = self.cmap.len();
        let mut i: usize = 0;
        while i < n
            invariant
                n == self.cmap.len(),
                0 <= i <= n,
                buf@ == be16(self.head_ver) + be16(self.open_ver) + enc_commits(
                    self.cmap@.take(i as int),
                ),
            decreases n - i,
        {
            let c = self.cmap[i];
            push_u16(&mut buf, c.ver);
            push_u16(&mut buf, c.prev_ver);
            proof {
                lemma_enc_commits_snoc(self.cmap@.take(i as int), c);
                assert(self.cmap@.take(i as int).push(c) =~= self.cmap@.take(i + 1));
                assert(buf@ =~= be16(self.head_ver) + be16(self.open_ver) + enc_commits(
                    self.cmap@.take(i + 1),
                ));
            }
            i = i + 1;
        }
        proof {
            assert(self.cmap@.take(n as int) =~= self.cmap@);
            assert(buf@ =~= enc_cstate(self.head_ver, self.open_ver, self.cmap@));
        }
        Ok(buf)
    }

    /// The head version, for specification use.
    pub closed spec fn head_ver_spec(&self) -> u16 {
        self.head_ver
    }

    /// The open version, for specification use.
    pub closed spec fn open_ver_spec(&self) -> u16 {
        self.open_ver
    }

    /// The recorded commits in storage order, for specification use.
    pub closed spec fn commits_spec(&self) -> Seq<Commit> {
        self.cmap@
    }

    /// Deserializes a state; the commit list must consume the buffer
    /// and may not repeat a version.
    pub fn from_buf(buf: &[u8]) -> (r: Result<CommitStateInner, Error>)
        ensures
            match r {
                Ok(s) => {
                    &&& dec_cstate(buf@) matches Some(hos)
                    &&& s.head_ver_spec() == hos.0
                    &&& s.open_ver_spec() == hos.1
                    &&& s.commits_spec() == hos.2
                    &&& s.wf()
                },
                Err(e) => dec_cstate(buf@) is None && e == Error::DecodeError,
            },
    {
        if buf.len() < 4 {
            return Err(Error::DecodeError);
        }
        let head_ver = read_u16(buf, 0);
        let open_ver = read_u16(buf, 2);
        assert(buf@.skip(0) =~= buf@);
        assert(de16(buf@) == head_ver);
        let mut cmap: Vec<Commit> = Vec::new();
        let mut i: usize = 4;
        while buf.len() - i >= 4
            invariant
                4 <= i <= buf@.len(),
                dec_commits_seq(buf@.skip(4)) == (match dec_commits_seq(buf@.skip(i as int)) {
                    Some(rest) => Some(cmap@ + rest),
                    None => None::<Seq<Commit>>,
                }),
            decreases buf@.len() - i,
        {
            let ver = read_u16(buf, i);
            let prev_ver = read_u16(buf, i + 2);
            let c = Commit { ver, prev_ver };
            proof {
                let tail = buf@.skip(i as int);
                assert(tail.len() >= 4);
                assert(tail.skip(4) =~= buf@.skip(i + 4));
                assert(tail.skip(2) =~= buf@.skip(i + 2));
                assert(dec_commit_at(tail) == Some(c));
                assert(forall|rest: Seq<Commit>| (cmap@ + (seq![c] + rest)) =~= (cmap@.push(c)
                    + rest));
            }
            cmap.push(c);
            i = i + 4;
        }
        if i != buf.len() {
            proof {
                assert(buf@.skip(i as int).len() < 4);
                assert(buf@.skip(i as int).len() > 0);
                assert(dec_commits_seq(buf@.skip(i as int)) is None);
            }
            return Err(Error::DecodeError);
        }
        proof {
            assert(buf@.skip(i as int).len() == 0);
            assert(dec_commits_seq(buf@.skip(i as int)) == Some(Seq::<Commit>::empty()));
            assert(cmap@ + Seq::<Commit>::empty() =~= cmap@);
        }
        // reject a repeated version: the map view would be ambiguous
        let n = cmap.len();
        let mut a: usize = 0;
        while a < n
            invariant
                n == cmap.len(),
                0 <= a <= n,
                dec_commits_seq(buf@.skip(4)) == Some(cmap@),
                de16(buf@) == head_ver,
                buf@.len() >= 4,
                forall|x: int, y: int| 0 <= x < y < cmap@.len() && x < a ==> cmap@[x].ver
                    != cmap@[y].ver,
            decreases n - a,
        {
            let mut b: usize = a + 1;
            while b < n
                invariant
                    n == cmap.len(),
                    0 <= a < b <= n,
                    dec_commits_seq(buf@.skip(4)) == Some(cmap@),
                    de16(buf@) == head_ver,
                    buf@.len() >= 4,
                    forall|y: int| a < y < b ==> cmap@[a as int].ver != cmap@[y].ver,
                decreases n - b,
            {
                if cmap[a].ver == cmap[b].ver {
                    return Err(Error::DecodeError);
                }
                b = b + 1;
            }
            a = a + 1;
        }
        Ok(CommitStateInner { head_ver, open_ver, cmap })
    }
}

/// Opening twice without an intervening commit is idempotent: the
/// second open returns the same commit and changes nothing.
pub proof fn lemma_open_idempotent(s: CommitStateView)
    requires
        keyed(s),
        open_spec(s) is Ok,
    ensures
        ({
            let (s2, c) = open_spec(s)->Ok_0;
            open_spec(s2) == Ok::<(CommitStateView, Commit), Error>((s2, c))
        }),
{
    let (s2, c) = open_spec(s)->Ok_0;
    assert(c.ver != 0);
    assert(s2.cmap.contains_key(c.ver) && s2.cmap[c.ver] == c);
    assert(s2.cmap.insert(c.ver, c) =~= s2.cmap);
    assert(open_spec(s2)->Ok_0.0 =~= s2);
}

/// Opening preserves the keying of the commit map.
pub proof fn lemma_open_preserves_keyed(s: CommitStateView)
    requires
        keyed(s),
        open_spec(s) is Ok,
    ensures
        keyed(open_spec(s)->Ok_0.0),
{
}

/// A commit followed by an open advances the version by exactly one,
/// and the new commit names the sealed version as its predecessor.
pub proof fn lemma_commit_open_monotonic(s: CommitStateView)
    requires
        keyed(s),
        open_spec(s) is Ok,
        open_spec(s)->Ok_0.1.ver < 0xffff,
    ensures
        ({
            let (s2, c) = open_spec(s)->Ok_0;
            let s3 = commit_spec(s2);
            &&& open_spec(s3) is Ok
            &&& open_spec(s3)->Ok_0.1.ver == c.ver + 1
            &&& open_spec(s3)->Ok_0.1.prev_ver == c.ver
        }),
{
    let (s2, c) = open_spec(s)->Ok_0;
    assert(c.ver != 0);
    let s3 = commit_spec(s2);
    assert(s3.head_ver == c.ver && s3.open_ver == 0);
    assert(s3.cmap.contains_key(c.ver) && s3.cmap[c.ver] == c);
}

/// The view of a well-formed state is always keyed: the map sends
/// each version to a commit carrying that version.
pub proof fn lemma_state_keyed(s: &CommitStateInner)
    ensures
        keyed(s@),
{
    lemma_commits_map_keyed(s.commits_spec());
}

} // verus!
