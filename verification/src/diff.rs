//! The lazy cross-version diff: partition by partition, the key-level
//! differences between two versions' Indexes and Packs.

use vstd::prelude::*;
use vstd::slice::slice_to_vec;

use crate::error::Error;
use crate::hash::{part_of_hash, xxh3_of};
use crate::index::Index;
use crate::kv::KeyValue;
use crate::pack::{dec_pack, pack_map, unique_keys, Pack, PackEntryView};
use crate::tree::{part_key, slot_key};

verus! {

/// A key changed between the two versions: the versions that wrote
/// each side and the two values.
#[derive(Debug)]
pub struct DiffValue {
    pub a_ver: u16,
    pub b_ver: u16,
    pub a_val: Vec<u8>,
    pub b_val: Vec<u8>,
}

/// The kind of difference one key shows.
#[derive(Debug)]
pub enum DiffType {
    /// Present only on the B side.
    New(Vec<u8>),
    /// Present only on the A side: the version that wrote it and the
    /// value.
    Delete(u16, Vec<u8>),
    /// Present on both sides with different writing versions.
    Value(DiffValue),
}

/// One key's difference.
#[derive(Debug)]
pub struct DiffItem {
    pub key: Vec<u8>,
    pub diff_type: DiffType,
}

/// The abstract content of a `DiffValue`.
#[verifier::ext_equal]
pub struct DiffValueView {
    pub a_ver: u16,
    pub b_ver: u16,
    pub a_val: Seq<u8>,
    pub b_val: Seq<u8>,
}

/// The abstract content of a `DiffType`.
#[verifier::ext_equal]
pub enum DiffTypeView {
    New(Seq<u8>),
    Delete(u16, Seq<u8>),
    Value(DiffValueView),
}

/// The abstract content of a `DiffItem`.
#[verifier::ext_equal]
pub struct DiffItemView {
    pub key: Seq<u8>,
    pub diff_type: DiffTypeView,
}

impl View for DiffValue {
    type V = DiffValueView;

    open spec fn view(&self) -> DiffValueView {
        DiffValueView {
            a_ver: self.a_ver,
            b_ver: self.b_ver,
            a_val: self.a_val@,
            b_val: self.b_val@,
        }
    }
}

impl View for DiffType {
    type V = DiffTypeView;

    open spec fn view(&self) -> DiffTypeView {
        match self {
            DiffType::New(v) => DiffTypeView::New(v@),
            DiffType::Delete(ver, v) => DiffTypeView::Delete(*ver, v@),
            DiffType::Value(dv) => DiffTypeView::Value(dv@),
        }
    }
}

impl View for DiffItem {
    type V = DiffItemView;

    open spec fn view(&self) -> DiffItemView {
        DiffItemView { key: self.key@, diff_type: self.diff_type@ }
    }
}

/// The abstract content of a sequence of diff items.
pub open spec fn items_view(s: Seq<DiffItem>) -> Seq<DiffItemView> {
    s.map_values(|d: DiffItem| d@)
}

/// The items one B-side entry contributes, against A's content: a
/// `New` if A lacks the key, a `Value` if A wrote it at another
/// version, nothing if the writing versions agree.
pub open spec fn b_item(am: Map<Seq<u8>, (u16, Seq<u8>)>, e: PackEntryView) -> Seq<DiffItemView> {
    if !am.contains_key(e.key) {
        seq![DiffItemView { key: e.key, diff_type: DiffTypeView::New(e.val) }]
    } else if am[e.key].0 != e.ver {
        seq![
            DiffItemView {
                key: e.key,
                diff_type: DiffTypeView::Value(
                    DiffValueView {
                        a_ver: am[e.key].0,
                        b_ver: e.ver,
                        a_val: am[e.key].1,
                        b_val: e.val,
                    },
                ),
            },
        ]
    } else {
        Seq::empty()
    }
}

/// The items one A-side entry contributes, against B's content: a
/// `Delete` if B lacks the key, nothing otherwise.
pub open spec fn a_item(bm: Map<Seq<u8>, (u16, Seq<u8>)>, e: PackEntryView) -> Seq<DiffItemView> {
    if bm.contains_key(e.key) {
        Seq::empty()
    } else {
        seq![DiffItemView { key: e.key, diff_type: DiffTypeView::Delete(e.ver, e.val) }]
    }
}

/// The pass over B's entries in order, against A's content.
pub open spec fn diff_b_items(am: Map<Seq<u8>, (u16, Seq<u8>)>, bs: Seq<PackEntryView>) -> Seq<
    DiffItemView,
>
    decreases bs.len(),
{
    if bs.len() == 0 {
        Seq::empty()
    } else {
        diff_b_items(am, bs.drop_last()) + b_item(am, bs.last())
    }
}

/// The pass over A's entries in order, against B's content.
pub open spec fn diff_a_items(as_: Seq<PackEntryView>, bm: Map<Seq<u8>, (u16, Seq<u8>)>) -> Seq<
    DiffItemView,
>
    decreases as_.len(),
{
    if as_.len() == 0 {
        Seq::empty()
    } else {
        diff_a_items(as_.drop_last(), bm) + a_item(bm, as_.last())
    }
}

/// One partition's diff: B's pass then A's pass; both sides absent is
/// an invalid state.
pub open spec fn diff_items_spec(
    a: Option<Seq<PackEntryView>>,
    b: Option<Seq<PackEntryView>>,
) -> Option<Seq<DiffItemView>> {
    match (a, b) {
        (Option::None, Option::None) => None,
        (Option::None, Option::Some(bs)) => Some(diff_b_items(Map::empty(), bs)),
        (Option::Some(as_), Option::None) => Some(diff_a_items(as_, Map::empty())),
        (Option::Some(as_), Option::Some(bs)) => Some(
            diff_b_items(pack_map(as_), bs) + diff_a_items(as_, pack_map(bs)),
        ),
    }
}

/// How many items of the sequence carry the key.
pub open spec fn key_count(items: Seq<DiffItemView>, k: Seq<u8>) -> int
    decreases items.len(),
{
    if items.len() == 0 {
        0
    } else {
        key_count(items.drop_last(), k) + if items.last().key == k {
            1int
        } else {
            0int
        }
    }
}

pub(crate) proof fn lemma_key_count_single(items: Seq<DiffItemView>, k: Seq<u8>)
    requires
        items.len() <= 1,
    ensures
        key_count(items, k) == if items.len() == 1 && items[0].key == k {
            1int
        } else {
            0int
        },
{
    if items.len() == 1 {
        assert(items.drop_last() =~= Seq::<DiffItemView>::empty());
        assert(key_count(Seq::<DiffItemView>::empty(), k) == 0);
        assert(items.last() == items[0]);
    }
}

pub(crate) proof fn lemma_key_count_append(x: Seq<DiffItemView>, y: Seq<DiffItemView>, k: Seq<u8>)
    ensures
        key_count(x + y, k) == key_count(x, k) + key_count(y, k),
    decreases y.len(),
{
    if y.len() == 0 {
        assert(x + y =~= x);
    } else {
        assert((x + y).drop_last() =~= x + y.drop_last());
        assert((x + y).last() == y.last());
        lemma_key_count_append(x, y.drop_last(), k);
    }
}

pub(crate) proof fn lemma_contains_append<A>(x: Seq<A>, y: Seq<A>, it: A)
    requires
        x.contains(it) || y.contains(it),
    ensures
        (x + y).contains(it),
{
    if x.contains(it) {
        let i = choose|i: int| 0 <= i < x.len() && x[i] == it;
        assert((x + y)[i] == it);
    } else {
        let i = choose|i: int| 0 <= i < y.len() && y[i] == it;
        assert((x + y)[x.len() + i] == it);
    }
}

/// Every item of B's pass carries a key of B's pack.
pub proof fn lemma_diff_b_items_keys(am: Map<Seq<u8>, (u16, Seq<u8>)>, bs: Seq<PackEntryView>)
    ensures
        forall|i: int| 0 <= i < diff_b_items(am, bs).len() ==> pack_map(bs).contains_key(
            (#[trigger] diff_b_items(am, bs)[i]).key,
        ),
    decreases bs.len(),
{
    if bs.len() > 0 {
        let t = bs.drop_last();
        let e = bs.last();
        lemma_diff_b_items_keys(am, t);
        let items = diff_b_items(am, bs);
        let prev = diff_b_items(am, t);
        assert forall|i: int| 0 <= i < items.len() implies pack_map(bs).contains_key(
            items[i].key,
        ) by {
            assert(pack_map(bs) == pack_map(t).insert(e.key, (e.ver, e.val)));
            if i < prev.len() {
                assert(items[i] == prev[i]);
                assert(pack_map(t).contains_key(prev[i].key));
            } else {
                assert(items[i] == b_item(am, e)[i - prev.len()]);
                assert(items[i].key == e.key);
            }
        }
    }
}

/// Every item of A's pass carries a key of A's pack.
pub proof fn lemma_diff_a_items_keys(as_: Seq<PackEntryView>, bm: Map<Seq<u8>, (u16, Seq<u8>)>)
    ensures
        forall|i: int| 0 <= i < diff_a_items(as_, bm).len() ==> pack_map(as_).contains_key(
            (#[trigger] diff_a_items(as_, bm)[i]).key,
        ),
    decreases as_.len(),
{
    if as_.len() > 0 {
        let t = as_.drop_last();
        let e = as_.last();
        lemma_diff_a_items_keys(t, bm);
        let items = diff_a_items(as_, bm);
        let prev = diff_a_items(t, bm);
        assert forall|i: int| 0 <= i < items.len() implies pack_map(as_).contains_key(
            items[i].key,
        ) by {
            assert(pack_map(as_) == pack_map(t).insert(e.key, (e.ver, e.val)));
            if i < prev.len() {
                assert(items[i] == prev[i]);
                assert(pack_map(t).contains_key(prev[i].key));
            } else {
                assert(items[i] == a_item(bm, e)[i - prev.len()]);
                assert(items[i].key == e.key);
            }
        }
    }
}

/// What B's pass holds for one key: exactly one `New` where only B
/// has it, exactly one `Value` where both have it at different
/// versions, nothing otherwise.
pub proof fn lemma_diff_b_items(am: Map<Seq<u8>, (u16, Seq<u8>)>, bs: Seq<PackEntryView>, k: Seq<u8>)
    requires
        unique_keys(bs),
    ensures
        ({
            let items = diff_b_items(am, bs);
            let bm = pack_map(bs);
            &&& !bm.contains_key(k) ==> key_count(items, k) == 0
            &&& bm.contains_key(k) && !am.contains_key(k) ==> key_count(items, k) == 1
                && items.contains(
                DiffItemView { key: k, diff_type: DiffTypeView::New(bm[k].1) },
            )
            &&& bm.contains_key(k) && am.contains_key(k) && am[k].0 != bm[k].0 ==> key_count(
                items,
                k,
            ) == 1 && items.contains(
                DiffItemView {
                    key: k,
                    diff_type: DiffTypeView::Value(
                        DiffValueView {
                            a_ver: am[k].0,
                            b_ver: bm[k].0,
                            a_val: am[k].1,
                            b_val: bm[k].1,
                        },
                    ),
                },
            )
            &&& bm.contains_key(k) && am.contains_key(k) && am[k].0 == bm[k].0 ==> key_count(
                items,
                k,
            ) == 0
        }),
    decreases bs.len(),
{
    crate::pack::lemma_pack_map_domain(bs, k);
    if bs.len() > 0 {
        let t = bs.drop_last();
        let e = bs.last();
        assert(unique_keys(t));
        lemma_diff_b_items(am, t, k);
        crate::pack::lemma_pack_map_domain(t, k);
        let items = diff_b_items(am, bs);
        let prev = diff_b_items(am, t);
        lemma_key_count_append(prev, b_item(am, e), k);
        if e.key == k {
            assert(forall|j: int| 0 <= j < t.len() ==> t[j].key != k);
            assert(!pack_map(t).contains_key(k));
            assert(key_count(prev, k) == 0);
            assert(pack_map(bs)[k] == (e.ver, e.val));
            if !am.contains_key(k) {
                let it = DiffItemView { key: k, diff_type: DiffTypeView::New(e.val) };
                assert(b_item(am, e)[0] == it);
                assert(b_item(am, e).contains(it));
                lemma_contains_append(prev, b_item(am, e), it);
                lemma_key_count_single(b_item(am, e), k);
            } else if am[k].0 != e.ver {
                let it = DiffItemView {
                    key: k,
                    diff_type: DiffTypeView::Value(
                        DiffValueView {
                            a_ver: am[k].0,
                            b_ver: e.ver,
                            a_val: am[k].1,
                            b_val: e.val,
                        },
                    ),
                };
                assert(b_item(am, e)[0] == it);
                assert(b_item(am, e).contains(it));
                lemma_contains_append(prev, b_item(am, e), it);
                lemma_key_count_single(b_item(am, e), k);
            } else {
                lemma_key_count_single(b_item(am, e), k);
            }
        } else {
            assert(pack_map(bs).contains_key(k) <==> pack_map(t).contains_key(k));
            assert(pack_map(bs).contains_key(k) ==> pack_map(bs)[k] == pack_map(t)[k]);
            lemma_key_count_single(b_item(am, e), k);
            assert(key_count(b_item(am, e), k) == 0);
            assert forall|it: DiffItemView| prev.contains(it) implies items.contains(it) by {
                lemma_contains_append(prev, b_item(am, e), it);
            }
        }
    }
}

/// What A's pass holds for one key: exactly one `Delete` where only A
/// has it, nothing otherwise.
pub proof fn lemma_diff_a_items(
    as_: Seq<PackEntryView>,
    bm: Map<Seq<u8>, (u16, Seq<u8>)>,
    k: Seq<u8>,
)
    requires
        unique_keys(as_),
    ensures
        ({
            let items = diff_a_items(as_, bm);
            let am = pack_map(as_);
            &&& !am.contains_key(k) ==> key_count(items, k) == 0
            &&& am.contains_key(k) && bm.contains_key(k) ==> key_count(items, k) == 0
            &&& am.contains_key(k) && !bm.contains_key(k) ==> key_count(items, k) == 1
                && items.contains(
                DiffItemView { key: k, diff_type: DiffTypeView::Delete(am[k].0, am[k].1) },
            )
        }),
    decreases as_.len(),
{
    crate::pack::lemma_pack_map_domain(as_, k);
    if as_.len() > 0 {
        let t = as_.drop_last();
        let e = as_.last();
        assert(unique_keys(t));
        lemma_diff_a_items(t, bm, k);
        crate::pack::lemma_pack_map_domain(t, k);
        let items = diff_a_items(as_, bm);
        let prev = diff_a_items(t, bm);
        lemma_key_count_append(prev, a_item(bm, e), k);
        if e.key == k {
            assert(forall|j: int| 0 <= j < t.len() ==> t[j].key != k);
            assert(!pack_map(t).contains_key(k));
            assert(key_count(prev, k) == 0);
            assert(pack_map(as_)[k] == (e.ver, e.val));
            if !bm.contains_key(k) {
                let it = DiffItemView { key: k, diff_type: DiffTypeView::Delete(e.ver, e.val) };
                assert(a_item(bm, e)[0] == it);
                assert(a_item(bm, e).contains(it));
                lemma_contains_append(prev, a_item(bm, e), it);
                lemma_key_count_single(a_item(bm, e), k);
            } else {
                lemma_key_count_single(a_item(bm, e), k);
            }
        } else {
            assert(pack_map(as_).contains_key(k) <==> pack_map(t).contains_key(k));
            assert(pack_map(as_).contains_key(k) ==> pack_map(as_)[k] == pack_map(t)[k]);
            lemma_key_count_single(a_item(bm, e), k);
            assert(key_count(a_item(bm, e), k) == 0);
            assert forall|it: DiffItemView| prev.contains(it) implies items.contains(it) by {
                lemma_contains_append(prev, a_item(bm, e), it);
            }
        }
    }
}

/// One partition's diff is symmetric and complete: a key only in B
/// appears exactly once as `New`, a key only in A exactly once as
/// `Delete`, a key in both with different writing versions exactly
/// once as `Value` carrying both sides, and a key written at the same
/// version on both sides, or on neither, not at all.
pub proof fn lemma_diff_symmetry(as_: Seq<PackEntryView>, bs: Seq<PackEntryView>, k: Seq<u8>)
    requires
        unique_keys(as_),
        unique_keys(bs),
    ensures
        ({
            let am = pack_map(as_);
            let bm = pack_map(bs);
            let items = diff_b_items(am, bs) + diff_a_items(as_, bm);
            &&& key_count(items, k) <= 1
            &&& bm.contains_key(k) && !am.contains_key(k) ==> key_count(items, k) == 1
                && items.contains(
                DiffItemView { key: k, diff_type: DiffTypeView::New(bm[k].1) },
            )
            &&& am.contains_key(k) && !bm.contains_key(k) ==> key_count(items, k) == 1
                && items.contains(
                DiffItemView { key: k, diff_type: DiffTypeView::Delete(am[k].0, am[k].1) },
            )
            &&& am.contains_key(k) && bm.contains_key(k) && am[k].0 != bm[k].0 ==> key_count(
                items,
                k,
            ) == 1 && items.contains(
                DiffItemView {
                    key: k,
                    diff_type: DiffTypeView::Value(
                        DiffValueView {
                            a_ver: am[k].0,
                            b_ver: bm[k].0,
                            a_val: am[k].1,
                            b_val: bm[k].1,
                        },
                    ),
                },
            )
            &&& am.contains_key(k) && bm.contains_key(k) && am[k].0 == bm[k].0 ==> key_count(
                items,
                k,
            ) == 0
            &&& !am.contains_key(k) && !bm.contains_key(k) ==> key_count(items, k) == 0
            &&& forall|i: int| 0 <= i < items.len() ==> am.contains_key(
                (#[trigger] items[i]).key,
            ) || bm.contains_key(items[i].key)
        }),
{
    let am = pack_map(as_);
    let bm = pack_map(bs);
    lemma_diff_b_items(am, bs, k);
    lemma_diff_a_items(as_, bm, k);
    lemma_diff_b_items_keys(am, bs);
    lemma_diff_a_items_keys(as_, bm);
    let bpass = diff_b_items(am, bs);
    let apass = diff_a_items(as_, bm);
    assert forall|i: int| 0 <= i < (bpass + apass).len() implies am.contains_key(
        ((bpass + apass)[i]).key,
    ) || bm.contains_key(((bpass + apass)[i]).key) by {
        if i < bpass.len() {
            assert((bpass + apass)[i] == bpass[i]);
        } else {
            assert((bpass + apass)[i] == apass[i - bpass.len()]);
        }
    }
    lemma_key_count_append(diff_b_items(am, bs), diff_a_items(as_, bm), k);
    assert forall|it: DiffItemView|
        diff_b_items(am, bs).contains(it) || diff_a_items(as_, bm).contains(
            it,
        ) implies (diff_b_items(am, bs) + diff_a_items(as_, bm)).contains(it) by {
        lemma_contains_append(diff_b_items(am, bs), diff_a_items(as_, bm), it);
    }
}

/// A partition's batch never names a foreign key: when every key of
/// both packs hashes to partition `q` (which holds of every Pack the
/// store itself writes), a key hashing to another partition appears
/// in no item of the batch. With `lemma_diff_symmetry` this pins the
/// whole scan: a key can appear only in its own partition's batch,
/// and there exactly as that lemma says.
pub proof fn lemma_diff_foreign_key_absent(
    as_: Seq<PackEntryView>,
    bs: Seq<PackEntryView>,
    bits: usize,
    q: u32,
    k: Seq<u8>,
)
    requires
        unique_keys(as_),
        unique_keys(bs),
        forall|i: int| 0 <= i < as_.len() ==> part_of_hash(
            xxh3_of((#[trigger] as_[i]).key),
            bits,
        ) as u32 == q,
        forall|i: int| 0 <= i < bs.len() ==> part_of_hash(
            xxh3_of((#[trigger] bs[i]).key),
            bits,
        ) as u32 == q,
        part_of_hash(xxh3_of(k), bits) as u32 != q,
    ensures
        key_count(diff_b_items(pack_map(as_), bs) + diff_a_items(as_, pack_map(bs)), k) == 0,
{
    let am = pack_map(as_);
    let bm = pack_map(bs);
    crate::pack::lemma_pack_map_domain(as_, k);
    crate::pack::lemma_pack_map_domain(bs, k);
    assert(forall|i: int| 0 <= i < as_.len() ==> (#[trigger] as_[i]).key != k);
    assert(forall|i: int| 0 <= i < bs.len() ==> (#[trigger] bs[i]).key != k);
    assert(!am.contains_key(k));
    assert(!bm.contains_key(k));
    lemma_diff_b_items(am, bs, k);
    lemma_diff_a_items(as_, bm, k);
    lemma_key_count_append(diff_b_items(am, bs), diff_a_items(as_, bm), k);
}

/// The content one side contributes for a partition: no Pack when its
/// version is 0 or the backend lacks the record, the decoded entries
/// when it decodes, and nothing definite when the record is corrupt.
pub open spec fn side_pack(kvm: Map<(u16, Seq<u8>), Seq<u8>>, ver: u16, part: u32) -> Option<
    Option<Seq<PackEntryView>>,
> {
    if ver == 0 {
        Some(None)
    } else if !kvm.contains_key((ver, slot_key(part))) {
        Some(None)
    } else {
        match dec_pack(kvm[(ver, slot_key(part))]) {
            Some(ve) => Some(Some(ve.1)),
            None => None,
        }
    }
}

/// The first partition at or after `pos` that either side has
/// written, if any.
pub open spec fn next_diff_pos(avl: Seq<u16>, bvl: Seq<u16>, pos: int) -> Option<int>
    recommends
        0 <= pos,
        avl.len() == bvl.len(),
    decreases avl.len() - pos,
{
    if pos < 0 || pos >= avl.len() {
        None
    } else if avl[pos] == 0 && bvl[pos] == 0 {
        next_diff_pos(avl, bvl, pos + 1)
    } else {
        Some(pos)
    }
}

/// A forward-only scan over two versions' Indexes, yielding one
/// partition's differences at a time.
pub struct DiffIter {
    pub(crate) a_idx: Index,
    pub(crate) b_idx: Index,
    pos: usize,
}

impl DiffIter {
    /// A's version list, for specification use.
    pub closed spec fn a_vlist(&self) -> Seq<u16> {
        self.a_idx.vlist()
    }

    /// B's version list, for specification use.
    pub closed spec fn b_vlist(&self) -> Seq<u16> {
        self.b_idx.vlist()
    }

    /// The scan position, for specification use.
    pub closed spec fn pos_spec(&self) -> int {
        self.pos as int
    }

    /// Both indexes are well-formed and agree on the partition count.
    pub closed spec fn wf(&self) -> bool {
        &&& self.a_idx.wf()
        &&& self.b_idx.wf()
        &&& self.a_idx.prefix_bits_spec() == self.b_idx.prefix_bits_spec()
        &&& self.pos <= self.a_idx.vlist().len()
    }

    /// Starts a scan at the first partition.
    pub(crate) fn new(a_idx: Index, b_idx: Index) -> (r: DiffIter)
        requires
            a_idx.wf(),
            b_idx.wf(),
            a_idx.prefix_bits_spec() == b_idx.prefix_bits_spec(),
        ensures
            r.wf(),
            r.a_vlist() == a_idx.vlist(),
            r.b_vlist() == b_idx.vlist(),
            r.pos_spec() == 0,
    {
        DiffIter { a_idx, b_idx, pos: 0 }
    }

    /// Loads one side's Pack for a partition: none when the side's
    /// version is 0 or the backend lacks the record.
    fn load_side<KV: KeyValue>(kv: &KV, ver: u16, part: u32) -> (r: Result<Option<Pack>, Error>)
        ensures
            match r {
                Ok(op) => {
                    &&& side_pack(kv.kv_map(), ver, part) == Some(
                        match op {
                            Some(p) => Some(p.entries_spec()),
                            None => None::<Seq<PackEntryView>>,
                        },
                    )
                    &&& op matches Some(p) ==> p.wf()
                },
                Err(e) => e matches Error::KVError(_) || (side_pack(kv.kv_map(), ver, part) is None
                    && e == Error::DecodeError),
            },
    {
        if ver == 0 {
            return Ok(None);
        }
        let key = part_key(part);
        match kv.get(ver, key.as_slice()) {
            Err(e) => Err(Error::KVError(e)),
            Ok(None) => Ok(None),
            Ok(Some(buf)) => match Pack::from_buf(buf.as_slice()) {
                Ok(p) => Ok(Some(p)),
                Err(_) => Err(Error::DecodeError),
            },
        }
    }

    /// All of one Pack's entries as `New` items, in entry order.
    fn all_new(p: &Pack) -> (r: Vec<DiffItem>)
        requires
            p.wf(),
        ensures
            items_view(r@) == diff_b_items(Map::<Seq<u8>, (u16, Seq<u8>)>::empty(), p.entries_spec()),
    {
        let mut items: Vec<DiffItem> = Vec::new();
        let n = p.entry_count();
        let mut i: usize = 0;
        while i < n
            invariant
                n == p.entries_spec().len(),
                0 <= i <= n,
                p.wf(),
                items_view(items@) == diff_b_items(
                    Map::<Seq<u8>, (u16, Seq<u8>)>::empty(),
                    p.entries_spec().take(i as int),
                ),
            decreases n - i,
        {
            let e = p.entry_at(i);
            let it = DiffItem {
                key: slice_to_vec(e.key.as_slice()),
                diff_type: DiffType::New(slice_to_vec(e.val.as_slice())),
            };
            proof {
                let s = p.entries_spec();
                assert(s.take(i + 1).drop_last() =~= s.take(i as int));
                assert(s.take(i + 1).last() == s[i as int]);
                assert(b_item(Map::<Seq<u8>, (u16, Seq<u8>)>::empty(), s[i as int]) =~= seq![it@]);
                assert(items_view(items@.push(it)) =~= items_view(items@).push(it@));
                assert(items_view(items@).push(it@) =~= items_view(items@) + seq![it@]);
            }
            items.push(it);
            i = i + 1;
        }
        proof {
            assert(p.entries_spec().take(n as int) =~= p.entries_spec());
        }
        items
    }

    /// All of one Pack's entries as `Delete` items, in entry order.
    fn all_delete(p: &Pack) -> (r: Vec<DiffItem>)
        requires
            p.wf(),
        ensures
            items_view(r@) == diff_a_items(p.entries_spec(), Map::<Seq<u8>, (u16, Seq<u8>)>::empty()),
    {
        let mut items: Vec<DiffItem> = Vec::new();
        let n = p.entry_count();
        let mut i: usize = 0;
        while i < n
            invariant
                n == p.entries_spec().len(),
                0 <= i <= n,
                p.wf(),
                items_view(items@) == diff_a_items(
                    p.entries_spec().take(i as int),
                    Map::<Seq<u8>, (u16, Seq<u8>)>::empty(),
                ),
            decreases n - i,
        {
            let e = p.entry_at(i);
            let it = DiffItem {
                key: slice_to_vec(e.key.as_slice()),
                diff_type: DiffType::Delete(e.ver, slice_to_vec(e.val.as_slice())),
            };
            proof {
                let s = p.entries_spec();
                assert(s.take(i + 1).drop_last() =~= s.take(i as int));
                assert(s.take(i + 1).last() == s[i as int]);
                assert(a_item(Map::<Seq<u8>, (u16, Seq<u8>)>::empty(), s[i as int]) =~= seq![it@]);
                assert(items_view(items@.push(it)) =~= items_view(items@).push(it@));
                assert(items_view(items@).push(it@) =~= items_view(items@) + seq![it@]);
            }
            items.push(it);
            i = i + 1;
        }
        proof {
            assert(p.entries_spec().take(n as int) =~= p.entries_spec());
        }
        items
    }

    /// Classifies every key of either Pack: B's pass, then A's.
    fn diff_packs(a: &Pack, b: &Pack) -> (r: Vec<DiffItem>)
        requires
            a.wf(),
            b.wf(),
        ensures
            items_view(r@) == diff_b_items(a@, b.entries_spec()) + diff_a_items(
                a.entries_spec(),
                b@,
            ),
    {
        let mut items: Vec<DiffItem> = Vec::new();
        let bn = b.entry_count();
        let mut i: usize = 0;
        while i < bn
            invariant
                bn == b.entries_spec().len(),
                0 <= i <= bn,
                a.wf(),
                b.wf(),
                items_view(items@) == diff_b_items(a@, b.entries_spec().take(i as int)),
            decreases bn - i,
        {
            let e = b.entry_at(i);
            let ghost s = b.entries_spec();
            proof {
                assert(s.take(i + 1).drop_last() =~= s.take(i as int));
                assert(s.take(i + 1).last() == s[i as int]);
            }
            match a.get(e.key.as_slice()) {
                None => {
                    let it = DiffItem {
                        key: slice_to_vec(e.key.as_slice()),
                        diff_type: DiffType::New(slice_to_vec(e.val.as_slice())),
                    };
                    proof {
                        assert(b_item(a@, s[i as int]) =~= seq![it@]);
                        assert(items_view(items@.push(it)) =~= items_view(items@).push(it@));
                        assert(items_view(items@).push(it@) =~= items_view(items@) + seq![it@]);
                    }
                    items.push(it);
                },
                Some((a_ver, a_val)) => {
                    if a_ver != e.ver {
                        let it = DiffItem {
                            key: slice_to_vec(e.key.as_slice()),
                            diff_type: DiffType::Value(
                                DiffValue {
                                    a_ver,
                                    b_ver: e.ver,
                                    a_val,
                                    b_val: slice_to_vec(e.val.as_slice()),
                                },
                            ),
                        };
                        proof {
                            assert(b_item(a@, s[i as int]) =~= seq![it@]);
                            assert(items_view(items@.push(it)) =~= items_view(items@).push(it@));
                            assert(items_view(items@).push(it@) =~= items_view(items@)
                                + seq![it@]);
                        }
                        items.push(it);
                    } else {
                        proof {
                            assert(b_item(a@, s[i as int]) =~= Seq::<DiffItemView>::empty());
                            assert(items_view(items@) + Seq::<DiffItemView>::empty()
                                =~= items_view(items@));
                        }
                    }
                },
            }
            i = i + 1;
        }
        proof {
            assert(b.entries_spec().take(bn as int) =~= b.entries_spec());
        }
        let ghost bpass = diff_b_items(a@, b.entries_spec());
        let an = a.entry_count();
        let mut j: usize = 0;
        while j < an
            invariant
                an == a.entries_spec().len(),
                0 <= j <= an,
                a.wf(),
                b.wf(),
                bpass == diff_b_items(a@, b.entries_spec()),
                items_view(items@) == bpass + diff_a_items(a.entries_spec().take(j as int), b@),
            decreases an - j,
        {
            let e = a.entry_at(j);
            let ghost s = a.entries_spec();
            proof {
                assert(s.take(j + 1).drop_last() =~= s.take(j as int));
                assert(s.take(j + 1).last() == s[j as int]);
            }
            match b.get(e.key.as_slice()) {
                Some(_) => {
                    proof {
                        assert(a_item(b@, s[j as int]) =~= Seq::<DiffItemView>::empty());
                        assert((bpass + diff_a_items(s.take(j as int), b@))
                            + Seq::<DiffItemView>::empty() =~= bpass + diff_a_items(
                            s.take(j as int),
                            b@,
                        ));
                        assert(bpass + (diff_a_items(s.take(j as int), b@)
                            + Seq::<DiffItemView>::empty()) =~= bpass + diff_a_items(
                            s.take(j as int),
                            b@,
                        ));
                    }
                },
                None => {
                    let it = DiffItem {
                        key: slice_to_vec(e.key.as_slice()),
                        diff_type: DiffType::Delete(e.ver, slice_to_vec(e.val.as_slice())),
                    };
                    proof {
                        assert(a_item(b@, s[j as int]) =~= seq![it@]);
                        assert(items_view(items@.push(it)) =~= items_view(items@).push(it@));
                        assert(items_view(items@).push(it@) =~= items_view(items@) + seq![it@]);
                        assert(items_view(items@) + seq![it@] =~= bpass + (diff_a_items(
                            s.take(j as int),
                            b@,
                        ) + seq![it@]));
                    }
                    items.push(it);
                },
            }
            j = j + 1;
        }
        proof {
            assert(a.entries_spec().take(an as int) =~= a.entries_spec());
        }
        items
    }

    /// Yields the next written partition's differences, or the end of
    /// the scan. The scan is forward-only: a partition once yielded
    /// or failed is not revisited.
    pub fn next<KV: KeyValue>(&mut self, kv: &KV) -> (r: Result<Option<Vec<DiffItem>>, Error>)
        requires
            old(self).wf(),
        ensures
            final(self).wf(),
            final(self).a_vlist() == old(self).a_vlist(),
            final(self).b_vlist() == old(self).b_vlist(),
            match r {
                Ok(None) => next_diff_pos(
                    old(self).a_vlist(),
                    old(self).b_vlist(),
                    old(self).pos_spec(),
                ) is None && final(self).pos_spec() == old(self).a_vlist().len(),
                Ok(Some(items)) => {
                    &&& next_diff_pos(
                        old(self).a_vlist(),
                        old(self).b_vlist(),
                        old(self).pos_spec(),
                    ) matches Some(p)
                    &&& {
                        let p = next_diff_pos(
                            old(self).a_vlist(),
                            old(self).b_vlist(),
                            old(self).pos_spec(),
                        )->Some_0;
                        &&& final(self).pos_spec() == p + 1
                        &&& side_pack(kv.kv_map(), old(self).a_vlist()[p], p as u32) matches Some(
                            ao,
                        )
                        &&& side_pack(kv.kv_map(), old(self).b_vlist()[p], p as u32) matches Some(
                            bo,
                        )
                        &&& diff_items_spec(
                            side_pack(kv.kv_map(), old(self).a_vlist()[p], p as u32)->Some_0,
                            side_pack(kv.kv_map(), old(self).b_vlist()[p], p as u32)->Some_0,
                        ) == Some(items_view(items@))
                    }
                },
                Err(e) => {
                    &&& next_diff_pos(
                        old(self).a_vlist(),
                        old(self).b_vlist(),
                        old(self).pos_spec(),
                    ) matches Some(p)
                    &&& {
                        let p = next_diff_pos(
                            old(self).a_vlist(),
                            old(self).b_vlist(),
                            old(self).pos_spec(),
                        )->Some_0;
                        e matches Error::KVError(_) || (side_pack(
                            kv.kv_map(),
                            old(self).a_vlist()[p],
                            p as u32,
                        ) is None || side_pack(kv.kv_map(), old(self).b_vlist()[p], p as u32)
                            is None) && e == Error::DecodeError || (side_pack(
                            kv.kv_map(),
                            old(self).a_vlist()[p],
                            p as u32,
                        ) == Some(None::<Seq<PackEntryView>>) && side_pack(
                            kv.kv_map(),
                            old(self).b_vlist()[p],
                            p as u32,
                        ) == Some(None::<Seq<PackEntryView>>) && e == Error::InvalidDiffState)
                    }
                },
            },
    {
        let n = self.a_idx.len();
        let mut scanning = true;
        while scanning
            invariant
                self.a_idx == old(self).a_idx,
                self.b_idx == old(self).b_idx,
                n == self.a_vlist().len(),
                self.a_vlist().len() == self.b_vlist().len(),
                old(self).pos_spec() <= self.pos_spec() <= n,
                self.wf(),
                next_diff_pos(self.a_vlist(), self.b_vlist(), old(self).pos_spec())
                    == next_diff_pos(self.a_vlist(), self.b_vlist(), self.pos_spec()),
                !scanning ==> self.pos_spec() == n || !(self.a_vlist()[self.pos_spec()] == 0
                    && self.b_vlist()[self.pos_spec()] == 0),
            decreases n - self.pos_spec() + (if scanning {
                1int
            } else {
                0int
            }),
        {
            if self.pos < n {
                let av = self.a_idx.get_prefix_version(self.pos);
                let bv = self.b_idx.get_prefix_version(self.pos);
                if av == 0 && bv == 0 {
                    self.pos = self.pos + 1;
                } else {
                    scanning = false;
                }
            } else {
                scanning = false;
            }
        }
        if self.pos >= n {
            assert(next_diff_pos(self.a_vlist(), self.b_vlist(), self.pos_spec()) is None);
            return Ok(None);
        }
        let p = self.pos;
        assert(next_diff_pos(self.a_vlist(), self.b_vlist(), old(self).pos_spec()) == Some(
            p as int,
        ));
        let av = self.a_idx.get_prefix_version(p);
        let bv = self.b_idx.get_prefix_version(p);
        self.pos = p + 1;
        proof {
            crate::hash::lemma_part_in_range(0, self.a_idx.prefix_bits_spec());
        }
        let part = p as u32;
        let a_pack = match Self::load_side(kv, av, part) {
            Err(e) => {
                return Err(e);
            },
            Ok(op) => op,
        };
        let b_pack = match Self::load_side(kv, bv, part) {
            Err(e) => {
                return Err(e);
            },
            Ok(op) => op,
        };
        match (a_pack, b_pack) {
            (Option::None, Option::None) => Err(Error::InvalidDiffState),
            (Option::None, Option::Some(bp)) => Ok(Some(Self::all_new(&bp))),
            (Option::Some(ap), Option::None) => Ok(Some(Self::all_delete(&ap))),
            (Option::Some(ap), Option::Some(bp)) => Ok(Some(Self::diff_packs(&ap, &bp))),
        }
    }
}

} // verus!
