//! The engine: an append-only list of chunks and the mapping between external
//! ids and dense indices (chunk number * 65 536 + slot).
use std::collections::HashMap;
use vstd::prelude::*;
use vstd::relations::{sorted_by, total_ordering};
use crate::codec::Signature;
use crate::index::{
    ImageIndex, CHUNK_SIZE, NUM_BUCKETS, is_f32_zero, is_zero_bits, sig_has_key, sig_indexable, sig_key, score_rank,
};
use crate::store::ImageData;

verus! {

broadcast use {vstd::std_specs::hash::group_hash_axioms, vstd::seq_lib::group_to_multiset_ensures, vstd::multiset::group_multiset_axioms};

/// The order of merged results: higher score first, then higher external id.
pub open spec fn result_le() -> spec_fn((u32, i64), (u32, i64)) -> bool {
    |a: (u32, i64), b: (u32, i64)|
        score_rank(a.0) > score_rank(b.0) || (score_rank(a.0) == score_rank(b.0) && a.1 >= b.1)
}

pub proof fn lemma_result_le_total()
    ensures
        total_ordering(result_le()),
{
}

fn result_le_exec(a: (u32, i64), b: (u32, i64)) -> (r: bool)
    ensures
        r == result_le()(a, b),
{
    let ra: i64 = if a.0 < 0x8000_0000 {
        a.0 as i64
    } else {
        0x7fff_ffff - a.0 as i64
    };
    let rb: i64 = if b.0 < 0x8000_0000 {
        b.0 as i64
    } else {
        0x7fff_ffff - b.0 as i64
    };
    ra > rb || (ra == rb && a.1 >= b.1)
}

/// Sorts results best first (insertion sort).
fn sort_results(v: &mut Vec<(u32, i64)>)
    ensures
        final(v)@ == old(v)@.sort_by(result_le()),
{
    let n = v.len();
    let mut i: usize = 0;
    while i < n
        invariant
            n == v@.len(),
            i <= n,
            v@.to_multiset() == old(v)@.to_multiset(),
            forall|a: int, b: int| 0 <= a < b < i ==> result_le()(v@[a], v@[b]),
        decreases n - i,
    {
        let mut j: usize = i;
        while j > 0 && !result_le_exec(v[j - 1], v[j])
            invariant
                n == v@.len(),
                j <= i < n,
                v@.to_multiset() == old(v)@.to_multiset(),
                forall|a: int, b: int|
                    0 <= a < b <= i && a != j && b != j ==> result_le()(v@[a], v@[b]),
                forall|b: int| j < b <= i ==> result_le()(v@[j as int], v@[b]),
            decreases j,
        {
            let x = v[j - 1];
            let y = v[j];
            let ghost before = v@;
            v.set(j - 1, y);
            v.set(j, x);
            proof {
                assert(before.update(j - 1, y).to_multiset() == before.to_multiset().insert(y).remove(
                    x,
                ));
                assert(v@ == before.update(j - 1, y).update(j as int, x));
                assert(v@.to_multiset() =~= before.to_multiset());
            }
            j = j - 1;
        }
        i = i + 1;
    }
    proof {
        lemma_result_le_total();
        old(v)@.lemma_sort_by_ensures(result_le());
        assert(sorted_by(v@, result_le()));
        vstd::seq_lib::lemma_sorted_unique(v@, old(v)@.sort_by(result_le()), result_le());
    }
}

proof fn lemma_wf_same_model(a: &DB, b: &DB)
    requires
        a.wf(),
        a.indexes@ == b.indexes@,
        a.index_to_id@ == b.index_to_id@,
        a.id_to_index@ == b.id_to_index@,
    ensures
        b.wf(),
{
    assert forall|c: int|
        0 <= c < b.spec_chunk_count() implies (#[trigger] b.chunk_at(c)).wf()
            && b.chunk_at(c).spec_offset() == 65536 * c && (c < b.spec_chunk_count() - 1
            ==> b.chunk_at(c).spec_len() == CHUNK_SIZE) by {
        assert(a.chunk_at(c) == b.chunk_at(c));
    }
    assert forall|e: i64| #[trigger]
        b.mapping().contains_key(e) implies b.mapping()[e] < b.dense_count()
        && b.external_at(b.mapping()[e] as int) == e by {
        assert(a.mapping().contains_key(e));
    }
    assert forall|d: int| #[trigger]
        b.is_live_dense(d) implies b.mapping().contains_key(b.external_at(d))
        && b.mapping()[b.external_at(d)] == d by {
        assert(a.chunk_at(d / 65536) == b.chunk_at(d / 65536));
        assert(a.is_live_dense(d));
    }
}

/// The search engine.
pub struct DB {
    indexes: Vec<ImageIndex>,
    index_to_id: Vec<i64>,
    id_to_index: HashMap<i64, u32>,
}

impl DB {
    /// The dense index of each live external id.
    pub closed spec fn mapping(&self) -> Map<i64, u32> {
        self.id_to_index@
    }

    /// Dense indices handed out so far (never reused).
    pub closed spec fn dense_count(&self) -> nat {
        self.index_to_id@.len()
    }

    /// The external id that dense index `d` was given to.
    pub closed spec fn external_at(&self, d: int) -> i64 {
        self.index_to_id@[d]
    }

    pub closed spec fn spec_chunk_count(&self) -> nat {
        self.indexes@.len()
    }

    pub closed spec fn chunk_at(&self, c: int) -> ImageIndex {
        self.indexes@[c]
    }

    /// Dense index `d` holds an image that can be found.
    pub open spec fn is_live_dense(&self, d: int) -> bool {
        0 <= d < self.dense_count() && self.chunk_at(d / 65536).is_live(d % 65536)
    }

    /// The average components (double bits) stored for dense index `d`; Y is
    /// zero once deleted.
    pub open spec fn avgl_at_dense(&self, d: int) -> (u64, u64, u64) {
        self.chunk_at(d / 65536).avgl_at(d % 65536)
    }

    /// The signature dense index `d` was inserted with.
    pub open spec fn sig_at_dense(&self, d: int) -> Seq<i16> {
        self.chunk_at(d / 65536).sig_at(d % 65536)
    }

    /// Chunk `c` starts at dense index `c * 65 536`; all but the last are
    /// full and the last ends at the dense count. A mapped id points at a dense
    /// index given to it, and every live dense index is mapped from its id.
    pub closed spec fn wf(&self) -> bool {
        &&& self.dense_count() < 0x1_0000_0000
        &&& (self.spec_chunk_count() == 0 <==> self.dense_count() == 0)
        &&& forall|c: int|
            0 <= c < self.spec_chunk_count() ==> (#[trigger] self.chunk_at(c)).wf()
                && self.chunk_at(c).spec_offset() == 65536 * c && (c < self.spec_chunk_count() - 1
                ==> self.chunk_at(c).spec_len() == CHUNK_SIZE)
        &&& self.spec_chunk_count() > 0 ==> self.chunk_at(self.spec_chunk_count() - 1).spec_offset()
            + self.chunk_at(self.spec_chunk_count() - 1).spec_len() == self.dense_count()
        &&& forall|e: i64| #[trigger]
            self.mapping().contains_key(e) ==> self.mapping()[e] < self.dense_count()
                && self.external_at(self.mapping()[e] as int) == e
        &&& forall|d: int| #[trigger]
            self.is_live_dense(d) ==> self.mapping().contains_key(self.external_at(d))
                && self.mapping()[self.external_at(d)] == d
    }

    proof fn lemma_chunk_of(&self, d: int)
        requires
            self.wf(),
            0 <= d < self.dense_count(),
        ensures
            0 <= d / 65536 < self.spec_chunk_count(),
            self.chunk_at(d / 65536).spec_offset() + d % 65536 == d,
            d % 65536 < self.chunk_at(d / 65536).spec_len(),
    {
        let n = self.spec_chunk_count();
        let last = self.chunk_at(n - 1);
        assert(last.spec_offset() == 65536 * (n - 1));
        last.lemma_bounds();
        assert(d / 65536 < n);
        let c = d / 65536;
        assert(self.chunk_at(c).spec_offset() == 65536 * c);
        if c < n - 1 {
            assert(self.chunk_at(c).spec_len() == CHUNK_SIZE);
        }
    }

    fn empty() -> (r: DB)
        ensures
            r.wf(),
            r.mapping() == Map::<i64, u32>::empty(),
            r.dense_count() == 0,
    {
        let r = DB { indexes: Vec::new(), index_to_id: Vec::new(), id_to_index: HashMap::new() };
        assert(r.mapping() =~= Map::<i64, u32>::empty());
        r
    }

    /// An engine holding `images`, which get dense indices in list order.
    pub fn new(images: Vec<ImageData>) -> (r: DB)
        requires
            images@.len() < 0xFFFF_FFFF,
            forall|i: int, j: int|
                0 <= i < j < images@.len() ==> (#[trigger] images@[i]).id != (#[trigger] images@[j]).id,
            forall|i: int|
                0 <= i < images@.len() ==> (!is_zero_bits((#[trigger] images@[i]).avgl.0)
                    ==> sig_indexable(images@[i].sig@)),
        ensures
            r.wf(),
            r.dense_count() == images@.len(),
            r.mapping().len() == images@.len(),
            forall|e: i64|
                r.mapping().contains_key(e) <==> exists|i: int|
                    0 <= i < images@.len() && (#[trigger] images@[i]).id == e,
            forall|i: int|
                #![trigger images@[i]]
                0 <= i < images@.len() ==> {
                    &&& r.mapping()[images@[i].id] == i
                    &&& r.external_at(i) == images@[i].id
                    &&& r.is_live_dense(i) == !is_f32_zero(images@[i].avgl.0)
                    &&& r.avgl_at_dense(i) == images@[i].avgl
                    &&& r.sig_at_dense(i) == images@[i].sig@
                },
    {
        let ghost orig = images@;
        let mut images = images;
        let mut db = DB::empty();
        let n = images.len();
        let mut k: usize = 0;
        while k < n
            invariant
                db.wf(),
                n == images@.len() == orig.len(),
                k <= n,
                n < 0xFFFF_FFFF,
                db.dense_count() == k,
                db.mapping().len() == k,
                forall|i: int, j: int|
                    0 <= i < j < orig.len() ==> (#[trigger] orig[i]).id != (#[trigger] orig[j]).id,
                forall|i: int|
                    0 <= i < orig.len() ==> (!is_zero_bits((#[trigger] orig[i]).avgl.0)
                        ==> sig_indexable(orig[i].sig@)),
                forall|i: int| k <= i < n ==> #[trigger] images@[i] == orig[i],
                forall|e: i64|
                    db.mapping().contains_key(e) <==> exists|i: int|
                        0 <= i < k && (#[trigger] orig[i]).id == e,
                forall|i: int|
                    #![trigger orig[i]]
                    0 <= i < k ==> {
                        &&& db.mapping()[orig[i].id] == i
                        &&& db.external_at(i) == orig[i].id
                        &&& db.is_live_dense(i) == !is_f32_zero(orig[i].avgl.0)
                        &&& db.avgl_at_dense(i) == orig[i].avgl
                        &&& db.sig_at_dense(i) == orig[i].sig@
                    },
            decreases n - k,
        {
            let mut item = ImageData { id: 0, avgl: (0, 0, 0), sig: Vec::new() };
            std::mem::swap(&mut images[k], &mut item);
            assert(item == orig[k as int]);
            assert(!db.mapping().contains_key(item.id)) by {
                if db.mapping().contains_key(item.id) {
                    let i = choose|i: int| 0 <= i < k && (#[trigger] orig[i]).id == item.id;
                    assert(orig[i].id != orig[k as int].id);
                }
            }
            let ghost pre = db;
            db.insert(item);
            assert forall|i: int| #![trigger orig[i]] 0 <= i < k + 1 implies {
                &&& db.mapping()[orig[i].id] == i
                &&& db.external_at(i) == orig[i].id
                &&& db.is_live_dense(i) == !is_f32_zero(orig[i].avgl.0)
                &&& db.avgl_at_dense(i) == orig[i].avgl
                &&& db.sig_at_dense(i) == orig[i].sig@
            } by {
                if i < k {
                    assert(pre.mapping()[orig[i].id] == i);
                    assert(orig[i].id != orig[k as int].id);
                    assert(db.external_at(i) == pre.external_at(i));
                    assert(db.sig_at_dense(i) == pre.sig_at_dense(i));
                    assert(db.is_live_dense(i) == pre.is_live_dense(i));
                    assert(db.avgl_at_dense(i) == pre.avgl_at_dense(i));
                }
            }
            assert forall|e: i64|
                db.mapping().contains_key(e) implies exists|i: int|
                    0 <= i < k + 1 && (#[trigger] orig[i]).id == e by {
                if e != orig[k as int].id {
                    assert(pre.mapping().contains_key(e));
                }
            }
            assert forall|e: i64|
                (exists|i: int| 0 <= i < k + 1 && (#[trigger] orig[i]).id == e) implies db.mapping().contains_key(e) by {
                let i = choose|i: int| 0 <= i < k + 1 && (#[trigger] orig[i]).id == e;
                if i < k {
                    assert(pre.mapping().contains_key(e));
                }
            }
            k = k + 1;
        }
        db
    }

    /// Whether `id` is a live image.
    pub fn contains(&self, id: i64) -> (r: bool)
        ensures
            r == self.mapping().contains_key(id),
    {
        self.id_to_index.contains_key(&id)
    }

    /// The number of live images.
    pub fn image_count(&self) -> (r: usize)
        ensures
            r == self.mapping().len(),
    {
        self.id_to_index.len()
    }

    /// Dense indices handed out so far, deleted ones included.
    pub fn dense_len(&self) -> (r: usize)
        ensures
            r == self.dense_count(),
    {
        self.index_to_id.len()
    }

    /// The number of chunks.
    pub fn chunk_count(&self) -> (r: usize)
        ensures
            r == self.spec_chunk_count(),
    {
        self.indexes.len()
    }

    /// Chunk `c`, whose slot 0 is dense index `c * 65 536`.
    pub fn chunk(&self, c: usize) -> (r: &ImageIndex)
        requires
            self.wf(),
            c < self.spec_chunk_count(),
        ensures
            *r == self.chunk_at(c as int),
            r.wf(),
            r.spec_offset() == 65536 * c,
    {
        let r = &self.indexes[c];
        assert(self.chunk_at(c as int) == self.indexes@[c as int]);
        assert(self.chunk_at(c as int).wf());
        r
    }

    /// The external id that dense index `dense` was given to.
    pub fn external_id(&self, dense: u32) -> (r: i64)
        requires
            dense < self.dense_count(),
        ensures
            r == self.external_at(dense as int),
    {
        self.index_to_id[dense as usize]
    }

    /// Adds an image under the next dense index, opening a chunk when there is
    /// none or the last one is full. Its buckets are filled only when its Y
    /// component is non-zero.
    pub fn insert(&mut self, image: ImageData)
        requires
            old(self).wf(),
            !old(self).mapping().contains_key(image.id),
            old(self).dense_count() < 0xFFFF_FFFF,
            !is_zero_bits(image.avgl.0) ==> sig_indexable(image.sig@),
        ensures
            final(self).wf(),
            final(self).mapping() == old(self).mapping().insert(
                image.id,
                old(self).dense_count() as u32,
            ),
            final(self).dense_count() == old(self).dense_count() + 1,
            final(self).external_at(old(self).dense_count() as int) == image.id,
            final(self).mapping().len() == old(self).mapping().len() + 1,
            final(self).is_live_dense(old(self).dense_count() as int) == !is_f32_zero(
                image.avgl.0,
            ),
            final(self).avgl_at_dense(old(self).dense_count() as int) == image.avgl,
            forall|d: int|
                0 <= d < old(self).dense_count() ==> #[trigger] final(self).avgl_at_dense(d) == old(
                    self,
                ).avgl_at_dense(d),
            final(self).sig_at_dense(old(self).dense_count() as int) == image.sig@,
            forall|d: int|
                0 <= d < old(self).dense_count() ==> (#[trigger] final(self).is_live_dense(d)
                    <==> old(self).is_live_dense(d)),
            forall|d: int|
                0 <= d < old(self).dense_count() ==> #[trigger] final(self).external_at(d) == old(
                    self,
                ).external_at(d),
            forall|d: int|
                0 <= d < old(self).dense_count() ==> #[trigger] final(self).sig_at_dense(d) == old(
                    self,
                ).sig_at_dense(d),
    {
        let ghost od = old(self).dense_count() as int;
        let index = self.index_to_id.len() as u32;
        self.index_to_id.push(image.id);
        self.id_to_index.insert(image.id, index);
        if self.indexes.len() == 0 || self.indexes[self.indexes.len() - 1].is_full() {
            self.indexes.push(ImageIndex::new(index));
        }
        let last = self.indexes.len() - 1;
        assert(self.chunk_at(last as int).wf());
        assert(self.indexes@[last as int].spec_offset() == 65536 * last);
        proof {
            self.indexes@[last as int].lemma_bounds();
        }
        assert(self.indexes@[last as int].spec_len() < CHUNK_SIZE);
        assert(od == 65536 * last + self.indexes@[last as int].spec_len());
        let sig = Signature { avgl: image.avgl, sig: image.sig };
        let ghost pre = self.indexes@;
        self.indexes[last].append(index, &sig);
        proof {
            assert(od / 65536 == last);
            assert(od % 65536 == pre[last as int].spec_len());
            assert forall|c: int|
                0 <= c < self.spec_chunk_count() && c != last implies #[trigger] self.chunk_at(c) == pre[c] by {
            }
            assert forall|d: int|
                #![trigger self.is_live_dense(d)]
                #![trigger self.external_at(d)]
                #![trigger self.sig_at_dense(d)]
                #![trigger self.avgl_at_dense(d)]
                0 <= d < od implies (self.is_live_dense(d) <==> old(self).is_live_dense(d))
                && self.external_at(d) == old(self).external_at(d) && self.sig_at_dense(d)
                == old(self).sig_at_dense(d) && self.avgl_at_dense(d) == old(self).avgl_at_dense(d) by {
                old(self).lemma_chunk_of(d);
                let c = d / 65536;
                let l = d % 65536;
                assert(pre[c] == old(self).indexes@[c]);
                if c == last {
                    assert(l < pre[c].spec_len());
                    assert(self.chunk_at(c).avgl_at(l) == pre[c].avgl_at(l));
                    assert(self.chunk_at(c).sig_at(l) == pre[c].sig_at(l));
                } else {
                    assert(self.chunk_at(c) == pre[c]);
                }
                assert(self.chunk_at(c).is_live(l) == old(self).chunk_at(c).is_live(l));
                assert(self.external_at(d) == old(self).external_at(d));
            }
            assert(self.dense_count() < 0x1_0000_0000);
            assert(self.spec_chunk_count() == 0 <==> self.dense_count() == 0);
            assert forall|c: int|
                0 <= c < self.spec_chunk_count() implies (#[trigger] self.chunk_at(c)).wf()
                    && self.chunk_at(c).spec_offset() == 65536 * c && (c < self.spec_chunk_count() - 1
                    ==> self.chunk_at(c).spec_len() == CHUNK_SIZE) by {
                if c != last {
                    assert(self.chunk_at(c) == pre[c]);
                    if c < old(self).spec_chunk_count() {
                        assert(pre[c] == old(self).chunk_at(c));
                    }
                }
            }
            assert(self.chunk_at(self.spec_chunk_count() - 1).spec_offset()
                + self.chunk_at(self.spec_chunk_count() - 1).spec_len() == self.dense_count());
            assert forall|e: i64| #[trigger]
                self.mapping().contains_key(e) implies self.mapping()[e] < self.dense_count()
                && self.external_at(self.mapping()[e] as int) == e by {
                if e != image.id {
                    assert(old(self).mapping().contains_key(e));
                }
            }
            assert forall|d: int| #[trigger]
                self.is_live_dense(d) implies self.mapping().contains_key(self.external_at(d))
                && self.mapping()[self.external_at(d)] == d by {
                if d < od {
                    assert(old(self).is_live_dense(d));
                    assert(old(self).mapping().contains_key(old(self).external_at(d)));
                }
            }
        }
    }

    /// Deletes the image with external id `image.id`, whose coefficients are
    /// `image.sig`: its dense index is burned and its slot marked deleted.
    /// Nothing happens when the id is not live.
    pub fn delete(&mut self, image: ImageData)
        requires
            old(self).wf(),
            sig_indexable(image.sig@),
        ensures
            final(self).wf(),
            final(self).mapping() == old(self).mapping().remove(image.id),
            final(self).mapping().len() == if old(self).mapping().contains_key(image.id) {
                old(self).mapping().len() - 1
            } else {
                old(self).mapping().len() as int
            },
            final(self).dense_count() == old(self).dense_count(),
            forall|d: int|
                0 <= d < old(self).dense_count() ==> #[trigger] final(self).external_at(d) == old(
                    self,
                ).external_at(d),
            forall|d: int|
                0 <= d < old(self).dense_count() ==> #[trigger] final(self).sig_at_dense(d) == old(
                    self,
                ).sig_at_dense(d),
            forall|d: int| #[trigger]
                final(self).is_live_dense(d) <==> old(self).is_live_dense(d) && (old(
                    self,
                ).mapping().contains_key(image.id) ==> d != old(self).mapping()[image.id]),
            final(self).spec_chunk_count() == old(self).spec_chunk_count(),
            !old(self).mapping().contains_key(image.id) ==> forall|c: int|
                0 <= c < old(self).spec_chunk_count() ==> #[trigger] final(self).chunk_at(c) == old(
                    self,
                ).chunk_at(c),
            old(self).mapping().contains_key(image.id) ==> ({
                let d = old(self).mapping()[image.id] as int;
                &&& forall|c: int|
                    0 <= c < old(self).spec_chunk_count() && c != d / 65536
                        ==> #[trigger] final(self).chunk_at(c) == old(self).chunk_at(c)
                &&& forall|e: int|
                    0 <= e < old(self).dense_count() ==> #[trigger] final(self).avgl_at_dense(e)
                        == if e == d {
                        (0u64, old(self).avgl_at_dense(e).1, old(self).avgl_at_dense(e).2)
                    } else {
                        old(self).avgl_at_dense(e)
                    }
                &&& forall|k: int|
                    0 <= k < NUM_BUCKETS ==> #[trigger] final(self).chunk_at(d / 65536).members(k)
                        == if sig_has_key(image.sig@, k) {
                        old(self).chunk_at(d / 65536).members(k).remove((d % 65536) as u16)
                    } else {
                        old(self).chunk_at(d / 65536).members(k)
                    }
                &&& image.sig@ == old(self).sig_at_dense(d) ==> forall|k: int|
                    0 <= k < NUM_BUCKETS ==> !(#[trigger] final(self).chunk_at(d / 65536).members(
                        k,
                    )).contains((d % 65536) as u16)
            }),
    {
        let sig = Signature { avgl: image.avgl, sig: image.sig };
        let removed = self.id_to_index.remove(&image.id);
        let index = match removed {
            None => {
                assert(self.mapping() =~= old(self).mapping().remove(image.id));
                assert(self.mapping() =~= old(self).mapping());
                proof {
                    lemma_wf_same_model(old(self), self);
                    assert forall|d: int|
                        #![trigger self.is_live_dense(d)]
                        #![trigger self.sig_at_dense(d)]
                        0 <= d < old(self).dense_count() implies (self.is_live_dense(d)
                        <==> old(self).is_live_dense(d)) && self.external_at(d) == old(
                        self,
                    ).external_at(d) && self.sig_at_dense(d) == old(self).sig_at_dense(d) by {
                        assert(self.chunk_at(d / 65536) == old(self).chunk_at(d / 65536));
                    }
                }
                return ;
            },
            Some(index) => index,
        };
        assert(old(self).mapping().contains_key(image.id));
        assert(old(self).mapping()[image.id] == index);
        let chunk = (index / 65536) as usize;
        proof {
            old(self).lemma_chunk_of(index as int);
        }
        let ghost pre = self.indexes@;
        self.indexes[chunk].remove(index, &sig);
        proof {
            assert forall|c: int|
                0 <= c < self.spec_chunk_count() && c != chunk implies #[trigger] self.chunk_at(c) == pre[c] by {
            }
            assert forall|d: int|
                #![trigger self.is_live_dense(d)]
                #![trigger self.sig_at_dense(d)]
                0 <= d < old(self).dense_count() implies (self.is_live_dense(d) <==> (old(
                self,
            ).is_live_dense(d) && d != index)) && self.external_at(d) == old(self).external_at(d)
                && self.sig_at_dense(d) == old(self).sig_at_dense(d) by {
                old(self).lemma_chunk_of(d);
                let c = d / 65536;
                let l = d % 65536;
                assert(pre[c] == old(self).indexes@[c]);
                if c == chunk {
                    assert(pre[c].spec_offset() + l == d);
                    assert(l < pre[c].spec_len());
                    assert(self.chunk_at(c).avgl_at(l).1 == pre[c].avgl_at(l).1);
                    assert(self.chunk_at(c).sig_at(l) == pre[c].sig_at(l));
                    if d == index {
                        assert(self.chunk_at(c).avgl_at(l).0 == 0);
                        assert(!self.chunk_at(c).is_live(l));
                    } else {
                        assert(self.chunk_at(c).avgl_at(l) == pre[c].avgl_at(l));
                    }
                } else {
                    assert(self.chunk_at(c) == pre[c]);
                }
                assert(self.external_at(d) == old(self).external_at(d));
            }
            assert forall|c: int|
                0 <= c < self.spec_chunk_count() implies (#[trigger] self.chunk_at(c)).wf()
                    && self.chunk_at(c).spec_offset() == 65536 * c && (c < self.spec_chunk_count() - 1
                    ==> self.chunk_at(c).spec_len() == CHUNK_SIZE) by {
                assert(old(self).chunk_at(c).wf());
                if c != chunk {
                    assert(self.chunk_at(c) == pre[c]);
                }
            }
            assert(self.chunk_at(self.spec_chunk_count() - 1).spec_offset()
                + self.chunk_at(self.spec_chunk_count() - 1).spec_len() == self.dense_count());
            assert forall|e: i64| #[trigger]
                self.mapping().contains_key(e) implies self.mapping()[e] < self.dense_count()
                && self.external_at(self.mapping()[e] as int) == e by {
                assert(old(self).mapping().contains_key(e));
            }
            assert forall|d: int| #[trigger]
                self.is_live_dense(d) implies self.mapping().contains_key(self.external_at(d))
                && self.mapping()[self.external_at(d)] == d by {
                assert(old(self).is_live_dense(d));
                assert(old(self).mapping().contains_key(old(self).external_at(d)));
            }
            let d = index as int;
            let l = d % 65536;
            assert(chunk == d / 65536);
            assert(pre[chunk as int] == old(self).chunk_at(chunk as int));
            assert(pre[chunk as int].spec_offset() + l == d);
            assert forall|c: int|
                0 <= c < old(self).spec_chunk_count() && c != d / 65536
                    implies #[trigger] self.chunk_at(c) == old(self).chunk_at(c) by {
                assert(self.chunk_at(c) == pre[c]);
            }
            assert forall|e: int|
                0 <= e < old(self).dense_count() implies #[trigger] self.avgl_at_dense(e)
                    == if e == d {
                    (0u64, old(self).avgl_at_dense(e).1, old(self).avgl_at_dense(e).2)
                } else {
                    old(self).avgl_at_dense(e)
                } by {
                old(self).lemma_chunk_of(e);
                let c = e / 65536;
                let le = e % 65536;
                if c == chunk {
                    assert(pre[c].spec_offset() + le == e);
                    assert(self.chunk_at(c).avgl_at(le) == if le + pre[c].spec_offset() == d {
                        (0u64, pre[c].avgl_at(le).1, pre[c].avgl_at(le).2)
                    } else {
                        pre[c].avgl_at(le)
                    });
                } else {
                    assert(self.chunk_at(c) == pre[c]);
                }
            }
            assert forall|k: int|
                0 <= k < NUM_BUCKETS implies #[trigger] self.chunk_at(d / 65536).members(k)
                    == if sig_has_key(image.sig@, k) {
                    old(self).chunk_at(d / 65536).members(k).remove(l as u16)
                } else {
                    old(self).chunk_at(d / 65536).members(k)
                } by {
                assert((d - pre[chunk as int].spec_offset()) as u16 == l as u16);
            }
            if image.sig@ == old(self).sig_at_dense(d) {
                assert forall|k: int|
                    0 <= k < NUM_BUCKETS implies !(#[trigger] self.chunk_at(d / 65536).members(
                    k,
                )).contains(l as u16) by {
                    if !sig_has_key(image.sig@, k) && pre[chunk as int].members(k).contains(l as u16) {
                        pre[chunk as int].lemma_members_own_keys(k, l as u16);
                        assert((l as u16) as int == l);
                    }
                }
            }
        }
    }

    /// Each shard result (score, dense index) with its dense index turned into
    /// the external id.
    pub open spec fn lift_results(&self, shards: Seq<(u32, u32)>) -> Seq<(u32, i64)> {
        Seq::new(shards.len(), |i: int| (shards[i].0, self.external_at(shards[i].1 as int)))
    }

    /// Merges the per-chunk results: best score first, ties by higher
    /// external id, cut to `limit`.
    pub fn merge(&self, shards: &Vec<(u32, u32)>, limit: usize) -> (r: Vec<(u32, i64)>)
        requires
            forall|i: int| 0 <= i < shards@.len() ==> (#[trigger] shards@[i]).1 < self.dense_count(),
        ensures
            r@ == self.lift_results(shards@).sort_by(result_le()).subrange(
                0,
                if limit < shards@.len() {
                    limit as int
                } else {
                    shards@.len() as int
                },
            ),
    {
        let mut all: Vec<(u32, i64)> = Vec::new();
        let mut i: usize = 0;
        while i < shards.len()
            invariant
                i <= shards@.len(),
                forall|j: int| 0 <= j < shards@.len() ==> (#[trigger] shards@[j]).1 < self.dense_count(),
                all@ == self.lift_results(shards@).subrange(0, i as int),
            decreases shards@.len() - i,
        {
            let (score, dense) = shards[i];
            all.push((score, self.index_to_id[dense as usize]));
            i = i + 1;
            assert(all@ =~= self.lift_results(shards@).subrange(0, i as int));
        }
        assert(all@ =~= self.lift_results(shards@));
        sort_results(&mut all);
        proof {
            self.lift_results(shards@).lemma_sort_by_ensures(result_le());
        }
        let ghost sorted = all@;
        assert(sorted.len() == shards@.len()) by {
            assert(sorted.to_multiset().len() == sorted.len());
            assert(self.lift_results(shards@).to_multiset().len() == self.lift_results(
                shards@,
            ).len());
        }
        all.truncate(limit);
        assert(all@ =~= sorted.subrange(
            0,
            if limit < shards@.len() {
                limit as int
            } else {
                shards@.len() as int
            },
        ));
        all
    }
}

/// A live image is in the bucket of each of its own coefficients, so a query
/// with its signature subtracts every weight from its score.
pub proof fn lemma_live_image_in_own_buckets(db: &DB, d: int, p: int)
    requires
        db.wf(),
        db.is_live_dense(d),
        0 <= p < 120,
    ensures
        0 <= sig_key(db.sig_at_dense(d), p) < NUM_BUCKETS,
        db.chunk_at(d / 65536).members(sig_key(db.sig_at_dense(d), p)).contains((d % 65536) as u16),
{
    db.lemma_chunk_of(d);
    let chunk = db.chunk_at(d / 65536);
    let l = d % 65536;
    let sig = db.sig_at_dense(d);
    chunk.lemma_live_slot(l, 0);
    crate::index::lemma_sig_key_range(sig, p);
    chunk.lemma_live_slot(l, sig_key(sig, p));
}

/// After an id is deleted (or was never inserted) no live dense index carries
/// it, so no query can return it.
pub proof fn lemma_unmapped_id_not_live(db: &DB, e: i64)
    requires
        db.wf(),
        !db.mapping().contains_key(e),
    ensures
        forall|d: int| #[trigger] db.is_live_dense(d) ==> db.external_at(d) != e,
{
}

} // verus!
