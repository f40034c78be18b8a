//! One chunk of the index: up to 65 536 images, their average components and
//! the inverted buckets of their coefficients.
use vstd::prelude::*;
use crate::bucket::Bucket;
use crate::codec::{Signature, NUM_COEFS, COEFS_PER_COLOR};

verus! {

/// Images in a full chunk.
pub const CHUNK_SIZE: usize = 65536;

/// Coefficient magnitudes that have a bucket: `|c| < 16384`.
pub const MAGNITUDES: usize = 16384;

/// Buckets of a chunk: 3 colors, 2 signs, 16 384 magnitudes.
pub const NUM_BUCKETS: usize = 98304;

/// Whether a double's bits are those of zero (either sign): the mark of an
/// image that was deleted or that was never indexed.
pub open spec fn is_zero_bits(b: u64) -> bool {
    b == 0 || b == 0x8000_0000_0000_0000
}

/// Whether a double rounds to zero (either sign) as an `f32`: its magnitude is
/// at most 2^-150 (bits `0x3690_0000_0000_0000`), which rounds to even, zero.
pub open spec fn is_f32_zero(b: u64) -> bool {
    b % 0x8000_0000_0000_0000 <= 0x3690_0000_0000_0000
}

pub open spec fn coef_in_range(c: i16) -> bool {
    -16384 < c < 16384
}

/// 120 coefficients, each with a bucket.
pub open spec fn sig_indexable(sig: Seq<i16>) -> bool {
    &&& sig.len() == NUM_COEFS
    &&& forall|p: int| 0 <= p < sig.len() ==> coef_in_range(#[trigger] sig[p])
}

/// The bucket of a signed coefficient of a color.
pub open spec fn bucket_key(color: int, coef: i16) -> int {
    (color * 2 + if coef < 0 {
        1int
    } else {
        0int
    }) * 16384 + if coef < 0 {
        -coef
    } else {
        coef as int
    }
}

pub proof fn lemma_sig_key_range(sig: Seq<i16>, p: int)
    requires
        sig_indexable(sig),
        0 <= p < sig.len(),
    ensures
        0 <= sig_key(sig, p) < NUM_BUCKETS,
{
    assert(coef_in_range(sig[p]));
}

/// The bucket of the coefficient at position `p` (its color is `p / 40`).
pub open spec fn sig_key(sig: Seq<i16>, p: int) -> int {
    bucket_key(p / 40, sig[p])
}

/// Whether some coefficient of `sig` falls in bucket `k`.
pub open spec fn sig_has_key(sig: Seq<i16>, k: int) -> bool {
    exists|p: int| 0 <= p < sig.len() && sig_key(sig, p) == k
}

/// The place of a score (the bits of an `f32`) in the total order of
/// `f32::total_cmp`: negative values below positive ones, `-0.0` just below
/// `+0.0`, NaNs at the ends by sign.
pub open spec fn score_rank(bits: u32) -> int {
    if bits < 0x8000_0000 {
        bits as int
    } else {
        0x7fff_ffff - bits as int
    }
}

/// The bits of `f32::MAX`: scores from it up are never selected.
pub const MAX_SCORE_BITS: u32 = 0x7f7f_ffff;

/// Slot `a` ranks before slot `b`: lower score, then lower slot.
pub open spec fn ranks_before(scores: Seq<u32>, a: int, b: int) -> bool {
    score_rank(scores[a]) < score_rank(scores[b]) || (score_rank(scores[a]) == score_rank(
        scores[b],
    ) && a < b)
}

fn rank_of(bits: u32) -> (r: i64)
    ensures
        r == score_rank(bits),
{
    if bits < 0x8000_0000 {
        bits as i64
    } else {
        0x7fff_ffff - bits as i64
    }
}

fn before(scores: &Vec<u32>, a: u32, b: u32) -> (r: bool)
    requires
        (a as int) < scores@.len(),
        (b as int) < scores@.len(),
    ensures
        r == ranks_before(scores@, a as int, b as int),
{
    let ra = rank_of(scores[a as usize]);
    let rb = rank_of(scores[b as usize]);
    ra < rb || (ra == rb && a < b)
}

/// The weight band of a coefficient: `min(5, max(|c| / 128, |c| % 128))`.
pub open spec fn band_of(coef: i16) -> int {
    let m: int = if coef < 0 {
        -coef
    } else {
        coef as int
    };
    let b: int = if m / 128 > m % 128 {
        m / 128
    } else {
        m % 128
    };
    if b < 5 {
        b
    } else {
        5
    }
}

/// The row of the weight table that a query coefficient uses.
pub fn weight_band(coef: i16) -> (r: usize)
    ensures
        r == band_of(coef),
        r <= 5,
{
    let m: u32 = if coef < 0 {
        (-(coef as i32)) as u32
    } else {
        coef as u32
    };
    let b = if m / 128 > m % 128 {
        m / 128
    } else {
        m % 128
    };
    if b < 5 {
        b as usize
    } else {
        5
    }
}

/// The bucket index of a coefficient of a color.
fn key_of(color: usize, coef: i16) -> (r: usize)
    requires
        color < 3,
        coef_in_range(coef),
    ensures
        r == bucket_key(color as int, coef),
        r < NUM_BUCKETS,
{
    let sign: usize = if coef < 0 {
        1
    } else {
        0
    };
    let magnitude: usize = if coef < 0 {
        (-(coef as i32)) as usize
    } else {
        coef as usize
    };
    (color * 2 + sign) * MAGNITUDES + magnitude
}

impl Signature {
    /// Whether every coefficient has a bucket (there are 120, each below
    /// 16 384 in magnitude).
    pub fn is_indexable(&self) -> (r: bool)
        ensures
            r == sig_indexable(self.sig@),
    {
        if self.sig.len() != NUM_COEFS {
            return false;
        }
        let mut p: usize = 0;
        while p < NUM_COEFS
            invariant
                self.sig@.len() == NUM_COEFS,
                p <= NUM_COEFS,
                forall|q: int| 0 <= q < p ==> coef_in_range(#[trigger] self.sig@[q]),
            decreases NUM_COEFS - p,
        {
            let c = self.sig[p];
            if c <= -16384 || c >= 16384 {
                return false;
            }
            p = p + 1;
        }
        true
    }
}

/// A chunk: slot `l` holds the image with dense index `offset + l`.
pub struct ImageIndex {
    offset: u32,
    avgl_y: Vec<u64>,
    avgl_i: Vec<u64>,
    avgl_q: Vec<u64>,
    buckets: Vec<Bucket>,
    /// The signature each slot was appended with.
    sigs: Ghost<Seq<Seq<i16>>>,
}

impl ImageIndex {
    /// The dense index of slot 0.
    pub closed spec fn spec_offset(&self) -> nat {
        self.offset as nat
    }

    /// The number of slots, deleted ones included.
    pub closed spec fn spec_len(&self) -> nat {
        self.avgl_y@.len()
    }

    /// The average components (double bits) of slot `l`; Y is zero once deleted.
    pub closed spec fn avgl_at(&self, l: int) -> (u64, u64, u64) {
        (self.avgl_y@[l], self.avgl_i@[l], self.avgl_q@[l])
    }

    /// The signature slot `l` was appended with.
    pub closed spec fn sig_at(&self, l: int) -> Seq<i16> {
        self.sigs@[l]
    }

    /// The local ids in bucket `k`.
    pub closed spec fn members(&self, k: int) -> Set<u16> {
        self.buckets@[k]@
    }

    /// Slot `l` holds an image that is neither deleted nor unindexed: its Y
    /// component is non-zero as an `f32`.
    pub open spec fn is_live(&self, l: int) -> bool {
        0 <= l < self.spec_len() && !is_f32_zero(self.avgl_at(l).0)
    }

    /// Every bucket is well formed and holds only slots whose signature has its
    /// coefficient; a live slot is in every bucket of its signature's
    /// coefficients.
    pub closed spec fn wf(&self) -> bool {
        &&& self.avgl_i@.len() == self.avgl_y@.len()
        &&& self.avgl_q@.len() == self.avgl_y@.len()
        &&& self.sigs@.len() == self.avgl_y@.len()
        &&& self.avgl_y@.len() <= CHUNK_SIZE
        &&& self.offset + self.avgl_y@.len() <= 0x1_0000_0000
        &&& self.buckets@.len() == NUM_BUCKETS
        &&& forall|k: int| 0 <= k < NUM_BUCKETS ==> (#[trigger] self.buckets@[k]).wf()
        &&& forall|k: int, id: u16|
            0 <= k < NUM_BUCKETS && (#[trigger] self.buckets@[k]@.contains(id)) ==> (id as int)
                < self.avgl_y@.len() && sig_has_key(self.sigs@[id as int], k)
        &&& forall|l: int| #[trigger]
            self.is_live(l) ==> sig_indexable(self.sigs@[l])
        &&& forall|l: int, k: int|
            self.is_live(l) && 0 <= k < NUM_BUCKETS && sig_has_key(self.sigs@[l], k)
                ==> #[trigger] self.buckets@[k]@.contains(l as u16)
    }

    /// A bucket holds only slots whose signature has its coefficient.
    pub proof fn lemma_members_own_keys(&self, k: int, id: u16)
        requires
            self.wf(),
            0 <= k < NUM_BUCKETS,
            self.members(k).contains(id),
        ensures
            (id as int) < self.spec_len(),
            sig_has_key(self.sig_at(id as int), k),
    {
    }

    pub proof fn lemma_bounds(&self)
        requires
            self.wf(),
        ensures
            self.spec_len() <= CHUNK_SIZE,
            self.spec_offset() + self.spec_len() <= 0x1_0000_0000,
    {
    }

    /// A live slot has 120 coefficients, each with a bucket, and it is in a
    /// bucket exactly when one of them falls there.
    pub proof fn lemma_live_slot(&self, l: int, k: int)
        requires
            self.wf(),
            self.is_live(l),
            0 <= k < NUM_BUCKETS,
        ensures
            sig_indexable(self.sig_at(l)),
            self.members(k).contains(l as u16) <==> sig_has_key(self.sig_at(l), k),
    {
        if self.members(k).contains(l as u16) {
            assert(((l as u16) as int) == l);
        }
    }

    /// An empty chunk whose slot 0 is dense index `offset`.
    pub fn new(offset: u32) -> (r: ImageIndex)
        ensures
            r.wf(),
            r.spec_offset() == offset,
            r.spec_len() == 0,
    {
        let mut buckets: Vec<Bucket> = Vec::new();
        let mut k: usize = 0;
        while k < NUM_BUCKETS
            invariant
                k <= NUM_BUCKETS,
                buckets@.len() == k,
                forall|j: int| 0 <= j < k ==> (#[trigger] buckets@[j]) is Empty,
            decreases NUM_BUCKETS - k,
        {
            buckets.push(Bucket::new());
            k = k + 1;
        }
        let r = ImageIndex {
            offset,
            avgl_y: Vec::new(),
            avgl_i: Vec::new(),
            avgl_q: Vec::new(),
            buckets,
            sigs: Ghost(Seq::empty()),
        };
        assert forall|k: int, id: u16|
            0 <= k < NUM_BUCKETS && (#[trigger] r.buckets@[k]@.contains(id)) implies (id as int)
            < r.avgl_y@.len() by {
            assert(r.buckets@[k] is Empty);
        }
        r
    }

    pub fn offset(&self) -> (r: u32)
        ensures
            r == self.spec_offset(),
    {
        self.offset
    }

    /// The number of slots, deleted ones included.
    pub fn len(&self) -> (r: usize)
        ensures
            r == self.spec_len(),
    {
        self.avgl_y.len()
    }

    /// Whether all 65 536 slots are taken.
    pub fn is_full(&self) -> (r: bool)
        ensures
            r == (self.spec_len() == CHUNK_SIZE),
    {
        self.avgl_y.len() == CHUNK_SIZE
    }

    /// The average components (double bits) of slot `l`.
    pub fn avgl(&self, l: usize) -> (r: (u64, u64, u64))
        requires
            self.wf(),
            l < self.spec_len(),
        ensures
            r == self.avgl_at(l as int),
    {
        (self.avgl_y[l], self.avgl_i[l], self.avgl_q[l])
    }

    /// Whether slot `l` holds a live image.
    pub fn live(&self, l: usize) -> (r: bool)
        requires
            self.wf(),
            l < self.spec_len(),
        ensures
            r == self.is_live(l as int),
    {
        let y = self.avgl_y[l];
        y % 0x8000_0000_0000_0000 > 0x3690_0000_0000_0000
    }

    /// The bucket of a coefficient of color `color`: of the live slots, it
    /// holds exactly those whose signature has that coefficient at that color.
    pub fn bucket(&self, color: usize, coef: i16) -> (r: &Bucket)
        requires
            self.wf(),
            color < 3,
            coef_in_range(coef),
        ensures
            r.wf(),
            r@ == self.members(bucket_key(color as int, coef)),
            forall|id: u16| #[trigger] r@.contains(id) ==> (id as int) < self.spec_len(),
            forall|l: int|
                #![trigger self.is_live(l)]
                self.is_live(l) ==> (r@.contains(l as u16) <==> sig_has_key(
                    self.sig_at(l),
                    bucket_key(color as int, coef),
                )),
    {
        let k = key_of(color, coef);
        let r = &self.buckets[k];
        assert forall|id: u16| #[trigger] r@.contains(id) implies (id as int) < self.spec_len() by {
            assert(self.buckets@[k as int]@.contains(id));
        }
        r
    }

    /// Adds the image with dense index `dense` in the next slot. Its slot goes
    /// into the buckets of its coefficients only when its Y component is
    /// non-zero; no other bucket changes.
    pub fn append(&mut self, dense: u32, sig: &Signature)
        requires
            old(self).wf(),
            old(self).spec_offset() + old(self).spec_len() == dense,
            old(self).spec_len() < CHUNK_SIZE,
            !is_zero_bits(sig.avgl.0) ==> sig_indexable(sig.sig@),
        ensures
            final(self).wf(),
            final(self).spec_offset() == old(self).spec_offset(),
            final(self).spec_len() == old(self).spec_len() + 1,
            final(self).avgl_at(old(self).spec_len() as int) == sig.avgl,
            final(self).sig_at(old(self).spec_len() as int) == sig.sig@,
            forall|l: int|
                0 <= l < old(self).spec_len() ==> #[trigger] final(self).avgl_at(l) == old(
                    self,
                ).avgl_at(l) && final(self).sig_at(l) == old(self).sig_at(l),
            forall|k: int|
                0 <= k < NUM_BUCKETS ==> #[trigger] final(self).members(k) == if !is_zero_bits(
                    sig.avgl.0,
                ) && sig_has_key(sig.sig@, k) {
                    old(self).members(k).insert(old(self).spec_len() as u16)
                } else {
                    old(self).members(k)
                },
    {
        let ghost l0 = self.avgl_y@.len();
        let id: u16 = (dense - self.offset) as u16;
        assert(id == l0);
        self.avgl_y.push(sig.avgl.0);
        self.avgl_i.push(sig.avgl.1);
        self.avgl_q.push(sig.avgl.2);
        self.sigs = Ghost(self.sigs@.push(sig.sig@));
        if sig.avgl.0 == 0 || sig.avgl.0 == 0x8000_0000_0000_0000 {
            assert(!self.is_live(l0 as int));
            assert forall|l: int| #[trigger] self.is_live(l) implies sig_indexable(self.sigs@[l]) by {
                assert(old(self).is_live(l));
            }
            assert forall|k: int, x: u16|
                0 <= k < NUM_BUCKETS && (#[trigger] self.buckets@[k]@.contains(x)) implies (x as int)
                < self.avgl_y@.len() && sig_has_key(self.sigs@[x as int], k) by {
                assert(old(self).buckets@[k]@.contains(x));
            }
            assert forall|l: int, k: int|
                self.is_live(l) && 0 <= k < NUM_BUCKETS && sig_has_key(self.sigs@[l], k)
                implies #[trigger] self.buckets@[k]@.contains(l as u16) by {
                assert(old(self).is_live(l));
            }
            return ;
        }
        let mut p: usize = 0;
        while p < NUM_COEFS
            invariant
                l0 == id,
                l0 + 1 == self.avgl_y@.len(),
                self.avgl_i@.len() == self.avgl_y@.len(),
                self.avgl_q@.len() == self.avgl_y@.len(),
                self.sigs@.len() == self.avgl_y@.len(),
                self.avgl_y@.len() <= CHUNK_SIZE,
                self.offset + self.avgl_y@.len() <= 0x1_0000_0000,
                self.offset == old(self).offset,
                self.avgl_y@ == old(self).avgl_y@.push(sig.avgl.0),
                self.avgl_i@ == old(self).avgl_i@.push(sig.avgl.1),
                self.avgl_q@ == old(self).avgl_q@.push(sig.avgl.2),
                self.sigs@ == old(self).sigs@.push(sig.sig@),
                old(self).wf(),
                !is_zero_bits(sig.avgl.0),
                sig_indexable(sig.sig@),
                p <= NUM_COEFS,
                self.buckets@.len() == NUM_BUCKETS,
                forall|k: int| 0 <= k < NUM_BUCKETS ==> (#[trigger] self.buckets@[k]).wf(),
                forall|k: int|
                    0 <= k < NUM_BUCKETS ==> #[trigger] self.buckets@[k]@ == if exists|q: int|
                        0 <= q < p && sig_key(sig.sig@, q) == k {
                        old(self).buckets@[k]@.insert(id)
                    } else {
                        old(self).buckets@[k]@
                    },
            decreases NUM_COEFS - p,
        {
            let c = sig.sig[p];
            let k = key_of(p / COEFS_PER_COLOR, c);
            assert(sig_key(sig.sig@, p as int) == k);
            let ghost pre = self.buckets@;
            if !self.buckets[k].contains(id) {
                self.buckets[k].append(id);
            }
            assert forall|j: int| 0 <= j < NUM_BUCKETS implies #[trigger] self.buckets@[j]@ == if exists|
                q: int,
            | 0 <= q < p + 1 && sig_key(sig.sig@, q) == j {
                old(self).buckets@[j]@.insert(id)
            } else {
                old(self).buckets@[j]@
            } by {
                if j == k {
                    assert(0 <= p < p + 1 && sig_key(sig.sig@, p as int) == j);
                    if exists|q: int| 0 <= q < p && sig_key(sig.sig@, q) == j {
                        assert(pre[j]@.contains(id));
                    } else {
                        assert(!pre[j]@.contains(id));
                    }
                    assert(self.buckets@[j]@ =~= old(self).buckets@[j]@.insert(id));
                } else {
                    assert(self.buckets@[j] == pre[j]);
                    if exists|q: int| 0 <= q < p + 1 && sig_key(sig.sig@, q) == j {
                        let q = choose|q: int| 0 <= q < p + 1 && sig_key(sig.sig@, q) == j;
                        assert(q != p);
                    }
                }
            }
            p = p + 1;
        }
        assert forall|k: int| 0 <= k < NUM_BUCKETS implies (exists|q: int|
            0 <= q < NUM_COEFS && sig_key(sig.sig@, q) == k) == sig_has_key(sig.sig@, k) by {
        }
        assert forall|l: int| #[trigger] self.is_live(l) implies sig_indexable(self.sigs@[l]) by {
            if l < l0 {
                assert(old(self).is_live(l));
            }
        }
        assert forall|k: int, x: u16|
            0 <= k < NUM_BUCKETS && (#[trigger] self.buckets@[k]@.contains(x)) implies (x as int)
            < self.avgl_y@.len() && sig_has_key(self.sigs@[x as int], k) by {
            if x != id {
                assert(old(self).buckets@[k]@.contains(x));
            }
        }
        assert forall|l: int, k: int|
            self.is_live(l) && 0 <= k < NUM_BUCKETS && sig_has_key(self.sigs@[l], k)
            implies #[trigger] self.buckets@[k]@.contains(l as u16) by {
            if l < l0 {
                assert(old(self).is_live(l));
                assert(old(self).buckets@[k]@.contains(l as u16));
            } else {
                assert((l as u16) == id);
            }
        }
    }

    /// Deletes the image with dense index `dense`: its Y component becomes
    /// zero and it leaves the buckets of `sig`'s coefficients; no other bucket
    /// changes. Nothing happens when `dense` is not a slot of this chunk.
    pub fn remove(&mut self, dense: u32, sig: &Signature)
        requires
            old(self).wf(),
            sig_indexable(sig.sig@),
        ensures
            final(self).wf(),
            final(self).spec_offset() == old(self).spec_offset(),
            final(self).spec_len() == old(self).spec_len(),
            forall|l: int|
                0 <= l < old(self).spec_len() ==> #[trigger] final(self).avgl_at(l) == if l
                    + old(self).spec_offset() == dense {
                    (0u64, old(self).avgl_at(l).1, old(self).avgl_at(l).2)
                } else {
                    old(self).avgl_at(l)
                } && final(self).sig_at(l) == old(self).sig_at(l),
            forall|k: int|
                0 <= k < NUM_BUCKETS ==> #[trigger] final(self).members(k) == if old(
                    self,
                ).spec_offset() <= dense < old(self).spec_offset() + old(self).spec_len()
                    && sig_has_key(sig.sig@, k) {
                    old(self).members(k).remove((dense - old(self).spec_offset()) as u16)
                } else {
                    old(self).members(k)
                },
    {
        if dense < self.offset {
            return ;
        }
        let l = (dense - self.offset) as usize;
        if l >= self.avgl_y.len() {
            return ;
        }
        self.avgl_y.set(l, 0);
        let id = l as u16;
        let mut p: usize = 0;
        while p < NUM_COEFS
            invariant
                id == l,
                l < self.avgl_y@.len(),
                self.avgl_y@.len() == old(self).avgl_y@.len(),
                self.avgl_y@[l as int] == 0,
                self.avgl_y@ == old(self).avgl_y@.update(l as int, 0u64),
                self.avgl_i@ == old(self).avgl_i@,
                self.avgl_q@ == old(self).avgl_q@,
                self.sigs@ == old(self).sigs@,
                self.offset == old(self).offset,
                old(self).wf(),
                old(self).avgl_y@.len() <= CHUNK_SIZE,
                sig_indexable(sig.sig@),
                p <= NUM_COEFS,
                self.buckets@.len() == NUM_BUCKETS,
                forall|k: int| 0 <= k < NUM_BUCKETS ==> (#[trigger] self.buckets@[k]).wf(),
                forall|k: int|
                    0 <= k < NUM_BUCKETS ==> #[trigger] self.buckets@[k]@ == if exists|q: int|
                        0 <= q < p && sig_key(sig.sig@, q) == k {
                        old(self).buckets@[k]@.remove(id)
                    } else {
                        old(self).buckets@[k]@
                    },
            decreases NUM_COEFS - p,
        {
            let c = sig.sig[p];
            let k = key_of(p / COEFS_PER_COLOR, c);
            assert(sig_key(sig.sig@, p as int) == k);
            let ghost pre = self.buckets@;
            self.buckets[k].remove(id);
            assert forall|j: int| 0 <= j < NUM_BUCKETS implies #[trigger] self.buckets@[j]@ == if exists|
                q: int,
            | 0 <= q < p + 1 && sig_key(sig.sig@, q) == j {
                old(self).buckets@[j]@.remove(id)
            } else {
                old(self).buckets@[j]@
            } by {
                if j == k {
                    assert(0 <= p < p + 1 && sig_key(sig.sig@, p as int) == j);
                    assert(self.buckets@[j]@ =~= old(self).buckets@[j]@.remove(id));
                } else {
                    assert(self.buckets@[j] == pre[j]);
                    if exists|q: int| 0 <= q < p + 1 && sig_key(sig.sig@, q) == j {
                        let q = choose|q: int| 0 <= q < p + 1 && sig_key(sig.sig@, q) == j;
                        assert(q != p);
                    }
                }
            }
            p = p + 1;
        }
        assert forall|k: int| 0 <= k < NUM_BUCKETS implies (exists|q: int|
            0 <= q < NUM_COEFS && sig_key(sig.sig@, q) == k) == sig_has_key(sig.sig@, k) by {
        }
        assert(!self.is_live(l as int));
        assert forall|j: int| #[trigger] self.is_live(j) implies sig_indexable(self.sigs@[j]) by {
            assert(old(self).is_live(j));
        }
        assert forall|k: int, x: u16|
            0 <= k < NUM_BUCKETS && (#[trigger] self.buckets@[k]@.contains(x)) implies (x as int)
            < self.avgl_y@.len() && sig_has_key(self.sigs@[x as int], k) by {
            assert(old(self).buckets@[k]@.contains(x));
        }
        assert forall|j: int, k: int|
            self.is_live(j) && 0 <= k < NUM_BUCKETS && sig_has_key(self.sigs@[j], k)
            implies #[trigger] self.buckets@[k]@.contains(j as u16) by {
            assert(old(self).is_live(j));
            assert(old(self).buckets@[k]@.contains(j as u16));
            assert(j != l);
            assert(j < CHUNK_SIZE);
            assert((j as u16) != id);
        }
    }

    /// The slots that can be selected: live, with a score below `f32::MAX`.
    pub open spec fn is_candidate(&self, scores: Seq<u32>, l: int) -> bool {
        &&& self.is_live(l)
        &&& l < scores.len()
        &&& score_rank(scores[l]) < score_rank(MAX_SCORE_BITS)
    }

    /// `r` lists the best `limit` candidates (all of them when there are
    /// fewer), ascending by (score, slot), each as its score and dense index.
    pub open spec fn is_top_selection(&self, scores: Seq<u32>, limit: int, r: Seq<(u32, u32)>) -> bool {
        &&& r.len() <= limit
        &&& forall|i: int|
            #![trigger r[i]]
            0 <= i < r.len() ==> {
                &&& r[i].1 >= self.spec_offset()
                &&& self.is_candidate(scores, r[i].1 - self.spec_offset())
                &&& r[i].0 == scores[r[i].1 - self.spec_offset()]
            }
        &&& forall|i: int, j: int|
            0 <= i < j < r.len() ==> ranks_before(
                scores,
                #[trigger] r[i].1 - self.spec_offset(),
                #[trigger] r[j].1 - self.spec_offset(),
            )
        &&& forall|l: int|
            #![trigger self.is_candidate(scores, l)]
            self.is_candidate(scores, l) ==> (exists|i: int|
                0 <= i < r.len() && #[trigger] r[i].1 == l + self.spec_offset()) || (r.len() == limit
                && (limit == 0 || ranks_before(scores, r[r.len() - 1].1 - self.spec_offset(), l)))
    }

    /// The best `limit` candidates by (score, slot), ascending, each as its
    /// score and dense index. `scores[l]` is the score (bits of an `f32`) of
    /// slot `l`.
    pub fn select_top(&self, scores: &Vec<u32>, limit: usize) -> (r: Vec<(u32, u32)>)
        requires
            self.wf(),
            scores@.len() >= self.spec_len(),
        ensures
            self.is_top_selection(scores@, limit as int, r@),
    {
        let n = self.avgl_y.len();
        let mut buf: Vec<u32> = Vec::new();
        if limit == 0 {
            return Vec::new();
        }
        let mut l: usize = 0;
        while l < n
            invariant
                self.wf(),
                n == self.spec_len(),
                scores@.len() >= n,
                limit >= 1,
                l <= n,
                buf@.len() <= limit,
                forall|i: int|
                    0 <= i < buf@.len() ==> (buf@[i] as int) < l && self.is_candidate(
                        scores@,
                        #[trigger] buf@[i] as int,
                    ),
                forall|i: int, j: int|
                    0 <= i < j < buf@.len() ==> ranks_before(
                        scores@,
                        #[trigger] buf@[i] as int,
                        #[trigger] buf@[j] as int,
                    ),
                forall|m: int|
                    #![trigger self.is_candidate(scores@, m)]
                    0 <= m < l && self.is_candidate(scores@, m) ==> buf@.contains(m as u32) || (
                    buf@.len() == limit && ranks_before(scores@, buf@[buf@.len() - 1] as int, m)),
            decreases n - l,
        {
            let li = l as u32;
            if self.live(l) && rank_of(scores[l]) < rank_of(MAX_SCORE_BITS) {
                if buf.len() < limit || before(scores, li, buf[buf.len() - 1]) {
                    let ghost old_buf = buf@;
                    let mut pos: usize = 0;
                    while pos < buf.len() && before(scores, buf[pos], li)
                        invariant
                            pos <= buf@.len(),
                            buf@ == old_buf,
                            (li as int) < scores@.len(),
                            forall|i: int| 0 <= i < buf@.len() ==> (#[trigger] buf@[i] as int) < scores@.len(),
                            forall|i: int|
                                0 <= i < pos ==> ranks_before(scores@, #[trigger] buf@[i] as int, li as int),
                        decreases buf@.len() - pos,
                    {
                        pos = pos + 1;
                    }
                    proof {
                        if pos < buf@.len() {
                            assert(!ranks_before(scores@, buf@[pos as int] as int, li as int));
                        }
                    }
                    buf.insert(pos, li);
                    let ghost ins = buf@;
                    assert forall|i: int, j: int|
                        0 <= i < j < ins.len() implies ranks_before(
                        scores@,
                        #[trigger] ins[i] as int,
                        #[trigger] ins[j] as int,
                    ) by {
                        if j < pos {
                            assert(ins[i] == old_buf[i]);
                            assert(ins[j] == old_buf[j]);
                        } else if i < pos && j == pos {
                        } else if i < pos && j > pos {
                            assert(ins[j] == old_buf[j - 1]);
                        } else if i == pos && j > pos {
                            assert(ins[j] == old_buf[j - 1]);
                            assert(ranks_before(scores@, old_buf[pos as int] as int, old_buf[j - 1] as int) || j - 1 == pos);
                        } else {
                            assert(ins[i] == old_buf[i - 1]);
                            assert(ins[j] == old_buf[j - 1]);
                        }
                    }
                    if buf.len() > limit {
                        let ghost popped = buf@[buf@.len() - 1];
                        buf.pop();
                        assert(buf@ =~= ins.subrange(0, ins.len() - 1));
                        assert(ranks_before(scores@, buf@[buf@.len() - 1] as int, popped as int));
                        assert forall|m: int|
                            #![trigger self.is_candidate(scores@, m)]
                            0 <= m < l + 1 && self.is_candidate(scores@, m) implies buf@.contains(
                            m as u32,
                        ) || (buf@.len() == limit && ranks_before(
                            scores@,
                            buf@[buf@.len() - 1] as int,
                            m,
                        )) by {
                            if m == l {
                                assert(buf@[pos as int] == li);
                            } else if old_buf.contains(m as u32) {
                                let i = choose|i: int| 0 <= i < old_buf.len() && old_buf[i] == m as u32;
                                if i < pos {
                                    assert(buf@[i] == m as u32);
                                } else if i + 1 < ins.len() - 1 {
                                    assert(buf@[i + 1] == m as u32);
                                } else {
                                    assert(popped == m as u32);
                                }
                            } else {
                                assert(ranks_before(scores@, old_buf[old_buf.len() - 1] as int, m));
                                assert(old_buf[old_buf.len() - 1] == popped);
                            }
                        }
                    } else {
                        assert forall|m: int|
                            #![trigger self.is_candidate(scores@, m)]
                            0 <= m < l + 1 && self.is_candidate(scores@, m) implies buf@.contains(
                            m as u32,
                        ) || (buf@.len() == limit && ranks_before(
                            scores@,
                            buf@[buf@.len() - 1] as int,
                            m,
                        )) by {
                            if m == l {
                                assert(buf@[pos as int] == li);
                            } else if old_buf.contains(m as u32) {
                                let i = choose|i: int| 0 <= i < old_buf.len() && old_buf[i] == m as u32;
                                if i < pos {
                                    assert(buf@[i] == m as u32);
                                } else {
                                    assert(buf@[i + 1] == m as u32);
                                }
                            }
                        }
                    }
                } else {
                    assert(!ranks_before(scores@, l as int, buf@[buf@.len() - 1] as int));
                    assert((buf@[buf@.len() - 1] as int) != l as int);
                }
            }
            l = l + 1;
        }
        let mut r: Vec<(u32, u32)> = Vec::new();
        let mut i: usize = 0;
        while i < buf.len()
            invariant
                self.wf(),
                i <= buf@.len(),
                r@.len() == i,
                scores@.len() >= self.spec_len(),
                forall|j: int|
                    0 <= j < buf@.len() ==> (buf@[j] as int) < self.spec_len(),
                forall|j: int|
                    #![trigger r@[j]]
                    0 <= j < i ==> r@[j] == (scores@[buf@[j] as int], (buf@[j] + self.spec_offset()) as u32),
            decreases buf@.len() - i,
        {
            let b = buf[i];
            r.push((scores[b as usize], self.offset + b));
            i = i + 1;
        }
        assert forall|m: int|
            #![trigger self.is_candidate(scores@, m)]
            self.is_candidate(scores@, m) implies (exists|i: int|
                0 <= i < r@.len() && #[trigger] r@[i].1 == m + self.spec_offset()) || (r@.len()
                == limit && (limit == 0 || ranks_before(
                scores@,
                r@[r@.len() - 1].1 - self.spec_offset(),
                m,
            ))) by {
            if buf@.contains(m as u32) {
                let i = choose|i: int| 0 <= i < buf@.len() && buf@[i] == m as u32;
                assert(r@[i].1 == m + self.spec_offset());
            }
        }
        r
    }
}

/// The selection is a function of the chunk, the scores and the limit: two
/// lists that both meet the contract of `select_top` are equal, ties in score
/// being broken by the lower slot.
pub proof fn lemma_top_selection_unique(
    chunk: &ImageIndex,
    scores: Seq<u32>,
    limit: int,
    r1: Seq<(u32, u32)>,
    r2: Seq<(u32, u32)>,
)
    requires
        chunk.is_top_selection(scores, limit, r1),
        chunk.is_top_selection(scores, limit, r2),
    ensures
        r1 == r2,
{
    let off = chunk.spec_offset() as int;
    let m = if r1.len() < r2.len() {
        r1.len() as int
    } else {
        r2.len() as int
    };
    assert forall|i: int| 0 <= i < m implies r1[i] == r2[i] by {
        lemma_top_prefix(chunk, scores, limit, r1, r2, i);
    }
    if r1.len() < r2.len() {
        let x = r2[m].1 - off;
        assert(chunk.is_candidate(scores, x));
        if exists|i: int| 0 <= i < r1.len() && #[trigger] r1[i].1 == x + off {
            let i = choose|i: int| 0 <= i < r1.len() && #[trigger] r1[i].1 == x + off;
            assert(r1[i] == r2[i]);
            assert(ranks_before(scores, r2[i].1 - off, r2[m].1 - off));
        }
    } else if r2.len() < r1.len() {
        let x = r1[m].1 - off;
        assert(chunk.is_candidate(scores, x));
        if exists|i: int| 0 <= i < r2.len() && #[trigger] r2[i].1 == x + off {
            let i = choose|i: int| 0 <= i < r2.len() && #[trigger] r2[i].1 == x + off;
            assert(r1[i] == r2[i]);
            assert(ranks_before(scores, r1[i].1 - off, r1[m].1 - off));
        }
    }
    assert(r1 =~= r2);
}

proof fn lemma_top_prefix(
    chunk: &ImageIndex,
    scores: Seq<u32>,
    limit: int,
    r1: Seq<(u32, u32)>,
    r2: Seq<(u32, u32)>,
    k: int,
)
    requires
        chunk.is_top_selection(scores, limit, r1),
        chunk.is_top_selection(scores, limit, r2),
        0 <= k < r1.len(),
        k < r2.len(),
    ensures
        r1[k] == r2[k],
    decreases k,
{
    let off = chunk.spec_offset() as int;
    assert forall|i: int| 0 <= i < k implies r1[i] == r2[i] by {
        lemma_top_prefix(chunk, scores, limit, r1, r2, i);
    }
    let a = r1[k].1 - off;
    let b = r2[k].1 - off;
    if a != b {
        lemma_not_listed_before(chunk, scores, limit, r1, r2, k);
        lemma_not_listed_before(chunk, scores, limit, r2, r1, k);
    }
}

/// Where two selections agree below `k` and differ at `k`, the first's `k`-th
/// entry does not rank before the second's.
proof fn lemma_not_listed_before(
    chunk: &ImageIndex,
    scores: Seq<u32>,
    limit: int,
    r1: Seq<(u32, u32)>,
    r2: Seq<(u32, u32)>,
    k: int,
)
    requires
        chunk.is_top_selection(scores, limit, r1),
        chunk.is_top_selection(scores, limit, r2),
        0 <= k < r1.len(),
        k < r2.len(),
        forall|i: int| 0 <= i < k ==> r1[i] == r2[i],
        r1[k].1 != r2[k].1,
    ensures
        !ranks_before(scores, r1[k].1 - chunk.spec_offset(), r2[k].1 - chunk.spec_offset()),
{
    let off = chunk.spec_offset() as int;
    let a = r1[k].1 - off;
    assert(chunk.is_candidate(scores, a));
    if ranks_before(scores, a, r2[k].1 - off) {
        if exists|j: int| 0 <= j < r2.len() && #[trigger] r2[j].1 == a + off {
            let j = choose|j: int| 0 <= j < r2.len() && #[trigger] r2[j].1 == a + off;
            if j < k {
                assert(r1[j] == r2[j]);
                assert(ranks_before(scores, r1[j].1 - off, r1[k].1 - off));
            } else if j > k {
                assert(ranks_before(scores, r2[k].1 - off, r2[j].1 - off));
            }
        } else {
            let last = r2.len() - 1;
            assert(ranks_before(scores, r2[last].1 - off, a));
            if k < last {
                assert(ranks_before(scores, r2[k].1 - off, r2[last].1 - off));
            }
        }
    }
}

} // verus!
