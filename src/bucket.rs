//! The inverted-index entry of one coefficient slot: the set of local ids of a
//! chunk whose signature holds that coefficient, stored in the cheapest of four
//! representations for its size.
use vstd::prelude::*;

verus! {

broadcast use {vstd::set_lib::full_set_properties, vstd::seq_lib::group_seq_properties};

/// Slots of the inline small-array representation.
pub const ARRAY_SLOTS: usize = 15;

/// From this size on a bucket is held as a bit mask.
pub const MAX_VEC_LEN: usize = 512;

/// Mask words needed to cover every local id of a chunk.
pub const MAX_MASK_WORDS: usize = 4096;

/// Whether bit `bit` of `w` is set.
pub open spec fn word_has(w: u16, bit: u16) -> bool {
    (w >> bit) & 1u16 == 1u16
}

/// Whether `id` is set in a mask of 16-bit words (bit `id % 16` of word `id / 16`).
pub open spec fn mask_contains(words: Seq<u16>, id: u16) -> bool {
    (id / 16) < words.len() && word_has(words[(id / 16) as int], id % 16)
}

/// The ids that a mask holds.
pub open spec fn mask_set(words: Seq<u16>) -> Set<u16> {
    Set::<u16>::full().filter(|id: u16| mask_contains(words, id))
}

pub open spec fn strictly_sorted(s: Seq<u16>) -> bool {
    forall|i: int, j: int| 0 <= i < j < s.len() ==> s[i] < s[j]
}

proof fn lemma_word_set(w: u16, o: u16, b: u16)
    requires
        o < 16,
        b < 16,
    ensures
        word_has(w | (1u16 << o), b) <==> (b == o || word_has(w, b)),
{
    assert(((w | (1u16 << o)) >> b) & 1u16 == 1u16 <==> (b == o || (w >> b) & 1u16 == 1u16))
        by (bit_vector)
        requires
            o < 16,
            b < 16,
    ;
}

proof fn lemma_word_clear(w: u16, o: u16, b: u16)
    requires
        o < 16,
        b < 16,
    ensures
        word_has(w & !(1u16 << o), b) <==> (b != o && word_has(w, b)),
{
    assert(((w & !(1u16 << o)) >> b) & 1u16 == 1u16 <==> (b != o && (w >> b) & 1u16 == 1u16))
        by (bit_vector)
        requires
            o < 16,
            b < 16,
    ;
}

proof fn lemma_word_zero(b: u16)
    requires
        b < 16,
    ensures
        !word_has(0u16, b),
{
    assert((0u16 >> b) & 1u16 != 1u16) by (bit_vector);
}

proof fn lemma_sorted_no_duplicates(s: Seq<u16>)
    requires
        strictly_sorted(s),
    ensures
        s.no_duplicates(),
{
}

proof fn lemma_sorted_set_len(s: Seq<u16>)
    requires
        strictly_sorted(s),
    ensures
        s.to_set().len() == s.len(),
        s.to_set().finite(),
{
    lemma_sorted_no_duplicates(s);
    s.unique_seq_to_set();
}

proof fn lemma_u16_set_len(s: Set<u16>)
    ensures
        s.len() <= 65536,
{
    let r = <u16 as vstd::set_lib::FiniteRange>::range_set(0u16, 65535u16);
    <u16 as vstd::set_lib::FiniteRange>::range_properties(0u16, 65535u16);
    let full = r.insert(65535u16);
    assert(s.subset_of(full));
    vstd::set_lib::lemma_len_subset(s, full);
}

/// Sets bit `id` of a mask, growing it with zero words as needed.
fn mask_insert(words: &mut Vec<u16>, id: u16)
    ensures
        final(words)@.len() == if (id / 16) as int >= old(words)@.len() {
            (id / 16) as int + 1
        } else {
            old(words)@.len() as int
        },
        forall|j: u16| #[trigger]
            mask_contains(final(words)@, j) <==> (mask_contains(old(words)@, j) || j == id),
{
    let index = (id / 16) as usize;
    let offset = id % 16;
    while index >= words.len()
        invariant
            index == id / 16,
            forall|j: u16| #[trigger]
                mask_contains(words@, j) <==> mask_contains(old(words)@, j),
            words@.len() <= if (id / 16) as int >= old(words)@.len() {
                (id / 16) as int + 1
            } else {
                old(words)@.len() as int
            },
            old(words)@.len() <= words@.len(),
            forall|k: int| 0 <= k < old(words)@.len() ==> words@[k] == old(words)@[k],
            forall|k: int| old(words)@.len() <= k < words@.len() ==> words@[k] == 0,
        decreases index + 1 - words.len(),
    {
        words.push(0);
        assert forall|j: u16| #[trigger]
            mask_contains(words@, j) <==> mask_contains(old(words)@, j) by {
            if (j / 16) as int >= old(words)@.len() && (j / 16) < words@.len() {
                lemma_word_zero(j % 16);
            }
        }
    }
    let w = words[index];
    words.set(index, w | (1u16 << offset));
    assert forall|j: u16| #[trigger]
        mask_contains(words@, j) <==> (mask_contains(old(words)@, j) || j == id) by {
        if (j / 16) as int >= old(words)@.len() && (j / 16) < words@.len() {
            lemma_word_zero(j % 16);
        }
        if j / 16 == id / 16 {
            lemma_word_set(w, offset, j % 16);
        }
    }
}

/// Clears bit `id` of a mask.
fn mask_remove(words: &mut Vec<u16>, id: u16)
    ensures
        final(words)@.len() == old(words)@.len(),
        forall|j: u16| #[trigger]
            mask_contains(final(words)@, j) <==> (mask_contains(old(words)@, j) && j != id),
{
    let index = (id / 16) as usize;
    let offset = id % 16;
    if index < words.len() {
        let w = words[index];
        words.set(index, w & !(1u16 << offset));
        assert forall|j: u16| #[trigger]
            mask_contains(words@, j) <==> (mask_contains(old(words)@, j) && j != id) by {
            if j / 16 == id / 16 {
                lemma_word_clear(w, offset, j % 16);
            }
        }
    }
}

/// The ids that a mask holds, in ascending order.
fn mask_ids(words: &Vec<u16>) -> (r: Vec<u16>)
    requires
        words@.len() <= MAX_MASK_WORDS,
    ensures
        strictly_sorted(r@),
        forall|id: u16| r@.contains(id) <==> #[trigger] mask_contains(words@, id),
{
    let mut r: Vec<u16> = Vec::new();
    let mut k: usize = 0;
    while k < words.len()
        invariant
            k <= words@.len() <= MAX_MASK_WORDS,
            strictly_sorted(r@),
            forall|i: int| 0 <= i < r@.len() ==> (r@[i] as int) < 16 * k,
            forall|id: u16|
                r@.contains(id) <==> (#[trigger] mask_contains(words@, id) && (id as int) < 16
                    * k),
        decreases words@.len() - k,
    {
        let w = words[k];
        let mut b: u16 = 0;
        while b < 16
            invariant
                k < words@.len() <= MAX_MASK_WORDS,
                w == words@[k as int],
                b <= 16,
                strictly_sorted(r@),
                forall|i: int| 0 <= i < r@.len() ==> (r@[i] as int) < 16 * k + b,
                forall|id: u16|
                    r@.contains(id) <==> (#[trigger] mask_contains(words@, id) && (id as int) < 16
                        * k + b),
            decreases 16 - b,
        {
            let id: u16 = (16 * k + b as usize) as u16;
            assert(id / 16 == k && id % 16 == b) by {
                assert(16 * k + b < 65536) by (nonlinear_arith)
                    requires
                        k < 4096,
                        b < 16,
                ;
            }
            if (w >> b) & 1u16 == 1u16 {
                let ghost before = r@;
                r.push(id);
                assert forall|x: u16|
                    r@.contains(x) <==> (#[trigger] mask_contains(words@, x) && (x as int) < 16
                        * k + b + 1) by {
                    if x == id {
                        assert(r@[before.len() as int] == id);
                    } else if r@.contains(x) {
                        let i = choose|i: int| 0 <= i < r@.len() && r@[i] == x;
                        assert(before[i] == x);
                    } else if (x as int) < 16 * k + b {
                        if mask_contains(words@, x) {
                            assert(before.contains(x));
                            let i = choose|i: int| 0 <= i < before.len() && before[i] == x;
                            assert(r@[i] == x);
                        }
                    }
                }
            } else {
                assert forall|x: u16|
                    r@.contains(x) <==> (#[trigger] mask_contains(words@, x) && (x as int) < 16
                        * k + b + 1) by {
                    if x == id {
                        if r@.contains(x) {
                            let i = choose|i: int| 0 <= i < r@.len() && r@[i] == x;
                        }
                    }
                }
            }
            b = b + 1;
        }
        k = k + 1;
    }
    r
}

/// Binary search in a strictly ascending vector.
fn find_sorted(v: &Vec<u16>, id: u16) -> (r: Option<usize>)
    requires
        strictly_sorted(v@),
    ensures
        match r {
            Some(i) => i < v@.len() && v@[i as int] == id,
            None => !v@.contains(id),
        },
{
    let mut lo: usize = 0;
    let mut hi: usize = v.len();
    while lo < hi
        invariant
            strictly_sorted(v@),
            lo <= hi <= v@.len(),
            forall|i: int| 0 <= i < lo ==> v@[i] < id,
            forall|i: int| hi <= i < v@.len() ==> v@[i] > id,
        decreases hi - lo,
    {
        let mid = lo + (hi - lo) / 2;
        if v[mid] == id {
            return Some(mid);
        } else if v[mid] < id {
            lo = mid + 1;
        } else {
            hi = mid;
        }
    }
    None
}

/// Inserts an absent id into a strictly ascending vector, keeping it so.
fn insert_sorted(v: &mut Vec<u16>, id: u16)
    requires
        strictly_sorted(old(v)@),
        !old(v)@.contains(id),
    ensures
        strictly_sorted(final(v)@),
        final(v)@.len() == old(v)@.len() + 1,
        final(v)@.to_set() == old(v)@.to_set().insert(id),
{
    let mut pos: usize = 0;
    while pos < v.len() && v[pos] < id
        invariant
            pos <= v@.len(),
            forall|i: int| 0 <= i < pos ==> v@[i] < id,
        decreases v@.len() - pos,
    {
        pos = pos + 1;
    }
    proof {
        if pos < v@.len() {
            assert(v@[pos as int] != id);
        }
    }
    v.insert(pos, id);
    assert(v@.to_set() =~= old(v)@.to_set().insert(id)) by {
        assert forall|x: u16| v@.contains(x) implies old(v)@.to_set().insert(id).contains(x) by {
            let i = choose|i: int| 0 <= i < v@.len() && v@[i] == x;
            if i < pos {
                assert(old(v)@[i] == x);
            } else if i > pos {
                assert(old(v)@[i - 1] == x);
            }
        }
        assert forall|x: u16| old(v)@.to_set().insert(id).contains(x) implies v@.contains(x) by {
            if x == id {
                assert(v@[pos as int] == id);
            } else {
                let i = choose|i: int| 0 <= i < old(v)@.len() && old(v)@[i] == x;
                if i < pos {
                    assert(v@[i] == x);
                } else {
                    assert(v@[i + 1] == x);
                }
            }
        }
    }
}

/// Whether `id` is set in a mask.
fn mask_has(words: &Vec<u16>, id: u16) -> (r: bool)
    ensures
        r == mask_contains(words@, id),
{
    let index = (id / 16) as usize;
    index < words.len() && (words[index] >> (id % 16)) & 1u16 == 1u16
}

/// The mask that holds exactly the ids of a strictly ascending vector.
fn mask_of(v: &Vec<u16>) -> (words: Vec<u16>)
    requires
        strictly_sorted(v@),
    ensures
        words@.len() <= MAX_MASK_WORDS,
        mask_set(words@) == v@.to_set(),
{
    let mut words: Vec<u16> = Vec::new();
    let mut i: usize = 0;
    while i < v.len()
        invariant
            i <= v@.len(),
            words@.len() <= MAX_MASK_WORDS,
            forall|id: u16| #[trigger]
                mask_contains(words@, id) <==> v@.subrange(0, i as int).contains(id),
        decreases v@.len() - i,
    {
        mask_insert(&mut words, v[i]);
        assert forall|id: u16| #[trigger]
            mask_contains(words@, id) <==> v@.subrange(0, i + 1).contains(id) by {
            assert(v@.subrange(0, i + 1) =~= v@.subrange(0, i as int).push(v@[i as int]));
        }
        i = i + 1;
    }
    assert(v@.subrange(0, v@.len() as int) =~= v@);
    assert(mask_set(words@) =~= v@.to_set());
    words
}

/// The local ids of one coefficient slot.
///
/// `Array` keeps its members in slots `0..len` and zero in the others;
/// `Vec` keeps them in ascending order; `Mask` sets bit `id % 16` of word
/// `id / 16` for each member and records how many there are.
pub enum Bucket {
    Empty,
    Array { ids: [u16; 15], len: usize },
    Vec(Vec<u16>),
    Mask { words: Vec<u16>, len: usize },
}

impl View for Bucket {
    type V = Set<u16>;

    open spec fn view(&self) -> Set<u16> {
        match self {
            Bucket::Empty => Set::empty(),
            Bucket::Array { ids, len } => ids@.subrange(0, *len as int).to_set(),
            Bucket::Vec(v) => v@.to_set(),
            Bucket::Mask { words, .. } => mask_set(words@),
        }
    }
}

impl Bucket {
    /// The representation invariant of each variant.
    pub open spec fn wf(&self) -> bool {
        match self {
            Bucket::Empty => true,
            Bucket::Array { ids, len } => {
                &&& 1 <= *len <= ARRAY_SLOTS
                &&& ids@.subrange(0, *len as int).no_duplicates()
                &&& forall|j: int| *len <= j < ARRAY_SLOTS ==> ids@[j] == 0
            },
            Bucket::Vec(v) => 1 <= v@.len() < MAX_VEC_LEN && strictly_sorted(v@),
            Bucket::Mask { words, len } => {
                &&& *len >= MAX_VEC_LEN
                &&& words@.len() <= MAX_MASK_WORDS
                &&& mask_set(words@).len() == *len
            },
        }
    }

    /// The variant that a bucket of this size has when it was built by appends
    /// alone: empty, up to 15 in the array, below 512 in the vector, else the mask.
    pub open spec fn has_growth_shape(&self) -> bool {
        match self {
            Bucket::Empty => true,
            Bucket::Array { .. } => true,
            Bucket::Vec(v) => v@.len() > ARRAY_SLOTS,
            Bucket::Mask { .. } => true,
        }
    }

    proof fn lemma_view_finite(&self)
        requires
            self.wf(),
        ensures
            self@.finite(),
            match self {
                Bucket::Empty => self@.len() == 0,
                Bucket::Array { len, .. } => self@.len() == *len,
                Bucket::Vec(v) => self@.len() == v@.len(),
                Bucket::Mask { len, .. } => self@.len() == *len,
            },
    {
        match self {
            Bucket::Empty => {},
            Bucket::Array { ids, len } => {
                ids@.subrange(0, *len as int).unique_seq_to_set();
            },
            Bucket::Vec(v) => {
                lemma_sorted_set_len(v@);
            },
            Bucket::Mask { words, .. } => {
                assert(Set::<u16>::full().finite());
            },
        }
    }

    /// The used slots of an array bucket, in slot order (empty for the other
    /// variants).
    pub open spec fn slots(&self) -> Seq<u16> {
        match self {
            Bucket::Array { ids, len } => ids@.subrange(0, *len as int),
            _ => Seq::empty(),
        }
    }

    /// What a removal leaves: nothing changes when `id` is absent, and an array
    /// keeps its other ids in slot order, shifted left over the freed slot.
    pub open spec fn removal_keeps_rest(&self, r: &Bucket, id: u16) -> bool {
        &&& !self@.contains(id) ==> *r == *self
        &&& (self is Array && r is Array && self@.contains(id)) ==> exists|j: int|
            0 <= j < self.slots().len() && self.slots()[j] == id && r.slots()
                == self.slots().remove(j)
    }

    /// How an append moves between variants: an empty bucket becomes an
    /// array, a full array (15 ids) a vector, and a vector that reaches 512 ids
    /// a mask.
    pub open spec fn shape_after_append(&self, r: &Bucket) -> bool {
        match self {
            Bucket::Empty => r is Array,
            Bucket::Array { len, .. } => if *len < ARRAY_SLOTS {
                r is Array
            } else {
                r is Vec
            },
            Bucket::Vec(v) => if v@.len() + 1 < MAX_VEC_LEN {
                r is Vec
            } else {
                r is Mask
            },
            Bucket::Mask { .. } => r is Mask,
        }
    }

    /// How a removal moves between variants: an array or a vector that loses
    /// its last id becomes empty, and a mask that falls below 512 ids a vector.
    pub open spec fn shape_after_remove(&self, r: &Bucket) -> bool {
        match self {
            Bucket::Empty => r is Empty,
            Bucket::Array { .. } => if r@.len() == 0 {
                r is Empty
            } else {
                r is Array
            },
            Bucket::Vec(_) => if r@.len() == 0 {
                r is Empty
            } else {
                r is Vec
            },
            Bucket::Mask { .. } => if r@.len() >= MAX_VEC_LEN {
                r is Mask
            } else {
                r is Vec
            },
        }
    }

    pub fn new() -> (r: Bucket)
        ensures
            r.wf(),
            r@ == Set::<u16>::empty(),
            r is Empty,
            r.has_growth_shape(),
    {
        Bucket::Empty
    }

    /// The bucket with `id` added, in the representation its new size calls for.
    fn appended(self, id: u16) -> (r: Bucket)
        requires
            self.wf(),
            !self@.contains(id),
        ensures
            r.wf(),
            r@ == self@.insert(id),
            r@.len() == self@.len() + 1,
            self.has_growth_shape() ==> r.has_growth_shape(),
            self.shape_after_append(&r),
    {
        proof {
            self.lemma_view_finite();
        }
        match self {
            Bucket::Empty => {
                let mut ids = [0u16; 15];
                ids[0] = id;
                let r = Bucket::Array { ids, len: 1 };
                proof {
                    assert(ids@.subrange(0, 1) =~= seq![id]);
                    assert(seq![id].to_set() =~= Set::<u16>::empty().insert(id)) by {
                        assert(seq![id][0] == id);
                    }
                    r.lemma_view_finite();
                }
                r
            },
            Bucket::Array { ids, len } => {
                if len < ARRAY_SLOTS {
                    let mut ids = ids;
                    let ghost prefix = ids@.subrange(0, len as int);
                    ids[len] = id;
                    assert(ids@.subrange(0, len + 1) =~= prefix.push(id));
                    let r = Bucket::Array { ids, len: len + 1 };
                    proof {
                        r.lemma_view_finite();
                    }
                    r
                } else {
                    let mut v: Vec<u16> = Vec::new();
                    let mut j: usize = 0;
                    while j < ARRAY_SLOTS
                        invariant
                            j <= ARRAY_SLOTS,
                            len == ARRAY_SLOTS,
                            ids@.subrange(0, ARRAY_SLOTS as int).no_duplicates(),
                            !ids@.subrange(0, ARRAY_SLOTS as int).contains(id),
                            strictly_sorted(v@),
                            v@.len() == j,
                            v@.to_set() == ids@.subrange(0, j as int).to_set(),
                        decreases ARRAY_SLOTS - j,
                    {
                        proof {
                            if v@.contains(ids@[j as int]) {
                                assert(v@.to_set().contains(ids@[j as int]));
                                let k = choose|k: int|
                                    0 <= k < j && ids@.subrange(0, j as int)[k] == ids@[j as int];
                                assert(ids@.subrange(0, ARRAY_SLOTS as int)[k] == ids@.subrange(
                                    0,
                                    ARRAY_SLOTS as int,
                                )[j as int]);
                            }
                        }
                        insert_sorted(&mut v, ids[j]);
                        assert(ids@.subrange(0, j + 1) =~= ids@.subrange(0, j as int).push(
                            ids@[j as int],
                        ));
                        j = j + 1;
                    }
                    assert(ids@.subrange(0, ARRAY_SLOTS as int) =~= ids@.subrange(0, len as int));
                    insert_sorted(&mut v, id);
                    let r = Bucket::Vec(v);
                    proof {
                        r.lemma_view_finite();
                    }
                    r
                }
            },
            Bucket::Vec(v) => {
                let mut v = v;
                insert_sorted(&mut v, id);
                if v.len() >= MAX_VEC_LEN {
                    let words = mask_of(&v);
                    let r = Bucket::Mask { words, len: v.len() };
                    proof {
                        lemma_sorted_set_len(v@);
                    }
                    r
                } else {
                    Bucket::Vec(v)
                }
            },
            Bucket::Mask { words, len } => {
                let mut words = words;
                mask_insert(&mut words, id);
                assert(mask_set(words@) =~= self@.insert(id));
                assert(words@.len() <= MAX_MASK_WORDS) by {
                    assert(id / 16 < 4096);
                }
                proof {
                    lemma_u16_set_len(mask_set(words@));
                }
                Bucket::Mask { words, len: len + 1 }
            },
        }
    }

    /// The bucket with `id` taken out, in the representation its new size calls for.
    fn removed(self, id: u16) -> (r: Bucket)
        requires
            self.wf(),
        ensures
            r.wf(),
            r@ == self@.remove(id),
            self.shape_after_remove(&r),
            self.removal_keeps_rest(&r, id),
    {
        proof {
            self.lemma_view_finite();
        }
        match self {
            Bucket::Empty => {
                assert(self@.remove(id) =~= Set::<u16>::empty());
                Bucket::Empty
            },
            Bucket::Array { ids, len } => {
                let ghost prefix = ids@.subrange(0, len as int);
                let mut j: usize = 0;
                while j < len && ids[j] != id
                    invariant
                        j <= len <= ARRAY_SLOTS,
                        prefix == ids@.subrange(0, len as int),
                        forall|i: int| 0 <= i < j ==> ids@[i] != id,
                    decreases len - j,
                {
                    j = j + 1;
                }
                if j == len {
                    assert(self@.remove(id) =~= self@) by {
                        assert(!prefix.contains(id));
                    }
                    return Bucket::Array { ids, len };
                }
                let ghost old_ids = ids@;
                let mut ids = ids;
                let mut k: usize = j;
                while k + 1 < len
                    invariant
                        j <= k < len <= ARRAY_SLOTS,
                        old_ids.len() == ARRAY_SLOTS,
                        ids@.len() == ARRAY_SLOTS,
                        forall|i: int| 0 <= i < j ==> ids@[i] == old_ids[i],
                        forall|i: int| j <= i < k ==> ids@[i] == old_ids[i + 1],
                        forall|i: int| k <= i < ARRAY_SLOTS ==> ids@[i] == old_ids[i],
                    decreases len - k,
                {
                    ids[k] = ids[k + 1];
                    k = k + 1;
                }
                ids[k] = 0;
                let new_len = len - 1;
                let ghost rest = ids@.subrange(0, new_len as int);
                assert(rest =~= prefix.remove(j as int));
                assert(prefix[j as int] == id);
                assert(self@ == prefix.to_set());
                assert(rest.no_duplicates()) by {
                    assert forall|a: int, b: int| 0 <= a < b < rest.len() implies rest[a] != rest[b] by {
                        let pa = if a < j { a } else { a + 1 };
                        let pb = if b < j { b } else { b + 1 };
                        assert(prefix[pa] != prefix[pb]);
                    }
                }
                assert(rest.to_set() =~= self@.remove(id)) by {
                    assert forall|x: u16| rest.contains(x) implies self@.remove(id).contains(x) by {
                        let i = choose|i: int| 0 <= i < rest.len() && rest[i] == x;
                        if i < j {
                            assert(prefix[i] == x);
                            assert(prefix[i] != prefix[j as int]);
                        } else {
                            assert(prefix[i + 1] == x);
                            assert(prefix[i + 1] != prefix[j as int]);
                        }
                    }
                    assert forall|x: u16| self@.remove(id).contains(x) implies rest.contains(x) by {
                        let i = choose|i: int| 0 <= i < prefix.len() && prefix[i] == x;
                        if i < j {
                            assert(rest[i] == x);
                        } else {
                            assert(rest[i - 1] == x);
                        }
                    }
                }
                assert(k == new_len);
                assert forall|i: int| new_len <= i < ARRAY_SLOTS implies ids@[i] == 0 by {
                    if i > k {
                        assert(ids@[i] == old_ids[i]);
                        assert(old_ids[i] == 0);
                    }
                }
                if new_len == 0 {
                    assert(rest.to_set() =~= Set::<u16>::empty());
                    assert(prefix.contains(id));
                    Bucket::Empty
                } else {
                    let r = Bucket::Array { ids, len: new_len };
                    proof {
                        r.lemma_view_finite();
                        assert(prefix.contains(id));
                        assert(self.slots() == prefix);
                        assert(r.slots() == rest);
                        assert(self.slots()[j as int] == id && r.slots() == self.slots().remove(
                            j as int,
                        ));
                    }
                    r
                }
            },
            Bucket::Vec(v) => {
                match find_sorted(&v, id) {
                    None => {
                        assert(self@.remove(id) =~= self@);
                        Bucket::Vec(v)
                    },
                    Some(i) => {
                        if v.len() == 1 {
                            assert(self@.remove(id) =~= Set::<u16>::empty()) by {
                                assert forall|x: u16| self@.contains(x) implies x == id by {
                                    let k = choose|k: int| 0 <= k < v@.len() && v@[k] == x;
                                }
                            }
                            Bucket::Empty
                        } else {
                            let ghost before = v@;
                            let mut v = v;
                            v.remove(i);
                            assert(v@.to_set() =~= self@.remove(id)) by {
                                assert forall|x: u16| v@.contains(x) implies self@.remove(
                                    id,
                                ).contains(x) by {
                                    let k = choose|k: int| 0 <= k < v@.len() && v@[k] == x;
                                    if k < i {
                                        assert(before[k] == x);
                                    } else {
                                        assert(before[k + 1] == x);
                                    }
                                }
                                assert forall|x: u16| self@.remove(id).contains(x) implies v@.contains(
                                    x,
                                ) by {
                                    let k = choose|k: int| 0 <= k < before.len() && before[k] == x;
                                    if k < i {
                                        assert(v@[k] == x);
                                    } else {
                                        assert(v@[k - 1] == x);
                                    }
                                }
                            }
                            let r = Bucket::Vec(v);
                            proof {
                                r.lemma_view_finite();
                            }
                            r
                        }
                    },
                }
            },
            Bucket::Mask { words, len } => {
                if !mask_has(&words, id) {
                    assert(self@.remove(id) =~= self@);
                    return Bucket::Mask { words, len };
                }
                let mut words = words;
                mask_remove(&mut words, id);
                assert(mask_set(words@) =~= self@.remove(id));
                let new_len = len - 1;
                if new_len < MAX_VEC_LEN {
                    let v = mask_ids(&words);
                    assert(v@.to_set() =~= mask_set(words@));
                    let r = Bucket::Vec(v);
                    proof {
                        lemma_sorted_set_len(v@);
                    }
                    r
                } else {
                    Bucket::Mask { words, len: new_len }
                }
            },
        }
    }

    /// Adds `id`, which must not be present yet.
    pub fn append(&mut self, id: u16)
        requires
            old(self).wf(),
            !old(self)@.contains(id),
        ensures
            final(self).wf(),
            final(self)@ == old(self)@.insert(id),
            old(self).shape_after_append(final(self)),
            old(self).has_growth_shape() ==> final(self).has_growth_shape(),
    {
        let mut b = Bucket::Empty;
        std::mem::swap(self, &mut b);
        *self = b.appended(id);
    }

    /// Takes `id` out; nothing happens when it is absent.
    pub fn remove(&mut self, id: u16)
        requires
            old(self).wf(),
        ensures
            final(self).wf(),
            final(self)@ == old(self)@.remove(id),
            old(self).shape_after_remove(final(self)),
            old(self).removal_keeps_rest(final(self), id),
    {
        let mut b = Bucket::Empty;
        std::mem::swap(self, &mut b);
        *self = b.removed(id);
    }

    pub fn contains(&self, id: u16) -> (r: bool)
        requires
            self.wf(),
        ensures
            r == self@.contains(id),
    {
        match self {
            Bucket::Empty => false,
            Bucket::Array { ids, len } => {
                let mut j: usize = 0;
                while j < *len
                    invariant
                        j <= *len <= ARRAY_SLOTS,
                        self@ == ids@.subrange(0, *len as int).to_set(),
                        forall|i: int| 0 <= i < j ==> ids@[i] != id,
                    decreases *len - j,
                {
                    if ids[j] == id {
                        assert(ids@.subrange(0, *len as int)[j as int] == id);
                        assert(ids@.subrange(0, *len as int).contains(id));
                        return true;
                    }
                    j = j + 1;
                }
                assert(!ids@.subrange(0, *len as int).contains(id));
                false
            },
            Bucket::Vec(v) => find_sorted(v, id).is_some(),
            Bucket::Mask { words, .. } => mask_has(words, id),
        }
    }

    /// The number of ids in the bucket.
    pub fn len(&self) -> (r: usize)
        requires
            self.wf(),
        ensures
            r == self@.len(),
    {
        proof {
            self.lemma_view_finite();
        }
        match self {
            Bucket::Empty => 0,
            Bucket::Array { len, .. } => *len,
            Bucket::Vec(v) => v.len(),
            Bucket::Mask { len, .. } => *len,
        }
    }

    /// The ids of the bucket, each once: in slot order for an array, ascending
    /// for a vector or a mask.
    pub fn ids(&self) -> (r: Vec<u16>)
        requires
            self.wf(),
        ensures
            r@.to_set() == self@,
            r@.no_duplicates(),
            r@.len() == self@.len(),
            self is Array ==> r@ == self.slots(),
            !(self is Array) ==> strictly_sorted(r@),
    {
        proof {
            self.lemma_view_finite();
        }
        match self {
            Bucket::Empty => {
                assert(Seq::<u16>::empty().to_set() =~= Set::<u16>::empty());
                Vec::new()
            },
            Bucket::Array { ids, len } => {
                let mut r: Vec<u16> = Vec::new();
                let mut j: usize = 0;
                while j < *len
                    invariant
                        j <= *len <= ARRAY_SLOTS,
                        r@ == ids@.subrange(0, j as int),
                    decreases *len - j,
                {
                    r.push(ids[j]);
                    j = j + 1;
                    assert(r@ =~= ids@.subrange(0, j as int));
                }
                proof {
                    ids@.subrange(0, *len as int).unique_seq_to_set();
                }
                r
            },
            Bucket::Vec(v) => {
                proof {
                    lemma_sorted_no_duplicates(v@);
                }
                v.clone()
            },
            Bucket::Mask { words, .. } => {
                let r = mask_ids(words);
                assert(r@.to_set() =~= self@);
                proof {
                    lemma_sorted_set_len(r@);
                    lemma_sorted_no_duplicates(r@);
                }
                r
            },
        }
    }
}

/// A bucket holds no id exactly when it is the empty variant: every sequence of
/// appends and removals that takes out each id it put in ends in `Empty`.
pub proof fn lemma_no_ids_is_empty(b: Bucket)
    requires
        b.wf(),
    ensures
        b@.len() == 0 <==> b is Empty,
        b@ == Set::<u16>::empty() <==> b is Empty,
{
    b.lemma_view_finite();
    if b@ == Set::<u16>::empty() {
        assert(b@.len() == 0);
    }
    if b@.len() == 0 {
        assert(b@ =~= Set::<u16>::empty());
    }
}

/// A bucket built by appends alone (`new` has the growth shape and `append`
/// keeps it) has the variant its size calls for: 0 ids empty, 1 to 15 the
/// array, 16 to 511 the vector, 512 and more the mask.
pub proof fn lemma_growth_shape_by_size(b: Bucket)
    requires
        b.wf(),
        b.has_growth_shape(),
    ensures
        b@.len() == 0 <==> b is Empty,
        1 <= b@.len() <= ARRAY_SLOTS <==> b is Array,
        ARRAY_SLOTS < b@.len() < MAX_VEC_LEN <==> b is Vec,
        MAX_VEC_LEN <= b@.len() <==> b is Mask,
{
    b.lemma_view_finite();
}

} // verus!
