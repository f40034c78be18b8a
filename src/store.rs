//! Records of the external store: an external id, the average components and
//! the coefficients, kept there as 240 bytes of little-endian `i16`.
use vstd::prelude::*;
use vstd::string::StringSliceAdditionalSpecFns;
use crate::codec::{normalize_coefs, normalized, NUM_COEFS};

verus! {

/// Bytes of a stored coefficient list.
pub const BLOB_LEN: usize = 240;

/// One image of the store.
#[derive(Debug)]
pub struct ImageData {
    pub id: i64,
    /// The average Y, I and Q components, each as the bits of an IEEE-754 double.
    pub avgl: (u64, u64, u64),
    pub sig: Vec<i16>,
}

/// Which layout the store's table has: `V1` carries a leading row id before
/// the external id (its external id column is `post_id`), `V2` starts with it
/// (`id`).
#[derive(Clone, Copy, Debug, PartialEq, Eq, Structural)]
pub enum SqlSchema {
    V1,
    V2,
}

/// Whether `p` occurs in `s`.
pub open spec fn has_substring(s: Seq<u8>, p: Seq<u8>) -> bool {
    exists|i: int| 0 <= i && i + p.len() <= s.len() && #[trigger] s.subrange(i, i + p.len()) == p
}

/// `post_id`
pub open spec fn post_id_bytes() -> Seq<u8> {
    seq![112u8, 111u8, 115u8, 116u8, 95u8, 105u8, 100u8]
}

fn matches_at(s: &[u8], p: &[u8], i: usize) -> (r: bool)
    requires
        i + p@.len() <= s@.len(),
    ensures
        r == (s@.subrange(i as int, i + p@.len()) == p@),
{
    let n = s.len();
    let mut k: usize = 0;
    while k < p.len()
        invariant
            n == s@.len(),
            i + p@.len() <= s@.len(),
            k <= p@.len(),
            forall|t: int| 0 <= t < k ==> s@[i + t] == p@[t],
        decreases p@.len() - k,
    {
        if s[i + k] != p[k] {
            assert(s@.subrange(i as int, i + p@.len())[k as int] != p@[k as int]);
            return false;
        }
        k = k + 1;
    }
    assert(s@.subrange(i as int, i + p@.len()) =~= p@);
    true
}

/// Whether `p` occurs in `s`.
fn contains_bytes(s: &[u8], p: &[u8]) -> (r: bool)
    ensures
        r == has_substring(s@, p@),
{
    if p.len() > s.len() {
        return false;
    }
    let last = s.len() - p.len();
    let mut i: usize = 0;
    loop
        invariant
            i <= last,
            last + p@.len() == s@.len(),
            forall|j: int| 0 <= j < i ==> #[trigger] s@.subrange(j, j + p@.len()) != p@,
        decreases last - i,
    {
        if matches_at(s, p, i) {
            return true;
        }
        if i == last {
            return false;
        }
        i = i + 1;
    }
}

impl SqlSchema {
    /// The layout of the table from the statement that created it: one with a
    /// `post_id` column is `V1`.
    pub fn from_table_sql(sql: &str) -> (r: SqlSchema)
        ensures
            r == if has_substring(sql.spec_bytes(), post_id_bytes()) {
                SqlSchema::V1
            } else {
                SqlSchema::V2
            },
    {
        let pattern: [u8; 7] = [112u8, 111u8, 115u8, 116u8, 95u8, 105u8, 100u8];
        assert(pattern@ =~= post_id_bytes());
        if contains_bytes(sql.as_bytes(), pattern.as_slice()) {
            SqlSchema::V1
        } else {
            SqlSchema::V2
        }
    }

    /// The column that holds the external id.
    pub fn id_column(self) -> (r: &'static str)
        ensures
            self == SqlSchema::V1 ==> r@ == "post_id"@,
            self == SqlSchema::V2 ==> r@ == "id"@,
    {
        match self {
            SqlSchema::V1 => "post_id",
            SqlSchema::V2 => "id",
        }
    }

    /// Columns that come before the external id in a row.
    pub fn skipped_columns(self) -> (r: usize)
        ensures
            r == if self == SqlSchema::V1 {
                1usize
            } else {
                0usize
            },
    {
        match self {
            SqlSchema::V1 => 1,
            SqlSchema::V2 => 0,
        }
    }
}

/// The `i16` whose little-endian bytes are `lo`, `hi`.
pub open spec fn le_i16(lo: u8, hi: u8) -> i16 {
    (lo as int + 256 * hi as int) as u16 as i16
}

/// The coefficients written in a blob, in the order written.
pub open spec fn blob_coefs(b: Seq<u8>) -> Seq<i16> {
    Seq::new((b.len() / 2) as nat, |j: int| le_i16(b[2 * j], b[2 * j + 1]))
}

/// The blob of a coefficient list.
pub open spec fn coefs_blob(c: Seq<i16>) -> Seq<u8> {
    Seq::new(2 * c.len(), |i: int| if i % 2 == 0 {
        ((c[i / 2] as u16) % 256) as u8
    } else {
        ((c[i / 2] as u16) / 256) as u8
    })
}

/// Reads a stored coefficient list: each color's coefficients come out in
/// ascending order. `None` when the blob is not 240 bytes long.
pub fn decode_sig_blob(b: &[u8]) -> (r: Option<Vec<i16>>)
    ensures
        r is Some <==> b@.len() == BLOB_LEN,
        r matches Some(c) ==> c@ == normalized(blob_coefs(b@)),
{
    if b.len() != BLOB_LEN {
        return None;
    }
    let mut c: Vec<i16> = Vec::new();
    let mut j: usize = 0;
    while j < NUM_COEFS
        invariant
            b@.len() == BLOB_LEN,
            j <= NUM_COEFS,
            c@ == blob_coefs(b@).subrange(0, j as int),
        decreases NUM_COEFS - j,
    {
        let lo = b[2 * j];
        let hi = b[2 * j + 1];
        c.push((lo as u16 + 256 * hi as u16) as i16);
        j = j + 1;
        assert(c@ =~= blob_coefs(b@).subrange(0, j as int));
    }
    assert(c@ =~= blob_coefs(b@));
    Some(normalize_coefs(&c))
}

/// The stored form of a coefficient list.
pub fn encode_sig_blob(c: &Vec<i16>) -> (r: Vec<u8>)
    requires
        c@.len() <= NUM_COEFS,
    ensures
        r@ == coefs_blob(c@),
        blob_coefs(r@) == c@,
{
    let mut r: Vec<u8> = Vec::new();
    let mut j: usize = 0;
    while j < c.len()
        invariant
            c@.len() <= NUM_COEFS,
            j <= c@.len(),
            r@ == coefs_blob(c@.subrange(0, j as int)),
        decreases c@.len() - j,
    {
        let u = c[j] as u16;
        r.push((u % 256) as u8);
        r.push((u / 256) as u8);
        j = j + 1;
        assert(r@ =~= coefs_blob(c@.subrange(0, j as int)));
    }
    assert(c@.subrange(0, j as int) =~= c@);
    assert forall|k: int| 0 <= k < c@.len() implies #[trigger] blob_coefs(r@)[k] == c@[k] by {
        let u = c@[k] as u16;
        assert(r@[2 * k] == (u % 256) as u8);
        assert(r@[2 * k + 1] == (u / 256) as u8);
        assert((((u % 256) as u8) as int + 256 * ((u / 256) as u8) as int) == u as int);
        let v = c@[k];
        assert((u as i16) == v) by (bit_vector)
            requires
                u == v as u16,
        ;
    }
    assert(blob_coefs(r@) =~= c@);
    r
}

} // verus!
