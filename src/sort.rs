//! Ascending order on coefficient values.
use vstd::prelude::*;
use vstd::relations::{sorted_by, total_ordering};

verus! {

broadcast use {vstd::seq_lib::group_to_multiset_ensures, vstd::multiset::group_multiset_axioms};

/// `<=` on coefficient values.
pub open spec fn coef_le() -> spec_fn(i16, i16) -> bool {
    |a: i16, b: i16| a <= b
}

/// `s` in ascending order.
pub open spec fn sorted_coefs(s: Seq<i16>) -> Seq<i16> {
    s.sort_by(coef_le())
}

pub proof fn lemma_coef_le_total()
    ensures
        total_ordering(coef_le()),
{
}

/// An ascending sequence is its own ascending order.
pub proof fn lemma_sorted_coefs_fixed(s: Seq<i16>)
    requires
        sorted_by(s, coef_le()),
    ensures
        sorted_coefs(s) == s,
{
    lemma_coef_le_total();
    s.lemma_sort_by_ensures(coef_le());
    vstd::seq_lib::lemma_sorted_unique(s, sorted_coefs(s), coef_le());
}

/// Sorts coefficient values ascending (insertion sort).
pub fn sort_coefs(v: &mut Vec<i16>)
    ensures
        final(v)@ == sorted_coefs(old(v)@),
{
    let n = v.len();
    let mut i: usize = 0;
    while i < n
        invariant
            n == v@.len(),
            i <= n,
            v@.to_multiset() == old(v)@.to_multiset(),
            forall|a: int, b: int| 0 <= a < b < i ==> v@[a] <= v@[b],
        decreases n - i,
    {
        let mut j: usize = i;
        while j > 0 && v[j - 1] > v[j]
            invariant
                n == v@.len(),
                j <= i < n,
                v@.to_multiset() == old(v)@.to_multiset(),
                forall|a: int, b: int|
                    0 <= a < b <= i && a != j && b != j ==> v@[a] <= v@[b],
                forall|b: int| j < b <= i ==> v@[j as int] <= v@[b],
            decreases j,
        {
            let x = v[j - 1];
            let y = v[j];
            let ghost before = v@;
            v.set(j - 1, y);
            v.set(j, x);
            proof {
                assert(before.update(j - 1, y).to_multiset() == before.to_multiset().insert(y).remove(
                    x,
                ));
                assert(v@ == before.update(j - 1, y).update(j as int, x));
                assert(v@.to_multiset() =~= before.to_multiset());
            }
            j = j - 1;
        }
        i = i + 1;
    }
    proof {
        lemma_coef_le_total();
        old(v)@.lemma_sort_by_ensures(coef_le());
        assert(sorted_by(v@, coef_le()));
        vstd::seq_lib::lemma_sorted_unique(v@, sorted_coefs(old(v)@), coef_le());
    }
}

} // verus!
