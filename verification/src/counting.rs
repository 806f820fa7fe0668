//! Occurrence counts over sequences of resource ids.
//!
//! The conflict ledger counts, per resource, how many in-flight readers
//! hold it.  A task's read list may name the same resource several times
//! (a stage's list is the concatenation of its systems' lists), so the
//! ledger arithmetic is stated with multiplicities.

use vstd::prelude::*;

verus! {

/// Number of occurrences of `r` in `s`.
pub open spec fn occ(s: Seq<usize>, r: int) -> nat
    decreases s.len(),
{
    if s.len() == 0 {
        0
    } else {
        occ(s.drop_last(), r) + if s.last() == r {
            1nat
        } else {
            0nat
        }
    }
}

/// A prefix never holds more occurrences than the whole sequence.
pub proof fn lemma_occ_take_le(s: Seq<usize>, j: int, r: int)
    requires
        0 <= j <= s.len(),
    ensures
        occ(s.take(j), r) <= occ(s, r),
    decreases s.len() - j,
{
    if j == s.len() {
        assert(s.take(j) =~= s);
    } else {
        lemma_occ_take_le(s, j + 1, r);
        assert(s.take(j + 1).drop_last() =~= s.take(j));
        assert(s.take(j + 1).last() == s[j]);
    }
}

/// Taking one more element adds exactly its own occurrence.
pub proof fn lemma_occ_take_step(s: Seq<usize>, j: int, x: int)
    requires
        0 <= j < s.len(),
    ensures
        occ(s.take(j + 1), x) == occ(s.take(j), x) + if s[j] == x {
            1nat
        } else {
            0nat
        },
{
    assert(s.take(j + 1).drop_last() =~= s.take(j));
    assert(s.take(j + 1).last() == s[j]);
}

/// The sum of the entries of `s`.
pub open spec fn sum_of(s: Seq<usize>) -> nat
    decreases s.len(),
{
    if s.len() == 0 {
        0
    } else {
        sum_of(s.drop_last()) + s.last() as nat
    }
}

/// Taking one more entry adds exactly that entry to the sum.
pub proof fn lemma_sum_take_step(s: Seq<usize>, k: int)
    requires
        0 <= k < s.len(),
    ensures
        sum_of(s.take(k + 1)) == sum_of(s.take(k)) + s[k],
{
    assert(s.take(k + 1).drop_last() =~= s.take(k));
    assert(s.take(k + 1).last() == s[k]);
}

/// A prefix sum never exceeds the whole sum.
pub proof fn lemma_sum_take_le(s: Seq<usize>, k: int)
    requires
        0 <= k <= s.len(),
    ensures
        sum_of(s.take(k)) <= sum_of(s),
    decreases s.len() - k,
{
    if k == s.len() {
        assert(s.take(k) =~= s);
    } else {
        lemma_sum_take_le(s, k + 1);
        lemma_sum_take_step(s, k);
    }
}

/// A positive count exhibits a position where the element stands.
pub proof fn lemma_occ_pos(s: Seq<usize>, r: int)
    requires
        occ(s, r) > 0,
    ensures
        exists|j: int| 0 <= j < s.len() && s[j] == r,
    decreases s.len(),
{
    if s.last() == r {
        assert(s[s.len() - 1] == r);
    } else {
        lemma_occ_pos(s.drop_last(), r);
        let j = choose|j: int| 0 <= j < s.drop_last().len() && s.drop_last()[j] == r;
        assert(s[j] == r);
    }
}

} // verus!
