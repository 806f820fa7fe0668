//! The conflict ledger: which resources are currently held, and by whom.
//!
//! Write-held resources are kept in a `bit_set::BitSet` indexed by internal
//! resource id; read-held resources are reference counts in a `Vec<u8>`.
//! `try_obtain_resources` either acquires every resource of a task or none.

use vstd::prelude::*;

use crate::counting::{lemma_occ_take_le, lemma_occ_take_step, occ};

verus! {

/// A set of internal resource ids, backed by a `bit_set::BitSet`, which
/// Verus cannot look into; its contents are named by `bitset_view`.
#[verifier::external_body]
pub struct IdSet {
    inner: bit_set::BitSet,
}

/// The ids held by `s`.
pub uninterp spec fn bitset_view(s: IdSet) -> Set<usize>;

/// Relies on bit_set::BitSet::with_capacity: the returned set has no
/// element; the capacity only pre-sizes the backing storage.
#[verifier::external_body]
pub fn bitset_with_capacity(nbits: usize) -> (s: IdSet)
    ensures
        bitset_view(s) == Set::<usize>::empty(),
{
    IdSet { inner: bit_set::BitSet::with_capacity(nbits) }
}

/// Relies on bit_set::BitSet::contains: true exactly when `value` is in
/// the set.
#[verifier::external_body]
pub fn bitset_contains(s: &IdSet, value: usize) -> (r: bool)
    ensures
        r == bitset_view(*s).contains(value),
{
    s.inner.contains(value)
}

/// Relies on bit_set::BitSet::insert: adds `value` to the set, growing the
/// backing storage as needed, and reports whether it was absent.
#[verifier::external_body]
pub fn bitset_insert(s: &mut IdSet, value: usize) -> (r: bool)
    ensures
        bitset_view(*final(s)) == bitset_view(*old(s)).insert(value),
        r == !bitset_view(*old(s)).contains(value),
{
    s.inner.insert(value)
}

/// Relies on bit_set::BitSet::remove: takes `value` out of the set and
/// reports whether it was present.
#[verifier::external_body]
pub fn bitset_remove(s: &mut IdSet, value: usize) -> (r: bool)
    ensures
        bitset_view(*final(s)) == bitset_view(*old(s)).remove(value),
        r == bitset_view(*old(s)).contains(value),
{
    s.inner.remove(value)
}

/// Relies on bit_set::BitSet::is_empty: true exactly when no bit is set.
#[verifier::external_body]
pub fn bitset_is_empty(s: &IdSet) -> (r: bool)
    ensures
        r <==> (forall|x: usize| !bitset_view(*s).contains(x)),
{
    s.inner.is_empty()
}

/// The write bits after a release: exactly the previously held ids that
/// the released list does not name.
pub open spec fn writes_after_release(pre: Set<usize>, post: Set<usize>, writes: Seq<usize>) -> bool {
    forall|x: usize| #[trigger] post.contains(x) <==> pre.contains(x) && occ(writes, x as int) == 0
}

/// A task whose read list is `reads` and whose write list is `writes` may
/// acquire all of its resources at once: no resource it touches is
/// write-held, no resource it writes is read-held, and no read counter
/// would run over its `u8` range.
pub open spec fn can_acquire(
    reads: Seq<usize>,
    writes: Seq<usize>,
    reads_held: Seq<u8>,
    writes_held: Set<usize>,
) -> bool {
    &&& forall|j: int| 0 <= j < reads.len() ==> !writes_held.contains(#[trigger] reads[j])
    &&& forall|j: int| 0 <= j < writes.len() ==> !writes_held.contains(#[trigger] writes[j])
    &&& forall|j: int| 0 <= j < writes.len() ==> reads_held[(#[trigger] writes[j]) as int] == 0
    &&& forall|j: int|
        0 <= j < reads.len() ==> reads_held[(#[trigger] reads[j]) as int] + occ(reads, reads[j] as int)
            <= 255
}

/// Attempts to acquire resources for a task, returning `Err` if there was
/// a conflict and `Ok` if successful.  Either every resource is acquired
/// (each read counter rises by the resource's multiplicity in `reads`, and
/// every written resource becomes write-held) or the ledger is unchanged.
#[verifier::loop_isolation(false)]
pub fn try_obtain_resources(
    reads: &Vec<usize>,
    writes: &Vec<usize>,
    reads_held: &mut Vec<u8>,
    writes_held: &mut IdSet,
) -> (r: Result<(), ()>)
    requires
        forall|j: int| 0 <= j < reads@.len() ==> #[trigger] reads@[j] < old(reads_held)@.len(),
        forall|j: int| 0 <= j < writes@.len() ==> #[trigger] writes@[j] < old(reads_held)@.len(),
    ensures
        final(reads_held)@.len() == old(reads_held)@.len(),
        r is Ok <==> can_acquire(
            reads@,
            writes@,
            old(reads_held)@,
            bitset_view(*old(writes_held)),
        ),
        r is Ok ==> forall|i: int|
            0 <= i < old(reads_held)@.len() ==> #[trigger] final(reads_held)@[i] == old(
                reads_held,
            )@[i] + occ(reads@, i),
        r is Ok ==> forall|x: usize|
            bitset_view(*final(writes_held)).contains(x) <==> bitset_view(
                *old(writes_held),
            ).contains(x) || occ(writes@, x as int) > 0,
        r is Err ==> final(reads_held)@ == old(reads_held)@ && *final(writes_held) == *old(
            writes_held,
        ),
{
    let ghost held0 = old(reads_held)@;
    let ghost wview0 = bitset_view(*old(writes_held));

    // No resource the task touches may be write-held.
    let mut j: usize = 0;
    while j < reads.len()
        invariant
            j <= reads@.len(),
            forall|k: int| 0 <= k < j ==> !wview0.contains(#[trigger] reads@[k]),
        decreases reads@.len() - j,
    {
        if bitset_contains(writes_held, reads[j]) {
            return Err(());
        }
        j += 1;
    }
    let mut j: usize = 0;
    while j < writes.len()
        invariant
            j <= writes@.len(),
            forall|k: int| 0 <= k < j ==> !wview0.contains(#[trigger] writes@[k]),
            forall|k: int| 0 <= k < j ==> held0[(#[trigger] writes@[k]) as int] == 0,
        decreases writes@.len() - j,
    {
        if bitset_contains(writes_held, writes[j]) {
            return Err(());
        }
        if reads_held[writes[j]] > 0 {
            return Err(());
        }
        j += 1;
    }

    // Raise the read counters, one occurrence at a time.  If a counter
    // would run over, roll the raises back and report a conflict.
    let mut j: usize = 0;
    while j < reads.len()
        invariant
            j <= reads@.len(),
            reads_held@.len() == held0.len(),
            forall|i: int|
                0 <= i < held0.len() ==> #[trigger] reads_held@[i] == held0[i] + occ(
                    reads@.take(j as int),
                    i,
                ),
        decreases reads@.len() - j,
    {
        let r = reads[j];
        let cur = reads_held[r];
        if cur == 255 {
            // The counter for `r` would run over: the acquisition fails.
            proof {
                lemma_occ_take_step(reads@, j as int, r as int);
                lemma_occ_take_le(reads@, j as int + 1, r as int);
                assert(held0[r as int] + occ(reads@, r as int) > 255);
            }
            // Roll back the raises already made.
            let mut t: usize = j;
            while t > 0
                invariant
                    t <= j,
                    reads_held@.len() == held0.len(),
                    forall|i: int|
                        0 <= i < held0.len() ==> #[trigger] reads_held@[i] == held0[i] + occ(
                            reads@.take(t as int),
                            i,
                        ),
                decreases t,
            {
                t -= 1;
                let r2 = reads[t];
                proof {
                    lemma_occ_take_step(reads@, t as int, r2 as int);
                }
                let cur2 = reads_held[r2];
                reads_held[r2] = cur2 - 1;
                proof {
                    assert forall|i: int| 0 <= i < held0.len() implies #[trigger] reads_held@[i]
                        == held0[i] + occ(reads@.take(t as int), i) by {
                        lemma_occ_take_step(reads@, t as int, i);
                    }
                }
            }
            proof {
                assert(reads@.take(0) =~= Seq::<usize>::empty());
                assert(reads_held@ =~= held0);
            }
            return Err(());
        }
        reads_held[r] = cur + 1;
        proof {
            assert forall|i: int| 0 <= i < held0.len() implies #[trigger] reads_held@[i] == held0[
                i
            ] + occ(reads@.take(j as int + 1), i) by {
                lemma_occ_take_step(reads@, j as int, i);
            }
        }
        j += 1;
    }
    proof {
        assert(reads@.take(reads@.len() as int) =~= reads@);
        // Every read counter now fits in a `u8`, so no counter ran over.
        assert forall|k: int| 0 <= k < reads@.len() implies held0[(#[trigger] reads@[k]) as int]
            + occ(reads@, reads@[k] as int) <= 255 by {
            assert(reads_held@[reads@[k] as int] == held0[reads@[k] as int] + occ(
                reads@,
                reads@[k] as int,
            ));
        }
    }

    // Mark the written resources as write-held.
    let mut j: usize = 0;
    while j < writes.len()
        invariant
            j <= writes@.len(),
            reads_held@.len() == held0.len(),
            forall|i: int|
                0 <= i < held0.len() ==> #[trigger] reads_held@[i] == held0[i] + occ(reads@, i),
            forall|x: usize|
                #[trigger] bitset_view(*writes_held).contains(x) <==> wview0.contains(x) || occ(
                    writes@.take(j as int),
                    x as int,
                ) > 0,
        decreases writes@.len() - j,
    {
        let w = writes[j];
        let ghost wprev = bitset_view(*writes_held);
        bitset_insert(writes_held, w);
        proof {
            assert(bitset_view(*writes_held) == wprev.insert(w));
            assert forall|x: usize| #[trigger] bitset_view(*writes_held).contains(x) == (
            wview0.contains(x) || occ(writes@.take(j as int + 1), x as int) > 0) by {
                lemma_occ_take_step(writes@, j as int, x as int);
                assert(wprev.contains(x) == (wview0.contains(x) || occ(writes@.take(j as int), x as int)
                    > 0));
                assert(bitset_view(*writes_held).contains(x) == (x == w || wprev.contains(x)));
            }
        }
        j += 1;
    }
    proof {
        assert(writes@.take(writes@.len() as int) =~= writes@);
    }
    Ok(())
}

/// Releases resources that were acquired with the given lists: each read
/// counter falls by the resource's multiplicity in `reads`, and every
/// written resource stops being write-held.
#[verifier::loop_isolation(false)]
pub fn release_obtained_resources(
    reads: &Vec<usize>,
    writes: &Vec<usize>,
    reads_held: &mut Vec<u8>,
    writes_held: &mut IdSet,
)
    requires
        forall|j: int| 0 <= j < reads@.len() ==> #[trigger] reads@[j] < old(reads_held)@.len(),
        forall|j: int| 0 <= j < writes@.len() ==> #[trigger] writes@[j] < old(reads_held)@.len(),
        forall|i: int|
            0 <= i < old(reads_held)@.len() ==> occ(reads@, i) <= #[trigger] old(reads_held)@[i],
    ensures
        final(reads_held)@.len() == old(reads_held)@.len(),
        forall|i: int|
            0 <= i < old(reads_held)@.len() ==> #[trigger] final(reads_held)@[i] == old(
                reads_held,
            )@[i] - occ(reads@, i),
        writes_after_release(
            bitset_view(*old(writes_held)),
            bitset_view(*final(writes_held)),
            writes@,
        ),
{
    let ghost held0 = old(reads_held)@;
    let ghost wview0 = bitset_view(*old(writes_held));

    // Lower the read counters, starting from the full multiset and taking
    // one occurrence away at a time.
    let mut t: usize = reads.len();
    proof {
        assert(reads@.take(reads@.len() as int) =~= reads@);
    }
    while t > 0
        invariant
            t <= reads@.len(),
            reads_held@.len() == held0.len(),
            forall|i: int|
                0 <= i < held0.len() ==> #[trigger] reads_held@[i] + occ(reads@, i) == held0[i]
                    + occ(reads@.take(t as int), i),
        decreases t,
    {
        t -= 1;
        let r = reads[t];
        proof {
            lemma_occ_take_step(reads@, t as int, r as int);
            lemma_occ_take_le(reads@, t as int + 1, r as int);
        }
        let cur = reads_held[r];
        reads_held[r] = cur - 1;
        proof {
            assert forall|i: int| 0 <= i < held0.len() implies #[trigger] reads_held@[i] + occ(
                reads@,
                i,
            ) == held0[i] + occ(reads@.take(t as int), i) by {
                lemma_occ_take_step(reads@, t as int, i);
            }
        }
    }
    proof {
        assert(reads@.take(0) =~= Seq::<usize>::empty());
    }

    // Clear the write bits.
    let mut j: usize = 0;
    while j < writes.len()
        invariant
            j <= writes@.len(),
            reads_held@.len() == held0.len(),
            forall|i: int|
                0 <= i < held0.len() ==> #[trigger] reads_held@[i] == held0[i] - occ(reads@, i),
            forall|x: usize|
                #[trigger] bitset_view(*writes_held).contains(x) <==> wview0.contains(x) && occ(
                    writes@.take(j as int),
                    x as int,
                ) == 0,
        decreases writes@.len() - j,
    {
        let w = writes[j];
        let ghost wprev = bitset_view(*writes_held);
        bitset_remove(writes_held, w);
        proof {
            assert(bitset_view(*writes_held) == wprev.remove(w));
            assert forall|x: usize| #[trigger] bitset_view(*writes_held).contains(x) == (
            wview0.contains(x) && occ(writes@.take(j as int + 1), x as int) == 0) by {
                lemma_occ_take_step(writes@, j as int, x as int);
                assert(wprev.contains(x) == (wview0.contains(x) && occ(writes@.take(j as int), x as int)
                    == 0));
                assert(bitset_view(*writes_held).contains(x) == (x != w && wprev.contains(x)));
            }
        }
        j += 1;
    }
    proof {
        assert(writes@.take(writes@.len() as int) =~= writes@);
    }
}

} // verus!
