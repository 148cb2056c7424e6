//! Sums of integer weights over finite sets of indices.

use vstd::prelude::*;

verus! {

/// The sum of `w(k)` over all `k` in the finite set `s`.
pub open spec fn fsum(s: Set<usize>, w: spec_fn(usize) -> int) -> int
    decreases s.len(),
    when s.finite()
{
    if s.len() == 0 {
        0
    } else {
        let k = s.choose();
        w(k) + fsum(s.remove(k), w)
    }
}

/// Removing any element splits its weight off the sum.
pub proof fn lemma_fsum_remove(s: Set<usize>, w: spec_fn(usize) -> int, k: usize)
    requires
        s.finite(),
        s.contains(k),
    ensures
        fsum(s, w) == w(k) + fsum(s.remove(k), w),
    decreases s.len(),
{
    let c = s.choose();
    if c != k {
        lemma_fsum_remove(s.remove(c), w, k);
        lemma_fsum_remove(s.remove(k), w, c);
        assert(s.remove(c).remove(k) =~= s.remove(k).remove(c));
    }
}

/// Inserting a fresh element adds its weight to the sum.
pub proof fn lemma_fsum_insert(s: Set<usize>, w: spec_fn(usize) -> int, k: usize)
    requires
        s.finite(),
        !s.contains(k),
    ensures
        fsum(s.insert(k), w) == w(k) + fsum(s, w),
{
    lemma_fsum_remove(s.insert(k), w, k);
    assert(s.insert(k).remove(k) =~= s);
}

/// The sum of the empty set is zero.
pub proof fn lemma_fsum_empty(w: spec_fn(usize) -> int)
    ensures
        fsum(Set::<usize>::empty(), w) == 0,
{
}

/// Weights that agree on the set give the same sum.
pub proof fn lemma_fsum_congr(s: Set<usize>, w1: spec_fn(usize) -> int, w2: spec_fn(usize) -> int)
    requires
        s.finite(),
        forall|k: usize| s.contains(k) ==> w1(k) == w2(k),
    ensures
        fsum(s, w1) == fsum(s, w2),
    decreases s.len(),
{
    if s.len() > 0 {
        let k = s.choose();
        lemma_fsum_congr(s.remove(k), w1, w2);
    }
}

/// Pointwise smaller weights give a smaller sum.
pub proof fn lemma_fsum_mono(s: Set<usize>, w1: spec_fn(usize) -> int, w2: spec_fn(usize) -> int)
    requires
        s.finite(),
        forall|k: usize| s.contains(k) ==> w1(k) <= w2(k),
    ensures
        fsum(s, w1) <= fsum(s, w2),
    decreases s.len(),
{
    if s.len() > 0 {
        let k = s.choose();
        lemma_fsum_mono(s.remove(k), w1, w2);
    }
}

/// Non-negative weights give a non-negative sum.
pub proof fn lemma_fsum_nonneg(s: Set<usize>, w: spec_fn(usize) -> int)
    requires
        s.finite(),
        forall|k: usize| s.contains(k) ==> w(k) >= 0,
    ensures
        fsum(s, w) >= 0,
{
    lemma_fsum_mono(s, |k: usize| 0int, w);
    lemma_fsum_zero(s);
}

/// The zero weight sums to zero.
pub proof fn lemma_fsum_zero(s: Set<usize>)
    requires
        s.finite(),
    ensures
        fsum(s, |k: usize| 0int) == 0,
    decreases s.len(),
{
    if s.len() > 0 {
        let k = s.choose();
        lemma_fsum_zero(s.remove(k));
    }
}

/// The sum over a disjoint union is the sum of the sums.
pub proof fn lemma_fsum_union(a: Set<usize>, b: Set<usize>, w: spec_fn(usize) -> int)
    requires
        a.finite(),
        b.finite(),
        a.disjoint(b),
    ensures
        fsum(a + b, w) == fsum(a, w) + fsum(b, w),
    decreases a.len(),
{
    if a.len() == 0 {
        assert(a + b =~= b);
    } else {
        let k = a.choose();
        lemma_fsum_union(a.remove(k), b, w);
        lemma_fsum_remove(a + b, w, k);
        assert((a + b).remove(k) =~= a.remove(k) + b);
    }
}

/// A sum of non-negative weights bounds each weight of the set.
pub proof fn lemma_fsum_ge_elem(s: Set<usize>, w: spec_fn(usize) -> int, k: usize)
    requires
        s.finite(),
        s.contains(k),
        forall|j: usize| s.contains(j) ==> w(j) >= 0,
    ensures
        fsum(s, w) >= w(k),
{
    lemma_fsum_remove(s, w, k);
    lemma_fsum_nonneg(s.remove(k), w);
}

/// A sum of non-negative weights is zero only when every weight is zero.
pub proof fn lemma_fsum_zero_elems(s: Set<usize>, w: spec_fn(usize) -> int)
    requires
        s.finite(),
        forall|j: usize| s.contains(j) ==> w(j) >= 0,
        fsum(s, w) == 0,
    ensures
        forall|j: usize| s.contains(j) ==> w(j) == 0,
{
    assert forall|j: usize| s.contains(j) implies w(j) == 0 by {
        lemma_fsum_remove(s, w, j);
        lemma_fsum_nonneg(s.remove(j), w);
    }
}

} // verus!
