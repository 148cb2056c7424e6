//! Counting the total assignments that extend a partial assignment and satisfy a formula.

use vstd::prelude::*;
use vstd::arithmetic::power2::{pow2, lemma_pow2_unfold, lemma_pow2};
use crate::pseudo_boolean_datastructure::Constraint;

verus! {

/// `a` is a total assignment over the variables of `p` that agrees with every value `p` fixes.
pub open spec fn ext(p: Seq<Option<bool>>, a: Seq<bool>) -> bool {
    &&& a.len() == p.len()
    &&& forall|v: int| 0 <= v < p.len() && (#[trigger] p[v]) is Some ==> a[v] == p[v]->0
}

/// Every constraint holds under `a`.
pub open spec fn holds_all(cs: Seq<Constraint>, a: Seq<bool>) -> bool {
    forall|i: int| 0 <= i < cs.len() ==> (#[trigger] cs[i]).holds(a)
}

/// The number of models of `cs` that extend `p` and begin with `prefix`.
pub open spec fn mc_from(cs: Seq<Constraint>, p: Seq<Option<bool>>, prefix: Seq<bool>) -> nat
    decreases p.len() - prefix.len(),
{
    if prefix.len() >= p.len() {
        if ext(p, prefix) && holds_all(cs, prefix) {
            1
        } else {
            0
        }
    } else {
        mc_from(cs, p, prefix.push(false)) + mc_from(cs, p, prefix.push(true))
    }
}

/// The number of models of `cs` (total assignments of `p.len()` variables) that extend `p`.
pub open spec fn mc(cs: Seq<Constraint>, p: Seq<Option<bool>>) -> nat {
    mc_from(cs, p, Seq::empty())
}

/// The partial assignment of `n` variables that fixes none.
pub open spec fn all_free(n: nat) -> Seq<Option<bool>> {
    Seq::new(n, |i: int| None::<bool>)
}

/// The number of models of `cs` over `n` variables.
pub open spec fn model_count(cs: Seq<Constraint>, n: nat) -> nat {
    mc(cs, all_free(n))
}

/// The number of variables that `p` leaves free.
pub open spec fn free_count(p: Seq<Option<bool>>) -> nat
    decreases p.len(),
{
    if p.len() == 0 {
        0
    } else {
        free_count(p.drop_last()) + if p.last() is None { 1nat } else { 0nat }
    }
}

/// Every model that extends `p` gives variable `v` the value `s`.
pub open spec fn implied(cs: Seq<Constraint>, p: Seq<Option<bool>>, v: int, s: bool) -> bool {
    forall|a: Seq<bool>| ext(p, a) && holds_all(cs, a) ==> #[trigger] a[v] == s
}

proof fn lemma_mc_from_split(cs: Seq<Constraint>, p: Seq<Option<bool>>, v: int, prefix: Seq<bool>)
    requires
        0 <= v < p.len(),
        p[v] is None,
        prefix.len() <= p.len(),
    ensures
        mc_from(cs, p, prefix) == mc_from(cs, p.update(v, Some(false)), prefix)
            + mc_from(cs, p.update(v, Some(true)), prefix),
    decreases p.len() - prefix.len(),
{
    let p0 = p.update(v, Some(false));
    let p1 = p.update(v, Some(true));
    if prefix.len() >= p.len() {
        if ext(p, prefix) {
            assert(p0[v] == Some(false));
            assert(p1[v] == Some(true));
            if prefix[v] {
                assert(ext(p1, prefix));
                assert(!ext(p0, prefix));
            } else {
                assert(ext(p0, prefix));
                assert(!ext(p1, prefix));
            }
        } else {
            let w = choose|w: int| 0 <= w < p.len() && (#[trigger] p[w]) is Some && prefix[w] != p[w]->0;
            assert(p0[w] == p[w]);
            assert(p1[w] == p[w]);
        }
    } else {
        lemma_mc_from_split(cs, p, v, prefix.push(false));
        lemma_mc_from_split(cs, p, v, prefix.push(true));
    }
}

/// Splitting on a free variable: the models extending `p` are those with the variable false plus
/// those with it true.
pub proof fn lemma_mc_split(cs: Seq<Constraint>, p: Seq<Option<bool>>, v: int)
    requires
        0 <= v < p.len(),
        p[v] is None,
    ensures
        mc(cs, p) == mc(cs, p.update(v, Some(false))) + mc(cs, p.update(v, Some(true))),
{
    lemma_mc_from_split(cs, p, v, Seq::empty());
}

proof fn lemma_mc_from_implied(cs: Seq<Constraint>, p: Seq<Option<bool>>, v: int, s: bool, prefix: Seq<bool>)
    requires
        0 <= v < p.len(),
        p[v] is None || p[v] == Some(s),
        implied(cs, p, v, s),
        prefix.len() <= p.len(),
    ensures
        mc_from(cs, p, prefix) == mc_from(cs, p.update(v, Some(s)), prefix),
    decreases p.len() - prefix.len(),
{
    let q = p.update(v, Some(s));
    if prefix.len() >= p.len() {
        if ext(p, prefix) && holds_all(cs, prefix) {
            assert(prefix[v] == s);
            assert(ext(q, prefix));
        }
        if ext(q, prefix) {
            assert forall|w: int| 0 <= w < p.len() && (#[trigger] p[w]) is Some implies prefix[w] == p[w]->0 by {
                assert(q[w] is Some);
            }
            assert(ext(p, prefix));
        }
    } else {
        lemma_mc_from_implied(cs, p, v, s, prefix.push(false));
        lemma_mc_from_implied(cs, p, v, s, prefix.push(true));
    }
}

/// Fixing a variable to the value every model extending `p` gives it does not change the count.
pub proof fn lemma_mc_implied(cs: Seq<Constraint>, p: Seq<Option<bool>>, v: int, s: bool)
    requires
        0 <= v < p.len(),
        p[v] is None || p[v] == Some(s),
        implied(cs, p, v, s),
    ensures
        mc(cs, p) == mc(cs, p.update(v, Some(s))),
{
    lemma_mc_from_implied(cs, p, v, s, Seq::empty());
}

proof fn lemma_mc_from_zero(cs: Seq<Constraint>, p: Seq<Option<bool>>, prefix: Seq<bool>)
    requires
        forall|a: Seq<bool>| ext(p, a) ==> !holds_all(cs, a),
        prefix.len() <= p.len(),
    ensures
        mc_from(cs, p, prefix) == 0,
    decreases p.len() - prefix.len(),
{
    if prefix.len() < p.len() {
        lemma_mc_from_zero(cs, p, prefix.push(false));
        lemma_mc_from_zero(cs, p, prefix.push(true));
    }
}

/// When no extension of `p` is a model, the count is zero.
pub proof fn lemma_mc_zero(cs: Seq<Constraint>, p: Seq<Option<bool>>)
    requires
        forall|a: Seq<bool>| ext(p, a) ==> !holds_all(cs, a),
    ensures
        mc(cs, p) == 0,
{
    lemma_mc_from_zero(cs, p, Seq::empty());
}

proof fn lemma_mc_from_pos(cs: Seq<Constraint>, p: Seq<Option<bool>>, prefix: Seq<bool>, a: Seq<bool>)
    requires
        ext(p, a),
        holds_all(cs, a),
        prefix.len() <= p.len(),
        prefix == a.take(prefix.len() as int),
    ensures
        mc_from(cs, p, prefix) >= 1,
    decreases p.len() - prefix.len(),
{
    if prefix.len() < p.len() {
        let next = prefix.push(a[prefix.len() as int]);
        assert(next =~= a.take(prefix.len() as int + 1));
        lemma_mc_from_pos(cs, p, next, a);
    } else {
        assert(prefix =~= a);
    }
}

/// When no model extends `p`, no extension of `p` satisfies the constraints.
pub proof fn lemma_mc_zero_no_model(cs: Seq<Constraint>, p: Seq<Option<bool>>, a: Seq<bool>)
    requires
        mc(cs, p) == 0,
        ext(p, a),
    ensures
        !holds_all(cs, a),
{
    if holds_all(cs, a) {
        assert(a.take(0) =~= Seq::<bool>::empty());
        lemma_mc_from_pos(cs, p, Seq::empty(), a);
    }
}

/// Whether `prefix` agrees with `p` on its first `prefix.len()` variables.
pub open spec fn agrees_prefix(p: Seq<Option<bool>>, prefix: Seq<bool>) -> bool {
    forall|v: int| 0 <= v < prefix.len() && (#[trigger] p[v]) is Some ==> prefix[v] == p[v]->0
}

proof fn lemma_free_count_split(p: Seq<Option<bool>>, k: int)
    requires
        0 <= k < p.len(),
    ensures
        free_count(p.skip(k)) == free_count(p.skip(k + 1)) + if p[k] is None { 1nat } else { 0nat },
    decreases p.len() - k,
{
    let s = p.skip(k);
    if k + 1 == p.len() {
        assert(s.drop_last() =~= Seq::<Option<bool>>::empty());
        assert(p.skip(k + 1) =~= Seq::<Option<bool>>::empty());
        assert(s.last() == p[k]);
    } else {
        lemma_free_count_split(p.drop_last(), k);
        assert(p.drop_last().skip(k) =~= s.drop_last());
        assert(p.drop_last().skip(k + 1) =~= p.skip(k + 1).drop_last());
        assert(s.last() == p.skip(k + 1).last());
    }
}

proof fn lemma_mc_from_all(cs: Seq<Constraint>, p: Seq<Option<bool>>, prefix: Seq<bool>)
    requires
        forall|a: Seq<bool>| ext(p, a) ==> holds_all(cs, a),
        prefix.len() <= p.len(),
    ensures
        mc_from(cs, p, prefix) == if agrees_prefix(p, prefix) { pow2(free_count(p.skip(prefix.len() as int))) } else { 0 },
    decreases p.len() - prefix.len(),
{
    let k = prefix.len() as int;
    if prefix.len() >= p.len() {
        assert(p.skip(k) =~= Seq::<Option<bool>>::empty());
        lemma_pow2(0);
        reveal(vstd::arithmetic::power::pow);
        if agrees_prefix(p, prefix) {
            assert(ext(p, prefix));
        } else {
            assert(!ext(p, prefix));
        }
    } else {
        let p0 = prefix.push(false);
        let p1 = prefix.push(true);
        lemma_mc_from_all(cs, p, p0);
        lemma_mc_from_all(cs, p, p1);
        lemma_free_count_split(p, k);
        if agrees_prefix(p, prefix) {
            if p[k] is None {
                assert(agrees_prefix(p, p0));
                assert(agrees_prefix(p, p1));
                lemma_pow2_unfold(free_count(p.skip(k)));
            } else if p[k] == Some(true) {
                assert(!agrees_prefix(p, p0));
                assert(agrees_prefix(p, p1));
            } else {
                assert(agrees_prefix(p, p0));
                assert(!agrees_prefix(p, p1));
            }
        } else {
            let w = choose|w: int| 0 <= w < prefix.len() && (#[trigger] p[w]) is Some && prefix[w] != p[w]->0;
            assert(p0[w] == prefix[w]);
            assert(p1[w] == prefix[w]);
            assert(!agrees_prefix(p, p0));
            assert(!agrees_prefix(p, p1));
        }
    }
}

/// When every extension of `p` is a model, the count is two to the number of free variables.
pub proof fn lemma_mc_all(cs: Seq<Constraint>, p: Seq<Option<bool>>)
    requires
        forall|a: Seq<bool>| ext(p, a) ==> holds_all(cs, a),
    ensures
        mc(cs, p) == pow2(free_count(p)),
{
    lemma_mc_from_all(cs, p, Seq::empty());
    assert(p.skip(0) =~= p);
}

} // verus!
