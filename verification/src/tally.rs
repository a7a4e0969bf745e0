//! Totals the heaps keep books with: the bytes of the allocated blocks, and
//! the bytes the regions span.
use vstd::prelude::*;
use vstd::set::fold::{is_fun_commutative, lemma_finite_set_induct, lemma_fold_empty, lemma_fold_insert};

verus! {

/// The fold step that adds an allocated block's bytes.
spec fn adder(live: Map<int, (int, int)>) -> spec_fn(int, int) -> int {
    |b: int, a: int| b + live[a].0
}

/// The bytes the allocated blocks hold.
pub closed spec fn allocated(live: Map<int, (int, int)>) -> int {
    live.dom().fold(0int, adder(live))
}

/// The bytes the regions' blocks span: each region from its first block to
/// its end marker.
pub open spec fn span_total(regions: Seq<(int, int)>) -> int
    decreases regions.len(),
{
    if regions.len() == 0 {
        0
    } else {
        span_total(regions.drop_last()) + regions.last().1 - regions.last().0
    }
}

/// Adding up the bytes of the blocks in a finite set depends only on the
/// blocks in that set.
proof fn lemma_fold_congruence(s: Set<int>, m1: Map<int, (int, int)>, m2: Map<int, (int, int)>)
    requires
        s.finite(),
        forall|a: int| s.contains(a) ==> m1[a].0 == m2[a].0,
    ensures
        s.fold(0int, adder(m1)) == s.fold(0int, adder(m2)),
{
    let f1 = adder(m1);
    let f2 = adder(m2);
    assert(is_fun_commutative(f1));
    assert(is_fun_commutative(f2));
    let pred = |t: Set<int>| t.subset_of(s) ==> t.fold(0int, f1) == t.fold(0int, f2);
    lemma_fold_empty(0int, f1);
    lemma_fold_empty(0int, f2);
    assert(pred(Set::<int>::empty()));
    assert forall|t: Set<int>, a: int| pred(t) && t.finite() && !t.contains(a) implies #[trigger] pred(t.insert(a)) by {
        if t.insert(a).subset_of(s) {
            assert(t.subset_of(s));
            lemma_fold_insert(t, 0int, f1, a);
            lemma_fold_insert(t, 0int, f2, a);
            assert(t.insert(a).contains(a));
            assert(s.contains(a));
            assert(t.insert(a).fold(0int, f1) == t.fold(0int, f1) + m1[a].0);
            assert(t.insert(a).fold(0int, f2) == t.fold(0int, f2) + m2[a].0);
        }
    }
    lemma_finite_set_induct(s, pred);
}

/// Handing out a block adds its bytes to the allocated bytes.
pub proof fn lemma_allocated_insert(live: Map<int, (int, int)>, at: int, v: (int, int))
    requires
        live.dom().finite(),
        !live.contains_key(at),
    ensures
        allocated(live.insert(at, v)) == allocated(live) + v.0,
        live.insert(at, v).dom().finite(),
{
    let nl = live.insert(at, v);
    assert(nl.dom() == live.dom().insert(at));
    lemma_fold_congruence(live.dom(), nl, live);
    assert(is_fun_commutative(adder(nl)));
    lemma_fold_insert(live.dom(), 0int, adder(nl), at);
}

/// Taking a block back removes its bytes from the allocated bytes.
pub proof fn lemma_allocated_remove(live: Map<int, (int, int)>, at: int)
    requires
        live.dom().finite(),
        live.contains_key(at),
    ensures
        allocated(live.remove(at)) == allocated(live) - live[at].0,
        live.remove(at).dom().finite(),
{
    let rest = live.remove(at);
    lemma_allocated_insert(rest, at, live[at]);
    assert(rest.insert(at, live[at]) == live);
}

/// Nothing allocated holds no bytes.
pub proof fn lemma_allocated_empty()
    ensures
        allocated(Map::<int, (int, int)>::empty()) == 0,
{
    let e = Map::<int, (int, int)>::empty();
    assert(e.dom() == Set::<int>::empty());
    lemma_fold_empty(0int, adder(e));
}

} // verus!
