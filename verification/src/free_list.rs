//! The free list as a mathematical sequence of `(start, size)` nodes, in
//! address order, and what `heap_4`'s operations do to it.
use vstd::prelude::*;

verus! {

/// The sum of the sizes of `s`.
pub open spec fn total(s: Seq<(int, int)>) -> int
    decreases s.len(),
{
    if s.len() == 0 {
        0
    } else {
        total(s.drop_last()) + s.last().1
    }
}

/// The largest size in `s`, or 0 when it is empty.
pub open spec fn largest(s: Seq<(int, int)>) -> int
    decreases s.len(),
{
    if s.len() == 0 {
        0
    } else if largest(s.drop_last()) < s.last().1 {
        s.last().1
    } else {
        largest(s.drop_last())
    }
}

/// How many nodes of `s` have a non-zero size: the free blocks, the end
/// markers between regions left out.
pub open spec fn blocks(s: Seq<(int, int)>) -> int
    decreases s.len(),
{
    if s.len() == 0 {
        0
    } else if s.last().1 != 0 {
        blocks(s.drop_last()) + 1
    } else {
        blocks(s.drop_last())
    }
}

/// The count of a prefix one node longer.
pub proof fn lemma_blocks_take(s: Seq<(int, int)>, i: int)
    requires
        0 <= i < s.len(),
    ensures
        blocks(s.take(i + 1)) == blocks(s.take(i)) + if s[i].1 != 0 { 1int } else { 0int },
        blocks(s.take(i)) <= i,
    decreases i,
{
    assert(s.take(i + 1).drop_last() =~= s.take(i));
    if i > 0 {
        lemma_blocks_take(s, i - 1);
    } else {
        assert(s.take(0) =~= Seq::<(int, int)>::empty());
    }
}

/// The index of the first node at least `size` bytes long: first fit. It is
/// `s.len()` when no node is large enough.
pub open spec fn first_fit(s: Seq<(int, int)>, size: int) -> int
    decreases s.len(),
{
    if s.len() == 0 {
        0
    } else if s[0].1 >= size {
        0
    } else {
        1 + first_fit(s.drop_first(), size)
    }
}

/// The index of the first node that starts at or after `at`: where a block
/// at `at` goes in an address-ordered list.
pub open spec fn position(s: Seq<(int, int)>, at: int) -> int
    decreases s.len(),
{
    if s.len() == 0 {
        0
    } else if s[0].0 >= at {
        0
    } else {
        1 + position(s.drop_first(), at)
    }
}

/// `prvInsertBlockIntoFreeList` on the sequence: put the block `(at, size)`
/// in address order, merging it with the node before it when that node ends
/// exactly at `at`, and with the node after it when the (possibly merged)
/// block ends exactly where that node starts.
pub open spec fn insert_block(s: Seq<(int, int)>, at: int, size: int) -> Seq<(int, int)> {
    let j = position(s, at);
    let with_previous = j > 0 && s[j - 1].0 + s[j - 1].1 == at;
    let start = if with_previous { s[j - 1].0 } else { at };
    let merged = if with_previous { s[j - 1].1 + size } else { size };
    let with_next = j < s.len() && start + merged == s[j].0;
    let grown = if with_next { merged + s[j].1 } else { merged };
    if with_previous {
        if with_next {
            s.update(j - 1, (start, grown)).remove(j)
        } else {
            s.update(j - 1, (start, grown))
        }
    } else {
        if with_next {
            s.update(j, (start, grown))
        } else {
            s.insert(j, (start, grown))
        }
    }
}

/// The total of two sequences one after the other.
pub proof fn lemma_total_append(a: Seq<(int, int)>, b: Seq<(int, int)>)
    ensures
        total(a + b) == total(a) + total(b),
    decreases b.len(),
{
    if b.len() == 0 {
        assert(a + b =~= a);
    } else {
        lemma_total_append(a, b.drop_last());
        assert((a + b).drop_last() =~= a + b.drop_last());
    }
}

/// The total of one node is its size.
pub proof fn lemma_total_single(x: (int, int))
    ensures
        total(seq![x]) == x.1,
{
    assert(seq![x].drop_last() =~= Seq::<(int, int)>::empty());
    assert(total(Seq::<(int, int)>::empty()) == 0);
    assert(seq![x].last() == x);
}

/// Replacing a node changes the total by the difference in size.
pub proof fn lemma_total_update(s: Seq<(int, int)>, i: int, x: (int, int))
    requires
        0 <= i < s.len(),
    ensures
        total(s.update(i, x)) == total(s) - s[i].1 + x.1,
{
    let a = s.subrange(0, i);
    let b = s.subrange(i + 1, s.len() as int);
    assert(s =~= a + seq![s[i]] + b);
    assert(s.update(i, x) =~= a + seq![x] + b);
    lemma_total_append(a + seq![s[i]], b);
    lemma_total_append(a, seq![s[i]]);
    lemma_total_append(a + seq![x], b);
    lemma_total_append(a, seq![x]);
    lemma_total_single(x);
    lemma_total_single(s[i]);
}

/// Inserting a node adds its size to the total.
pub proof fn lemma_total_insert(s: Seq<(int, int)>, i: int, x: (int, int))
    requires
        0 <= i <= s.len(),
    ensures
        total(s.insert(i, x)) == total(s) + x.1,
{
    let a = s.subrange(0, i);
    let b = s.subrange(i, s.len() as int);
    assert(s =~= a + b);
    assert(s.insert(i, x) =~= a + seq![x] + b);
    lemma_total_append(a, b);
    lemma_total_append(a + seq![x], b);
    lemma_total_append(a, seq![x]);
    lemma_total_single(x);
}

/// Removing a node takes its size off the total.
pub proof fn lemma_total_remove(s: Seq<(int, int)>, i: int)
    requires
        0 <= i < s.len(),
    ensures
        total(s.remove(i)) == total(s) - s[i].1,
{
    let a = s.subrange(0, i);
    let b = s.subrange(i + 1, s.len() as int);
    assert(s =~= a + seq![s[i]] + b);
    assert(s.remove(i) =~= a + b);
    lemma_total_append(a + seq![s[i]], b);
    lemma_total_append(a, seq![s[i]]);
    lemma_total_append(a, b);
    lemma_total_single(s[i]);
}

/// Sizes that are not negative add up to at least each of them.
pub proof fn lemma_total_nonneg(s: Seq<(int, int)>)
    requires
        forall|k: int| 0 <= k < s.len() ==> s[k].1 >= 0,
    ensures
        total(s) >= 0,
        forall|k: int| 0 <= k < s.len() ==> s[k].1 <= total(s),
    decreases s.len(),
{
    if s.len() > 0 {
        lemma_total_nonneg(s.drop_last());
        assert forall|k: int| 0 <= k < s.len() implies s[k].1 <= total(s) by {
            if k < s.len() - 1 {
                assert(s.drop_last()[k] == s[k]);
            }
        }
    }
}

/// Nothing before the first fit fits, and the first fit does.
pub proof fn lemma_first_fit(s: Seq<(int, int)>, size: int)
    ensures
        0 <= first_fit(s, size) <= s.len(),
        forall|k: int| 0 <= k < first_fit(s, size) ==> s[k].1 < size,
        first_fit(s, size) < s.len() ==> s[first_fit(s, size)].1 >= size,
    decreases s.len(),
{
    if s.len() > 0 && s[0].1 < size {
        lemma_first_fit(s.drop_first(), size);
        assert forall|k: int| 0 <= k < first_fit(s, size) implies s[k].1 < size by {
            if k > 0 {
                assert(s[k] == s.drop_first()[k - 1]);
            }
        }
    }
}

/// The first fit is the index before which nothing fits and at which something does.
pub proof fn lemma_first_fit_at(s: Seq<(int, int)>, size: int, i: int)
    requires
        0 <= i <= s.len(),
        forall|k: int| 0 <= k < i ==> s[k].1 < size,
        i < s.len() ==> s[i].1 >= size,
    ensures
        first_fit(s, size) == i,
    decreases s.len(),
{
    if s.len() > 0 && i > 0 {
        assert forall|k: int| 0 <= k < i - 1 implies s.drop_first()[k].1 < size by {
            assert(s.drop_first()[k] == s[k + 1]);
        }
        lemma_first_fit_at(s.drop_first(), size, i - 1);
    }
}

/// Everything before the position starts before `at`, and the node at it
/// does not.
pub proof fn lemma_position(s: Seq<(int, int)>, at: int)
    ensures
        0 <= position(s, at) <= s.len(),
        forall|k: int| 0 <= k < position(s, at) ==> s[k].0 < at,
        position(s, at) < s.len() ==> s[position(s, at)].0 >= at,
    decreases s.len(),
{
    if s.len() > 0 && s[0].0 < at {
        lemma_position(s.drop_first(), at);
        assert forall|k: int| 0 <= k < position(s, at) implies s[k].0 < at by {
            if k > 0 {
                assert(s[k] == s.drop_first()[k - 1]);
            }
        }
    }
}

/// The position is the index before which everything starts before `at`
/// and at which nothing does.
pub proof fn lemma_position_at(s: Seq<(int, int)>, at: int, j: int)
    requires
        0 <= j <= s.len(),
        forall|k: int| 0 <= k < j ==> s[k].0 < at,
        j < s.len() ==> s[j].0 >= at,
    ensures
        position(s, at) == j,
    decreases s.len(),
{
    if s.len() > 0 && j > 0 {
        assert forall|k: int| 0 <= k < j - 1 implies s.drop_first()[k].0 < at by {
            assert(s.drop_first()[k] == s[k + 1]);
        }
        lemma_position_at(s.drop_first(), at, j - 1);
    }
}

/// The largest of a prefix one node longer.
pub proof fn lemma_largest_take(s: Seq<(int, int)>, i: int)
    requires
        0 <= i < s.len(),
    ensures
        largest(s.take(i + 1)) == if largest(s.take(i)) < s[i].1 { s[i].1 } else { largest(s.take(i)) },
{
    assert(s.take(i + 1).drop_last() =~= s.take(i));
}

/// The sizes of address-ordered, non-overlapping nodes between `lo` and `hi`
/// add up to no more than the span.
pub proof fn lemma_total_span(s: Seq<(int, int)>, lo: int, hi: int)
    requires
        forall|k: int| 0 <= k < s.len() ==> lo <= #[trigger] s[k].0 && 0 <= s[k].1 && s[k].0 + s[k].1 <= hi,
        forall|a: int, b: int| 0 <= a < b < s.len() ==> (#[trigger] s[a]).0 + s[a].1 <= (#[trigger] s[b]).0,
        lo <= hi,
    ensures
        total(s) <= hi - lo,
    decreases s.len(),
{
    if s.len() > 0 {
        let last = s.last();
        let t = s.drop_last();
        assert forall|k: int| 0 <= k < t.len() implies lo <= #[trigger] t[k].0 && 0 <= t[k].1 && t[k].0 + t[k].1 <= last.0 by {
            assert(t[k] == s[k]);
            assert(s[k].0 + s[k].1 <= s[s.len() - 1].0);
        }
        assert forall|a: int, b: int| 0 <= a < b < t.len() implies (#[trigger] t[a]).0 + t[a].1 <= (#[trigger] t[b]).0 by {
            assert(t[a] == s[a] && t[b] == s[b]);
        }
        assert(lo <= last.0) by {
            assert(s[s.len() - 1] == last);
        }
        lemma_total_span(t, lo, last.0);
    }
}

/// No node ends where the next begins, an end marker (a node of size 0)
/// aside: free blocks that meet have been merged.
pub open spec fn apart(s: Seq<(int, int)>) -> bool {
    forall|i: int, k: int|
        #![trigger s[i], s[k]]
        0 <= i && k == i + 1 && k < s.len() && s[k].1 != 0 ==> s[i].0 + s[i].1 < s[k].0
}

/// Each node ends at or before the next begins, and no size is negative.
pub open spec fn in_order(s: Seq<(int, int)>) -> bool {
    &&& forall|i: int| 0 <= i < s.len() ==> (#[trigger] s[i]).1 >= 0
    &&& forall|i: int, k: int|
        #![trigger s[i], s[k]]
        0 <= i && k == i + 1 && k < s.len() ==> s[i].0 + s[i].1 <= s[k].0
}

/// Handing out node `i` whole, or its front with `size` bytes left behind,
/// keeps the nodes apart.
pub proof fn lemma_apart_taken(s: Seq<(int, int)>, i: int, size: int)
    requires
        apart(s),
        in_order(s),
        0 <= i < s.len(),
        0 < size <= s[i].1,
    ensures
        size < s[i].1 ==> apart(s.update(i, (s[i].0 + size, s[i].1 - size))),
        apart(s.remove(i)),
{
    let u = s.update(i, (s[i].0 + size, s[i].1 - size));
    if size < s[i].1 {
        assert forall|a: int, b: int| #![trigger u[a], u[b]]
            0 <= a && b == a + 1 && b < u.len() && u[b].1 != 0 implies u[a].0 + u[a].1 < u[b].0 by {
            assert(s[a] == s[a] && s[b] == s[b]);
        }
    }
    let r = s.remove(i);
    assert forall|a: int, b: int| #![trigger r[a], r[b]]
        0 <= a && b == a + 1 && b < r.len() && r[b].1 != 0 implies r[a].0 + r[a].1 < r[b].0 by {
        if b < i {
            assert(r[a] == s[a] && r[b] == s[b]);
        } else if a >= i {
            assert(r[a] == s[a + 1] && r[b] == s[b + 1]);
        } else {
            assert(r[a] == s[a] && r[b] == s[i + 1]);
            assert(s[a] == s[a] && s[i] == s[i] && s[i + 1] == s[i + 1]);
        }
    }
}

/// Putting a block back, merged with the nodes it meets, keeps the nodes
/// apart.
pub proof fn lemma_apart_insert(s: Seq<(int, int)>, at: int, size: int)
    requires
        apart(s),
        in_order(s),
        size > 0,
        position(s, at) > 0 ==> s[position(s, at) - 1].0 + s[position(s, at) - 1].1 <= at,
        position(s, at) < s.len() ==> at + size <= s[position(s, at)].0,
    ensures
        apart(insert_block(s, at, size)),
{
    lemma_position(s, at);
    let j = position(s, at);
    let with_previous = j > 0 && s[j - 1].0 + s[j - 1].1 == at;
    let start = if with_previous { s[j - 1].0 } else { at };
    let merged = if with_previous { s[j - 1].1 + size } else { size };
    let with_next = j < s.len() && start + merged == s[j].0;
    let grown = if with_next { merged + s[j].1 } else { merged };
    let t = insert_block(s, at, size);
    if j > 0 {
        assert(s[j - 1] == s[j - 1]);
    }
    if j < s.len() {
        assert(s[j] == s[j]);
    }
    if j > 1 {
        assert(s[j - 2] == s[j - 2]);
    }
    if j + 1 < s.len() {
        assert(s[j + 1] == s[j + 1]);
    }
    assert forall|a: int, b: int| #![trigger t[a], t[b]]
        0 <= a && b == a + 1 && b < t.len() && t[b].1 != 0 implies t[a].0 + t[a].1 < t[b].0 by {
        if with_previous {
            if with_next {
                if b < j - 1 {
                    assert(t[a] == s[a] && t[b] == s[b]);
                } else if b == j - 1 {
                    assert(t[a] == s[a] && t[b] == (start, grown));
                } else if a == j - 1 {
                    assert(t[a] == (start, grown) && t[b] == s[j + 1]);
                } else {
                    assert(t[a] == s[a + 1] && t[b] == s[b + 1]);
                }
            } else {
                if b < j - 1 {
                    assert(t[a] == s[a] && t[b] == s[b]);
                } else if b == j - 1 {
                    assert(t[a] == s[a] && t[b] == (start, grown));
                } else if a == j - 1 {
                    assert(t[a] == (start, grown) && t[b] == s[j]);
                } else {
                    assert(t[a] == s[a] && t[b] == s[b]);
                }
            }
        } else {
            if with_next {
                if b < j {
                    assert(t[a] == s[a] && t[b] == s[b]);
                } else if b == j {
                    assert(t[a] == s[a] && t[b] == (start, grown));
                } else if a == j {
                    assert(t[a] == (start, grown) && t[b] == s[j + 1]);
                } else {
                    assert(t[a] == s[a] && t[b] == s[b]);
                }
            } else {
                if b < j {
                    assert(t[a] == s[a] && t[b] == s[b]);
                } else if b == j {
                    assert(t[a] == s[a] && t[b] == (at, size));
                } else if a == j {
                    assert(t[a] == (at, size) && t[b] == s[j]);
                } else {
                    assert(t[a] == s[a - 1] && t[b] == s[b - 1]);
                }
            }
        }
    }
}

} // verus!
