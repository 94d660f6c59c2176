//! Quicksort: Lomuto partition around the last element of the range,
//! recursing on both sides of the placed pivot.

use vstd::prelude::*;
use crate::seq_facts::lemma_multiset_bound;
use crate::seq_facts::lemma_multiset_lower_bound;
use crate::seq_facts::lemma_swap_to_multiset;
use crate::seq_facts::sorted;

verus! {

/// Non-decreasing order over the inclusive index range `[lo, hi]`.
pub open spec fn sorted_between(s: Seq<u64>, lo: int, hi: int) -> bool {
    forall|i: int, j: int| lo <= i <= j <= hi && 0 <= i && j < s.len() ==> s[i] <= s[j]
}

/// Swapping inside a window leaves the window's multiset unchanged.
proof fn lemma_swap_subrange_multiset(s: Seq<u64>, lo: int, hi: int, a: int, b: int)
    requires
        0 <= lo <= a < hi <= s.len(),
        lo <= b < hi,
    ensures
        s.update(a, s[b]).update(b, s[a]).subrange(lo, hi).to_multiset() == s.subrange(
            lo,
            hi,
        ).to_multiset(),
{
    let t = s.subrange(lo, hi);
    assert(s.update(a, s[b]).update(b, s[a]).subrange(lo, hi) =~= t.update(a - lo, t[b - lo]).update(
        b - lo,
        t[a - lo],
    ));
    lemma_swap_to_multiset(t, a - lo, b - lo);
}

/// Exchanges two slots.
fn swap_at(lst: &mut Vec<u64>, a: usize, b: usize)
    requires
        (a as int) < old(lst)@.len(),
        (b as int) < old(lst)@.len(),
    ensures
        final(lst)@ == old(lst)@.update(a as int, old(lst)@[b as int]).update(
            b as int,
            old(lst)@[a as int],
        ),
        final(lst)@.len() == old(lst)@.len(),
{
    let va = lst[a];
    let vb = lst[b];
    lst[a] = vb;
    lst[b] = va;
    proof {
        assert(lst@ =~= old(lst)@.update(a as int, old(lst)@[b as int]).update(
            b as int,
            old(lst)@[a as int],
        ));
    }
}

/// Sorts `lst[start..=end]` in place; the rest of the vector and the
/// window's multiset of elements stay untouched.
#[verifier::rlimit(100)]
fn quick_sort_recursive(lst: &mut Vec<u64>, start: usize, end: usize)
    requires
        start <= end,
        (end as int) < old(lst)@.len(),
    ensures
        final(lst)@.len() == old(lst)@.len(),
        forall|x: int|
            0 <= x < old(lst)@.len() && !(start <= x <= end) ==> final(lst)@[x] == old(lst)@[x],
        final(lst)@.subrange(start as int, end + 1).to_multiset() == old(lst)@.subrange(
            start as int,
            end + 1,
        ).to_multiset(),
        sorted_between(final(lst)@, start as int, end as int),
    decreases end - start,
{
    if start == end {
        proof {
            assert(lst@.subrange(start as int, end + 1) =~= old(lst)@.subrange(
                start as int,
                end + 1,
            ));
        }
        return ;
    }
    let ghost s0 = lst@;
    let pivot = lst[end];
    let mut i: usize = start;
    let mut k: usize = start;
    while k < end
        invariant
            start <= i <= k <= end,
            (end as int) < lst@.len(),
            lst@.len() == s0.len(),
            lst@[end as int] == pivot,
            forall|x: int| 0 <= x < s0.len() && !(start <= x <= end) ==> lst@[x] == s0[x],
            lst@.subrange(start as int, end + 1).to_multiset() == s0.subrange(
                start as int,
                end + 1,
            ).to_multiset(),
            forall|x: int| start <= x < i ==> lst@[x] <= pivot,
            forall|x: int| i <= x < k ==> lst@[x] > pivot,
        decreases end - k,
    {
        if lst[k] <= pivot {
            let ghost s1 = lst@;
            swap_at(lst, i, k);
            proof {
                lemma_swap_subrange_multiset(s1, start as int, end + 1, i as int, k as int);
            }
            i += 1;
        }
        k += 1;
    }
    let ghost s2 = lst@;
    swap_at(lst, i, end);
    proof {
        lemma_swap_subrange_multiset(s2, start as int, end + 1, i as int, end as int);
        assert(lst@[i as int] == pivot);
        assert forall|x: int| start <= x < i implies lst@[x] <= pivot by {
            assert(lst@[x] == s2[x]);
        }
        assert forall|x: int| i < x <= end implies lst@[x] > pivot by {
            if x < end {
                assert(lst@[x] == s2[x]);
            } else {
                assert(lst@[end as int] == s2[i as int]);
            }
        }
    }
    let ghost s3 = lst@;
    if i > start {
        quick_sort_recursive(lst, start, i - 1);
        proof {
            lemma_multiset_bound(
                s3.subrange(start as int, i as int),
                lst@.subrange(start as int, i as int),
                pivot,
            );
            assert forall|x: int| start <= x < i implies lst@[x] <= pivot by {
                assert(lst@.subrange(start as int, i as int)[x - start] == lst@[x]);
                assert(s3.subrange(start as int, i as int)[x - start] == s3[x]);
            }
        }
    }
    let ghost s4 = lst@;
    if i < end {
        quick_sort_recursive(lst, i + 1, end);
        proof {
            lemma_multiset_lower_bound(
                s4.subrange(i + 1, end + 1),
                lst@.subrange(i + 1, end + 1),
                pivot,
            );
            assert forall|x: int| i < x <= end implies lst@[x] > pivot by {
                assert(lst@.subrange(i + 1, end + 1)[x - i - 1] == lst@[x]);
                assert(s4.subrange(i + 1, end + 1)[x - i - 1] == s4[x]);
            }
        }
    }
    proof {
        assert(lst@.subrange(start as int, end + 1).to_multiset() == s0.subrange(
            start as int,
            end + 1,
        ).to_multiset()) by {
            assert(lst@.subrange(start as int, end + 1).to_multiset() == s4.subrange(
                start as int,
                end + 1,
            ).to_multiset()) by {
                lemma_subrange_multiset_split(s4, lst@, start as int, i + 1, end + 1);
            }
            assert(s4.subrange(start as int, end + 1).to_multiset() == s3.subrange(
                start as int,
                end + 1,
            ).to_multiset()) by {
                lemma_subrange_multiset_split_left(s3, s4, start as int, i as int, end + 1);
            }
        }
        assert forall|x: int, y: int|
            start <= x <= y <= end && 0 <= x && y < lst@.len() implies lst@[x] <= lst@[y] by {
            if y < i {
                assert(sorted_between(lst@, start as int, i - 1));
                assert(lst@[x] <= lst@[y]);
            } else if x > i {
                assert(sorted_between(lst@, i + 1, end as int));
            } else if x == i || y == i {
                assert(lst@[i as int] == pivot);
                if x < i {
                    assert(lst@[x] <= pivot);
                }
                if y > i {
                    assert(lst@[y] > pivot);
                }
            } else {
                assert(x < i && y > i);
                assert(lst@[x] <= pivot);
                assert(lst@[y] > pivot);
            }
        }
    }
}

/// A recursion on a sub-window keeps the surrounding window's multiset:
/// the untouched left and right parts are equal and the middle multiset is
/// preserved.
proof fn lemma_subrange_multiset_split(before: Seq<u64>, after: Seq<u64>, lo: int, mid: int, hi: int)
    requires
        0 <= lo <= mid <= hi <= before.len(),
        after.len() == before.len(),
        forall|x: int| lo <= x < mid ==> after[x] == before[x],
        after.subrange(mid, hi).to_multiset() == before.subrange(mid, hi).to_multiset(),
    ensures
        after.subrange(lo, hi).to_multiset() == before.subrange(lo, hi).to_multiset(),
{
    broadcast use vstd::seq_lib::group_to_multiset_ensures;

    assert(before.subrange(lo, hi) =~= before.subrange(lo, mid) + before.subrange(mid, hi));
    assert(after.subrange(lo, hi) =~= after.subrange(lo, mid) + after.subrange(mid, hi));
    assert(after.subrange(lo, mid) =~= before.subrange(lo, mid));
    vstd::seq_lib::lemma_multiset_commutative(before.subrange(lo, mid), before.subrange(mid, hi));
    vstd::seq_lib::lemma_multiset_commutative(after.subrange(lo, mid), after.subrange(mid, hi));
}

/// Mirror image of the split lemma: the recursion touched the left part.
proof fn lemma_subrange_multiset_split_left(
    before: Seq<u64>,
    after: Seq<u64>,
    lo: int,
    mid: int,
    hi: int,
)
    requires
        0 <= lo <= mid <= hi <= before.len(),
        after.len() == before.len(),
        forall|x: int| mid <= x < hi ==> after[x] == before[x],
        after.subrange(lo, mid).to_multiset() == before.subrange(lo, mid).to_multiset(),
    ensures
        after.subrange(lo, hi).to_multiset() == before.subrange(lo, hi).to_multiset(),
{
    broadcast use vstd::seq_lib::group_to_multiset_ensures;

    assert(before.subrange(lo, hi) =~= before.subrange(lo, mid) + before.subrange(mid, hi));
    assert(after.subrange(lo, hi) =~= after.subrange(lo, mid) + after.subrange(mid, hi));
    assert(after.subrange(mid, hi) =~= before.subrange(mid, hi));
    vstd::seq_lib::lemma_multiset_commutative(before.subrange(lo, mid), before.subrange(mid, hi));
    vstd::seq_lib::lemma_multiset_commutative(after.subrange(lo, mid), after.subrange(mid, hi));
}

/// Sorts the vector in place.
pub fn quick_sort(lst: &mut Vec<u64>)
    ensures
        final(lst)@.len() == old(lst)@.len(),
        final(lst)@.to_multiset() == old(lst)@.to_multiset(),
        sorted(final(lst)@),
{
    let len: usize = lst.len();
    if len <= 1 {
        return ;
    }
    quick_sort_recursive(lst, 0, len - 1);
    proof {
        assert(lst@.subrange(0, len as int) =~= lst@);
        assert(old(lst)@.subrange(0, len as int) =~= old(lst)@);
    }
}

} // verus!
