//! In-place heap sort: build a max-heap, then repeatedly swap the root behind
//! the shrinking heap prefix and repair the heap downwards.

use vstd::prelude::*;
use crate::seq_facts::lemma_multiset_bound;
use crate::seq_facts::lemma_swap_to_multiset;
use crate::seq_facts::sorted;

verus! {

/// Index of the parent of heap slot `c`.
pub open spec fn par(c: int) -> int {
    (c - 1) / 2
}

/// Every parent-child pair inside `[0, size)` whose parent lies at or above
/// `start` obeys the max-heap order.
pub open spec fn heap_from(s: Seq<u64>, size: int, start: int) -> bool {
    forall|c: int|
        #![trigger s[c], s[par(c)]]
        1 <= c < size && par(c) >= start ==> s[c] <= s[par(c)]
}

/// Max-heap order on the prefix `[0, size)`.
pub open spec fn heap_le(s: Seq<u64>, size: int) -> bool {
    heap_from(s, size, 0)
}

/// `heap_from` with the edges out of slot `j` exempted; when `j` lies below
/// `start`, the children of `j` are still bounded by `j`'s parent.
pub open spec fn heap_seg(s: Seq<u64>, size: int, start: int, j: int) -> bool {
    &&& forall|c: int|
        #![trigger s[c], s[par(c)]]
        1 <= c < size && par(c) >= start && par(c) != j ==> s[c] <= s[par(c)]
    &&& (j > start ==> forall|c: int| 1 <= c < size && par(c) == j ==> #[trigger] s[c] <= s[par(j)])
}

/// In a max-heap prefix, the root bounds every slot.
proof fn lemma_root_max(s: Seq<u64>, size: int, i: int)
    requires
        heap_le(s, size),
        size <= s.len(),
        0 <= i < size,
    ensures
        s[i] <= s[0],
    decreases i,
{
    if i > 0 {
        assert(0 <= par(i) < i);
        lemma_root_max(s, size, par(i));
    }
}

/// Sift the element at `index` downwards until the heap order on
/// `[0, size)` is restored from `index` on.  Slots outside `[index, size)`
/// are left untouched and the prefix keeps its elements.
#[verifier::rlimit(60)]
fn repair_heap(lst: &mut Vec<u64>, index: usize, size: usize)
    requires
        index < size <= old(lst).len(),
        heap_seg(old(lst)@, size as int, index as int, index as int),
    ensures
        final(lst)@.len() == old(lst)@.len(),
        forall|i: int|
            0 <= i < old(lst)@.len() && !(index <= i < size) ==> final(lst)@[i] == old(lst)@[i],
        final(lst)@.to_multiset() == old(lst)@.to_multiset(),
        final(lst)@.subrange(0, size as int).to_multiset() == old(lst)@.subrange(
            0,
            size as int,
        ).to_multiset(),
        heap_from(final(lst)@, size as int, index as int),
{
    let mut j: usize = index;
    loop
        invariant_except_break
            index <= j < size <= lst@.len(),
            lst@.len() == old(lst)@.len(),
            forall|i: int|
                0 <= i < old(lst)@.len() && !(index <= i < size) ==> lst@[i] == old(lst)@[i],
            lst@.to_multiset() == old(lst)@.to_multiset(),
            lst@.subrange(0, size as int).to_multiset() == old(lst)@.subrange(
                0,
                size as int,
            ).to_multiset(),
            heap_seg(lst@, size as int, index as int, j as int),
        ensures
            lst@.len() == old(lst)@.len(),
            forall|i: int|
                0 <= i < old(lst)@.len() && !(index <= i < size) ==> lst@[i] == old(lst)@[i],
            lst@.to_multiset() == old(lst)@.to_multiset(),
            lst@.subrange(0, size as int).to_multiset() == old(lst)@.subrange(
                0,
                size as int,
            ).to_multiset(),
            heap_from(lst@, size as int, index as int),
        decreases size - j,
    {
        if j >= size / 2 {
            // `j` has no child inside the heap prefix.
            assert forall|c: int| 1 <= c < size && par(c) == j implies lst@[c] <= lst@[par(c)] by {
                assert(c == 2 * (j as int) + 1 || c == 2 * (j as int) + 2);
            }
            break ;
        }
        let left: usize = 2 * j + 1;
        let right: usize = 2 * j + 2;
        assert(left < size);
        let mut max: usize = j;
        if lst[left] > lst[max] {
            max = left;
        }
        if right < size && lst[right] > lst[max] {
            max = right;
        }
        assert(par(left as int) == j as int);
        assert(right < size ==> par(right as int) == j as int);
        if max == j {
            assert forall|c: int| 1 <= c < size && par(c) == j implies lst@[c] <= lst@[par(c)] by {
                assert(c == 2 * (j as int) + 1 || c == 2 * (j as int) + 2);
            }
            break ;
        }
        let ghost s0 = lst@;
        let vj = lst[j];
        let vm = lst[max];
        lst[j] = vm;
        lst[max] = vj;
        proof {
            lemma_swap_to_multiset(s0, j as int, max as int);
            assert(lst@ =~= s0.update(j as int, s0[max as int]).update(max as int, s0[j as int]));
            assert(lst@.subrange(0, size as int).to_multiset() == s0.subrange(
                0,
                size as int,
            ).to_multiset()) by {
                assert(lst@.subrange(0, size as int) =~= s0.subrange(0, size as int).update(
                    j as int,
                    s0[max as int],
                ).update(max as int, s0[j as int]));
                lemma_swap_to_multiset(s0.subrange(0, size as int), j as int, max as int);
            }
            let sj = j as int;
            let sm = max as int;
            assert forall|c: int|
                1 <= c < size && par(c) >= index && par(c) != sm implies #[trigger] lst@[c] <= lst@[
                par(c)] by {
                if par(c) == sj {
                    assert(c == 2 * sj + 1 || c == 2 * sj + 2);
                } else if c == sj {
                    assert(sj > index);
                    assert(s0[sm] <= s0[par(sj)]);
                } else {
                    assert(lst@[c] == s0[c] && lst@[par(c)] == s0[par(c)]);
                }
            }
            assert forall|c: int| 1 <= c < size && par(c) == sm implies #[trigger] lst@[c] <= lst@[
                par(sm)] by {
                assert(c != sj && c != sm);
                assert(s0[c] <= s0[sm]);
            }
        }
        j = max;
    }
}

/// Establish the max-heap order on the whole vector.
fn heapify(lst: &mut Vec<u64>)
    ensures
        final(lst)@.len() == old(lst)@.len(),
        final(lst)@.to_multiset() == old(lst)@.to_multiset(),
        heap_le(final(lst)@, final(lst)@.len() as int),
{
    let n: usize = lst.len();
    let mut index: usize = n / 2;
    proof {
        assert(lst@.subrange(0, n as int) =~= lst@);
    }
    while index > 0
        invariant
            index <= n,
            n == lst@.len(),
            lst@.to_multiset() == old(lst)@.to_multiset(),
            heap_from(lst@, n as int, index as int),
        decreases index,
    {
        index -= 1;
        let ghost s0 = lst@;
        assert(heap_seg(lst@, n as int, index as int, index as int));
        repair_heap(lst, index, n);
        proof {
            assert(lst@.subrange(0, n as int) =~= lst@);
            assert(s0.subrange(0, n as int) =~= s0);
        }
    }
}

/// Swap the max-heap root behind the prefix `[0, index)` and repair the
/// remaining heap.  The extracted root bounds everything left in the prefix.
#[verifier::rlimit(60)]
fn extract_root(lst: &mut Vec<u64>, index: usize)
    requires
        1 <= index < old(lst).len(),
        heap_le(old(lst)@, index + 1),
    ensures
        final(lst)@.len() == old(lst)@.len(),
        final(lst)@.to_multiset() == old(lst)@.to_multiset(),
        forall|i: int| index < i < old(lst)@.len() ==> final(lst)@[i] == old(lst)@[i],
        final(lst)@[index as int] == old(lst)@[0],
        forall|i: int| 0 <= i < index ==> final(lst)@[i] <= final(lst)@[index as int],
        heap_le(final(lst)@, index as int),
{
    let ghost s0 = lst@;
    let n: usize = lst.len();
    proof {
        lemma_root_max(s0, index + 1, 0);
    }
    let v0 = lst[0];
    let vi = lst[index];
    lst[0] = vi;
    lst[index] = v0;
    proof {
        lemma_swap_to_multiset(s0, 0, index as int);
        assert(lst@ =~= s0.update(0, s0[index as int]).update(index as int, s0[0]));
        assert forall|i: int| 0 <= i < index implies lst@[i] <= lst@[index as int] by {
            lemma_root_max(s0, index + 1, index as int);
            assert(lst@[index as int] == s0[0]);
            if i > 0 {
                lemma_root_max(s0, index + 1, i);
                assert(lst@[i] == s0[i]);
            } else {
                assert(lst@[0] == s0[index as int]);
            }
        }
    }
    if index >= 2 {
        let ghost s1 = lst@;
        proof {
            assert(heap_seg(lst@, index as int, 0, 0));
        }
        repair_heap(lst, 0, index);
        proof {
            assert forall|i: int| 0 <= i < index implies lst@[i] <= lst@[index as int] by {
                lemma_multiset_bound(
                    s1.subrange(0, index as int),
                    lst@.subrange(0, index as int),
                    s1[index as int],
                );
                assert(lst@.subrange(0, index as int)[i] == lst@[i]);
            }
        }
    }
}

/// Sorts the vector in place.
pub fn heap_sort(lst: &mut Vec<u64>)
    ensures
        final(lst)@.len() == old(lst)@.len(),
        final(lst)@.to_multiset() == old(lst)@.to_multiset(),
        sorted(final(lst)@),
{
    let n: usize = lst.len();
    if n <= 1 {
        return ;
    }
    heapify(lst);
    let mut index: usize = n - 1;
    while index >= 1
        invariant
            1 <= index + 1 <= n,
            n == lst@.len(),
            lst@.to_multiset() == old(lst)@.to_multiset(),
            heap_le(lst@, index + 1),
            forall|i: int, j: int| index < i <= j < n ==> lst@[i] <= lst@[j],
            forall|i: int, j: int| 0 <= i <= index < j < n ==> lst@[i] <= lst@[j],
        decreases index,
    {
        let ghost s0 = lst@;
        extract_root(lst, index);
        proof {
            assert forall|i: int, j: int| 0 <= i <= index - 1 < j < n implies lst@[i] <= lst@[j] by {
                assert(lst@[i] <= lst@[index as int]);
                if j > index {
                    assert(lst@[j] == s0[j]);
                    assert(s0[0] <= s0[j]);
                }
            }
        }
        index -= 1;
    }
    proof {
        assert forall|i: int, j: int| 0 <= i <= j < n implies lst@[i] <= lst@[j] by {
            if i <= 0 < j {
                assert(lst@[0] <= lst@[j]);
            }
        }
    }
}

} // verus!
