//! Insertion sort: each element is inserted before the first strictly larger
//! element of the already-sorted prefix.

use vstd::prelude::*;
use crate::seq_facts::lemma_insert_to_multiset;
use crate::seq_facts::sorted;

verus! {

broadcast use vstd::seq_lib::group_to_multiset_ensures;

/// Position of the first element strictly larger than `x`, or `acc.len()`.
fn find_insert_pos(acc: &Vec<u64>, x: u64) -> (pos: usize)
    requires
        sorted(acc@),
    ensures
        pos <= acc.len(),
        forall|i: int| 0 <= i < pos ==> acc@[i] <= x,
        forall|i: int| pos <= i < acc@.len() ==> acc@[i] > x,
{
    let n: usize = acc.len();
    let mut i: usize = 0;
    while i < n
        invariant
            i <= n,
            n == acc.len(),
            sorted(acc@),
            forall|k: int| 0 <= k < i ==> acc@[k] <= x,
        decreases n - i,
    {
        if acc[i] > x {
            assert(forall|k: int| i <= k < acc@.len() ==> acc@[k] >= acc@[i as int]);
            return i;
        }
        i += 1;
    }
    i
}

/// Returns a sorted rearrangement of `input`.
pub fn insertion_sort(input: Vec<u64>) -> (r: Vec<u64>)
    ensures
        sorted(r@),
        r@.to_multiset() == input@.to_multiset(),
        r@.len() == input@.len(),
{
    let n: usize = input.len();
    let mut acc: Vec<u64> = Vec::new();
    let mut idx: usize = 0;
    while idx < n
        invariant
            idx <= n,
            n == input.len(),
            sorted(acc@),
            acc@.to_multiset() == input@.take(idx as int).to_multiset(),
            acc@.len() == idx,
        decreases n - idx,
    {
        let x = input[idx];
        let pos = find_insert_pos(&acc, x);
        let ghost acc0 = acc@;
        acc.insert(pos, x);
        proof {
            lemma_insert_to_multiset(acc0, pos as int, x);
            assert(input@.take(idx + 1) =~= input@.take(idx as int).push(x));
            assert forall|i: int, j: int| 0 <= i <= j < acc@.len() implies acc@[i] <= acc@[j] by {
                if i < pos {
                    assert(acc@[i] == acc0[i]);
                } else if i == pos {
                    assert(acc@[i] == x);
                } else {
                    assert(acc@[i] == acc0[i - 1]);
                }
            }
        }
        idx += 1;
    }
    proof {
        assert(input@.take(n as int) =~= input@);
    }
    acc
}

} // verus!
