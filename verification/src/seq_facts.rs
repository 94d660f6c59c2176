//! Facts about `Seq::to_multiset` shared by the sorting modules and the
//! priority queue: inserting, updating or swapping elements of a sequence has
//! the expected effect on the multiset of its elements.

use vstd::prelude::*;

verus! {

broadcast use vstd::seq_lib::group_to_multiset_ensures;

/// Non-decreasing order over a whole sequence.
pub open spec fn sorted(s: Seq<u64>) -> bool {
    forall|i: int, j: int| 0 <= i <= j < s.len() ==> s[i] <= s[j]
}

/// A common upper bound survives any rearrangement of a sequence.
pub proof fn lemma_multiset_bound(s_old: Seq<u64>, s_new: Seq<u64>, b: u64)
    requires
        s_old.to_multiset() == s_new.to_multiset(),
        forall|i: int| 0 <= i < s_old.len() ==> s_old[i] <= b,
    ensures
        forall|i: int| 0 <= i < s_new.len() ==> s_new[i] <= b,
{
    assert forall|i: int| 0 <= i < s_new.len() implies s_new[i] <= b by {
        assert(s_new.contains(s_new[i]));
        assert(s_new.to_multiset().count(s_new[i]) > 0);
        assert(s_old.contains(s_new[i]));
    }
}

/// A common strict lower bound survives any rearrangement of a sequence.
pub proof fn lemma_multiset_lower_bound(s_old: Seq<u64>, s_new: Seq<u64>, b: u64)
    requires
        s_old.to_multiset() == s_new.to_multiset(),
        forall|i: int| 0 <= i < s_old.len() ==> s_old[i] > b,
    ensures
        forall|i: int| 0 <= i < s_new.len() ==> s_new[i] > b,
{
    assert forall|i: int| 0 <= i < s_new.len() implies s_new[i] > b by {
        assert(s_new.contains(s_new[i]));
        assert(s_new.to_multiset().count(s_new[i]) > 0);
        assert(s_old.contains(s_new[i]));
    }
}

/// Inserting an element anywhere in a sequence inserts it into the multiset.
pub proof fn lemma_insert_to_multiset<A>(s: Seq<A>, i: int, x: A)
    requires
        0 <= i <= s.len(),
    ensures
        s.insert(i, x).to_multiset() =~= s.to_multiset().insert(x),
{
    let t = s.insert(i, x);
    assert(t.remove(i) =~= s);
    assert(t[i] == x);
    assert(s.to_multiset() =~= t.to_multiset().remove(x));
    assert(t.contains(x));
    assert(t.to_multiset().count(x) > 0);
    assert forall|y: A| s.to_multiset().insert(x).count(y) == t.to_multiset().count(y) by {
        if y == x {
            assert(s.to_multiset().count(x) == t.to_multiset().count(x) - 1);
        } else {
            assert(s.to_multiset().count(y) == t.to_multiset().count(y));
        }
    }
}

/// Overwriting position `i` removes the old element from the multiset and
/// inserts the new one.
pub proof fn lemma_update_to_multiset<A>(s: Seq<A>, i: int, x: A)
    requires
        0 <= i < s.len(),
    ensures
        s.update(i, x).to_multiset() =~= s.to_multiset().remove(s[i]).insert(x),
{
    let t = s.update(i, x);
    assert(t =~= s.remove(i).insert(i, x));
    lemma_insert_to_multiset(s.remove(i), i, x);
    assert(s.remove(i).to_multiset() =~= s.to_multiset().remove(s[i]));
}

/// Swapping two positions leaves the multiset of elements unchanged.
pub proof fn lemma_swap_to_multiset<A>(s: Seq<A>, i: int, j: int)
    requires
        0 <= i < s.len(),
        0 <= j < s.len(),
    ensures
        s.update(i, s[j]).update(j, s[i]).to_multiset() =~= s.to_multiset(),
{
    if i == j {
        assert(s.update(i, s[j]).update(j, s[i]) =~= s);
    } else {
        let a = s[i];
        let b = s[j];
        let s1 = s.update(i, b);
        let s2 = s1.update(j, a);
        lemma_update_to_multiset(s, i, b);
        lemma_update_to_multiset(s1, j, a);
        assert(s1[j] == b);
        assert(s.to_multiset().count(a) > 0) by {
            assert(s.contains(a));
        }
        assert(s1.to_multiset().count(b) > 0) by {
            assert(s1[j] == b);
            assert(s1.contains(b));
        }
        assert forall|y: A| s2.to_multiset().count(y) == s.to_multiset().count(y) by {
            assert(s2.to_multiset() =~= s.to_multiset().remove(a).insert(b).remove(b).insert(a));
        }
    }
}

} // verus!
