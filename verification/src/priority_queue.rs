//! A binary min-heap keyed by `u64`.  Viewed as a multiset of key/value
//! pairs; extraction returns an entry whose key bounds every stored key from
//! below.

use vstd::prelude::*;
use vstd::multiset::Multiset;
use crate::heap_sort::par;
use crate::seq_facts::lemma_insert_to_multiset;
use crate::seq_facts::lemma_swap_to_multiset;
use crate::seq_facts::lemma_update_to_multiset;

verus! {

/// Min-heap order between every parent-child pair of the sequence.
pub open spec fn min_heap<T>(s: Seq<(u64, T)>) -> bool {
    forall|c: int|
        #![trigger s[c], s[par(c)]]
        1 <= c < s.len() ==> s[par(c)].0 <= s[c].0
}

/// Min-heap order with the edges out of slot `j` exempted; the children of
/// `j` still sit above `j`'s own parent.
spec fn min_heap_except_down<T>(s: Seq<(u64, T)>, j: int) -> bool {
    &&& forall|c: int|
        #![trigger s[c], s[par(c)]]
        1 <= c < s.len() && par(c) != j ==> s[par(c)].0 <= s[c].0
    &&& (j >= 1 ==> forall|c: int| 1 <= c < s.len() && par(c) == j ==> s[par(j)].0 <= #[trigger] s[c].0)
}

/// Min-heap order with the edge from `j` up to its parent exempted; the
/// children of `j` still sit above `j`'s own parent.
spec fn min_heap_except_up<T>(s: Seq<(u64, T)>, j: int) -> bool {
    &&& forall|c: int|
        #![trigger s[c], s[par(c)]]
        1 <= c < s.len() && c != j ==> s[par(c)].0 <= s[c].0
    &&& (j >= 1 ==> forall|c: int| 1 <= c < s.len() && par(c) == j ==> s[par(j)].0 <= #[trigger] s[c].0)
}

/// In a min-heap, the root key bounds every slot's key.
proof fn lemma_root_min<T>(s: Seq<(u64, T)>, i: int)
    requires
        min_heap(s),
        0 <= i < s.len(),
    ensures
        s[0].0 <= s[i].0,
    decreases i,
{
    if i > 0 {
        assert(0 <= par(i) < i);
        lemma_root_min(s, par(i));
    }
}

/// A priority queue of values of type `T` with `u64` keys, backed by a
/// binary min-heap.
pub struct PriorityQueue<T: Copy> {
    elems: Vec<(u64, T)>,
}

impl<T: Copy> View for PriorityQueue<T> {
    type V = Multiset<(u64, T)>;

    closed spec fn view(&self) -> Multiset<(u64, T)> {
        self.elems@.to_multiset()
    }
}

impl<T: Copy> PriorityQueue<T> {
    /// The heap order holds; all operations preserve this.
    pub closed spec fn wf(&self) -> bool {
        min_heap(self.elems@)
    }

    /// An empty queue.
    pub fn new() -> (q: PriorityQueue<T>)
        ensures
            q@ == Multiset::<(u64, T)>::empty(),
            q.wf(),
    {
        let q = PriorityQueue { elems: Vec::new() };
        proof {
            broadcast use vstd::seq_lib::group_to_multiset_ensures;

            assert(q.elems@.to_multiset() =~= Multiset::<(u64, T)>::empty());
        }
        q
    }

    /// Number of stored entries.
    pub fn size(&self) -> (n: usize)
        ensures
            n == self@.len(),
    {
        proof {
            broadcast use vstd::seq_lib::group_to_multiset_ensures;

        }
        self.elems.len()
    }

    /// Adds one entry.
    pub fn insert(&mut self, key: u64, value: T)
        requires
            old(self).wf(),
        ensures
            final(self).wf(),
            final(self)@ == old(self)@.insert((key, value)),
    {
        let ghost m0 = self@;
        let ghost s0 = self.elems@;
        self.elems.push((key, value));
        proof {
            broadcast use vstd::seq_lib::group_to_multiset_ensures;

            assert(self.elems@.to_multiset() =~= m0.insert((key, value)));
            assert forall|c: int| 1 <= c < self.elems@.len() && c != s0.len() implies self.elems@[
                par(c)].0 <= self.elems@[c].0 by {
                assert(self.elems@[c] == s0[c]);
                assert(par(c) < c);
                assert(self.elems@[par(c)] == s0[par(c)]);
            }
            assert(min_heap_except_up(self.elems@, s0.len() as int));
        }
        let mut j: usize = self.elems.len() - 1;
        loop
            invariant_except_break
                j < self.elems@.len(),
                min_heap_except_up(self.elems@, j as int),
                self.elems@.to_multiset() == m0.insert((key, value)),
            ensures
                min_heap(self.elems@),
                self.elems@.to_multiset() == m0.insert((key, value)),
            decreases j,
        {
            if j == 0 {
                assert forall|c: int|
                    1 <= c < self.elems@.len() implies self.elems@[par(c)].0 <= self.elems@[c].0 by {
                    assert(c != 0);
                }
                break ;
            }
            let p: usize = (j - 1) / 2;
            assert(p == par(j as int));
            if self.elems[p].0 <= self.elems[j].0 {
                assert forall|c: int|
                    1 <= c < self.elems@.len() implies self.elems@[par(c)].0 <= self.elems@[c].0 by {
                    if c == j {
                    }
                }
                break ;
            }
            let ghost s1 = self.elems@;
            let ej = self.elems[j];
            let ep = self.elems[p];
            self.elems[j] = ep;
            self.elems[p] = ej;
            proof {
                lemma_swap_to_multiset(s1, j as int, p as int);
                assert(self.elems@ =~= s1.update(j as int, s1[p as int]).update(
                    p as int,
                    s1[j as int],
                ));
                let sj = j as int;
                let sp = p as int;
                assert forall|c: int|
                    1 <= c < self.elems@.len() && c != sp implies self.elems@[par(c)].0
                        <= self.elems@[c].0 by {
                    if par(c) == sj {
                        assert(s1[sp].0 <= s1[c].0);
                    } else if par(c) == sp && c != sj {
                        assert(s1[sp].0 <= s1[c].0);
                        assert(s1[sj].0 < s1[sp].0);
                    } else if c == sj {
                        assert(self.elems@[c] == s1[sp]);
                        assert(par(sj) == sp);
                    } else {
                        assert(self.elems@[c] == s1[c]);
                        assert(par(c) != sj && par(c) != sp);
                        assert(self.elems@[par(c)] == s1[par(c)]);
                    }
                }
                if sp >= 1 {
                    assert forall|c: int|
                        1 <= c < self.elems@.len() && par(c) == sp implies self.elems@[par(sp)].0
                            <= self.elems@[c].0 by {
                        assert(self.elems@[par(sp)] == s1[par(sp)]);
                        assert(s1[par(sp)].0 <= s1[sp].0);
                        if c == sj {
                            assert(self.elems@[c].0 == s1[sp].0);
                        } else {
                            assert(self.elems@[c] == s1[c]);
                            assert(s1[sp].0 <= s1[c].0);
                        }
                    }
                }
            }
            j = p;
        }
    }

    /// The entry with the least key, if any, without removing it.
    pub fn get_min(&self) -> (r: Option<(u64, &T)>)
        requires
            self.wf(),
        ensures
            match r {
                Option::None => self@.len() == 0,
                Option::Some((k, v)) => self@.contains((k, *v)) && forall|e: (u64, T)|
                    self@.contains(e) ==> k <= e.0,
            },
    {
        proof {
            broadcast use vstd::seq_lib::group_to_multiset_ensures;

        }
        if self.elems.len() == 0 {
            Option::None
        } else {
            let k = self.elems[0].0;
            let v = &self.elems[0].1;
            proof {
                assert(self.elems@.contains(self.elems@[0]));
                assert forall|e: (u64, T)| self@.contains(e) implies k <= e.0 by {
                    assert(self.elems@.contains(e));
                    let i = choose|i: int| 0 <= i < self.elems@.len() && self.elems@[i] == e;
                    lemma_root_min(self.elems@, i);
                }
            }
            Option::Some((k, v))
        }
    }

    /// Removes and returns an entry with the least key, or `None` when empty.
    pub fn pop(&mut self) -> (r: Option<(u64, T)>)
        requires
            old(self).wf(),
        ensures
            final(self).wf(),
            match r {
                Option::None => old(self)@.len() == 0 && final(self)@ == old(self)@,
                Option::Some(e) => {
                    &&& old(self)@.contains(e)
                    &&& final(self)@ == old(self)@.remove(e)
                    &&& forall|f: (u64, T)| old(self)@.contains(f) ==> e.0 <= f.0
                },
            },
    {
        proof {
            broadcast use vstd::seq_lib::group_to_multiset_ensures;
            broadcast use vstd::multiset::group_multiset_axioms;

        }
        let n: usize = self.elems.len();
        if n == 0 {
            return Option::None;
        }
        let ghost s0 = self.elems@;
        proof {
            assert(self.elems@.contains(self.elems@[0]));
            assert forall|f: (u64, T)| old(self)@.contains(f) implies s0[0].0 <= f.0 by {
                assert(self.elems@.contains(f));
                let i = choose|i: int| 0 <= i < self.elems@.len() && self.elems@[i] == f;
                lemma_root_min(self.elems@, i);
            }
        }
        let root = self.elems.swap_remove(0);
        proof {
            if s0.len() == 1 {
                assert(self.elems@ =~= Seq::<(u64, T)>::empty());
                assert(s0 =~= Seq::<(u64, T)>::empty().push(root));
                assert(self.elems@.to_multiset() =~= s0.to_multiset().remove(root));
            } else {
                let last = s0.last();
                assert(self.elems@ =~= s0.update(0, last).drop_last());
                lemma_update_to_multiset(s0, 0, last);
                assert(s0.update(0, last) =~= self.elems@.push(last));
                assert(s0.update(0, last).to_multiset() == self.elems@.to_multiset().insert(last));
                assert(s0.to_multiset().count(root) > 0);
                assert forall|f: (u64, T)|
                    self.elems@.to_multiset().count(f) == s0.to_multiset().remove(root).count(
                        f,
                    ) by {
                    broadcast use vstd::multiset::group_multiset_axioms;

                    assert(self.elems@.to_multiset().insert(last).count(f) == s0.to_multiset()
                        .remove(root).insert(last).count(f));
                }
                assert(self.elems@.to_multiset() =~= s0.to_multiset().remove(root));
                assert forall|c: int|
                    1 <= c < self.elems@.len() && par(c) != 0 implies self.elems@[par(c)].0
                        <= self.elems@[c].0 by {
                    assert(self.elems@[c] == s0[c]);
                    assert(self.elems@[par(c)] == s0[par(c)]);
                }
                assert(min_heap_except_down(self.elems@, 0));
            }
        }
        if self.elems.len() > 1 {
            sift_down(&mut self.elems);
        }
        Option::Some(root)
    }

    /// Removes an entry with the least key, if any.
    pub fn delete_min(&mut self)
        requires
            old(self).wf(),
        ensures
            final(self).wf(),
            old(self)@.len() == 0 ==> final(self)@ == old(self)@,
            old(self)@.len() > 0 ==> exists|e: (u64, T)|
                {
                    &&& old(self)@.contains(e)
                    &&& #[trigger] final(self)@ == old(self)@.remove(e)
                    &&& forall|f: (u64, T)| old(self)@.contains(f) ==> e.0 <= f.0
                },
    {
        let r = self.pop();
        proof {
            if old(self)@.len() > 0 {
                let e = r->Some_0;
                assert({
                    &&& old(self)@.contains(e)
                    &&& final(self)@ == old(self)@.remove(e)
                    &&& forall|f: (u64, T)| old(self)@.contains(f) ==> e.0 <= f.0
                });
            }
        }
    }
}

/// Sift the root of `elems` downwards until the min-heap order is restored.
#[verifier::rlimit(60)]
fn sift_down<T: Copy>(elems: &mut Vec<(u64, T)>)
    requires
        old(elems)@.len() >= 1,
        min_heap_except_down(old(elems)@, 0),
    ensures
        final(elems)@.len() == old(elems)@.len(),
        final(elems)@.to_multiset() == old(elems)@.to_multiset(),
        min_heap(final(elems)@),
{
    let size: usize = elems.len();
    let mut j: usize = 0;
    loop
        invariant_except_break
            j < size == elems@.len(),
            elems@.len() == old(elems)@.len(),
            elems@.to_multiset() == old(elems)@.to_multiset(),
            min_heap_except_down(elems@, j as int),
        ensures
            elems@.len() == old(elems)@.len(),
            elems@.to_multiset() == old(elems)@.to_multiset(),
            min_heap(elems@),
        decreases size - j,
    {
        if j >= size / 2 {
            assert forall|c: int|
                1 <= c < elems@.len() implies elems@[par(c)].0 <= elems@[c].0 by {
                if par(c) == j {
                    assert(c == 2 * (j as int) + 1 || c == 2 * (j as int) + 2);
                }
            }
            break ;
        }
        let left: usize = 2 * j + 1;
        let right: usize = 2 * j + 2;
        assert(left < size);
        let mut min: usize = j;
        if elems[left].0 < elems[min].0 {
            min = left;
        }
        if right < size && elems[right].0 < elems[min].0 {
            min = right;
        }
        assert(par(left as int) == j as int);
        assert(right < size ==> par(right as int) == j as int);
        if min == j {
            assert forall|c: int|
                1 <= c < elems@.len() implies elems@[par(c)].0 <= elems@[c].0 by {
                if par(c) == j {
                    assert(c == 2 * (j as int) + 1 || c == 2 * (j as int) + 2);
                }
            }
            break ;
        }
        let ghost s0 = elems@;
        let ej = elems[j];
        let em = elems[min];
        elems[j] = em;
        elems[min] = ej;
        proof {
            lemma_swap_to_multiset(s0, j as int, min as int);
            assert(elems@ =~= s0.update(j as int, s0[min as int]).update(min as int, s0[j as int]));
            let sj = j as int;
            let sm = min as int;
            assert forall|c: int|
                1 <= c < elems@.len() && par(c) != sm implies elems@[par(c)].0 <= elems@[c].0 by {
                if par(c) == sj {
                    assert(c == 2 * sj + 1 || c == 2 * sj + 2);
                } else if c == sj {
                    assert(sj >= 1);
                    assert(s0[par(sj)].0 <= s0[sm].0);
                } else {
                    assert(elems@[c] == s0[c] && elems@[par(c)] == s0[par(c)]);
                }
            }
            assert forall|c: int|
                1 <= c < elems@.len() && par(c) == sm implies elems@[par(sm)].0 <= elems@[c].0 by {
                assert(c != sj && c != sm);
                assert(s0[sm].0 <= s0[c].0);
            }
        }
        j = min;
    }
}

} // verus!
