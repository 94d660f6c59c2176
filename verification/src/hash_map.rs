//! A hash map from `usize` keys to values: separate chaining over a fixed
//! bucket array, indexed by a universal hash function with random
//! parameters.

use vstd::prelude::*;
use crate::hash_func::rand_in_range;

verus! {

/// First value stored under `k`, scanning the chain from the front.
pub open spec fn find_key<T>(s: Seq<(usize, T)>, k: usize) -> Option<T>
    decreases s.len(),
{
    if s.len() == 0 {
        Option::None
    } else if s[0].0 == k {
        Option::Some(s[0].1)
    } else {
        find_key(s.drop_first(), k)
    }
}

/// Overwriting the slot that holds `k` does not disturb other keys, and
/// makes `k` map to the new value when no earlier slot holds `k`.
proof fn lemma_find_key_update<T>(s: Seq<(usize, T)>, idx: int, k: usize, v: T, k2: usize)
    requires
        0 <= idx < s.len(),
        s[idx].0 == k,
    ensures
        k2 != k ==> find_key(s.update(idx, (k, v)), k2) == find_key(s, k2),
        (forall|x: int| 0 <= x < idx ==> (#[trigger] s[x]).0 != k) ==> find_key(
            s.update(idx, (k, v)),
            k,
        ) == Option::Some(v),
    decreases s.len(),
{
    let t = s.update(idx, (k, v));
    if idx == 0 {
        if k2 != k {
            assert(t.drop_first() =~= s.drop_first());
        }
    } else {
        assert(t[0] == s[0]);
        assert(t.drop_first() =~= s.drop_first().update(idx - 1, (k, v)));
        lemma_find_key_update(s.drop_first(), idx - 1, k, v, k2);
        if forall|x: int| 0 <= x < idx ==> (#[trigger] s[x]).0 != k {
            assert(s[0].0 != k);
            assert forall|x: int| 0 <= x < idx - 1 implies (#[trigger] s.drop_first()[x]).0
                != k by {
                assert(s.drop_first()[x] == s[x + 1]);
            }
        }
    }
}

/// Appending a pair affects only its own key, and only when that key was
/// absent.
proof fn lemma_find_key_push<T>(s: Seq<(usize, T)>, k: usize, v: T, k2: usize)
    ensures
        find_key(s.push((k, v)), k2) == (if k2 == k && find_key(s, k2) is None {
            Option::Some(v)
        } else {
            find_key(s, k2)
        }),
    decreases s.len(),
{
    let t = s.push((k, v));
    if s.len() == 0 {
        assert(t[0] == (k, v));
        assert(t.drop_first() =~= Seq::<(usize, T)>::empty());
    } else {
        assert(t[0] == s[0]);
        assert(t.drop_first() =~= s.drop_first().push((k, v)));
        lemma_find_key_push(s.drop_first(), k, v, k2);
    }
}

/// A chained hash map with `m` buckets working modulo `p`.
pub struct HashMap<T> {
    a: usize,
    b: usize,
    p: usize,
    m: usize,
    buckets: Vec<Vec<(usize, T)>>,
}

impl<T> HashMap<T> {
    /// The bucket a key hashes into.
    pub closed spec fn spec_bucket(&self, k: usize) -> int {
        (((self.a as int) * (k as int) + self.b as int) % (self.p as int)) % (self.m as int)
    }

    /// The value stored under `k`, if any.
    pub closed spec fn spec_get(&self, k: usize) -> Option<T> {
        find_key(self.buckets@[self.spec_bucket(k)]@, k)
    }

    /// Parameters in range, one chain per bucket, and every entry sitting
    /// in the bucket its key hashes to.
    pub closed spec fn inv(&self) -> bool {
        &&& 2 <= self.p
        &&& 1 <= self.m
        &&& 1 <= self.a < self.p
        &&& self.b < self.p
        &&& self.buckets@.len() == self.m
        &&& forall|i: int, j: int|
            0 <= i < self.buckets@.len() && 0 <= j < self.buckets@[i]@.len() ==> self.spec_bucket(
                (#[trigger] self.buckets@[i]@[j]).0,
            ) == i
    }

    /// An empty map with `m` buckets and random hash parameters.
    pub fn new(p: usize, m: usize) -> (h: HashMap<T>)
        requires
            p >= 2,
            m >= 1,
        ensures
            h.inv(),
            forall|k: usize| h.spec_get(k) is None,
    {
        let a = rand_in_range(1, p);
        let b = rand_in_range(0, p);
        let mut buckets: Vec<Vec<(usize, T)>> = Vec::new();
        let mut t: usize = 0;
        while t < m
            invariant
                t <= m,
                buckets@.len() == t,
                forall|i: int| 0 <= i < t ==> (#[trigger] buckets@[i])@.len() == 0,
            decreases m - t,
        {
            buckets.push(Vec::new());
            t += 1;
        }
        let h = HashMap { a, b, p, m, buckets };
        proof {
            assert forall|k: usize| h.spec_get(k) is None by {
                assert(0 <= h.spec_bucket(k) < m);
                assert(h.buckets@[h.spec_bucket(k)]@.len() == 0);
            }
        }
        h
    }

    /// The bucket index of a key.
    fn apply(&self, value: &usize) -> (r: usize)
        requires
            self.inv(),
        ensures
            r == self.spec_bucket(*value),
            r < self.buckets@.len(),
    {
        proof {
            let lim: int = 0xffff_ffff_ffff_ffffu64 as int;
            assert((self.a as int) * (*value as int) <= lim * lim) by (nonlinear_arith)
                requires
                    0 <= self.a as int <= lim,
                    0 <= *value as int <= lim,
            {}
        }
        let wide: u128 = (self.a as u128) * (*value as u128) + (self.b as u128);
        let modp: u128 = wide % (self.p as u128);
        let r: usize = (modp as usize) % self.m;
        proof {
            assert(modp < self.p as u128);
            assert(wide as int == (self.a as int) * (*value as int) + self.b as int);
            assert(modp as int == ((self.a as int) * (*value as int) + self.b as int) % (
            self.p as int));
            assert(modp as usize as int == modp as int);
        }
        r
    }

    /// Stores `value` under `key`, replacing an existing entry for the
    /// same key; all other keys keep their values.
    pub fn put(&mut self, key: usize, value: T)
        requires
            old(self).inv(),
        ensures
            final(self).inv(),
            final(self).spec_get(key) == Option::Some(value),
            forall|k2: usize| k2 != key ==> final(self).spec_get(k2) == old(self).spec_get(k2),
    {
        let bi = self.apply(&key);
        let blen = self.buckets[bi].len();
        let ghost row0 = self.buckets@[bi as int]@;
        let mut idx: usize = 0;
        while idx < blen
            invariant
                idx <= blen,
                self.inv(),
                self == old(self),
                bi == self.spec_bucket(key),
                (bi as int) < self.buckets@.len(),
                blen == self.buckets@[bi as int]@.len(),
                row0 == self.buckets@[bi as int]@,
                forall|x: int| 0 <= x < idx ==> (#[trigger] row0[x]).0 != key,
            decreases blen - idx,
        {
            if self.buckets[bi][idx].0 == key {
                self.buckets[bi][idx] = (key, value);
                proof {
                    assert(self.buckets@[bi as int]@ =~= row0.update(idx as int, (key, value)));
                    lemma_find_key_update(row0, idx as int, key, value, key);
                    assert forall|k2: usize|
                        k2 != key implies final(self).spec_get(k2) == old(self).spec_get(k2) by {
                        lemma_find_key_update(row0, idx as int, key, value, k2);
                        if self.spec_bucket(k2) != bi as int {
                            assert(self.buckets@[self.spec_bucket(k2)] == old(self).buckets@[
                                self.spec_bucket(k2)]);
                        }
                    }
                    assert forall|i: int, j: int|
                        0 <= i < self.buckets@.len() && 0 <= j < self.buckets@[i]@.len()
                            implies self.spec_bucket((#[trigger] self.buckets@[i]@[j]).0)
                        == i by {
                        if i == bi as int && j == idx as int {
                        } else {
                            assert(self.buckets@[i]@[j] == old(self).buckets@[i]@[j]);
                        }
                    }
                }
                return ;
            }
            idx += 1;
        }
        self.buckets[bi].push((key, value));
        proof {
            assert(self.buckets@[bi as int]@ =~= row0.push((key, value)));
            assert(find_key(row0, key) is None) by {
                lemma_find_key_scan(row0, key);
            }
            lemma_find_key_push(row0, key, value, key);
            assert forall|k2: usize|
                k2 != key implies final(self).spec_get(k2) == old(self).spec_get(k2) by {
                lemma_find_key_push(row0, key, value, k2);
                if self.spec_bucket(k2) != bi as int {
                    assert(self.buckets@[self.spec_bucket(k2)] == old(self).buckets@[
                        self.spec_bucket(k2)]);
                }
            }
            assert forall|i: int, j: int|
                0 <= i < self.buckets@.len() && 0 <= j < self.buckets@[i]@.len()
                    implies self.spec_bucket((#[trigger] self.buckets@[i]@[j]).0) == i by {
                if i == bi as int && j == row0.len() {
                } else {
                    assert(self.buckets@[i]@[j] == old(self).buckets@[i]@[j]);
                }
            }
        }
    }
}

/// A chain in which no slot holds `k` finds nothing for `k`.
proof fn lemma_find_key_scan<T>(s: Seq<(usize, T)>, k: usize)
    requires
        forall|x: int| 0 <= x < s.len() ==> (#[trigger] s[x]).0 != k,
    ensures
        find_key(s, k) is None,
    decreases s.len(),
{
    if s.len() > 0 {
        assert forall|x: int| 0 <= x < s.drop_first().len() implies (#[trigger] s.drop_first()[
            x]).0 != k by {
            assert(s.drop_first()[x] == s[x + 1]);
        }
        lemma_find_key_scan(s.drop_first(), k);
    }
}

} // verus!
