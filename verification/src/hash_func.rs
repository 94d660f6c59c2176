//! A universal hash function `h(x) = ((a*x + b) mod p) mod m` with randomly
//! drawn parameters.

use vstd::prelude::*;

verus! {

/// Relies on rand's `random_range`: a draw from `lo..hi`; nothing but the
/// bounds is assumed of the outcome.
#[verifier::external_body]
pub(crate) fn rand_in_range(lo: usize, hi: usize) -> (r: usize)
    requires
        lo < hi,
    ensures
        lo <= r < hi,
{
    rand::random_range(lo..hi)
}

/// A hash function into `m` buckets, working modulo a prime-sized `p`.
pub struct HashFunction {
    a: usize,
    b: usize,
    p: usize,
    m: usize,
}

impl HashFunction {
    /// The multiplier drawn for this instance.
    pub closed spec fn spec_a(&self) -> int {
        self.a as int
    }

    /// The offset drawn for this instance.
    pub closed spec fn spec_b(&self) -> int {
        self.b as int
    }

    /// The modulus.
    pub closed spec fn spec_p(&self) -> int {
        self.p as int
    }

    /// The bucket count.
    pub closed spec fn spec_m(&self) -> int {
        self.m as int
    }

    /// Parameters in range: `1 <= a < p`, `b < p`, at least one bucket.
    pub open spec fn inv(&self) -> bool {
        &&& 1 <= self.spec_a() < self.spec_p()
        &&& 0 <= self.spec_b() < self.spec_p()
        &&& self.spec_p() >= 2
        &&& self.spec_m() >= 1
    }

    /// A fresh hash function with random parameters.
    pub fn new(p: usize, m: usize) -> (h: HashFunction)
        requires
            p >= 2,
            m >= 1,
        ensures
            h.inv(),
            h.spec_p() == p,
            h.spec_m() == m,
    {
        let mut h = HashFunction { a: 1, b: 1, p, m };
        h.set_random_parameters();
        h
    }

    /// Redraws `a` and `b`; the modulus and bucket count stay.
    pub fn set_random_parameters(&mut self)
        requires
            old(self).spec_p() >= 2,
            old(self).spec_m() >= 1,
        ensures
            final(self).inv(),
            final(self).spec_p() == old(self).spec_p(),
            final(self).spec_m() == old(self).spec_m(),
    {
        self.a = rand_in_range(1, self.p);
        self.b = rand_in_range(0, self.p);
    }

    /// The bucket of `value`: `((a*value + b) mod p) mod m`.
    pub fn apply(&self, value: &usize) -> (r: usize)
        requires
            self.inv(),
        ensures
            r == ((self.spec_a() * (*value as int) + self.spec_b()) % self.spec_p())
                % self.spec_m(),
            r < self.spec_m(),
    {
        proof {
            let lim: int = 0xffff_ffff_ffff_ffffu64 as int;
            assert((self.a as int) * (*value as int) <= lim * lim) by (nonlinear_arith)
                requires
                    0 <= self.a as int <= lim,
                    0 <= *value as int <= lim,
            {}
        }
        let wide: u128 = (self.a as u128) * (*value as u128) + (self.b as u128);
        let modp: u128 = wide % (self.p as u128);
        let r: usize = (modp as usize) % self.m;
        proof {
            assert(modp < self.p as u128);
            assert(wide as int == self.spec_a() * (*value as int) + self.spec_b());
            assert(modp as int == (self.spec_a() * (*value as int) + self.spec_b())
                % self.spec_p());
            assert(modp as usize as int == modp as int);
        }
        r
    }

    /// The number of buckets this function maps into.
    pub fn num_buckets(&self) -> (m: usize)
        ensures
            m == self.spec_m(),
    {
        self.m
    }
}

} // verus!
