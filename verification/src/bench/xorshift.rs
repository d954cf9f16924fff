//! A small reproducible random source for workloads: `xorshift64`.

use vstd::prelude::*;

verus! {

/// The state that follows a state; it is also the value drawn.
pub open spec fn next_state(s: u64) -> u64 {
    let a = s ^ (s << 13u64);
    let b = a ^ (a >> 7u64);
    b ^ (b << 17u64)
}

/// A value below a bound.
pub open spec fn bounded(s: u64, n: u64) -> u64 {
    next_state(s) % n
}

/// The most failures that are counted.
pub const MAX_FAILURES: u64 = 64;

/// Draws below `p_den` until one is below `p_num`: how many were not, from `k`
/// on and up to the most, and the state at the end.
pub open spec fn failures(s: u64, p_num: u64, p_den: u64, k: u64) -> (u64, u64)
    decreases MAX_FAILURES - k,
{
    if k < MAX_FAILURES {
        if bounded(s, p_den) >= p_num {
            failures(next_state(s), p_num, p_den, (k + 1) as u64)
        } else {
            (k, next_state(s))
        }
    } else {
        (k, s)
    }
}

/// A random source that repeats itself for one seed.
#[derive(Debug)]
pub struct XorShift64(pub u64);

impl Clone for XorShift64 {
    fn clone(&self) -> (r: Self)
        ensures
            r == *self,
    {
        XorShift64(self.0)
    }
}

impl XorShift64 {
    /// The next value.
    pub fn next_u64(&mut self) -> (x: u64)
        ensures
            x == next_state(old(self).0),
            final(self).0 == x,
    {
        let mut x: u64 = self.0;
        x = x ^ (x << 13u64);
        x = x ^ (x >> 7u64);
        x = x ^ (x << 17u64);
        self.0 = x;
        x
    }

    /// The next value, taken below `n`.
    pub fn next_bounded(&mut self, n: u64) -> (x: u64)
        requires
            n > 0,
        ensures
            x == bounded(old(self).0, n),
            x < n,
            final(self).0 == next_state(old(self).0),
    {
        self.next_u64() % n
    }

    /// How many draws fail before one succeeds with probability
    /// `p_num / p_den`, at most sixty-four. Most of the mass is near zero.
    pub fn geometric(&mut self, p_num: u64, p_den: u64) -> (k: u64)
        requires
            p_den > 0,
        ensures
            (k, final(self).0) == failures(old(self).0, p_num, p_den, 0),
            k <= MAX_FAILURES,
    {
        let ghost whole = failures(self.0, p_num, p_den, 0);
        let mut k: u64 = 0;
        let mut going: bool = true;
        while going && k < MAX_FAILURES
            invariant
                p_den > 0,
                k <= MAX_FAILURES,
                going ==> whole == failures(self.0, p_num, p_den, k),
                !going ==> whole == (k, self.0),
            decreases MAX_FAILURES - k, (if going {
                1int
            } else {
                0int
            }),
        {
            if self.next_bounded(p_den) >= p_num {
                k += 1;
            } else {
                going = false;
            }
        }
        k
    }
}

// ─── Laws ───────────────────────────────────────────────────────────

/// A source that is not zero never becomes zero.
pub proof fn source_never_sticks(s: u64)
    requires
        s != 0,
    ensures
        next_state(s) != 0,
{
    let a = s ^ (s << 13u64);
    let b = a ^ (a >> 7u64);
    assert(a != 0) by (bit_vector)
        requires
            s != 0,
            a == s ^ (s << 13u64),
    ;
    assert(b != 0) by (bit_vector)
        requires
            a != 0,
            b == a ^ (a >> 7u64),
    ;
    assert(b ^ (b << 17u64) != 0) by (bit_vector)
        requires
            b != 0,
    ;
}

} // verus!
