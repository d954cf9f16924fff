//! A reproducible random source: `xorshift64*`.

use crate::ratio::Ratio;
use vstd::prelude::*;

verus! {

/// State that stands in for a zero seed, which the shifts would never leave.
pub const FALLBACK_SEED: u64 = 0x9E37_79B9_7F4A_7C15;

/// Multiplier that turns a state into a value.
pub const SCRAMBLE: u64 = 0x2545_F491_4F6C_DD1D;

/// Half of the values lie below this.
pub const HALF: u64 = 0x8000_0000_0000_0000;

/// The first state of a seed.
pub open spec fn first_state(seed: u64) -> u64 {
    if seed == 0 {
        FALLBACK_SEED
    } else {
        seed
    }
}

/// The state that follows a state.
pub open spec fn next_state(s: u64) -> u64 {
    let a = s ^ (s >> 12u64);
    let b = a ^ (a << 25u64);
    b ^ (b >> 27u64)
}

/// The value drawn in a state.
pub open spec fn value(s: u64) -> u64 {
    next_state(s).wrapping_mul(SCRAMBLE)
}

/// The value drawn in a state, taken below a bound; zero below zero.
pub open spec fn value_below(s: u64, n: u64) -> u64 {
    if n == 0 {
        0
    } else {
        value(s) % n
    }
}

/// Values below this come up with the given probability, capped at one.
pub open spec fn cutoff(p: Ratio) -> u64 {
    if p.num >= p.den {
        u64::MAX
    } else {
        ((p.num * 0x1_0000_0000_0000_0000) / (p.den as int)) as u64
    }
}

/// A random source that repeats itself for one seed.
#[derive(Debug)]
pub struct DetRng {
    state: u64,
}

impl Clone for DetRng {
    fn clone(&self) -> (r: Self)
        ensures
            r@ == self@,
    {
        DetRng { state: self.state }
    }
}

impl View for DetRng {
    type V = u64;

    closed spec fn view(&self) -> u64 {
        self.state
    }
}

impl DetRng {
    /// The source of a seed.
    pub fn new(seed: u64) -> (r: Self)
        ensures
            r@ == first_state(seed),
    {
        let state: u64 = if seed == 0 {
            FALLBACK_SEED
        } else {
            seed
        };
        DetRng { state }
    }

    /// A source in a given state, to go on where another one stopped.
    pub(crate) fn resume(state: u64) -> (r: Self)
        ensures
            r@ == state,
    {
        DetRng { state }
    }

    /// The state, to go on from later.
    pub(crate) fn state(&self) -> (s: u64)
        ensures
            s == self@,
    {
        self.state
    }

    /// The next value.
    pub fn next_u64(&mut self) -> (x: u64)
        ensures
            x == value(old(self)@),
            final(self)@ == next_state(old(self)@),
    {
        let mut x: u64 = self.state;
        x = x ^ (x >> 12u64);
        x = x ^ (x << 25u64);
        x = x ^ (x >> 27u64);
        self.state = x;
        x.wrapping_mul(SCRAMBLE)
    }

    /// The next value, taken below `n`. Below zero there is only zero, and
    /// nothing is drawn.
    pub fn next_below(&mut self, n: u64) -> (x: u64)
        ensures
            x == value_below(old(self)@, n),
            final(self)@ == (if n == 0 {
                old(self)@
            } else {
                next_state(old(self)@)
            }),
            n > 0 ==> x < n,
    {
        if n == 0 {
            0
        } else {
            self.next_u64() % n
        }
    }

    /// True with probability `p`; a probability above one counts as one.
    pub fn bool_p(&mut self, p: Ratio) -> (b: bool)
        ensures
            b == (value(old(self)@) < cutoff(p)),
            final(self)@ == next_state(old(self)@),
    {
        let limit: u64 = if p.num >= p.den {
            u64::MAX
        } else {
            let wide: u128 = p.num as u128 * 0x1_0000_0000_0000_0000u128;
            assert(wide as int / p.den as int <= u64::MAX) by (nonlinear_arith)
                requires
                    wide == p.num * 0x1_0000_0000_0000_0000,
                    p.num < p.den,
                    p.den <= 0xffff_ffff,
                    u64::MAX == 0xffff_ffff_ffff_ffff,
            ;
            (wide / p.den as u128) as u64
        };
        self.next_u64() < limit
    }
}

// ─── Laws ───────────────────────────────────────────────────────────

/// A source never falls into the state that it could not leave.
pub proof fn source_never_sticks(seed: u64, s: u64)
    requires
        s != 0,
    ensures
        first_state(seed) != 0,
        next_state(s) != 0,
{
    let a = s ^ (s >> 12u64);
    let b = a ^ (a << 25u64);
    assert(a != 0) by (bit_vector)
        requires
            s != 0,
            a == s ^ (s >> 12u64),
    ;
    assert(b != 0) by (bit_vector)
        requires
            a != 0,
            b == a ^ (a << 25u64),
    ;
    assert(b ^ (b >> 27u64) != 0) by (bit_vector)
        requires
            b != 0,
    ;
}

/// The state of a source after so many values.
pub open spec fn state_after(seed: u64, n: nat) -> u64
    decreases n,
{
    if n == 0 {
        first_state(seed)
    } else {
        next_state(state_after(seed, (n - 1) as nat))
    }
}

/// The multiplier has an inverse, so it turns only zero into zero.
proof fn lemma_scramble(x: u64)
    requires
        x != 0,
    ensures
        x.wrapping_mul(SCRAMBLE) != 0,
{
    let w: int = 0x1_0000_0000_0000_0000;
    let d: int = 0x59071d96d81ecd35;
    let k: int = 0xcf65b3f17bf4a6b;
    let p = x * SCRAMBLE;
    assert(SCRAMBLE * d == 1 + k * w) by (nonlinear_arith)
        requires
            SCRAMBLE == 0x2545_F491_4F6C_DD1Du64,
            d == 0x59071d96d81ecd35,
            k == 0xcf65b3f17bf4a6b,
            w == 0x1_0000_0000_0000_0000,
    ;
    if p % w == 0 {
        let q = p / w;
        assert(p == q * w);
        assert(x == (q * d - x * k) * w) by (nonlinear_arith)
            requires
                x * SCRAMBLE == q * w,
                SCRAMBLE * d == 1 + k * w,
        ;
        let r = q * d - x * k;
        assert(false) by (nonlinear_arith)
            requires
                x == r * w,
                0 < x < w,
        ;
    }
}

/// Whatever the seed, none of the values that a source gives is zero.
pub proof fn values_are_never_zero(seed: u64, n: nat)
    ensures
        state_after(seed, n) != 0,
        value(state_after(seed, n)) != 0,
    decreases n,
{
    if n > 0 {
        values_are_never_zero(seed, (n - 1) as nat);
        source_never_sticks(seed, state_after(seed, (n - 1) as nat));
    } else {
        source_never_sticks(seed, FALLBACK_SEED);
    }
    source_never_sticks(seed, state_after(seed, n));
    lemma_scramble(next_state(state_after(seed, n)));
}

/// Different states are followed by different states, so the source walks one
/// cycle and repeats nothing on the way.
pub proof fn states_never_merge(s: u64, t: u64)
    requires
        next_state(s) == next_state(t),
    ensures
        s == t,
{
    let (a, c) = (s ^ (s >> 12u64), t ^ (t >> 12u64));
    let (b, d) = (a ^ (a << 25u64), c ^ (c << 25u64));
    assert(b == d) by (bit_vector)
        requires
            b ^ (b >> 27u64) == d ^ (d >> 27u64),
    ;
    assert(a == c) by (bit_vector)
        requires
            a ^ (a << 25u64) == c ^ (c << 25u64),
    ;
    assert(s == t) by (bit_vector)
        requires
            s ^ (s >> 12u64) == t ^ (t >> 12u64),
    ;
}

/// A seed is its own first state unless it is zero. A value below a bound differs from the
/// value by whole bounds, and there is nothing but zero below zero.
pub proof fn draws_stay_below(seed: u64, s: u64, n: u64)
    ensures
        seed != 0 ==> first_state(seed) == seed,
        first_state(0) != 0,
        n == 0 ==> value_below(s, n) == 0,
        n > 0 ==> value_below(s, n) < n && (value(s) - value_below(s, n)) % (n as int) == 0,
{
    if n > 0 {
        let (v, d) = (value(s) as int, n as int);
        vstd::arithmetic::div_mod::lemma_fundamental_div_mod(v, d);
        vstd::arithmetic::div_mod::lemma_mod_multiples_basic(v / d, d);
        assert(v - v % d == (v / d) * d) by (nonlinear_arith)
            requires
                v == d * (v / d) + v % d,
        ;
    }
}

/// The values below a cutoff are the given share of all values, rounded down.
pub proof fn cutoffs_are_shares(p: Ratio)
    ensures
        p.num >= p.den ==> cutoff(p) == u64::MAX,
        p.num < p.den ==> cutoff(p) * p.den <= p.num * 0x1_0000_0000_0000_0000 < (cutoff(p) + 1) * p.den,
{
    if p.num < p.den {
        let (x, d) = (p.num * 0x1_0000_0000_0000_0000, p.den as int);
        let q = x / d;
        vstd::arithmetic::div_mod::lemma_fundamental_div_mod(x, d);
        vstd::arithmetic::div_mod::lemma_mod_bound(x, d);
        let n = p.num as int;
        assert(0 <= q <= 0xffff_ffff_ffff_ffff && q * d <= x < (q + 1) * d) by (nonlinear_arith)
            requires
                x == d * q + x % d,
                0 <= x % d < d,
                x == n * 0x1_0000_0000_0000_0000,
                0 <= n < d,
        ;
    }
}

} // verus!
