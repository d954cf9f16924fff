//! Log-linear bins: eight to each doubling.

#[allow(unused_imports)]
use vstd::arithmetic::power2;
use vstd::prelude::*;

verus! {

/// Bins of one doubling.
pub const SUBBINS: usize = 8;

/// Doublings that are told apart.
pub const BIN_GROUPS: usize = 24;

/// Bins in all.
pub const N_BINS: usize = 192;

/// How often a number can be halved before it is one.
pub open spec fn octave(n: nat) -> nat
    decreases n,
{
    if n <= 1 {
        0
    } else {
        1 + octave(n / 2)
    }
}

/// The bin of a number. Zero shares the first one; numbers beyond the last
/// doubling have the number of bins for theirs.
pub open spec fn bin(n: nat) -> nat {
    if n == 0 {
        0
    } else if octave(n) >= BIN_GROUPS {
        N_BINS as nat
    } else {
        octave(n) * 8 + sub_bin(n)
    }
}

/// The place of a number within its doubling, in eighths.
pub open spec fn sub_bin(n: nat) -> nat {
    ((n - power2::pow2(octave(n))) * 8 / (power2::pow2(octave(n)) as int)) as nat
}

/// The smallest number that a bin can stand for.
pub open spec fn lower(i: nat) -> nat {
    power2::pow2(i / 8) + (i % 8) * power2::pow2(i / 8) / 8
}

/// A number lies between the powers of two around it.
pub proof fn octave_is_a_logarithm(n: nat)
    requires
        n > 0,
    ensures
        power2::pow2(octave(n)) <= n < power2::pow2(octave(n) + 1),
    decreases n,
{
    if n <= 1 {
        power2::lemma2_to64();
    } else {
        octave_is_a_logarithm(n / 2);
        power2::lemma_pow2_unfold(octave(n));
        power2::lemma_pow2_unfold(octave(n) + 1);
    }
}

/// Only one power of two fits.
proof fn lemma_octave_unique(n: nat, g: nat)
    requires
        n > 0,
        power2::pow2(g) <= n < power2::pow2(g + 1),
    ensures
        octave(n) == g,
{
    octave_is_a_logarithm(n);
    let h = octave(n);
    if h < g {
        lemma_pow2_grows(h + 1, g);
    }
    if g < h {
        lemma_pow2_grows(g + 1, h);
    }
}

proof fn lemma_pow2_grows(a: nat, b: nat)
    requires
        a <= b,
    ensures
        power2::pow2(a) <= power2::pow2(b),
    decreases b - a,
{
    if a < b {
        lemma_pow2_grows(a, (b - 1) as nat);
        power2::lemma_pow2_unfold(b);
    }
}

/// Eighths of a doubling.
proof fn lemma_sub_bin(n: nat)
    requires
        n > 0,
    ensures
        sub_bin(n) < 8,
        sub_bin(n) * power2::pow2(octave(n)) <= (n - power2::pow2(octave(n))) * 8 < (sub_bin(n) + 1) * power2::pow2(octave(n)),
{
    octave_is_a_logarithm(n);
    power2::lemma_pow2_unfold(octave(n) + 1);
    power2::lemma_pow2_pos(octave(n));
    let p = power2::pow2(octave(n)) as int;
    let d = (n - p) * 8;
    vstd::arithmetic::div_mod::lemma_fundamental_div_mod(d, p);
    let q = d / p;
    assert(0 <= q < 8) by (nonlinear_arith)
        requires
            d == p * q + d % p,
            0 <= d < 8 * p,
            0 <= d % p < p,
    ;
    assert(q * p <= d < (q + 1) * p) by (nonlinear_arith)
        requires
            d == p * q + d % p,
            0 <= d % p < p,
    ;
}

/// How often a number can be halved before it is one.
pub fn octave_of(ns: u64) -> (g: u32)
    requires
        ns > 0,
    ensures
        g == octave(ns as nat),
        g < 64,
{
    let z: u32 = ns.leading_zeros();
    proof {
        vstd::std_specs::bits::axiom_u64_leading_zeros(ns);
        let up = (64 - z) as u64;
        let at = (63 - z) as u64;
        let hi = ns >> at;
        assert(hi != 0) by (bit_vector)
            requires
                hi & 1u64 != 0u64,
        ;
        vstd::bits::lemma_u64_shr_is_div(ns, at);
        power2::lemma_pow2_pos(at as nat);
        assert(ns >= power2::pow2(at as nat)) by {
            if ns < power2::pow2(at as nat) {
                vstd::arithmetic::div_mod::lemma_basic_div(ns as int, power2::pow2(at as nat) as int);
            }
        }
        if z > 0 {
            vstd::bits::lemma_u64_shr_is_div(ns, up);
            power2::lemma_pow2_pos(up as nat);
            assert(ns < power2::pow2(up as nat)) by {
                vstd::arithmetic::div_mod::lemma_fundamental_div_mod(ns as int, power2::pow2(up as nat) as int);
            }
        } else {
            power2::lemma2_to64();
            assert(power2::pow2(64) == 0x1_0000_0000_0000_0000);
        }
        lemma_octave_unique(ns as nat, at as nat);
    }
    63 - z
}

/// The bin of a number.
pub fn bin_of(ns: u64) -> (i: usize)
    ensures
        i == bin(ns as nat),
        i <= N_BINS,
{
    if ns == 0 {
        return 0;
    }
    let group: u32 = octave_of(ns);
    if group as usize >= BIN_GROUPS {
        return N_BINS;
    }
    let lo: u64 = power_of_two(group);
    proof {
        octave_is_a_logarithm(ns as nat);
        power2::lemma_pow2_unfold(octave(ns as nat) + 1);
        lemma_sub_bin(ns as nat);
        power2::lemma2_to64();
        lemma_pow2_grows(octave(ns as nat), 23);
    }
    group as usize * SUBBINS + ((ns - lo) * 8 / lo) as usize
}

/// A power of two.
fn power_of_two(g: u32) -> (p: u64)
    requires
        g < 64,
    ensures
        p == power2::pow2(g as nat),
        p > 0,
{
    proof {
        power2::lemma_pow2_pos(g as nat);
        lemma_pow2_grows(g as nat, 63);
        power2::lemma2_to64_rest();
        assert(power2::pow2(63) == 0x8000_0000_0000_0000);
        vstd::bits::lemma_u64_shl_is_mul(1, g as u64);
    }
    1u64 << g as u64
}

/// The smallest number that a bin can stand for.
pub fn lower_ns(idx: usize) -> (ns: u64)
    requires
        idx < 62 * SUBBINS,
    ensures
        ns == lower(idx as nat),
{
    let group: u32 = (idx / SUBBINS) as u32;
    let sub: u64 = (idx % SUBBINS) as u64;
    let lo: u64 = power_of_two(group);
    proof {
        lemma_pow2_grows(group as nat, 61);
        power2::lemma2_to64_rest();
        assert(power2::pow2(61) == 0x2000_0000_0000_0000);
        assert(sub * lo <= 7 * lo) by (nonlinear_arith)
            requires
                0 <= sub <= 7,
                lo >= 0,
        ;
    }
    lo + sub * lo / 8
}

// ─── Laws ───────────────────────────────────────────────────────────

/// A larger number is never in an earlier bin.
pub proof fn bins_are_monotone(a: nat, b: nat)
    requires
        a <= b,
    ensures
        bin(a) <= bin(b),
{
    if a > 0 {
        octave_is_a_logarithm(a);
        octave_is_a_logarithm(b);
        lemma_sub_bin(a);
        lemma_sub_bin(b);
        let (g, h) = (octave(a), octave(b));
        if h < g {
            lemma_pow2_grows(h + 1, g);
        }
        if g == h {
            let p = power2::pow2(g) as int;
            power2::lemma_pow2_pos(g);
            vstd::arithmetic::div_mod::lemma_div_is_ordered((a - p) * 8, (b - p) * 8, p);
        }
    }
}

/// A later bin never begins earlier.
pub proof fn bounds_are_monotone(i: nat, j: nat)
    requires
        i <= j,
    ensures
        lower(i) <= lower(j),
    decreases j - i,
{
    if i < j {
        let k = (j - 1) as nat;
        bounds_are_monotone(i, k);
        let (g, h) = (k / 8, j / 8);
        power2::lemma_pow2_pos(g);
        if g == h {
            let p = power2::pow2(g) as int;
            let (x, y) = ((k % 8) * p, (j % 8) * p);
            assert(x <= y) by (nonlinear_arith)
                requires
                    x == (k % 8) * p,
                    y == (j % 8) * p,
                    (k % 8) <= (j % 8),
                    p >= 0,
            ;
        } else {
            assert(h == g + 1 && j % 8 == 0 && k % 8 == 7);
            power2::lemma_pow2_unfold(h);
            assert(0 * power2::pow2(h) == 0) by (nonlinear_arith);
        }
    }
}

/// A bin never begins beyond a number that is in it.
pub proof fn bins_hold_their_numbers(n: nat)
    requires
        n > 0,
        bin(n) < N_BINS,
    ensures
        lower(bin(n)) <= n,
{
    octave_is_a_logarithm(n);
    lemma_sub_bin(n);
    let i = bin(n);
    assert(i / 8 == octave(n) && i % 8 == sub_bin(n));
}

/// The number that a bin stands for is off by less than an eighth of itself: no
/// number lies further than that above the lower edge of its bin. Numbers below
/// sixteen stand for themselves.
pub proof fn bins_are_tight(n: nat)
    requires
        n > 0,
        bin(n) < N_BINS,
    ensures
        lower(bin(n)) <= n,
        8 * (n - lower(bin(n))) < lower(bin(n)),
        n < 16 ==> lower(bin(n)) == n,
{
    bins_hold_their_numbers(n);
    octave_is_a_logarithm(n);
    lemma_sub_bin(n);
    let i = bin(n);
    let (g, k) = (octave(n), sub_bin(n));
    assert(i / 8 == g && i % 8 == k);
    let p = power2::pow2(g) as int;
    power2::lemma2_to64();
    if g >= 3 {
        power2::lemma_pow2_unfold(g);
        power2::lemma_pow2_unfold((g - 1) as nat);
        power2::lemma_pow2_unfold((g - 2) as nat);
        let r = power2::pow2((g - 3) as nat) as int;
        power2::lemma_pow2_pos((g - 3) as nat);
        assert(k * p == 8 * (k * r) && (k + 1) * p == k * p + p && k * r >= 0) by (nonlinear_arith)
            requires
                p == 8 * r,
                k >= 0,
                r > 0,
        ;
        if n < 16 {
            if g >= 4 {
                lemma_pow2_grows(4, g);
            }
            assert(g == 3 && p == 8);
        }
    } else {
        assert(p == 1 || p == 2 || p == 4);
        assert(n < 8);
        assert(k == (n - p) * 8 / p);
        assert(lower(i) == n);
    }
}

/// Exactly the numbers below two to the twenty-fourth lie in a bin.
pub proof fn bins_cover_the_range(n: nat)
    ensures
        bin(n) < N_BINS <==> n < 0x100_0000,
{
    if n > 0 {
        octave_is_a_logarithm(n);
        lemma_sub_bin(n);
        power2::lemma2_to64();
        if octave(n) < BIN_GROUPS {
            lemma_pow2_grows(octave(n) + 1, 24);
        } else {
            lemma_pow2_grows(24, octave(n));
        }
    }
}

} // verus!
