//! Turns a severity between zero and one into a setting between two ends.

use crate::ratio::Ratio;
use vstd::prelude::*;

verus! {

/// A severity capped at one. Nothing below the line counts as one.
pub open spec fn capped_at_one(s: Ratio) -> Ratio {
    if s.num >= s.den {
        Ratio { num: 1, den: 1 }
    } else {
        s
    }
}

/// `den` times the point that lies `s` of the way from `lo` to `hi`.
pub open spec fn weighted(s: Ratio, lo: int, hi: int) -> int {
    let c = capped_at_one(s);
    lo * (c.den - c.num) + hi * c.num
}

/// The point that lies `s` of the way from `lo` to `hi`, rounded down.
pub open spec fn dial_down(s: Ratio, lo: int, hi: int) -> int {
    weighted(s, lo, hi) / (capped_at_one(s).den as int)
}

/// The point that lies `s` of the way from `lo` to `hi`, rounded to the
/// nearest integer, halves upwards.
pub open spec fn dial_near(s: Ratio, lo: int, hi: int) -> int {
    (2 * weighted(s, lo, hi) + capped_at_one(s).den) / (2 * capped_at_one(s).den as int)
}

/// The largest end of a setting.
pub const DIAL_MAX: u64 = 0x3fff_ffff;

/// The severity, capped at one.
pub fn clamp_severity(s: Ratio) -> (c: Ratio)
    ensures
        c == capped_at_one(s),
        c.num <= c.den,
        c.den > 0,
{
    if s.num >= s.den {
        Ratio { num: 1, den: 1 }
    } else {
        s
    }
}

pub proof fn lemma_weighted(s: Ratio, lo: int, hi: int)
    requires
        0 <= lo <= DIAL_MAX,
        0 <= hi <= DIAL_MAX,
    ensures
        ({
            let c = capped_at_one(s);
            let least = if lo <= hi {
                lo
            } else {
                hi
            };
            let most = if lo <= hi {
                hi
            } else {
                lo
            };
            &&& 0 <= lo * (c.den - c.num) <= DIAL_MAX * 0xffff_ffff
            &&& 0 <= hi * c.num <= DIAL_MAX * 0xffff_ffff
            &&& least * c.den <= weighted(s, lo, hi) <= most * c.den
            &&& least <= dial_down(s, lo, hi) <= most
            &&& least <= dial_near(s, lo, hi) <= most
        }),
{
    let c = capped_at_one(s);
    let (n, d) = (c.num as int, c.den as int);
    let w = weighted(s, lo, hi);
    let least = if lo <= hi {
        lo
    } else {
        hi
    };
    let most = if lo <= hi {
        hi
    } else {
        lo
    };
    assert(0 <= lo * (d - n) <= 0x3fff_ffff * 0xffff_ffff) by (nonlinear_arith)
        requires
            0 <= lo <= 0x3fff_ffff,
            0 <= n <= d <= 0xffff_ffff,
    ;
    assert(0 <= hi * n <= 0x3fff_ffff * 0xffff_ffff) by (nonlinear_arith)
        requires
            0 <= hi <= 0x3fff_ffff,
            0 <= n <= d <= 0xffff_ffff,
    ;
    assert(least * d <= w <= most * d) by (nonlinear_arith)
        requires
            w == lo * (d - n) + hi * n,
            0 <= n <= d,
            least <= lo <= most,
            least <= hi <= most,
    ;
    assert(least <= w / d <= most) by (nonlinear_arith)
        requires
            least * d <= w <= most * d,
            d > 0,
    ;
    assert(least <= (2 * w + d) / (2 * d) <= most) by (nonlinear_arith)
        requires
            least * d <= w <= most * d,
            d > 0,
    ;
}

/// The setting, rounded down.
pub fn lerp(severity: Ratio, lo: u64, hi: u64) -> (r: u64)
    requires
        lo <= DIAL_MAX,
        hi <= DIAL_MAX,
    ensures
        r == dial_down(severity, lo as int, hi as int),
        lo <= r <= hi || hi <= r <= lo,
{
    let c: Ratio = clamp_severity(severity);
    proof {
        lemma_weighted(severity, lo as int, hi as int);
    }
    let (n, d): (u64, u64) = (c.num as u64, c.den as u64);
    (lo * (d - n) + hi * n) / d
}

/// The setting, rounded to the nearest integer.
pub fn lerp_round(severity: Ratio, lo: u64, hi: u64) -> (r: u64)
    requires
        lo <= DIAL_MAX,
        hi <= DIAL_MAX,
    ensures
        r == dial_near(severity, lo as int, hi as int),
        lo <= r <= hi || hi <= r <= lo,
{
    let c: Ratio = clamp_severity(severity);
    proof {
        lemma_weighted(severity, lo as int, hi as int);
    }
    let (n, d): (u64, u64) = (c.num as u64, c.den as u64);
    let w: u64 = lo * (d - n) + hi * n;
    ((2u128 * w as u128 + d as u128) / (2u128 * d as u128)) as u64
}

// ─── Laws ───────────────────────────────────────────────────────────

/// A higher severity never moves a setting back towards its first end.
pub proof fn dial_is_monotone(a: Ratio, b: Ratio, lo: int, hi: int)
    requires
        a.den > 0,
        b.den > 0,
        a.num * b.den <= b.num * a.den,
    ensures
        lo <= hi ==> dial_down(a, lo, hi) <= dial_down(b, lo, hi),
        lo <= hi ==> dial_near(a, lo, hi) <= dial_near(b, lo, hi),
        hi <= lo ==> dial_down(b, lo, hi) <= dial_down(a, lo, hi),
        hi <= lo ==> dial_near(b, lo, hi) <= dial_near(a, lo, hi),
{
    let (x, y) = (capped_at_one(a), capped_at_one(b));
    let (m, d) = (x.num as int, x.den as int);
    let (n, e) = (y.num as int, y.den as int);
    assert(m * e <= n * d) by {
        if a.num >= a.den {
            assert(b.num >= b.den) by (nonlinear_arith)
                requires
                    a.num * b.den <= b.num * a.den,
                    a.num >= a.den,
                    a.den > 0,
                    b.den > 0,
            ;
        } else if b.num >= b.den {
            assert(m * 1 <= 1 * d);
        }
    }
    let (v, w) = (weighted(a, lo, hi), weighted(b, lo, hi));
    assert(v == lo * d + (hi - lo) * m) by (nonlinear_arith)
        requires
            v == lo * (d - m) + hi * m,
    ;
    assert(w == lo * e + (hi - lo) * n) by (nonlinear_arith)
        requires
            w == lo * (e - n) + hi * n,
    ;
    lemma_spread(lo, hi - lo, m, d, n, e);
    if lo <= hi {
        lemma_quotients(v, d, w, e);
    }
    if hi <= lo {
        lemma_quotients(w, e, v, d);
    }
}

/// Going the larger part of the same way gets further.
proof fn lemma_spread(lo: int, k: int, m: int, d: int, n: int, e: int)
    requires
        m * e <= n * d,
    ensures
        k >= 0 ==> (lo * d + k * m) * e <= (lo * e + k * n) * d,
        k <= 0 ==> (lo * e + k * n) * d <= (lo * d + k * m) * e,
{
    assert((lo * d + k * m) * e == lo * d * e + k * (m * e)) by (nonlinear_arith);
    assert((lo * e + k * n) * d == lo * d * e + k * (n * d)) by (nonlinear_arith);
    let (x, y) = (m * e, n * d);
    if k >= 0 {
        assert(k * x <= k * y) by (nonlinear_arith)
            requires
                x <= y,
                k >= 0,
        ;
    }
    if k <= 0 {
        assert(k * y <= k * x) by (nonlinear_arith)
            requires
                x <= y,
                k <= 0,
        ;
    }
}

/// A smaller fraction is rounded to a smaller integer, either way.
proof fn lemma_quotients(v: int, d: int, w: int, e: int)
    requires
        d > 0,
        e > 0,
        v * e <= w * d,
    ensures
        v / d <= w / e,
        (2 * v + d) / (2 * d) <= (2 * w + e) / (2 * e),
{
    lemma_floor(v, d, w, e);
    assert((2 * v + d) * (2 * e) <= (2 * w + e) * (2 * d)) by (nonlinear_arith)
        requires
            v * e <= w * d,
    ;
    lemma_floor(2 * v + d, 2 * d, 2 * w + e, 2 * e);
}

proof fn lemma_floor(v: int, d: int, w: int, e: int)
    requires
        d > 0,
        e > 0,
        v * e <= w * d,
    ensures
        v / d <= w / e,
{
    let (p, q) = (v / d, w / e);
    vstd::arithmetic::div_mod::lemma_fundamental_div_mod(v, d);
    vstd::arithmetic::div_mod::lemma_fundamental_div_mod(w, e);
    assert(p <= q) by (nonlinear_arith)
        requires
            d > 0,
            e > 0,
            v * e <= w * d,
            v == d * p + v % d,
            0 <= v % d,
            w == e * q + w % e,
            w % e < e,
    {
        if p >= q + 1 {
            assert(d * p >= d * (q + 1));
            assert(v >= d * (q + 1));
            assert(v * e >= d * (q + 1) * e);
            assert(w < e * (q + 1));
            assert(w * d < e * (q + 1) * d);
        }
    }
}

/// A dial stands at one end without severity and at the other with all of it, and lies
/// the severity of the way between them, rounded down or to the nearest.
pub proof fn dials_go_from_end_to_end(s: Ratio, lo: int, hi: int)
    ensures
        s.num == 0 && s.den > 0 ==> dial_down(s, lo, hi) == lo && dial_near(s, lo, hi) == lo,
        s.num >= s.den ==> dial_down(s, lo, hi) == hi && dial_near(s, lo, hi) == hi,
        0 < s.num < s.den ==> dial_down(s, lo, hi) * s.den <= lo * (s.den - s.num) + hi * s.num < (dial_down(
            s,
            lo,
            hi,
        ) + 1) * s.den,
        0 < s.num < s.den ==> 2 * dial_near(s, lo, hi) * s.den <= 2 * (lo * (s.den - s.num) + hi * s.num) + s.den < 2
            * (dial_near(s, lo, hi) + 1) * s.den,
{
    let c = capped_at_one(s);
    let (n, d) = (c.num as int, c.den as int);
    let w = lo * (d - n) + hi * n;
    if n == 0 || n == d {
        let e = if n == 0 {
            lo
        } else {
            hi
        };
        assert(w == e * d) by (nonlinear_arith)
            requires
                w == lo * (d - n) + hi * n,
                n == 0 && e == lo || n == d && e == hi,
        ;
        if d > 0 {
            assert((e * d) / d == e && (2 * (e * d) + d) / (2 * d) == e) by (nonlinear_arith)
                requires
                    d > 0,
            ;
        }
    } else {
        vstd::arithmetic::div_mod::lemma_fundamental_div_mod(w, d);
        vstd::arithmetic::div_mod::lemma_mod_bound(w, d);
        let x = 2 * w + d;
        vstd::arithmetic::div_mod::lemma_fundamental_div_mod(x, 2 * d);
        vstd::arithmetic::div_mod::lemma_mod_bound(x, 2 * d);
        let (q, r) = (w / d, x / (2 * d));
        assert(q * d <= w < (q + 1) * d) by (nonlinear_arith)
            requires
                w == d * q + w % d,
                0 <= w % d < d,
        ;
        assert(2 * r * d <= x < 2 * (r + 1) * d) by (nonlinear_arith)
            requires
                x == (2 * d) * r + x % (2 * d),
                0 <= x % (2 * d) < 2 * d,
        ;
    }
}

} // verus!
