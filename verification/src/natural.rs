//! Natural numbers of any size, for sums and products that no machine integer
//! holds.

use vstd::prelude::*;

verus! {

/// How many values a digit has.
pub const BASE: u64 = 0x1_0000_0000;

/// The weight of a digit at a place.
pub open spec fn weight(place: nat) -> nat
    decreases place,
{
    if place == 0 {
        1
    } else {
        BASE as nat * weight((place - 1) as nat)
    }
}

/// The number that digits stand for, the least first.
pub open spec fn number(digits: Seq<u32>) -> nat
    decreases digits.len(),
{
    if digits.len() == 0 {
        0
    } else {
        number(digits.drop_last()) + digits.last() as nat * weight((digits.len() - 1) as nat)
    }
}

/// A natural number.
#[derive(Debug)]
pub struct Natural {
    digits: Vec<u32>,
}

impl View for Natural {
    type V = nat;

    closed spec fn view(&self) -> nat {
        number(self.digits@)
    }
}

proof fn lemma_weight_positive(place: nat)
    ensures
        weight(place) > 0,
    decreases place,
{
    if place > 0 {
        lemma_weight_positive((place - 1) as nat);
        assert(BASE as nat * weight((place - 1) as nat) > 0) by (nonlinear_arith)
            requires
                weight((place - 1) as nat) > 0,
                BASE > 0,
        ;
    }
}

/// One digit more.
proof fn lemma_push(digits: Seq<u32>, d: u32)
    ensures
        number(digits.push(d)) == number(digits) + d as nat * weight(digits.len()),
{
    assert(digits.push(d).drop_last() =~= digits);
}

/// Digits never reach the weight of the next place.
proof fn lemma_below(digits: Seq<u32>)
    ensures
        number(digits) < weight(digits.len()),
    decreases digits.len(),
{
    if digits.len() > 0 {
        let head = digits.drop_last();
        lemma_below(head);
        let (d, w) = (digits.last() as nat, weight(head.len()));
        assert(d * w + w <= BASE as nat * w) by (nonlinear_arith)
            requires
                d + 1 <= BASE,
        ;
    }
}

/// The least digit and the others, one place up.
proof fn lemma_front(digits: Seq<u32>)
    requires
        digits.len() > 0,
    ensures
        number(digits) == digits[0] + BASE as nat * number(digits.skip(1)),
    decreases digits.len(),
{
    let rest = digits.skip(1);
    if digits.len() == 1 {
        assert(rest.len() == 0);
        assert(number(digits.drop_last()) == 0 && number(rest) == 0);
        let (d, w) = (digits.last() as nat, weight(0));
        assert(d * w == d && BASE as nat * 0 == 0) by (nonlinear_arith)
            requires
                w == 1,
        ;
    } else {
        let head = digits.drop_last();
        lemma_front(head);
        assert(head.skip(1) =~= rest.drop_last());
        let (d, w) = (digits.last() as nat, weight((rest.len() - 1) as nat));
        let n = number(rest.drop_last());
        assert(BASE as nat * (n + d * w) == BASE as nat * n + d * (BASE as nat * w)) by (nonlinear_arith);
    }
}

/// Two numbers whose upper digits agree differ as the lower ones do.
proof fn lemma_lower_part(a: Seq<u32>, b: Seq<u32>, n: int)
    requires
        a.len() == b.len(),
        0 <= n <= a.len(),
        forall|i: int| n <= i < a.len() ==> a[i] == b[i],
    ensures
        number(a) - number(b) == number(a.take(n)) - number(b.take(n)),
    decreases a.len(),
{
    if n == a.len() {
        assert(a.take(n) =~= a);
        assert(b.take(n) =~= b);
    } else {
        lemma_lower_part(a.drop_last(), b.drop_last(), n);
        assert(a.drop_last().take(n) =~= a.take(n));
        assert(b.drop_last().take(n) =~= b.take(n));
        assert(a[a.len() - 1] == b[a.len() - 1]);
    }
}

/// A smaller upper digit makes a smaller number.
proof fn lemma_upper_digit(a: Seq<u32>, b: Seq<u32>)
    requires
        a.len() == b.len(),
        a.len() > 0,
        a.last() < b.last(),
    ensures
        number(a) < number(b),
{
    let n = (a.len() - 1) as nat;
    lemma_below(a.drop_last());
    let (x, y, w) = (a.last() as nat, b.last() as nat, weight(n));
    assert(x * w + w <= y * w) by (nonlinear_arith)
        requires
            x + 1 <= y,
    ;
}

impl Natural {
    /// Zero.
    pub fn zero() -> (r: Natural)
        ensures
            r@ == 0,
    {
        Natural { digits: Vec::new() }
    }

    /// A machine integer.
    pub fn of(n: u128) -> (r: Natural)
        ensures
            r@ == n,
    {
        let mut digits: Vec<u32> = Vec::new();
        let mut rest: u128 = n;
        assert(rest as nat * weight(0) == rest) by (nonlinear_arith)
            requires
                weight(0) == 1,
        ;
        while rest > 0
            invariant
                n == number(digits@) + rest as nat * weight(digits@.len()),
            decreases rest,
        {
            let d: u32 = (rest % BASE as u128) as u32;
            let ghost before = digits@;
            digits.push(d);
            proof {
                lemma_push(before, d);
                let (q, w, b) = (rest as nat / BASE as nat, weight(before.len()), BASE as nat);
                assert(rest as nat == q * b + d as nat);
                assert((q * b + d as nat) * w == q * (b * w) + d as nat * w) by (nonlinear_arith);
            }
            rest = rest / BASE as u128;
        }
        proof {
            assert(0 * weight(digits@.len()) == 0) by (nonlinear_arith);
        }
        Natural { digits }
    }

    /// The digits, the least first.
    pub fn digits(&self) -> (r: &Vec<u32>)
        ensures
            number(r@) == self@,
    {
        &self.digits
    }

    fn digit(&self, i: usize) -> (d: u32)
        ensures
            d == (if i < self.digits@.len() {
                self.digits@[i as int]
            } else {
                0
            }),
    {
        if i < self.digits.len() {
            self.digits[i]
        } else {
            0
        }
    }

    /// The sum of two numbers.
    pub fn plus(&self, other: &Natural) -> (r: Natural)
        ensures
            r@ == self@ + other@,
    {
        let n: usize = if self.digits.len() < other.digits.len() {
            other.digits.len()
        } else {
            self.digits.len()
        };
        let mut digits: Vec<u32> = Vec::new();
        let mut carry: u64 = 0;
        let mut i: usize = 0;
        let ghost (a, b) = (padded(self.digits@, n as nat), padded(other.digits@, n as nat));
        proof {
            lemma_padded(self.digits@, n as nat);
            lemma_padded(other.digits@, n as nat);
            assert(a.take(0).len() == 0 && b.take(0).len() == 0);
            assert(0 * weight(0) == 0) by (nonlinear_arith);
        }
        while i < n
            invariant
                i <= n,
                a == padded(self.digits@, n as nat),
                b == padded(other.digits@, n as nat),
                self.digits@.len() <= n,
                other.digits@.len() <= n,
                a.len() == n,
                b.len() == n,
                digits@.len() == i,
                carry <= 1,
                number(digits@) + carry as nat * weight(i as nat) == number(a.take(i as int)) + number(
                    b.take(i as int),
                ),
            decreases n - i,
        {
            let (x, y): (u32, u32) = (self.digit(i), other.digit(i));
            let t: u64 = x as u64 + y as u64 + carry;
            let ghost before = digits@;
            let d: u32 = (t % BASE) as u32;
            digits.push(d);
            proof {
                lemma_push(before, d);
                assert(a.take(i + 1) =~= a.take(i as int).push(x));
                assert(b.take(i + 1) =~= b.take(i as int).push(y));
                lemma_push(a.take(i as int), x);
                lemma_push(b.take(i as int), y);
                let (q, w, k) = (t as nat / BASE as nat, weight(i as nat), BASE as nat);
                let (dx, dy, dd, c) = (x as nat, y as nat, d as nat, carry as nat);
                assert(dd * w + q * (k * w) == c * w + dx * w + dy * w) by (nonlinear_arith)
                    requires
                        q * k + dd == dx + dy + c,
                ;
            }
            carry = t / BASE;
            i += 1;
        }
        let ghost before = digits@;
        if carry > 0 {
            digits.push(carry as u32);
        }
        proof {
            assert(a.take(n as int) =~= a);
            assert(b.take(n as int) =~= b);
            lemma_push(before, carry as u32);
            assert(0 * weight(n as nat) == 0) by (nonlinear_arith);
        }
        Natural { digits }
    }

    /// A number times a digit.
    fn scaled(&self, k: u32) -> (r: Natural)
        ensures
            r@ == self@ * k as nat,
    {
        let mut digits: Vec<u32> = Vec::new();
        let mut carry: u64 = 0;
        let mut i: usize = 0;
        let ghost s = self.digits@;
        proof {
            assert(s.take(0).len() == 0);
            assert(0 * weight(0) == 0 && 0 * k as nat == 0) by (nonlinear_arith);
        }
        while i < self.digits.len()
            invariant
                s == self.digits@,
                i <= s.len(),
                digits@.len() == i,
                carry < BASE,
                number(digits@) + carry as nat * weight(i as nat) == number(s.take(i as int)) * k as nat,
            decreases s.len() - i,
        {
            let x: u32 = self.digits[i];
            assert(x as u64 * k as u64 + carry <= u64::MAX && x as u64 * k as u64 + carry < BASE as int * BASE as int) by (nonlinear_arith)
                requires
                    x <= 0xffff_ffff,
                    k <= 0xffff_ffff,
                    carry <= 0xffff_ffff,
                    BASE == 0x1_0000_0000,
            ;
            let t: u64 = x as u64 * k as u64 + carry;
            let ghost before = digits@;
            let d: u32 = (t % BASE) as u32;
            digits.push(d);
            proof {
                lemma_push(before, d);
                assert(s.take(i + 1) =~= s.take(i as int).push(x));
                lemma_push(s.take(i as int), x);
                let (q, w, b) = (t as nat / BASE as nat, weight(i as nat), BASE as nat);
                let (dx, dd, c, n, kk) = (x as nat, d as nat, carry as nat, number(s.take(i as int)), k as nat);
                assert(dd * w + q * (b * w) == c * w + (dx * w) * kk) by (nonlinear_arith)
                    requires
                        q * b + dd == dx * kk + c,
                ;
                assert((n + dx * w) * kk == n * kk + (dx * w) * kk) by (nonlinear_arith);
                assert(q < b);
            }
            carry = t / BASE;
            i += 1;
        }
        let ghost before = digits@;
        if carry > 0 {
            digits.push(carry as u32);
        }
        proof {
            assert(s.take(i as int) =~= s);
            lemma_push(before, carry as u32);
            assert(0 * weight(i as nat) == 0) by (nonlinear_arith);
        }
        Natural { digits }
    }

    /// A number one place up.
    fn shifted(&self) -> (r: Natural)
        ensures
            r@ == BASE as nat * self@,
    {
        if self.digits.len() == 0 {
            assert(BASE as nat * 0 == 0) by (nonlinear_arith);
            return Natural::zero();
        }
        let mut digits: Vec<u32> = Vec::new();
        digits.push(0);
        let mut i: usize = 0;
        while i < self.digits.len()
            invariant
                i <= self.digits@.len(),
                digits@ =~= seq![0u32] + self.digits@.take(i as int),
            decreases self.digits@.len() - i,
        {
            digits.push(self.digits[i]);
            i += 1;
        }
        proof {
            assert(self.digits@.take(i as int) =~= self.digits@);
            lemma_front(digits@);
            assert(digits@.skip(1) =~= self.digits@);
        }
        Natural { digits }
    }

    /// The product of two numbers. It takes as many rounds as the second has
    /// digits.
    pub fn times(&self, other: &Natural) -> (r: Natural)
        ensures
            r@ == self@ * other@,
    {
        let mut r: Natural = Natural::zero();
        let mut i: usize = other.digits.len();
        let ghost s = other.digits@;
        proof {
            assert(s.skip(i as int).len() == 0);
            assert(self@ * 0 == 0) by (nonlinear_arith);
        }
        while i > 0
            invariant
                s == other.digits@,
                i <= s.len(),
                r@ == self@ * number(s.skip(i as int)),
            decreases i,
        {
            let d: u32 = other.digits[i - 1];
            let up: Natural = r.shifted();
            let part: Natural = self.scaled(d);
            r = up.plus(&part);
            proof {
                let t = s.skip(i - 1);
                lemma_front(t);
                assert(t.skip(1) =~= s.skip(i as int));
                let (x, n, b, k) = (self@, number(s.skip(i as int)), BASE as nat, d as nat);
                assert(b * (x * n) + x * k == x * (k + b * n)) by (nonlinear_arith);
            }
            i -= 1;
        }
        assert(s.skip(0) =~= s);
        r
    }

    /// Whether a number is below another.
    pub fn is_below(&self, other: &Natural) -> (r: bool)
        ensures
            r == (self@ < other@),
    {
        let n: usize = if self.digits.len() < other.digits.len() {
            other.digits.len()
        } else {
            self.digits.len()
        };
        let ghost (a, b) = (padded(self.digits@, n as nat), padded(other.digits@, n as nat));
        proof {
            lemma_padded(self.digits@, n as nat);
            lemma_padded(other.digits@, n as nat);
        }
        let mut i: usize = n;
        while i > 0
            invariant
                i <= n,
                a == padded(self.digits@, n as nat),
                b == padded(other.digits@, n as nat),
                self.digits@.len() <= n,
                other.digits@.len() <= n,
                a.len() == n,
                b.len() == n,
                number(a) == self@,
                number(b) == other@,
                forall|k: int| i <= k < n ==> a[k] == b[k],
            decreases i,
        {
            let (x, y): (u32, u32) = (self.digit(i - 1), other.digit(i - 1));
            if x != y {
                proof {
                    lemma_lower_part(a, b, i as int);
                    if x < y {
                        lemma_upper_digit(a.take(i as int), b.take(i as int));
                    } else {
                        lemma_upper_digit(b.take(i as int), a.take(i as int));
                    }
                }
                return x < y;
            }
            i -= 1;
        }
        assert(a =~= b);
        false
    }
}

/// Digits with as many zeros on top as make up a length.
spec fn padded(digits: Seq<u32>, n: nat) -> Seq<u32> {
    Seq::new(
        n,
        |i: int|
            if i < digits.len() {
                digits[i]
            } else {
                0
            },
    )
}

/// Zeros on top change nothing.
proof fn lemma_padded(digits: Seq<u32>, n: nat)
    requires
        digits.len() <= n,
    ensures
        number(padded(digits, n)) == number(digits),
    decreases n,
{
    if n == digits.len() {
        assert(padded(digits, n) =~= digits);
    } else {
        let m = (n - 1) as nat;
        lemma_padded(digits, m);
        assert(padded(digits, n).drop_last() =~= padded(digits, m));
        assert(0 * weight(m) == 0) by (nonlinear_arith);
    }
}

} // verus!
