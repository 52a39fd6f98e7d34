//! Double-precision numbers, as far as progress lines need them: non-negative
//! IEEE 754 binary64 values, computed and rounded exactly, in integers.

use vstd::arithmetic::power2::*;
use vstd::prelude::*;

verus! {

/// The least significand of a number other than zero: 2^52.
pub const LOW: u64 = 0x10_0000_0000_0000;

/// One more than the greatest significand: 2^53.
pub const HIGH: u64 = 0x20_0000_0000_0000;

/// A number: `mant` times 2 to the power `exp`.
#[derive(Debug, Clone, Copy, PartialEq, Eq)]
pub struct Binary64 {
    pub mant: u64,
    pub exp: i32,
}

/// `Binary64` by its contents.
#[verifier::ext_equal]
pub struct Binary64View {
    pub mant: nat,
    pub exp: int,
}

impl View for Binary64 {
    type V = Binary64View;

    open spec fn view(&self) -> Binary64View {
        Binary64View { mant: self.mant as nat, exp: self.exp as int }
    }
}

impl Binary64View {
    /// The number is zero, or its significand has all its digits.
    pub open spec fn normal(self) -> bool {
        (self.mant == 0 && self.exp == 0) || LOW <= self.mant < HIGH
    }
}

// ---- rounding ----

/// The whole number nearest to `a / b`; of two, the even one.
pub open spec fn half_even(a: nat, b: nat) -> nat {
    let q = a / b;
    let r = a % b;
    if 2 * r < b || (2 * r == b && q % 2 == 0) {
        q
    } else {
        q + 1
    }
}

/// `n / d` times 2 to the power `e`, with the fraction halved until it is
/// below 2^53.
pub open spec fn shrunk(n: nat, d: nat, e: int) -> (nat, nat, int)
    decreases n - d,
{
    if d > 0 && n >= d * HIGH {
        shrunk(n, 2 * d, e + 1)
    } else {
        (n, d, e)
    }
}

/// `n / d` times 2 to the power `e`, with the fraction doubled until it is at
/// least 2^52.
pub open spec fn grown(n: nat, d: nat, e: int) -> (nat, nat, int)
    decreases d * HIGH - n,
{
    if 0 < n < d * LOW {
        grown(2 * n, d, e - 1)
    } else {
        (n, d, e)
    }
}

/// A significand and its exponent; one that was rounded up to 2^53 is halved.
pub open spec fn carried(m: nat, e: int) -> Binary64View {
    if m == HIGH {
        Binary64View { mant: LOW as nat, exp: e + 1 }
    } else {
        Binary64View { mant: m, exp: e }
    }
}

/// The number nearest to `n / d` times 2 to the power `e`.
pub open spec fn nearest(n: nat, d: nat, e: int) -> Binary64View {
    if n == 0 {
        Binary64View { mant: 0, exp: 0 }
    } else {
        let (n1, d1, e1) = shrunk(n, d, e);
        let (n2, d2, e2) = grown(n1, d1, e1);
        carried(half_even(n2, d2), e2)
    }
}

/// A whole number.
pub open spec fn whole(v: nat) -> Binary64View {
    nearest(v, 1, 0)
}

/// The quotient of two numbers.
pub open spec fn quotient(x: Binary64View, y: Binary64View) -> Binary64View {
    nearest(x.mant, y.mant, x.exp - y.exp)
}

/// A number times a whole number.
pub open spec fn multiple(x: Binary64View, c: nat) -> Binary64View {
    nearest(x.mant * c, 1, x.exp)
}

/// The sum of a whole number and a number without places above the point.
pub open spec fn sum(v: nat, y: Binary64View) -> Binary64View {
    nearest(v * pow2((-y.exp) as nat) + y.mant, 1, y.exp)
}

/// `x` is less than `y`, both with all their digits.
pub open spec fn less(x: Binary64View, y: Binary64View) -> bool {
    if x.mant == 0 || y.mant == 0 {
        x.mant == 0 && y.mant > 0
    } else {
        x.exp < y.exp || (x.exp == y.exp && x.mant < y.mant)
    }
}

/// The whole number nearest to `c` times the number; of two, the even one.
pub open spec fn scaled_even(x: Binary64View, c: nat) -> nat {
    if x.exp >= 0 {
        c * x.mant * pow2(x.exp as nat)
    } else {
        half_even(c * x.mant, pow2((-x.exp) as nat))
    }
}

/// The whole number nearest to a number without places above the point; of
/// two, the greater one.
pub open spec fn half_up(x: Binary64View) -> nat {
    (2 * x.mant + pow2((-x.exp) as nat)) / (2 * pow2((-x.exp) as nat))
}

// ---- what holds of it ----

/// A smaller power has a smaller exponent.
proof fn lemma_log(j: nat, x: nat, t: nat)
    requires
        pow2(j) <= x,
        x < pow2(t),
    ensures
        j < t,
{
    if t < j {
        lemma_pow2_strictly_increases(t, j);
    }
}

/// Powers double.
proof fn lemma_double(j: nat)
    ensures
        pow2(j + 1) == 2 * pow2(j),
        pow2(j) > 0,
{
    lemma_pow2_unfold(j + 1);
    lemma_pow2_pos(j);
}

/// Halving leaves a fraction below 2^53, and touches none that is.
proof fn lemma_shrunk(n: nat, d: nat, e: int)
    requires
        d > 0,
        n > 0,
    ensures
        shrunk(n, d, e).0 == n,
        shrunk(n, d, e).1 >= d,
        shrunk(n, d, e).2 >= e,
        n < shrunk(n, d, e).1 * HIGH,
        n < d * HIGH ==> shrunk(n, d, e) == (n, d, e),
        n >= d * HIGH ==> n >= shrunk(n, d, e).1 * LOW,
    decreases n - d,
{
    if n >= d * HIGH {
        lemma_shrunk(n, 2 * d, e + 1);
    }
}

/// Doubling leaves a fraction from 2^52 to 2^53, and touches none that is.
proof fn lemma_grown(n: nat, d: nat, e: int)
    requires
        d > 0,
        n > 0,
        n < d * HIGH,
    ensures
        grown(n, d, e).1 == d,
        grown(n, d, e).2 <= e,
        d * LOW <= grown(n, d, e).0 < d * HIGH,
        n >= d * LOW ==> grown(n, d, e) == (n, d, e),
    decreases d * HIGH - n,
{
    if n < d * LOW {
        lemma_grown(2 * n, d, e - 1);
    }
}

/// A fraction from 2^52 to 2^53 rounds to a whole number in that range.
proof fn lemma_half_even_range(a: nat, b: nat)
    requires
        b > 0,
        b * LOW <= a < b * HIGH,
    ensures
        LOW <= half_even(a, b) <= HIGH,
{
    let q = a / b;
    let r = a % b;
    assert(a == b * q + r && 0 <= r < b) by {
        vstd::arithmetic::div_mod::lemma_fundamental_div_mod(a as int, b as int);
        vstd::arithmetic::div_mod::lemma_mod_bound(a as int, b as int);
    }
    assert(q >= LOW) by (nonlinear_arith)
        requires
            b > 0,
            b * LOW <= a,
            a == b * q + r,
            r < b,
    ;
    assert(q < HIGH) by (nonlinear_arith)
        requires
            b > 0,
            a < b * HIGH,
            a == b * q + r,
            r >= 0,
    ;
}

/// Rounding gives a number with all its digits.
pub proof fn law_nearest_normal(n: nat, d: nat, e: int)
    requires
        d > 0,
    ensures
        nearest(n, d, e).normal(),
        n > 0 ==> nearest(n, d, e).mant > 0,
{
    if n > 0 {
        lemma_shrunk(n, d, e);
        let (n1, d1, e1) = shrunk(n, d, e);
        lemma_grown(n1, d1, e1);
        let (n2, d2, e2) = grown(n1, d1, e1);
        lemma_half_even_range(n2, d2);
    }
}

/// A fraction below 2^t has an exponent to match after halving.
proof fn lemma_shrunk_ceiling(n: nat, d: nat, e: int, t: nat)
    requires
        d > 0,
        n > 0,
        n < d * pow2(t),
        n >= d * LOW,
    ensures
        shrunk(n, d, e).2 + 53 <= e + t || shrunk(n, d, e).2 == e,
    decreases n - d,
{
    if n >= d * HIGH {
        lemma2_to64();
        lemma2_to64_rest();
        assert(pow2(53) == HIGH);
        assert(pow2(t) > pow2(53)) by (nonlinear_arith)
            requires
                n < d * pow2(t),
                n >= d * pow2(53),
                d > 0,
        ;
        lemma_log(53, pow2(53), t);
        let s = (t - 1) as nat;
        lemma_double(s);
        assert(d * pow2(t) == (2 * d) * pow2(s)) by (nonlinear_arith)
            requires
                pow2(t) == 2 * pow2(s),
        ;
        lemma_shrunk_ceiling(n, 2 * d, e + 1, s);
    }
}

/// A fraction below 2^t has an exponent to match after doubling.
proof fn lemma_grown_ceiling(n: nat, d: nat, e: int, t: nat)
    requires
        d > 0,
        n > 0,
        n < d * pow2(t),
        n < d * HIGH,
    ensures
        grown(n, d, e).2 + 53 <= e + t,
    decreases d * HIGH - n,
{
    lemma2_to64();
    lemma2_to64_rest();
    if n < d * LOW {
        lemma_double(t);
        assert(2 * n < d * pow2(t + 1)) by (nonlinear_arith)
            requires
                n < d * pow2(t),
                pow2(t + 1) == 2 * pow2(t),
        ;
        lemma_grown_ceiling(2 * n, d, e - 1, t + 1);
    } else {
        assert(pow2(52) == LOW);
        assert(pow2(t) > pow2(52)) by (nonlinear_arith)
            requires
                n < d * pow2(t),
                n >= d * pow2(52),
                d > 0,
        ;
        lemma_log(52, pow2(52), t);
    }
}

/// What is below 2^(e + t) has an exponent no greater than e + t - 52.
pub proof fn law_nearest_ceiling(n: nat, d: nat, e: int, t: nat)
    requires
        d > 0,
        n > 0,
        n < d * pow2(t),
    ensures
        nearest(n, d, e).exp + 52 <= e + t,
{
    lemma_shrunk(n, d, e);
    let (n1, d1, e1) = shrunk(n, d, e);
    lemma_grown(n1, d1, e1);
    if n >= d * HIGH {
        lemma_shrunk_ceiling(n, d, e, t);
        lemma2_to64();
        lemma2_to64_rest();
        assert(pow2(t) > pow2(53)) by (nonlinear_arith)
            requires
                n < d * pow2(t),
                n >= d * pow2(53),
                d > 0,
        ;
        lemma_log(53, pow2(53), t);
    } else {
        lemma_grown_ceiling(n, d, e, t);
    }
}

/// What is at least 2^(e - s + 52) has an exponent no less than e - s.
pub proof fn law_nearest_floor(n: nat, d: nat, e: int, s: nat)
    requires
        d > 0,
        n > 0,
        n * pow2(s) >= d * LOW,
    ensures
        nearest(n, d, e).exp >= e - s,
{
    lemma_shrunk(n, d, e);
    let (n1, d1, e1) = shrunk(n, d, e);
    lemma_grown(n1, d1, e1);
    if n < d * HIGH {
        lemma_grown_floor(n, d, e, s);
    }
}

proof fn lemma_grown_floor(n: nat, d: nat, e: int, s: nat)
    requires
        d > 0,
        n > 0,
        n < d * HIGH,
        n * pow2(s) >= d * LOW,
    ensures
        grown(n, d, e).2 >= e - s,
    decreases s,
{
    if n < d * LOW {
        if s == 0 {
            lemma2_to64();
            assert(n * pow2(0) == n);
        } else {
            let p = (s - 1) as nat;
            lemma_double(p);
            assert((2 * n) * pow2(p) == n * pow2(s)) by (nonlinear_arith)
                requires
                    pow2(s) == 2 * pow2(p),
            ;
            lemma_grown_floor(2 * n, d, e - 1, p);
        }
    }
}

// ---- computing ----

/// Rounds a fraction to a whole number.
fn round_even(a: u128, b: u128) -> (r: u128)
    requires
        0 < b < 0x1000_0000_0000_0000_0000_0000_0000_0000,
        a < 0x1000_0000_0000_0000_0000_0000_0000_0000,
    ensures
        r == half_even(a as nat, b as nat),
        r <= a + 1,
{
    let q: u128 = a / b;
    let m: u128 = a % b;
    proof {
        vstd::arithmetic::div_mod::lemma_div_is_ordered_by_denominator(a as int, 1, b as int);
        vstd::arithmetic::div_mod::lemma_div_basics(a as int);
    }
    if 2 * m < b || (2 * m == b && q % 2 == 0) {
        q
    } else {
        q + 1
    }
}

/// Rounds `n0 / d0` times 2 to the power `e0`.
fn round(n0: u128, d0: u128, e0: i32) -> (r: Binary64)
    requires
        0 < d0 < 0x1000_0000_0000_0000,
        n0 < 0x100_0000_0000_0000_0000_0000_0000_0000,
        -2000 <= e0 <= 2000,
    ensures
        r@ == nearest(n0 as nat, d0 as nat, e0 as int),
        r@.normal(),
        n0 > 0 ==> r.mant > 0,
        n0 > 0 ==> e0 - 200 <= r.exp <= e0 + 200,
{
    proof {
        lemma2_to64();
        lemma2_to64_rest();
        law_nearest_normal(n0 as nat, d0 as nat, e0 as int);
    }
    if n0 == 0 {
        return Binary64 { mant: 0, exp: 0 };
    }
    let high: u128 = HIGH as u128;
    let low: u128 = LOW as u128;
    let mut d: u128 = d0;
    let mut e: i32 = e0;
    let ghost mut j: nat = 0;
    assert(pow2(120) == 0x100_0000_0000_0000_0000_0000_0000_0000) by {
        lemma_pow2_adds(60, 60);
    }
    while n0 >= d * high
        invariant
            high == HIGH,
            0 < n0 < 0x100_0000_0000_0000_0000_0000_0000_0000,
            0 < d < 0x10_0000_0000_0000_0000,
            d >= pow2(j),
            e == e0 + j,
            j < 120,
            -2000 <= e0 <= 2000,
            pow2(120) == 0x100_0000_0000_0000_0000_0000_0000_0000,
            shrunk(n0 as nat, d as nat, e as int) == shrunk(n0 as nat, d0 as nat, e0 as int),
        decreases n0 - d,
    {
        proof {
            lemma_double(j);
            assert(d * HIGH <= n0);
            assert(d < 0x8_0000_0000_0000_0000);
            lemma_log(j + 1, (2 * d) as nat, 120);
            j = j + 1;
        }
        d = 2 * d;
        e = e + 1;
    }
    let ghost e1 = e;
    let mut n: u128 = n0;
    let ghost mut i: nat = 0;
    proof {
        lemma_shrunk(n0 as nat, d0 as nat, e0 as int);
    }
    let ghost (n1, d1, k1) = shrunk(n0 as nat, d0 as nat, e0 as int);
    assert(shrunk(n0 as nat, d as nat, e as int) == (n0 as nat, d as nat, e as int));
    proof {
        lemma_grown(n1, d1, k1);
        lemma2_to64();
    }
    assert(pow2(0) == 1);
    while n < d * low
        invariant
            low == LOW,
            0 < d < 0x10_0000_0000_0000_0000,
            d1 == d,
            n >= pow2(i),
            n > 0,
            n < d * HIGH,
            e == e1 - i,
            i < 122,
            -2000 <= e1 <= 2120,
            grown(n as nat, d as nat, e as int) == grown(n1, d1, k1),
        decreases d * HIGH - n,
    {
        proof {
            lemma_double(i);
            assert(pow2(122) == 0x400_0000_0000_0000_0000_0000_0000_0000) by {
                lemma2_to64();
                lemma2_to64_rest();
                lemma_pow2_adds(60, 60);
                lemma_pow2_adds(120, 2);
            }
            lemma_log(i + 1, (2 * n) as nat, 122);
            i = i + 1;
        }
        n = 2 * n;
        e = e - 1;
    }
    proof {
        lemma_half_even_range(n as nat, d as nat);
    }
    let m: u128 = round_even(n, d);
    if m == high {
        Binary64 { mant: LOW, exp: e + 1 }
    } else {
        Binary64 { mant: m as u64, exp: e }
    }
}

/// 2 to the power `k`.
fn power(k: u32) -> (r: u128)
    requires
        k <= 120,
    ensures
        r == pow2(k as nat),
        r <= 0x100_0000_0000_0000_0000_0000_0000_0000,
{
    let mut r: u128 = 1;
    let mut i: u32 = 0;
    proof {
        lemma2_to64();
        lemma2_to64_rest();
        lemma_pow2_adds(60, 60);
    }
    while i < k
        invariant
            i <= k <= 120,
            r == pow2(i as nat),
            pow2(120) == 0x100_0000_0000_0000_0000_0000_0000_0000,
        decreases k - i,
    {
        proof {
            lemma_double(i as nat);
            lemma_pow2_strictly_increases(i as nat, 120);
        }
        r = 2 * r;
        i += 1;
    }
    proof {
        if k < 120 {
            lemma_pow2_strictly_increases(k as nat, 120);
        }
    }
    r
}

impl Binary64 {
    /// A whole number.
    pub fn of_u64(v: u64) -> (r: Binary64)
        ensures
            r@ == whole(v as nat),
            r@.normal(),
            v > 0 ==> r.mant > 0,
            -52 <= r.exp <= 12,
    {
        let r = round(v as u128, 1, 0);
        proof {
            if v > 0 {
                lemma2_to64();
                lemma2_to64_rest();
                law_nearest_ceiling(v as nat, 1, 0, 64);
                assert(v as nat * pow2(52) >= LOW) by (nonlinear_arith)
                    requires
                        v > 0,
                        pow2(52) == LOW,
                ;
                law_nearest_floor(v as nat, 1, 0, 52);
            }
        }
        r
    }

    /// The quotient of two whole numbers below 2^60.
    pub fn ratio(n: u64, d: u64) -> (r: Binary64)
        requires
            0 < d < 0x1000_0000_0000_0000,
        ensures
            r@ == nearest(n as nat, d as nat, 0),
            r@.normal(),
            n > 0 ==> r.mant > 0,
            -200 <= r.exp <= 200,
    {
        round(n as u128, d as u128, 0)
    }

    /// The quotient of two numbers.
    pub fn divided_by(self, y: Binary64) -> (r: Binary64)
        requires
            self@.normal(),
            y@.normal(),
            y.mant > 0,
            -1000 <= self.exp <= 1000,
            -1000 <= y.exp <= 1000,
        ensures
            r@ == quotient(self@, y@),
            r@.normal(),
            r.exp <= self.exp - y.exp - 51 || r.mant == 0,
            -2200 <= r.exp <= 2200,
    {
        let r = round(self.mant as u128, y.mant as u128, self.exp - y.exp);
        proof {
            if self.mant > 0 {
                lemma2_to64();
                assert(self.mant < y.mant * pow2(1));
                law_nearest_ceiling(self.mant as nat, y.mant as nat, self.exp - y.exp, 1);
            }
        }
        r
    }

    /// The number times a small whole number.
    pub fn times(self, c: u64) -> (r: Binary64)
        requires
            self@.normal(),
            0 < c <= 128,
            -2000 <= self.exp <= 1000,
        ensures
            r@ == multiple(self@, c as nat),
            r@.normal(),
            r.exp <= self.exp + 8 || r.mant == 0,
            -2200 <= r.exp <= 2200,
    {
        assert(self.mant * c < 0x1000_0000_0000_0000) by (nonlinear_arith)
            requires
                self.mant < 0x20_0000_0000_0000,
                c <= 128,
        ;
        let n: u128 = self.mant as u128 * c as u128;
        let r = round(n, 1, self.exp);
        proof {
            assert(n == self.mant * c);
            if self.mant > 0 {
                assert(self.mant * c > 0) by (nonlinear_arith)
                    requires
                        self.mant > 0,
                        c > 0,
                ;
                lemma2_to64();
                lemma2_to64_rest();
                law_nearest_ceiling(n as nat, 1, self.exp as int, 60);
            } else {
                assert(0 * c == 0) by (nonlinear_arith);
            }
        }
        r
    }

    /// The sum of a whole number and this one, which has no places above the
    /// point.
    pub fn plus(self, v: u64) -> (r: Binary64)
        requires
            self@.normal(),
            v < 0x8_0000_0000,
            -82 <= self.exp <= 0,
        ensures
            r@ == sum(v as nat, self@),
            r@.normal(),
            v > 0 || self.mant > 0 ==> r.mant > 0,
            -300 <= r.exp <= 200,
            self.exp < -16 || self.mant == 0 ==> r.exp <= -15 || r.mant == 0,
    {
        let k: u32 = (-self.exp) as u32;
        let p = power(k);
        proof {
            lemma2_to64();
            lemma2_to64_rest();
            lemma_pow2_adds(60, 22);
            if k < 82 {
                lemma_pow2_strictly_increases(k as nat, 82);
            }
            lemma_pow2_pos(k as nat);
        }
        assert(pow2(82) == 0x4_0000_0000_0000_0000_0000);
        assert(p <= 0x4_0000_0000_0000_0000_0000);
        assert(v * p < 0x20_0000_0000_0000_0000_0000_0000_0000) by (nonlinear_arith)
            requires
                v < 0x8_0000_0000,
                0 <= p <= 0x4_0000_0000_0000_0000_0000,
        ;
        let n: u128 = v as u128 * p + self.mant as u128;
        let r = round(n, 1, self.exp);
        proof {
            if v > 0 {
                assert(v * p > 0) by (nonlinear_arith)
                    requires
                        v > 0,
                        p > 0,
                ;
            }
            if self.mant == 0 && n > 0 {
                assert(k == 0 && p == 1);
                assert(v * p == v) by (nonlinear_arith)
                    requires
                        p == 1,
                ;
                law_nearest_ceiling(n as nat, 1, 0, 35);
            } else if self.exp < -16 && n > 0 {
                let t = (36 + k) as nat;
                lemma_pow2_adds(36, k as nat);
                lemma_pow2_adds(35, k as nat);
                assert(v * p <= 0x7_ffff_ffff * p) by (nonlinear_arith)
                    requires
                        v <= 0x7_ffff_ffff,
                        p >= 0,
                ;
                if k < 17 {
                } else if k > 17 {
                    lemma_pow2_strictly_increases(17, k as nat);
                }
                assert(self.mant < 0x10_0000_0000 * p) by (nonlinear_arith)
                    requires
                        self.mant < 0x20_0000_0000_0000,
                        p >= 0x2_0000,
                ;
                assert(n < 0x8_0000_0000 * p + 0x10_0000_0000 * p);
                assert(pow2(t) == 0x10_0000_0000 * p);
                let u = (t + 1) as nat;
                lemma_double(t);
                law_nearest_ceiling(n as nat, 1, self.exp as int, u);
            }
        }
        r
    }

    /// Whether this number is less than `y`.
    pub fn is_less(self, y: Binary64) -> (r: bool)
        ensures
            r == less(self@, y@),
    {
        if self.mant == 0 || y.mant == 0 {
            self.mant == 0 && y.mant > 0
        } else {
            self.exp < y.exp || (self.exp == y.exp && self.mant < y.mant)
        }
    }

    /// The whole number nearest to `c` times this number; of two, the even
    /// one.
    pub fn scaled(self, c: u64) -> (r: u64)
        requires
            self@.normal(),
            0 < c <= 10,
            self.exp <= 6,
            -5000 <= self.exp,
        ensures
            r == scaled_even(self@, c as nat),
    {
        assert(self.mant * c < 0x200_0000_0000_0000) by (nonlinear_arith)
            requires
                self.mant < 0x20_0000_0000_0000,
                c <= 10,
        ;
        let a: u64 = self.mant * c;
        assert(a == c as nat * self@.mant) by (nonlinear_arith)
            requires
                a == self.mant * c,
                self@.mant == self.mant as nat,
        ;
        proof {
            lemma2_to64();
            lemma2_to64_rest();
        }
        if self.exp >= 0 {
            let p = power(self.exp as u32);
            proof {
                if self.exp < 6 {
                    lemma_pow2_strictly_increases(self.exp as nat, 6);
                }
            }
            assert(p <= 64);
            assert(a * p <= 0x200_0000_0000_0000 * 64) by (nonlinear_arith)
                requires
                    a < 0x200_0000_0000_0000,
                    0 <= p <= 64,
            ;
            return (a as u128 * p) as u64;
        }
        let k: i32 = -self.exp;
        if k > 120 {
            proof {
                lemma_pow2_strictly_increases(60, k as nat);
                lemma_half_even_small(a as nat, pow2(k as nat));
            }
            return 0;
        }
        let p = power(k as u32);
        proof {
            lemma_pow2_pos(k as nat);
        }
        let q = round_even(a as u128, p);
        q as u64
    }

    /// The whole number nearest to this one, which has no places above the
    /// point; of two, the greater one.
    pub fn rounded(self) -> (r: u64)
        requires
            self@.normal(),
            -5000 <= self.exp <= 0,
        ensures
            r == half_up(self@),
    {
        let k: i32 = -self.exp;
        proof {
            lemma2_to64();
            lemma2_to64_rest();
            lemma_pow2_pos(k as nat);
        }
        if k > 100 {
            proof {
                lemma_pow2_strictly_increases(60, k as nat);
                vstd::arithmetic::div_mod::lemma_basic_div(
                    2 * self.mant + pow2(k as nat),
                    2 * pow2(k as nat) as int,
                );
            }
            return 0;
        }
        let p = power(k as u32);
        proof {
            lemma_pow2_adds(60, 40);
            if k < 100 {
                lemma_pow2_strictly_increases(k as nat, 100);
            }
            assert(pow2(100) == 0x10_0000_0000_0000_0000_0000_0000);
            assert((2 * self.mant + p) / (2 * p) <= self.mant + 1) by (nonlinear_arith)
                requires
                    p >= 1,
                    self.mant >= 0,
            ;
        }
        let q: u128 = (2 * self.mant as u128 + p) / (2 * p);
        q as u64
    }
}

/// A fraction below one half rounds to zero.
proof fn lemma_half_even_small(a: nat, b: nat)
    requires
        2 * a < b,
    ensures
        half_even(a, b) == 0,
{
    vstd::arithmetic::div_mod::lemma_basic_div(a as int, b as int);
    vstd::arithmetic::div_mod::lemma_small_mod(a, b);
}

/// A common factor changes nothing about rounding to a whole number.
proof fn lemma_half_even_factor(a: nat, b: nat, c: nat)
    requires
        b > 0,
        c > 0,
    ensures
        half_even(a * c, b * c) == half_even(a, b),
{
    let q = a / b;
    let r = a % b;
    vstd::arithmetic::div_mod::lemma_fundamental_div_mod(a as int, b as int);
    vstd::arithmetic::div_mod::lemma_mod_bound(a as int, b as int);
    assert(a * c == q * (b * c) + r * c) by (nonlinear_arith)
        requires
            a == b * q + r,
    ;
    assert(0 <= r * c < b * c) by (nonlinear_arith)
        requires
            0 <= r < b,
            c > 0,
    ;
    vstd::arithmetic::div_mod::lemma_fundamental_div_mod_converse(
        (a * c) as int,
        (b * c) as int,
        q as int,
        (r * c) as int,
    );
    assert((2 * (r * c) < b * c) == (2 * r < b)) by (nonlinear_arith)
        requires
            c > 0,
    ;
    assert((2 * (r * c) == b * c) == (2 * r == b)) by (nonlinear_arith)
        requires
            c > 0,
    ;
}

/// A common factor changes nothing about doubling.
proof fn lemma_grown_factor(n: nat, d: nat, e: int, c: nat)
    requires
        d > 0,
        n > 0,
        n < d * HIGH,
        c > 0,
    ensures
        grown(n * c, d * c, e).0 == grown(n, d, e).0 * c,
        grown(n * c, d * c, e).1 == d * c,
        grown(n * c, d * c, e).2 == grown(n, d, e).2,
    decreases d * HIGH - n,
{
    assert(n * c > 0) by (nonlinear_arith)
        requires
            n > 0,
            c > 0,
    ;
    assert((n * c < (d * c) * LOW) == (n < d * LOW)) by (nonlinear_arith)
        requires
            c > 0,
    ;
    if n < d * LOW {
        assert(2 * (n * c) == (2 * n) * c) by (nonlinear_arith);
        lemma_grown_factor(2 * n, d, e - 1, c);
    }
}

/// A number divided by itself is one.
pub proof fn law_quotient_of_equals(x: Binary64View)
    requires
        x.mant > 0,
    ensures
        quotient(x, x) == whole(1),
{
    let c = x.mant;
    assert(1 * c == c);
    lemma_grown_factor(1, 1, 0, c);
    lemma_grown(1, 1, 0);
    lemma_shrunk(1, 1, 0);
    lemma_shrunk(c, c, 0);
    lemma_half_even_factor(grown(1, 1, 0).0, 1, c);
}

/// One, written out.
pub proof fn law_one()
    ensures
        whole(1) == (Binary64View { mant: LOW as nat, exp: -52 }),
{
    lemma2_to64();
    lemma2_to64_rest();
    lemma_shrunk(1, 1, 0);
    lemma_grown_power(0);
}

/// One is doubled 52 times.
proof fn lemma_grown_power(j: nat)
    requires
        j <= 52,
    ensures
        grown(pow2(j), 1, -(j as int)) == (LOW as nat, 1nat, -52int),
    decreases 52 - j,
{
    lemma2_to64();
    lemma2_to64_rest();
    if j < 52 {
        lemma_double(j);
        lemma_pow2_strictly_increases(j, 52);
        lemma_grown_power(j + 1);
    }
}

// ---- order ----

/// `x` is no greater than `y`, both with all their digits.
pub open spec fn at_most(x: Binary64View, y: Binary64View) -> bool {
    !less(y, x)
}

/// Of two numbers that are no greater than each other there is one.
pub proof fn law_order_antisymmetric(x: Binary64View, y: Binary64View)
    requires
        x.normal(),
        y.normal(),
        at_most(x, y),
        at_most(y, x),
    ensures
        x == y,
{
}

/// Fractions in order have their whole parts in order.
proof fn lemma_floor_ordered(a: nat, b: nat, c: nat, d: nat)
    requires
        b > 0,
        d > 0,
        a * d <= c * b,
    ensures
        a / b <= c / d,
{
    let q = a / b;
    let p = c / d;
    vstd::arithmetic::div_mod::lemma_fundamental_div_mod(a as int, b as int);
    vstd::arithmetic::div_mod::lemma_mod_bound(a as int, b as int);
    vstd::arithmetic::div_mod::lemma_fundamental_div_mod(c as int, d as int);
    vstd::arithmetic::div_mod::lemma_mod_bound(c as int, d as int);
    if q > p {
        let r = a % b;
        let t = c % d;
        assert(a == b * q + r && c == d * p + t && t < d);
        assert(c < d * q) by (nonlinear_arith)
            requires
                c == d * p + t,
                t < d,
                q >= p + 1,
        ;
        assert(c * b < d * q * b) by (nonlinear_arith)
            requires
                c < d * q,
                b > 0,
        ;
        assert(d * q * b <= a * d) by (nonlinear_arith)
            requires
                a == b * q + r,
                r >= 0,
                d > 0,
        ;
    }
}

/// Fractions in order are rounded in order.
proof fn lemma_half_even_ordered(a: nat, b: nat, c: nat, d: nat)
    requires
        b > 0,
        d > 0,
        a * d <= c * b,
    ensures
        half_even(a, b) <= half_even(c, d),
{
    lemma_floor_ordered(a, b, c, d);
    vstd::arithmetic::div_mod::lemma_fundamental_div_mod(a as int, b as int);
    vstd::arithmetic::div_mod::lemma_fundamental_div_mod(c as int, d as int);
    let q = a / b;
    let r = a % b;
    let t = c % d;
    if q == c / d {
        assert(a == b * q + r && c == d * q + t);
        assert(r * d <= t * b) by (nonlinear_arith)
            requires
                a == b * q + r,
                c == d * q + t,
                a * d <= c * b,
        ;
        if 2 * r > b {
            assert(2 * t > d) by (nonlinear_arith)
                requires
                    r * d <= t * b,
                    2 * r > b,
                    b > 0,
                    d > 0,
            ;
        }
        if 2 * r == b {
            assert(2 * t >= d) by (nonlinear_arith)
                requires
                    r * d <= t * b,
                    2 * r == b,
                    b > 0,
                    d > 0,
            ;
        }
    }
}

/// Halving multiplies the denominator by a power of two.
proof fn lemma_shrunk_form(n: nat, d: nat, e: int) -> (s: nat)
    requires
        n > 0,
        d > 0,
    ensures
        shrunk(n, d, e) == (n, d * pow2(s), e + s),
    decreases n - d,
{
    if n >= d * HIGH {
        let r = lemma_shrunk_form(n, 2 * d, e + 1);
        lemma_double(r);
        assert((2 * d) * pow2(r) == d * pow2(r + 1)) by (nonlinear_arith)
            requires
                pow2(r + 1) == 2 * pow2(r),
        ;
        r + 1
    } else {
        lemma2_to64();
        assert(d * pow2(0) == d);
        0
    }
}

/// Doubling multiplies the numerator by a power of two.
proof fn lemma_grown_form(n: nat, d: nat, e: int) -> (g: nat)
    requires
        n > 0,
        d > 0,
        n < d * HIGH,
    ensures
        grown(n, d, e) == (n * pow2(g), d, e - g),
    decreases d * HIGH - n,
{
    if n < d * LOW {
        let r = lemma_grown_form(2 * n, d, e - 1);
        lemma_double(r);
        assert((2 * n) * pow2(r) == n * pow2(r + 1)) by (nonlinear_arith)
            requires
                pow2(r + 1) == 2 * pow2(r),
        ;
        r + 1
    } else {
        lemma2_to64();
        assert(n * pow2(0) == n);
        0
    }
}

/// How a fraction is brought into range before it is rounded.
proof fn lemma_nearest_form(n: nat, d: nat, e: int) -> (r: (nat, nat))
    requires
        n > 0,
        d > 0,
    ensures
        ({
            let (s, g) = r;
            let a = n * pow2(g);
            let b = d * pow2(s);
            &&& b > 0
            &&& b * LOW <= a < b * HIGH
            &&& nearest(n, d, e) == carried(half_even(a, b), e + s - g)
        }),
{
    let s = lemma_shrunk_form(n, d, e);
    lemma_shrunk(n, d, e);
    let b = d * pow2(s);
    let g = lemma_grown_form(n, b, e + s);
    lemma_grown(n, b, e + s);
    (s, g)
}

/// Products with powers of two stay in order when the powers are shifted
/// together, or apart in the right direction.
proof fn lemma_shift(x: nat, y: nat, a: nat, b: nat, p: nat, q: nat)
    requires
        x * pow2(a) <= y * pow2(b),
        p + b <= q + a,
    ensures
        x * pow2(p) <= y * pow2(q),
{
    lemma_pow2_adds(p, a);
    lemma_pow2_adds(p, b);
    lemma_pow2_adds(q, a);
    lemma_pow2_pos(a);
    lemma_pow2_pos(p);
    if p + b < q + a {
        lemma_pow2_strictly_increases(p + b, q + a);
    }
    let (pa, pb, pp, pq) = (pow2(a), pow2(b), pow2(p), pow2(q));
    assert(pp * pb <= pq * pa);
    assert(pp * (x * pa) <= pp * (y * pb)) by (nonlinear_arith)
        requires
            x * pa <= y * pb,
            pp > 0,
    ;
    assert(pp * (y * pb) <= (y * pq) * pa) by (nonlinear_arith)
        requires
            pp * pb <= pq * pa,
            y >= 0,
    ;
    assert(x * pp <= y * pq) by (nonlinear_arith)
        requires
            pp * (x * pa) <= (y * pq) * pa,
            pa > 0,
    ;
}

/// What is no greater is rounded to what is no greater: `n1 / d1` times 2 to
/// the power `e1` against `n2 / d2` times 2 to the power `e2`, compared after
/// both are shifted to the same power.
pub proof fn law_nearest_monotone(
    n1: nat,
    d1: nat,
    e1: int,
    n2: nat,
    d2: nat,
    e2: int,
    a1: nat,
    a2: nat,
)
    requires
        d1 > 0,
        d2 > 0,
        a1 - a2 == e1 - e2,
        (n1 * d2) * pow2(a1) <= (n2 * d1) * pow2(a2),
    ensures
        at_most(nearest(n1, d1, e1), nearest(n2, d2, e2)),
{
    law_nearest_normal(n1, d1, e1);
    law_nearest_normal(n2, d2, e2);
    lemma_pow2_pos(a1);
    lemma_pow2_pos(a2);
    if n1 > 0 {
        if n2 == 0 {
            assert((n1 * d2) * pow2(a1) > 0) by (nonlinear_arith)
                requires
                    n1 > 0,
                    d2 > 0,
                    pow2(a1) > 0,
            ;
            assert((n2 * d1) * pow2(a2) == 0) by (nonlinear_arith)
                requires
                    n2 == 0,
            ;
        }
        let (s1, g1) = lemma_nearest_form(n1, d1, e1);
        let (s2, g2) = lemma_nearest_form(n2, d2, e2);
        let a = n1 * pow2(g1);
        let b = d1 * pow2(s1);
        let c = n2 * pow2(g2);
        let d = d2 * pow2(s2);
        let f1 = e1 + s1 - g1;
        let f2 = e2 + s2 - g2;
        lemma_half_even_range(a, b);
        lemma_half_even_range(c, d);
        let x = n1 * d2;
        let y = n2 * d1;
        let p = g1 + s2;
        let q = g2 + s1;
        lemma_pow2_adds(g1, s2);
        lemma_pow2_adds(g2, s1);
        assert(a * d == x * pow2(p)) by (nonlinear_arith)
            requires
                a == n1 * pow2(g1),
                d == d2 * pow2(s2),
                x == n1 * d2,
                pow2(p) == pow2(g1) * pow2(s2),
        ;
        assert(c * b == y * pow2(q)) by (nonlinear_arith)
            requires
                c == n2 * pow2(g2),
                b == d1 * pow2(s1),
                y == n2 * d1,
                pow2(q) == pow2(g2) * pow2(s1),
        ;
        if f1 == f2 {
            lemma_shift(x, y, a1, a2, p, q);
            lemma_half_even_ordered(a, b, c, d);
        } else if f1 > f2 {
            lemma_shift(x, y, a1, a2, p + 1, q);
            lemma_double(p);
            assert(2 * (a * d) <= c * b) by (nonlinear_arith)
                requires
                    a * d == x * pow2(p),
                    c * b == y * pow2(q),
                    x * pow2(p + 1) <= y * pow2(q),
                    pow2(p + 1) == 2 * pow2(p),
            ;
            assert(c * b < 2 * (a * d)) by (nonlinear_arith)
                requires
                    c < d * HIGH,
                    b * LOW <= a,
                    HIGH == 2 * LOW,
                    b > 0,
                    d > 0,
            ;
        }
    }
}

/// Numbers in order, with their exponents made the same.
proof fn lemma_aligned(x: Binary64View, y: Binary64View) -> (r: (nat, nat))
    requires
        x.normal(),
        y.normal(),
        at_most(x, y),
    ensures
        r.0 - r.1 == x.exp - y.exp,
        x.mant * pow2(r.0) <= y.mant * pow2(r.1),
{
    lemma2_to64();
    if x.mant == 0 {
        let r = if y.exp <= 0 {
            ((-y.exp) as nat, 0nat)
        } else {
            (0nat, y.exp as nat)
        };
        assert(x.mant * pow2(r.0) == 0) by (nonlinear_arith)
            requires
                x.mant == 0,
        ;
        assert(y.mant * pow2(r.1) >= 0) by (nonlinear_arith);
        r
    } else if x.exp == y.exp {
        assert(x.mant * pow2(0) <= y.mant * pow2(0));
        (0, 0)
    } else {
        let k = (y.exp - x.exp - 1) as nat;
        lemma_double(k);
        assert(x.mant * pow2(0) == x.mant);
        assert(x.mant <= y.mant * pow2(k + 1)) by (nonlinear_arith)
            requires
                x.mant < HIGH,
                y.mant >= LOW,
                HIGH == 2 * LOW,
                pow2(k + 1) == 2 * pow2(k),
                pow2(k) >= 1,
        ;
        (0, k + 1)
    }
}

/// Whole numbers keep their order.
pub proof fn law_whole_monotone(v: nat, w: nat)
    requires
        v <= w,
    ensures
        at_most(whole(v), whole(w)),
{
    lemma2_to64();
    law_nearest_monotone(v, 1, 0, w, 1, 0, 0, 0);
}

/// Quotients by one number keep the order of what is divided.
pub proof fn law_quotient_monotone(x: Binary64View, y: Binary64View, d: Binary64View)
    requires
        x.normal(),
        y.normal(),
        at_most(x, y),
        d.mant > 0,
    ensures
        at_most(quotient(x, d), quotient(y, d)),
{
    let (a1, a2) = lemma_aligned(x, y);
    let m = d.mant;
    assert((x.mant * m) * pow2(a1) <= (y.mant * m) * pow2(a2)) by (nonlinear_arith)
        requires
            x.mant * pow2(a1) <= y.mant * pow2(a2),
            m > 0,
    ;
    law_nearest_monotone(x.mant, m, x.exp - d.exp, y.mant, m, y.exp - d.exp, a1, a2);
}

/// Multiples keep the order of what is multiplied.
pub proof fn law_multiple_monotone(x: Binary64View, y: Binary64View, c: nat)
    requires
        x.normal(),
        y.normal(),
        at_most(x, y),
    ensures
        at_most(multiple(x, c), multiple(y, c)),
{
    let (a1, a2) = lemma_aligned(x, y);
    assert(((x.mant * c) * 1) * pow2(a1) <= ((y.mant * c) * 1) * pow2(a2)) by (nonlinear_arith)
        requires
            x.mant * pow2(a1) <= y.mant * pow2(a2),
            c >= 0,
    ;
    law_nearest_monotone(x.mant * c, 1, x.exp, y.mant * c, 1, y.exp, a1, a2);
}

/// Numbers without places above the point, in order, as fractions in order.
proof fn lemma_below_point(x: Binary64View, y: Binary64View)
    requires
        x.normal(),
        y.normal(),
        at_most(x, y),
        x.exp <= 0,
        y.exp <= 0,
    ensures
        x.mant * pow2((-y.exp) as nat) <= y.mant * pow2((-x.exp) as nat),
{
    let (a1, a2) = lemma_aligned(x, y);
    lemma_shift(x.mant, y.mant, a1, a2, (-y.exp) as nat, (-x.exp) as nat);
}

/// Numbers without places above the point are rounded to whole numbers in
/// their order, in either way.
pub proof fn law_rounding_monotone(x: Binary64View, y: Binary64View)
    requires
        x.normal(),
        y.normal(),
        at_most(x, y),
        x.exp <= 0,
        y.exp <= 0,
    ensures
        half_up(x) <= half_up(y),
        scaled_even(x, 1) <= scaled_even(y, 1),
{
    lemma_below_point(x, y);
    let p = pow2((-x.exp) as nat);
    let q = pow2((-y.exp) as nat);
    lemma_pow2_pos((-x.exp) as nat);
    lemma_pow2_pos((-y.exp) as nat);
    assert((2 * x.mant + p) * (2 * q) <= (2 * y.mant + q) * (2 * p)) by (nonlinear_arith)
        requires
            x.mant * q <= y.mant * p,
    ;
    lemma_floor_ordered(2 * x.mant + p, 2 * p, 2 * y.mant + q, 2 * q);
    lemma_half_even_ordered(x.mant, p, y.mant, q);
    lemma_scaled_below_point(x);
    lemma_scaled_below_point(y);
}

/// A number without places above the point is rounded as a fraction.
proof fn lemma_scaled_below_point(x: Binary64View)
    requires
        x.exp <= 0,
    ensures
        scaled_even(x, 1) == half_even(x.mant, pow2((-x.exp) as nat)),
{
    lemma2_to64();
    let m = x.mant;
    if x.exp == 0 {
        assert(scaled_even(x, 1) == 1 * m * pow2(0));
        assert(1 * m * pow2(0) == m) by (nonlinear_arith)
            requires
                pow2(0) == 1,
        ;
        assert(half_even(m, 1) == m);
    } else {
        assert(1 * m == m);
    }
}

// ---- nearness ----

/// Rounding a fraction moves it by half of one at most; where it stands half
/// way, to the even neighbour.
pub proof fn law_half_even(a: nat, b: nat)
    requires
        b > 0,
    ensures
        -b <= 2 * (half_even(a, b) * b - a) <= b,
        2 * (half_even(a, b) * b - a) == b || 2 * (half_even(a, b) * b - a) == -b ==> half_even(a, b)
            % 2 == 0,
{
    let q = a / b;
    let r = a % b;
    assert(a == b * q + r && 0 <= r < b) by {
        vstd::arithmetic::div_mod::lemma_fundamental_div_mod(a as int, b as int);
        vstd::arithmetic::div_mod::lemma_mod_bound(a as int, b as int);
    }
    assert(q * b == b * q) by (nonlinear_arith);
    assert((q + 1) * b == b * q + b) by (nonlinear_arith);
}

/// Halving divides by a power of two.
proof fn lemma_shrunk_power(n: nat, d: nat, e: int)
    requires
        d > 0,
        n > 0,
    ensures
        shrunk(n, d, e).2 >= e,
        shrunk(n, d, e).1 == d * pow2((shrunk(n, d, e).2 - e) as nat),
    decreases n - d,
{
    lemma2_to64();
    if n >= d * HIGH {
        lemma_shrunk_power(n, 2 * d, e + 1);
        let k = (shrunk(n, d, e).2 - (e + 1)) as nat;
        lemma_double(k);
        assert((2 * d) * pow2(k) == d * pow2(k + 1)) by (nonlinear_arith)
            requires
                pow2(k + 1) == 2 * pow2(k),
        ;
    } else {
        assert(d * pow2(0) == d) by (nonlinear_arith)
            requires
                pow2(0) == 1,
        ;
    }
}

/// Doubling multiplies by a power of two.
proof fn lemma_grown_by_power(n: nat, d: nat, e: int)
    requires
        d > 0,
        n > 0,
        n < d * HIGH,
    ensures
        grown(n, d, e).2 <= e,
        grown(n, d, e).0 == n * pow2((e - grown(n, d, e).2) as nat),
    decreases d * HIGH - n,
{
    lemma2_to64();
    lemma_grown(n, d, e);
    if n < d * LOW {
        lemma_grown_by_power(2 * n, d, e - 1);
        lemma_grown(2 * n, d, e - 1);
        let k = (e - 1 - grown(n, d, e).2) as nat;
        lemma_double(k);
        assert((2 * n) * pow2(k) == n * pow2(k + 1)) by (nonlinear_arith)
            requires
                pow2(k + 1) == 2 * pow2(k),
        ;
    } else {
        assert(n * pow2(0) == n) by (nonlinear_arith)
            requires
                pow2(0) == 1,
        ;
    }
}

/// The number that stands for `n / d` times 2 to the power `e` is off by half
/// a unit of its last digit at most.
pub proof fn law_nearest_is_near(n: nat, d: nat, e: int)
    requires
        d > 0,
        n > 0,
    ensures
        ({
            let r = nearest(n, d, e);
            &&& r.exp >= e ==> {
                let unit = d * pow2((r.exp - e) as nat);
                -unit <= 2 * (r.mant * unit - n) <= unit
            }
            &&& r.exp < e ==> -d <= 2 * (r.mant * d - n * pow2((e - r.exp) as nat)) <= d
        }),
{
    lemma2_to64();
    lemma_shrunk(n, d, e);
    let (n1, d1, e1) = shrunk(n, d, e);
    lemma_grown(n1, d1, e1);
    let (n2, d2, e2) = grown(n1, d1, e1);
    let m = half_even(n2, d2);
    law_half_even(n2, d2);
    lemma_half_even_range(n2, d2);
    if n >= d * HIGH {
        lemma_near_shrunk(n, d, e, m);
    } else {
        lemma_near_grown(n, d, e, m);
    }
}

proof fn lemma_near_shrunk(n: nat, d: nat, e: int, m: nat)
    requires
        d > 0,
        n >= d * HIGH,
        m <= HIGH,
        -shrunk(n, d, e).1 <= 2 * (m * shrunk(n, d, e).1 - n) <= shrunk(n, d, e).1,
    ensures
        ({
            let r = carried(m, shrunk(n, d, e).2);
            let unit = d * pow2((r.exp - e) as nat);
            r.exp >= e && -unit <= 2 * (r.mant * unit - n) <= unit
        }),
{
    assert(n > 0) by (nonlinear_arith)
        requires
            d > 0,
            n >= d * HIGH,
            HIGH > 0,
    ;
    lemma_shrunk_power(n, d, e);
    let d1 = shrunk(n, d, e).1;
    let k = (shrunk(n, d, e).2 - e) as nat;
    if m == HIGH {
        lemma_double(k);
        let unit = d * pow2(k + 1);
        assert(unit == 2 * d1) by (nonlinear_arith)
            requires
                unit == d * pow2(k + 1),
                d1 == d * pow2(k),
                pow2(k + 1) == 2 * pow2(k),
        ;
        assert(LOW * unit == HIGH * d1) by (nonlinear_arith)
            requires
                unit == 2 * d1,
                HIGH == 2 * LOW,
        ;
        assert(d1 > 0);
    }
}

proof fn lemma_near_grown(n: nat, d: nat, e: int, m: nat)
    requires
        d > 0,
        n > 0,
        n < d * HIGH,
        m <= HIGH,
        -d <= 2 * (m * d - grown(n, d, e).0) <= d,
    ensures
        ({
            let r = carried(m, grown(n, d, e).2);
            &&& r.exp >= e ==> {
                let unit = d * pow2((r.exp - e) as nat);
                -unit <= 2 * (r.mant * unit - n) <= unit
            }
            &&& r.exp < e ==> -d <= 2 * (r.mant * d - n * pow2((e - r.exp) as nat)) <= d
        }),
{
    lemma2_to64();
    lemma_grown_by_power(n, d, e);
    let n2 = grown(n, d, e).0;
    let k = (e - grown(n, d, e).2) as nat;
    assert(pow2(0) == 1);
    assert(n * 1 == n && d * 1 == d);
    if m == HIGH {
        assert(HIGH * d == 2 * (LOW * d));
        if k == 0 {
            assert(pow2(1) == 2);
            assert(LOW * (d * 2) == HIGH * d);
        } else {
            let j = (k - 1) as nat;
            lemma_double(j);
            assert(n2 == 2 * (n * pow2(j))) by (nonlinear_arith)
                requires
                    n2 == n * pow2(k),
                    pow2(k) == 2 * pow2(j),
            ;
        }
    }
}

/// Rounding half up gives the greatest whole number that is no more than the
/// number and a half.
pub proof fn law_half_up(x: Binary64View)
    requires
        x.exp <= 0,
    ensures
        ({
            let p = pow2((-x.exp) as nat);
            2 * p * half_up(x) <= 2 * x.mant + p < 2 * p * (half_up(x) + 1)
        }),
{
    let p = pow2((-x.exp) as nat);
    lemma_pow2_pos((-x.exp) as nat);
    let a = (2 * x.mant + p) as int;
    let b = (2 * p) as int;
    vstd::arithmetic::div_mod::lemma_fundamental_div_mod(a, b);
    vstd::arithmetic::div_mod::lemma_mod_bound(a, b);
    assert(b * (half_up(x) + 1) == b * half_up(x) + b) by (nonlinear_arith);
}

}
