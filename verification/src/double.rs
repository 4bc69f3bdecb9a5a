//! Double-precision arithmetic on numbers that are not negative, carried out on integers.
//!
//! A [`Double`] is a mantissa of 53 bits and a power of two. Products and quotients are rounded
//! to the nearest double, ties to even, which is what IEEE-754 hardware does as long as the
//! exponent stays in range; here the exponent has no range to leave.

use vstd::arithmetic::div_mod::lemma_fundamental_div_mod_converse;
use vstd::arithmetic::power2::{lemma2_to64, lemma2_to64_rest, lemma_pow2_adds, lemma_pow2_pos, lemma_pow2_strictly_increases, lemma_pow2_unfold, pow2};
use vstd::prelude::*;

verus! {

/// The least mantissa of a number that is not zero.
pub const LEAST: u64 = 0x10_0000_0000_0000;

/// One more than the greatest mantissa.
pub const BEYOND: u64 = 0x20_0000_0000_0000;

/// The number `mantissa * 2^exponent`.
pub struct Real {
    /// Zero, or a number of exactly 53 bits.
    pub mantissa: int,
    /// The power of two.
    pub exponent: int,
}

/// Zero.
pub open spec fn zero() -> Real {
    Real { mantissa: 0, exponent: 0 }
}

/// `n / d` as the nearest integer, ties to even.
pub open spec fn half_even(n: int, d: int) -> int {
    let q = n / d;
    let r = n % d;
    if 2 * r > d || (2 * r == d && q % 2 == 1) {
        q + 1
    } else {
        q
    }
}

/// The double nearest to `n / d * 2^e`, where `n / d` has 53 bits before the point.
pub open spec fn settled(n: int, d: int, e: int) -> Real {
    let m = half_even(n, d);
    if m == BEYOND {
        Real { mantissa: LEAST as int, exponent: e + 1 }
    } else {
        Real { mantissa: m, exponent: e }
    }
}

/// By how much `a` is greater than `b`.
pub open spec fn excess(a: int, b: int) -> int {
    if a > b {
        a - b
    } else {
        0
    }
}

/// The double nearest to `n / d * 2^e`, where `n / d` has at most 53 bits before the point.
pub open spec fn raised(n: int, d: int, e: int) -> Real
    decreases excess(d * LEAST, n),
{
    if n <= 0 || d <= 0 {
        zero()
    } else if n >= d * LEAST {
        settled(n, d, e)
    } else {
        raised(2 * n, d, e - 1)
    }
}

/// The double nearest to `n / d * 2^e`, where `n / d` has at least 53 bits before the point.
pub open spec fn lowered(n: int, d: int, e: int) -> Real
    decreases excess(n + 1, d * BEYOND),
{
    if n <= 0 || d <= 0 {
        zero()
    } else if n < d * BEYOND {
        settled(n, d, e)
    } else {
        lowered(n, 2 * d, e + 1)
    }
}

/// The double nearest to `n / d * 2^e`, ties to even.
pub open spec fn nearest(n: int, d: int, e: int) -> Real {
    if n < d * LEAST {
        raised(n, d, e)
    } else {
        lowered(n, d, e)
    }
}

/// The double nearest to the integer `n`.
pub open spec fn of_int(n: int) -> Real {
    nearest(n, 1, 0)
}

/// The double nearest to the product.
pub open spec fn product(a: Real, b: Real) -> Real {
    nearest(a.mantissa * b.mantissa, 1, a.exponent + b.exponent)
}

/// The double nearest to the quotient.
pub open spec fn quotient(a: Real, b: Real) -> Real {
    nearest(a.mantissa, b.mantissa, a.exponent - b.exponent)
}

/// Whether `a` is the smaller number.
pub open spec fn below(a: Real, b: Real) -> bool {
    if a.mantissa == 0 || b.mantissa == 0 {
        a.mantissa < b.mantissa
    } else {
        a.exponent < b.exponent || (a.exponent == b.exponent && a.mantissa < b.mantissa)
    }
}

/// The greater number.
pub open spec fn greater(a: Real, b: Real) -> Real {
    if below(a, b) {
        b
    } else {
        a
    }
}

/// The nearest integer, halves away from zero.
pub open spec fn rounded(a: Real) -> int {
    if a.exponent >= 0 {
        a.mantissa * pow2(a.exponent as nat)
    } else {
        (a.mantissa + pow2((-a.exponent - 1) as nat)) / (pow2((-a.exponent) as nat) as int)
    }
}

/// `n`, or `max` where `n` is greater.
pub open spec fn at_most(n: int, max: int) -> int {
    if n < max {
        n
    } else {
        max
    }
}

/// The number with these IEEE-754 bits. What is negative, not finite or below the least normal
/// double is read as zero.
pub open spec fn of_bits(bits: u64) -> Real {
    let biased = (bits / LEAST) as int;
    if biased == 0 || biased >= 2047 {
        zero()
    } else {
        Real { mantissa: LEAST + bits % LEAST, exponent: biased - 1075 }
    }
}

/// Whether `a` has the form of a double: zero, or a mantissa of 53 bits.
pub open spec fn normal(a: Real) -> bool {
    a == zero() || LEAST <= a.mantissa < BEYOND
}

/// A number that is not negative, in double precision.
#[derive(Clone, Copy)]
pub struct Double {
    /// Zero, or a number of exactly 53 bits.
    pub mantissa: u64,
    /// The power of two.
    pub exponent: i64,
}

impl View for Double {
    type V = Real;

    open spec fn view(&self) -> Real {
        Real { mantissa: self.mantissa as int, exponent: self.exponent as int }
    }
}

impl Double {
    /// Whether the number is in normal form, with an exponent no further than `reach` from zero.
    pub open spec fn within(self, reach: int) -> bool {
        normal(self@) && -reach <= self.exponent <= reach
    }

    /// The double nearest to `n`.
    pub fn of_u64(n: u64) -> (r: Double)
        ensures
            r@ == of_int(n as int),
            r.within(108),
            n > 0 ==> r.mantissa > 0,
    {
        round(n as u128, 1, 0)
    }

    /// The number with these IEEE-754 bits, where it is finite and at least the least normal
    /// double, and zero otherwise.
    pub fn of_bits(bits: u64) -> (r: Double)
        ensures
            r@ == of_bits(bits),
            r.within(2000),
    {
        let biased: u64 = bits / LEAST;
        if biased == 0 || biased >= 2047 {
            Double { mantissa: 0, exponent: 0 }
        } else {
            Double { mantissa: LEAST + bits % LEAST, exponent: biased as i64 - 1075 }
        }
    }

    /// The product.
    pub fn times(self, other: Double) -> (r: Double)
        requires
            self.within(0x4000),
            other.within(0x4000),
        ensures
            r@ == product(self@, other@),
            normal(r@),
            r.exponent == 0 || self.exponent + other.exponent - 107 <= r.exponent <= self.exponent
                + other.exponent + 108,
    {
        assert(self.mantissa * other.mantissa < BEYOND * BEYOND) by (nonlinear_arith)
            requires
                self.mantissa < BEYOND,
                other.mantissa < BEYOND,
        ;
        round(self.mantissa as u128 * other.mantissa as u128, 1, self.exponent + other.exponent)
    }

    /// The quotient.
    pub fn over(self, other: Double) -> (r: Double)
        requires
            self.within(0x4000),
            other.within(0x4000),
            other.mantissa > 0,
        ensures
            r@ == quotient(self@, other@),
            normal(r@),
            r.exponent == 0 || self.exponent - other.exponent - 107 <= r.exponent <= self.exponent
                - other.exponent + 108,
    {
        round(self.mantissa as u128, other.mantissa as u128, self.exponent - other.exponent)
    }

    /// Whether this is the smaller number.
    pub fn is_below(self, other: Double) -> (r: bool)
        ensures
            r == below(self@, other@),
    {
        if self.mantissa == 0 || other.mantissa == 0 {
            self.mantissa < other.mantissa
        } else {
            self.exponent < other.exponent || (self.exponent == other.exponent && self.mantissa
                < other.mantissa)
        }
    }

    /// The greater of the two numbers.
    pub fn max(self, other: Double) -> (r: Double)
        ensures
            r@ == greater(self@, other@),
            r == self || r == other,
    {
        if self.is_below(other) {
            other
        } else {
            self
        }
    }

    /// The nearest integer, halves away from zero, or the greatest `u64` where that is greater.
    pub fn to_u64(self) -> (r: u64)
        requires
            self.within(0x1_0000),
        ensures
            r == at_most(rounded(self@), u64::MAX as int),
    {
        if self.mantissa == 0 {
            assert(0 * pow2(0) == 0) by (nonlinear_arith);
            assert(self@.mantissa * pow2(self@.exponent as nat) == 0);
            return 0;
        }
        proof {
            lemma2_to64();
            lemma2_to64_rest();
        }
        if self.exponent >= 0 {
            let mut value: u128 = self.mantissa as u128;
            let mut steps: i64 = 0;
            assert(self.mantissa * pow2(0) == self.mantissa);
            while steps < self.exponent
                invariant
                    0 <= steps <= self.exponent,
                    0 < value <= u64::MAX,
                    value == self.mantissa * pow2(steps as nat),
                decreases self.exponent - steps,
            {
                proof {
                    lemma_pow2_unfold((steps + 1) as nat);
                    assert(self.mantissa * (2 * pow2(steps as nat)) == 2 * (self.mantissa * pow2(
                        steps as nat,
                    ))) by (nonlinear_arith);
                }
                value = 2 * value;
                steps = steps + 1;
                if value > u64::MAX as u128 {
                    proof {
                        if steps < self.exponent {
                            lemma_pow2_strictly_increases(steps as nat, self.exponent as nat);
                        }
                        assert(self.mantissa * pow2(steps as nat) <= self.mantissa * pow2(
                            self.exponent as nat,
                        )) by (nonlinear_arith)
                            requires
                                pow2(steps as nat) <= pow2(self.exponent as nat),
                        ;
                    }
                    return u64::MAX;
                }
            }
            value as u64
        } else {
            let shift: i64 = -self.exponent;
            if shift > 60 {
                proof {
                    lemma_pow2_strictly_increases(53, (shift - 1) as nat);
                    lemma_pow2_unfold(shift as nat);
                    let half = pow2((shift - 1) as nat) as int;
                    assert((self.mantissa + half) / (2 * half) == 0) by (nonlinear_arith)
                        requires
                            0 <= self.mantissa < half,
                    ;
                }
                return 0;
            }
            let mut power: u64 = 1;
            let mut steps: i64 = 0;
            while steps < shift
                invariant
                    0 <= steps <= shift <= 60,
                    power == pow2(steps as nat),
                    power <= 0x1000_0000_0000_0000,
                decreases shift - steps,
            {
                proof {
                    lemma_pow2_unfold((steps + 1) as nat);
                    lemma2_to64_rest();
                    if steps + 1 < 60 {
                        lemma_pow2_strictly_increases((steps + 1) as nat, 60);
                    }
                }
                power = 2 * power;
                steps = steps + 1;
            }
            proof {
                lemma_pow2_unfold(shift as nat);
            }
            (self.mantissa + power / 2) / power
        }
    }

    /// The nearest integer, halves away from zero, or the greatest `u32` where that is greater.
    pub fn to_u32(self) -> (r: u32)
        requires
            self.within(0x1_0000),
        ensures
            r == at_most(rounded(self@), u32::MAX as int),
    {
        let wide: u64 = self.to_u64();
        if wide < u32::MAX as u64 {
            wide as u32
        } else {
            u32::MAX
        }
    }
}

/// `n / d` with 53 bits before the point, as the nearest integer, has 53 bits or is the next
/// power of two.
pub proof fn lemma_half_even_range(n: int, d: int)
    requires
        d > 0,
        d * LEAST <= n < d * BEYOND,
    ensures
        LEAST <= half_even(n, d) <= BEYOND,
        0 <= n / d < BEYOND,
{
    assert(LEAST <= n / d < BEYOND) by (nonlinear_arith)
        requires
            d > 0,
            d * LEAST <= n < d * BEYOND,
    ;
}

/// A power of two that is below 2^107 has an exponent below 107.
proof fn lemma_exponent_bound(k: nat)
    requires
        pow2(k) < 0x800_0000_0000_0000_0000_0000_0000,
    ensures
        k < 107,
{
    lemma2_to64_rest();
    lemma_pow2_adds(53, 54);
    assert(pow2(53) == 0x20_0000_0000_0000 && pow2(54) == 0x40_0000_0000_0000);
    if k > 107 {
        lemma_pow2_strictly_increases(107, k);
    }
}

/// The double nearest to `n / d * 2^e`.
fn round(n: u128, d: u128, e: i64) -> (r: Double)
    requires
        0 < d <= BEYOND,
        n < 0x400_0000_0000_0000_0000_0000_0000,
        -0x1_0000 <= e <= 0x1_0000,
    ensures
        r@ == nearest(n as int, d as int, e as int),
        normal(r@),
        n > 0 ==> r.mantissa > 0,
        r.exponent == 0 || e - 107 <= r.exponent <= e + 108,
{
    if n == 0 {
        return Double { mantissa: 0, exponent: 0 };
    }
    let least: u128 = LEAST as u128;
    let beyond: u128 = BEYOND as u128;
    let mut n1: u128 = n;
    let mut d1: u128 = d;
    let mut e1: i64 = e;
    let ghost mut steps: nat = 0;
    proof {
        lemma2_to64();
    }
    if n < d * least {
        while n1 < d * least
            invariant
                least == LEAST,
                0 < d <= BEYOND,
                pow2(steps) <= n1 < 2 * (d * least),
                0 < n1,
                e1 == e - steps,
                steps < 107,
                -0x1_0000 <= e <= 0x1_0000,
                raised(n as int, d as int, e as int) == raised(n1 as int, d as int, e1 as int),
            decreases excess(d * least, n1 as int),
        {
            proof {
                lemma_pow2_unfold(steps + 1);
                lemma_exponent_bound(steps + 1);
                steps = steps + 1;
            }
            n1 = 2 * n1;
            e1 = e1 - 1;
        }
    } else {
        while n >= d1 * beyond
            invariant
                beyond == BEYOND,
                least == LEAST,
                0 < n < 0x400_0000_0000_0000_0000_0000_0000,
                0 < d1,
                pow2(steps) <= d1 <= 0x40_0000_0000_0000,
                d1 * least <= n,
                e1 == e + steps,
                steps < 107,
                -0x1_0000 <= e <= 0x1_0000,
                lowered(n as int, d as int, e as int) == lowered(n as int, d1 as int, e1 as int),
            decreases excess(n + 1, d1 * beyond),
        {
            proof {
                lemma_pow2_unfold(steps + 1);
                lemma_exponent_bound(steps + 1);
                steps = steps + 1;
            }
            d1 = 2 * d1;
            e1 = e1 + 1;
        }
    }
    proof {
        lemma_half_even_range(n1 as int, d1 as int);
    }
    let q: u128 = n1 / d1;
    let rest: u128 = n1 % d1;
    let m: u128 = if 2 * rest > d1 || (2 * rest == d1 && q % 2 == 1) { q + 1 } else { q };
    if m == beyond {
        Double { mantissa: LEAST, exponent: e1 + 1 }
    } else {
        Double { mantissa: m as u64, exponent: e1 }
    }
}

proof fn lemma_half_even_of_doubles(n: int, d: int)
    requires
        d > 0,
        n >= 0,
    ensures
        half_even(2 * n, 2 * d) == half_even(n, d),
{
    let q = n / d;
    let r = n % d;
    assert(n == d * q + r && 0 <= r < d) by (nonlinear_arith)
        requires
            d > 0,
            q == n / d,
            r == n % d,
    ;
    assert(2 * n == (2 * d) * q + 2 * r) by (nonlinear_arith)
        requires
            n == d * q + r,
    ;
    lemma_fundamental_div_mod_converse(2 * n, 2 * d, q, 2 * r);
}

proof fn lemma_lowered_of_doubles(n: int, d: int, e: int)
    requires
        n > 0,
        d > 0,
    ensures
        lowered(2 * n, 2 * d, e) == lowered(n, d, e),
    decreases excess(n + 1, d * BEYOND),
{
    if n < d * BEYOND {
        lemma_half_even_of_doubles(n, d);
    } else {
        lemma_lowered_of_doubles(n, 2 * d, e + 1);
    }
}

/// Rounding does not depend on how a number is written: doubling the numerator while lowering the
/// power of two by one changes nothing.
pub proof fn nearest_of_doubled_numerator(n: int, d: int, e: int)
    requires
        n > 0,
        d > 0,
    ensures
        nearest(2 * n, d, e - 1) == nearest(n, d, e),
{
    if n >= d * LEAST {
        lemma_lowered_of_doubles(n, d, e);
        assert(lowered(2 * n, d, e - 1) == lowered(2 * n, 2 * d, e));
    } else {
        assert(raised(n, d, e) == raised(2 * n, d, e - 1));
        assert(2 * n >= d * LEAST ==> lowered(2 * n, d, e - 1) == settled(2 * n, d, e - 1));
    }
}

proof fn lemma_raised_of_doubles(n: int, d: int, e: int)
    requires
        n > 0,
        d > 0,
    ensures
        raised(2 * n, 2 * d, e) == raised(n, d, e),
    decreases excess(d * LEAST, n),
{
    if n >= d * LEAST {
        lemma_half_even_of_doubles(n, d);
    } else {
        lemma_raised_of_doubles(2 * n, d, e - 1);
    }
}

/// Rounding does not depend on how a number is written: doubling the denominator while raising the
/// power of two by one changes nothing.
pub proof fn nearest_of_doubled_denominator(n: int, d: int, e: int)
    requires
        n > 0,
        d > 0,
    ensures
        nearest(n, 2 * d, e + 1) == nearest(n, d, e),
{
    nearest_of_doubled_numerator(n, 2 * d, e + 1);
    if n >= d * LEAST {
        lemma_lowered_of_doubles(n, d, e);
    } else {
        lemma_raised_of_doubles(n, d, e);
    }
}

/// Rounding does not depend on how a number is written: a power of two may stand in the numerator.
pub proof fn nearest_of_shifted_numerator(n: int, d: int, e: int, k: nat)
    requires
        n > 0,
        d > 0,
    ensures
        nearest(n * pow2(k), d, e - k) == nearest(n, d, e),
        n * pow2(k) > 0,
    decreases k,
{
    lemma2_to64();
    if k == 0 {
        assert(n * pow2(0) == n) by (nonlinear_arith)
            requires
                pow2(0) == 1,
        ;
    } else {
        let j = (k - 1) as nat;
        nearest_of_shifted_numerator(n, d, e, j);
        lemma_pow2_unfold(k);
        assert(n * pow2(k) == 2 * (n * pow2(j))) by (nonlinear_arith)
            requires
                pow2(k) == 2 * pow2(j),
        ;
        nearest_of_doubled_numerator(n * pow2(j), d, e - j);
    }
}

/// Rounding does not depend on how a number is written: a power of two may stand in the
/// denominator.
pub proof fn nearest_of_shifted_denominator(n: int, d: int, e: int, k: nat)
    requires
        n > 0,
        d > 0,
    ensures
        nearest(n, d * pow2(k), e + k) == nearest(n, d, e),
        d * pow2(k) > 0,
    decreases k,
{
    lemma2_to64();
    if k == 0 {
        assert(d * pow2(0) == d) by (nonlinear_arith)
            requires
                pow2(0) == 1,
        ;
    } else {
        let j = (k - 1) as nat;
        nearest_of_shifted_denominator(n, d, e, j);
        lemma_pow2_unfold(k);
        assert(d * pow2(k) == 2 * (d * pow2(j))) by (nonlinear_arith)
            requires
                pow2(k) == 2 * pow2(j),
        ;
        nearest_of_doubled_denominator(n, d * pow2(j), e + j);
    }
}

/// How far a number of at most 53 bits has to be shifted to have exactly 53.
proof fn lemma_shift(n: int) -> (k: nat)
    requires
        0 < n < BEYOND,
    ensures
        LEAST <= n * pow2(k) < BEYOND,
        k <= 52,
    decreases BEYOND - n,
{
    lemma2_to64();
    if n >= LEAST {
        assert(n * pow2(0) == n) by (nonlinear_arith)
            requires
                pow2(0) == 1,
        ;
        0
    } else {
        let j = lemma_shift(2 * n);
        lemma_pow2_unfold(j + 1);
        assert((2 * n) * pow2(j) == n * pow2(j + 1)) by (nonlinear_arith)
            requires
                pow2(j + 1) == 2 * pow2(j),
        ;
        if j + 1 > 52 {
            lemma2_to64_rest();
            if j + 1 > 53 {
                lemma_pow2_strictly_increases(53, j + 1);
            }
            assert(n * pow2(j + 1) >= pow2(j + 1)) by (nonlinear_arith)
                requires
                    n >= 1,
                    pow2(j + 1) >= 0,
            ;
        }
        j + 1
    }
}

/// A number of at most 53 bits is a double: how far it is shifted to have exactly 53.
pub proof fn small_integer_is_shifted(n: int) -> (k: nat)
    requires
        0 < n < BEYOND,
    ensures
        LEAST <= n * pow2(k) < BEYOND,
        of_int(n) == (Real { mantissa: n * pow2(k), exponent: -(k as int) }),
{
    lemma_small_integer(n)
}

/// A number of at most 53 bits is a double.
proof fn lemma_small_integer(n: int) -> (k: nat)
    requires
        0 < n < BEYOND,
    ensures
        LEAST <= n * pow2(k) < BEYOND,
        of_int(n) == (Real { mantissa: n * pow2(k), exponent: -(k as int) }),
{
    let k = lemma_shift(n);
    let m = n * pow2(k);
    nearest_of_shifted_numerator(n, 1, 0, k);
    assert(half_even(m, 1) == m);
    k
}

/// Integers of at most 53 bits are doubles: rounding gives them back.
pub proof fn small_integers_are_exact(n: int)
    requires
        0 <= n < BEYOND,
    ensures
        rounded(of_int(n)) == n,
{
    lemma2_to64();
    if n == 0 {
        assert(0 * pow2(0) == 0) by (nonlinear_arith);
    } else {
        let k = lemma_small_integer(n);
        if k == 0 {
            assert(n * pow2(0) * pow2(0) == n) by (nonlinear_arith)
                requires
                    pow2(0) == 1,
            ;
        } else {
            lemma_pow2_unfold(k);
            lemma_pow2_pos((k - 1) as nat);
            let p = pow2(k) as int;
            let h = pow2((k - 1) as nat) as int;
            assert((n * p + h) / p == n) by (nonlinear_arith)
                requires
                    p == 2 * h,
                    h > 0,
                    n >= 0,
            ;
        }
    }
}

/// The product of integers is the integer of the product, as long as that has at most 53 bits.
pub proof fn small_products_are_exact(a: int, b: int)
    requires
        0 <= a < BEYOND,
        0 <= b < BEYOND,
        a * b < BEYOND,
    ensures
        product(of_int(a), of_int(b)) == of_int(a * b),
{
    if a == 0 || b == 0 {
        assert(a * b == 0) by (nonlinear_arith)
            requires
                a == 0 || b == 0,
        ;
        assert(of_int(a).mantissa * of_int(b).mantissa == 0) by (nonlinear_arith)
            requires
                of_int(a).mantissa == 0 || of_int(b).mantissa == 0,
        ;
    } else {
        let i = lemma_small_integer(a);
        let j = lemma_small_integer(b);
        lemma_pow2_adds(i, j);
        assert((a * pow2(i)) * (b * pow2(j)) == (a * b) * pow2(i + j)) by (nonlinear_arith)
            requires
                pow2(i + j) == pow2(i) * pow2(j),
        ;
        assert(a * b > 0) by (nonlinear_arith)
            requires
                a > 0,
                b > 0,
        ;
        nearest_of_shifted_numerator(a * b, 1, 0, i + j);
    }
}

/// Integers of at most 53 bits are in the same order as doubles.
pub proof fn small_integers_keep_their_order(a: int, b: int)
    requires
        0 <= a < BEYOND,
        0 <= b < BEYOND,
    ensures
        below(of_int(a), of_int(b)) == (a < b),
{
    if a > 0 && b > 0 {
        let i = lemma_small_integer(a);
        let j = lemma_small_integer(b);
        if i == j {
            lemma_pow2_pos(i);
            assert((a * pow2(i) < b * pow2(i)) == (a < b)) by (nonlinear_arith)
                requires
                    pow2(i) > 0,
            ;
        } else if i < j {
            lemma_shifted_less(a, b, i, j);
        } else {
            lemma_shifted_less(b, a, j, i);
        }
    } else {
        if a > 0 {
            lemma_small_integer(a);
        }
        if b > 0 {
            lemma_small_integer(b);
        }
    }
}

/// Of two numbers that are shifted to 53 bits, the one that is shifted less is the greater.
proof fn lemma_shifted_less(a: int, b: int, i: nat, j: nat)
    requires
        a > 0,
        b > 0,
        i < j,
        LEAST <= a * pow2(i) < BEYOND,
        LEAST <= b * pow2(j) < BEYOND,
    ensures
        b < a,
{
    if i + 1 < j {
        lemma_pow2_strictly_increases(i + 1, j);
    }
    lemma_pow2_unfold(i + 1);
    lemma_pow2_pos(i);
    assert(b < a) by (nonlinear_arith)
        requires
            a * pow2(i) >= LEAST,
            b * pow2(j) < 2 * LEAST,
            pow2(j) >= 2 * pow2(i),
            pow2(i) > 0,
            b > 0,
    ;
}

/// The quotient of integers of at most 53 bits is rounded once.
pub proof fn small_quotients_are_rounded_once(a: int, b: int)
    requires
        0 < a < BEYOND,
        0 < b < BEYOND,
    ensures
        quotient(of_int(a), of_int(b)) == nearest(a, b, 0),
{
    let i = lemma_small_integer(a);
    let j = lemma_small_integer(b);
    nearest_of_shifted_denominator(a, b, 0, j);
    nearest_of_shifted_numerator(a, b * pow2(j), j as int, i);
}

/// A number that has 53 bits before the point after a shift is rounded there.
pub proof fn nearest_after_shift(n: int, d: int, e: int, k: nat)
    requires
        n > 0,
        d > 0,
        d * LEAST <= n * pow2(k) < d * BEYOND,
    ensures
        nearest(n, d, e) == settled(n * pow2(k), d, e - k),
{
    nearest_of_shifted_numerator(n, d, e, k);
}

/// How far a fraction has to be shifted to have 53 bits before the point.
pub proof fn shift_of_fraction(n: int, d: int) -> (k: nat)
    requires
        n > 0,
        d > 0,
        n < d * BEYOND,
    ensures
        d * LEAST <= n * pow2(k) < d * BEYOND,
    decreases excess(d * LEAST, n),
{
    lemma2_to64();
    if n >= d * LEAST {
        assert(n * pow2(0) == n) by (nonlinear_arith)
            requires
                pow2(0) == 1,
        ;
        0
    } else {
        let j = shift_of_fraction(2 * n, d);
        lemma_pow2_unfold(j + 1);
        assert((2 * n) * pow2(j) == n * pow2(j + 1)) by (nonlinear_arith)
            requires
                pow2(j + 1) == 2 * pow2(j),
        ;
        j + 1
    }
}

proof fn lemma_raised_is_positive(n: int, d: int, e: int)
    requires
        n > 0,
        d > 0,
        n < d * BEYOND,
    ensures
        LEAST <= raised(n, d, e).mantissa < BEYOND,
    decreases excess(d * LEAST, n),
{
    if n >= d * LEAST {
        lemma_half_even_range(n, d);
    } else {
        lemma_raised_is_positive(2 * n, d, e - 1);
    }
}

proof fn lemma_lowered_is_positive(n: int, d: int, e: int)
    requires
        d > 0,
        n >= d * LEAST,
    ensures
        LEAST <= lowered(n, d, e).mantissa < BEYOND,
    decreases excess(n + 1, d * BEYOND),
{
    if n < d * BEYOND {
        lemma_half_even_range(n, d);
    } else {
        lemma_lowered_is_positive(n, 2 * d, e + 1);
    }
}

/// Rounding makes a double of every number, and zero of none that is greater.
pub proof fn nearest_is_normal(n: int, d: int, e: int)
    requires
        n >= 0,
        d > 0,
    ensures
        normal(nearest(n, d, e)),
        nearest(n, d, e).mantissa > 0 <==> n > 0,
{
    if n > 0 {
        if n < d * LEAST {
            lemma_raised_is_positive(n, d, e);
        } else {
            lemma_lowered_is_positive(n, d, e);
        }
    }
}

/// The product of two numbers is zero just when one of them is.
pub proof fn products_are_zero_with_a_factor_only(a: Real, b: Real)
    requires
        normal(a),
        normal(b),
    ensures
        normal(product(a, b)),
        product(a, b).mantissa > 0 <==> a.mantissa > 0 && b.mantissa > 0,
{
    assert(a.mantissa * b.mantissa >= 0 && (a.mantissa * b.mantissa > 0 <==> a.mantissa > 0
        && b.mantissa > 0)) by (nonlinear_arith)
        requires
            a.mantissa >= 0,
            b.mantissa >= 0,
    ;
    nearest_is_normal(a.mantissa * b.mantissa, 1, a.exponent + b.exponent);
}

/// Rounding to an integer gives none that is negative.
pub proof fn rounded_is_not_negative(a: Real)
    requires
        normal(a),
    ensures
        rounded(a) >= 0,
{
    if a.exponent >= 0 {
        lemma_pow2_pos(a.exponent as nat);
        assert(a.mantissa * pow2(a.exponent as nat) >= 0) by (nonlinear_arith)
            requires
                a.mantissa >= 0,
                pow2(a.exponent as nat) > 0,
        ;
    } else {
        let n = a.mantissa + pow2((-a.exponent - 1) as nat);
        let d = pow2((-a.exponent) as nat) as int;
        lemma_pow2_pos((-a.exponent) as nat);
        assert(n / d >= 0) by (nonlinear_arith)
            requires
                n >= 0,
                d > 0,
        ;
    }
}

/// Whether `n / d * 2^e` is at most the number `c`.
pub open spec fn up_to(n: int, d: int, e: int, c: Real) -> bool {
    if e <= c.exponent {
        n <= d * (c.mantissa * pow2((c.exponent - e) as nat))
    } else {
        n * pow2((e - c.exponent) as nat) <= d * c.mantissa
    }
}

proof fn lemma_up_to_doubled_numerator(n: int, d: int, e: int, c: Real)
    requires
        up_to(n, d, e, c),
    ensures
        up_to(2 * n, d, e - 1, c),
{
    lemma2_to64();
    if e <= c.exponent {
        let k = (c.exponent - e) as nat;
        lemma_pow2_unfold(k + 1);
        assert(2 * n <= d * (c.mantissa * pow2(k + 1))) by (nonlinear_arith)
            requires
                n <= d * (c.mantissa * pow2(k)),
                pow2(k + 1) == 2 * pow2(k),
        ;
    } else {
        let k = (e - c.exponent) as nat;
        let j = (k - 1) as nat;
        lemma_pow2_unfold(k);
        assert((2 * n) * pow2(j) <= d * c.mantissa) by (nonlinear_arith)
            requires
                n * pow2(k) <= d * c.mantissa,
                pow2(k) == 2 * pow2(j),
        ;
        if j == 0 {
            assert(2 * n <= d * (c.mantissa * pow2(0))) by (nonlinear_arith)
                requires
                    (2 * n) * pow2(0) <= d * c.mantissa,
                    pow2(0) == 1,
            ;
        }
    }
}

proof fn lemma_up_to_doubled_denominator(n: int, d: int, e: int, c: Real)
    requires
        up_to(n, d, e, c),
    ensures
        up_to(n, 2 * d, e + 1, c),
{
    lemma2_to64();
    if e < c.exponent {
        let k = (c.exponent - e) as nat;
        let j = (k - 1) as nat;
        lemma_pow2_unfold(k);
        assert(n <= (2 * d) * (c.mantissa * pow2(j))) by (nonlinear_arith)
            requires
                n <= d * (c.mantissa * pow2(k)),
                pow2(k) == 2 * pow2(j),
        ;
    } else if e == c.exponent {
        assert(n * pow2(1) <= (2 * d) * c.mantissa) by (nonlinear_arith)
            requires
                n <= d * (c.mantissa * pow2(0)),
                pow2(0) == 1,
                pow2(1) == 2,
        ;
    } else {
        let k = (e - c.exponent) as nat;
        lemma_pow2_unfold(k + 1);
        assert(n * pow2(k + 1) <= (2 * d) * c.mantissa) by (nonlinear_arith)
            requires
                n * pow2(k) <= d * c.mantissa,
                pow2(k + 1) == 2 * pow2(k),
        ;
    }
}

/// Rounding to an integer keeps the order.
proof fn lemma_half_even_keeps_order(a: int, b: int, d: int)
    requires
        0 <= a <= b,
        d > 0,
    ensures
        half_even(a, d) <= half_even(b, d),
{
    let p = a / d;
    let q = b / d;
    let r = a % d;
    let s = b % d;
    assert(a == d * p + r && 0 <= r < d) by (nonlinear_arith)
        requires
            d > 0,
            p == a / d,
            r == a % d,
    ;
    assert(b == d * q + s && 0 <= s < d) by (nonlinear_arith)
        requires
            d > 0,
            q == b / d,
            s == b % d,
    ;
    assert(p <= q) by (nonlinear_arith)
        requires
            d * p + r <= d * q + s,
            0 <= r,
            s < d,
            d > 0,
    ;
    if p == q {
        assert(r <= s) by (nonlinear_arith)
            requires
                d * p + r <= d * q + s,
                p == q,
        ;
    }
}

/// A number with 53 bits before the point that is at most `c` is rounded to at most `c`.
proof fn lemma_settled_up_to(n: int, d: int, e: int, c: Real)
    requires
        d > 0,
        d * LEAST <= n < d * BEYOND,
        LEAST <= c.mantissa < BEYOND,
        up_to(n, d, e, c),
    ensures
        !below(c, settled(n, d, e)),
{
    lemma2_to64();
    lemma_half_even_range(n, d);
    if e > c.exponent {
        let k = (e - c.exponent) as nat;
        if k > 1 {
            lemma_pow2_strictly_increases(1, k);
        }
        assert(false) by (nonlinear_arith)
            requires
                n * pow2(k) <= d * c.mantissa,
                pow2(k) >= 2,
                n >= d * LEAST,
                c.mantissa < 2 * LEAST,
                d > 0,
        ;
    } else if e == c.exponent {
        let m = c.mantissa;
        assert(n <= d * m) by (nonlinear_arith)
            requires
                n <= d * (m * pow2(0)),
                pow2(0) == 1,
        ;
        lemma_half_even_keeps_order(n, d * m, d);
        lemma_fundamental_div_mod_converse(d * m, d, m, 0);
    }
}

proof fn lemma_raised_up_to(n: int, d: int, e: int, c: Real)
    requires
        n > 0,
        d > 0,
        n < d * BEYOND,
        LEAST <= c.mantissa < BEYOND,
        up_to(n, d, e, c),
    ensures
        !below(c, raised(n, d, e)),
    decreases excess(d * LEAST, n),
{
    if n >= d * LEAST {
        lemma_settled_up_to(n, d, e, c);
    } else {
        lemma_up_to_doubled_numerator(n, d, e, c);
        lemma_raised_up_to(2 * n, d, e - 1, c);
    }
}

proof fn lemma_lowered_up_to(n: int, d: int, e: int, c: Real)
    requires
        d > 0,
        n >= d * LEAST,
        LEAST <= c.mantissa < BEYOND,
        up_to(n, d, e, c),
    ensures
        !below(c, lowered(n, d, e)),
    decreases excess(n + 1, d * BEYOND),
{
    if n < d * BEYOND {
        lemma_settled_up_to(n, d, e, c);
    } else {
        lemma_up_to_doubled_denominator(n, d, e, c);
        lemma_lowered_up_to(n, 2 * d, e + 1, c);
    }
}

/// A number that is at most a double is rounded to at most that double.
pub proof fn nearest_is_up_to(n: int, d: int, e: int, c: Real)
    requires
        n > 0,
        d > 0,
        LEAST <= c.mantissa < BEYOND,
        up_to(n, d, e, c),
    ensures
        !below(c, nearest(n, d, e)),
{
    if n < d * LEAST {
        lemma_raised_up_to(n, d, e, c);
    } else {
        lemma_lowered_up_to(n, d, e, c);
    }
}

/// Rounding keeps the order.
pub proof fn nearest_keeps_order(a: int, b: int, d: int, e: int)
    requires
        0 < a <= b,
        d > 0,
    ensures
        !below(nearest(b, d, e), nearest(a, d, e)),
    decreases excess(d * LEAST, b) + excess(b + 1, d * BEYOND),
{
    lemma2_to64();
    if b < d * LEAST {
        nearest_of_doubled_numerator(a, d, e);
        nearest_of_doubled_numerator(b, d, e);
        nearest_keeps_order(2 * a, 2 * b, d, e - 1);
    } else if b >= d * BEYOND {
        nearest_of_doubled_denominator(a, d, e);
        nearest_of_doubled_denominator(b, d, e);
        nearest_keeps_order(a, b, 2 * d, e + 1);
    } else if a >= d * LEAST {
        lemma_half_even_range(a, d);
        lemma_half_even_range(b, d);
        lemma_half_even_keeps_order(a, b, d);
    } else {
        let c = Real { mantissa: LEAST as int, exponent: e };
        lemma_half_even_range(b, d);
        assert(a <= d * (LEAST * pow2(0))) by (nonlinear_arith)
            requires
                a < d * LEAST,
                pow2(0) == 1,
        ;
        nearest_is_up_to(a, d, e, c);
        nearest_is_normal(a, d, e);
    }
}

/// Products keep the order: a greater factor gives no smaller product.
pub proof fn products_keep_order(a: Real, b: Real, c: Real)
    requires
        normal(a),
        normal(b),
        normal(c),
        !below(b, a),
    ensures
        !below(product(b, c), product(a, c)),
        product(a, c) == product(c, a),
{
    assert(a.mantissa * c.mantissa == c.mantissa * a.mantissa) by (nonlinear_arith);
    products_are_zero_with_a_factor_only(a, c);
    products_are_zero_with_a_factor_only(b, c);
    if a.mantissa > 0 && c.mantissa > 0 {
        let k = (b.exponent - a.exponent) as nat;
        let m = a.mantissa * c.mantissa;
        let n = b.mantissa * c.mantissa;
        let e = a.exponent + c.exponent;
        lemma2_to64();
        assert(m > 0 && n > 0) by (nonlinear_arith)
            requires
                m == a.mantissa * c.mantissa,
                n == b.mantissa * c.mantissa,
                a.mantissa > 0,
                b.mantissa > 0,
                c.mantissa > 0,
        ;
        assert(a.mantissa <= b.mantissa * pow2(k)) by {
            if k == 0 {
                assert(b.mantissa * pow2(0) == b.mantissa) by (nonlinear_arith)
                    requires
                        pow2(0) == 1,
                ;
            } else {
                if k > 1 {
                    lemma_pow2_strictly_increases(1, k);
                }
                assert(a.mantissa <= b.mantissa * pow2(k)) by (nonlinear_arith)
                    requires
                        a.mantissa < 2 * LEAST,
                        b.mantissa >= LEAST,
                        pow2(k) >= 2,
                ;
            }
        }
        assert(m <= n * pow2(k)) by (nonlinear_arith)
            requires
                m == a.mantissa * c.mantissa,
                n == b.mantissa * c.mantissa,
                a.mantissa <= b.mantissa * pow2(k),
                c.mantissa > 0,
        ;
        nearest_of_shifted_numerator(n, 1, e + k, k);
        nearest_keeps_order(m, n * pow2(k), 1, e);
    }
}

/// The double of an integer is no greater than that of a greater integer.
pub proof fn integers_keep_their_order(a: int, b: int)
    requires
        0 <= a <= b,
    ensures
        normal(of_int(a)),
        normal(of_int(b)),
        !below(of_int(b), of_int(a)),
        greater(of_int(a), of_int(b)) == of_int(b),
        greater(of_int(b), of_int(a)) == of_int(b),
{
    nearest_is_normal(a, 1, 0);
    nearest_is_normal(b, 1, 0);
    if a > 0 {
        nearest_keeps_order(a, b, 1, 0);
    }
}

/// The distance between two integers.
pub open spec fn distance(a: int, b: int) -> int {
    if a < b {
        b - a
    } else {
        a - b
    }
}

/// Whether `r` differs from `n / d * 2^e` by no more than half a unit in its last place.
pub open spec fn close(n: int, d: int, e: int, r: Real) -> bool {
    if r.exponent >= e {
        let unit = pow2((r.exponent - e) as nat) * d;
        2 * distance(r.mantissa * unit, n) <= unit
    } else {
        2 * distance(r.mantissa * d, n * pow2((e - r.exponent) as nat)) <= d
    }
}

proof fn lemma_half_even_is_close(n: int, d: int)
    requires
        n >= 0,
        d > 0,
    ensures
        2 * distance(half_even(n, d) * d, n) <= d,
{
    let q = n / d;
    let r = n % d;
    assert(n == d * q + r && 0 <= r < d) by (nonlinear_arith)
        requires
            d > 0,
            q == n / d,
            r == n % d,
    ;
    assert(q * d == d * q && (q + 1) * d == d * q + d) by (nonlinear_arith);
}

proof fn lemma_settled_is_close(n: int, d: int, e: int)
    requires
        d > 0,
        d * LEAST <= n < d * BEYOND,
    ensures
        close(n, d, e, settled(n, d, e)),
{
    lemma2_to64();
    lemma_half_even_range(n, d);
    lemma_half_even_is_close(n, d);
    let m = half_even(n, d);
    if m == BEYOND {
        assert(pow2(1) * d == 2 * d) by (nonlinear_arith)
            requires
                pow2(1) == 2,
        ;
        assert(LEAST * (2 * d) == BEYOND * d) by (nonlinear_arith)
            requires
                BEYOND == 2 * LEAST,
        ;
    } else {
        assert(pow2(0) * d == d) by (nonlinear_arith)
            requires
                pow2(0) == 1,
        ;
    }
}

proof fn lemma_close_of_doubled_numerator(n: int, d: int, e: int, r: Real)
    requires
        d > 0,
        close(2 * n, d, e - 1, r),
    ensures
        close(n, d, e, r),
{
    lemma2_to64();
    let m = r.mantissa;
    if r.exponent >= e {
        let j = (r.exponent - e) as nat;
        lemma_pow2_unfold(j + 1);
        let p = pow2(j) as int;
        assert(pow2(j + 1) * d == 2 * (p * d)) by (nonlinear_arith)
            requires
                pow2(j + 1) == 2 * p,
        ;
        assert(m * (2 * (p * d)) == 2 * (m * (p * d))) by (nonlinear_arith);
    } else if r.exponent == e - 1 {
        assert(pow2(0) * d == d) by (nonlinear_arith)
            requires
                pow2(0) == 1,
        ;
        assert(n * pow2(1) == 2 * n) by (nonlinear_arith)
            requires
                pow2(1) == 2,
        ;
    } else {
        let k = (e - r.exponent) as nat;
        let j = (k - 1) as nat;
        lemma_pow2_unfold(k);
        assert((2 * n) * pow2(j) == n * pow2(k)) by (nonlinear_arith)
            requires
                pow2(k) == 2 * pow2(j),
        ;
    }
}

proof fn lemma_close_of_doubled_denominator(n: int, d: int, e: int, r: Real)
    requires
        d > 0,
        close(n, 2 * d, e + 1, r),
    ensures
        close(n, d, e, r),
{
    lemma2_to64();
    let m = r.mantissa;
    if r.exponent > e {
        let j = (r.exponent - e) as nat;
        let i = (j - 1) as nat;
        lemma_pow2_unfold(j);
        assert(pow2(i) * (2 * d) == pow2(j) * d) by (nonlinear_arith)
            requires
                pow2(j) == 2 * pow2(i),
        ;
    } else if r.exponent == e {
        assert(pow2(0) * d == d) by (nonlinear_arith)
            requires
                pow2(0) == 1,
        ;
        assert(n * pow2(1) == 2 * n && m * (2 * d) == 2 * (m * d)) by (nonlinear_arith)
            requires
                pow2(1) == 2,
        ;
    } else {
        let k = (e - r.exponent) as nat;
        lemma_pow2_unfold(k + 1);
        let p = pow2(k) as int;
        assert(n * pow2(k + 1) == 2 * (n * p) && m * (2 * d) == 2 * (m * d)) by (nonlinear_arith)
            requires
                pow2(k + 1) == 2 * p,
        ;
    }
}

proof fn lemma_raised_is_close(n: int, d: int, e: int)
    requires
        n > 0,
        d > 0,
        n < d * BEYOND,
    ensures
        close(n, d, e, raised(n, d, e)),
    decreases excess(d * LEAST, n),
{
    if n >= d * LEAST {
        lemma_settled_is_close(n, d, e);
    } else {
        lemma_raised_is_close(2 * n, d, e - 1);
        lemma_close_of_doubled_numerator(n, d, e, raised(n, d, e));
    }
}

proof fn lemma_lowered_is_close(n: int, d: int, e: int)
    requires
        d > 0,
        n >= d * LEAST,
    ensures
        close(n, d, e, lowered(n, d, e)),
    decreases excess(n + 1, d * BEYOND),
{
    if n < d * BEYOND {
        lemma_settled_is_close(n, d, e);
    } else {
        lemma_lowered_is_close(n, 2 * d, e + 1);
        lemma_close_of_doubled_denominator(n, d, e, lowered(n, d, e));
    }
}

/// A rounded number differs from the number by no more than half a unit in its last place.
pub proof fn nearest_is_close(n: int, d: int, e: int)
    requires
        n > 0,
        d > 0,
    ensures
        close(n, d, e, nearest(n, d, e)),
{
    if n < d * LEAST {
        lemma_raised_is_close(n, d, e);
    } else {
        lemma_lowered_is_close(n, d, e);
    }
}

/// The nearest integer differs from a number by no more than a half.
pub proof fn rounded_is_close(a: Real)
    requires
        a.mantissa >= 0,
        a.exponent < 0,
    ensures
        2 * distance(rounded(a) * pow2((-a.exponent) as nat), a.mantissa) <= pow2((-a.exponent) as nat),
{
    let d = pow2((-a.exponent) as nat) as int;
    let h = pow2((-a.exponent - 1) as nat) as int;
    lemma_pow2_unfold((-a.exponent) as nat);
    lemma_pow2_pos((-a.exponent - 1) as nat);
    let q = (a.mantissa + h) / d;
    let r = (a.mantissa + h) % d;
    assert(a.mantissa + h == d * q + r && 0 <= r < d) by (nonlinear_arith)
        requires
            d > 0,
            q == (a.mantissa + h) / d,
            r == (a.mantissa + h) % d,
    ;
    assert(q * d == d * q) by (nonlinear_arith);
}

/// Rounding moves the exponent no further than the sizes of the two integers allow.
pub proof fn exponents_stay_near(n: int, d: int, e: int)
    requires
        0 < n < 0x400_0000_0000_0000_0000_0000_0000,
        0 < d <= BEYOND,
    ensures
        e - 107 < nearest(n, d, e).exponent < e + 107,
{
    let r = nearest(n, d, e);
    nearest_is_close(n, d, e);
    nearest_is_normal(n, d, e);
    if r.exponent >= e {
        let j = (r.exponent - e) as nat;
        let p = pow2(j) as int;
        lemma_pow2_pos(j);
        assert(p < 0x800_0000_0000_0000_0000_0000_0000) by (nonlinear_arith)
            requires
                2 * distance(r.mantissa * (p * d), n) <= p * d,
                r.mantissa >= LEAST,
                n < 0x400_0000_0000_0000_0000_0000_0000,
                d >= 1,
                p > 0,
        ;
        lemma_exponent_bound(j);
    } else {
        let k = (e - r.exponent) as nat;
        let p = pow2(k) as int;
        lemma_pow2_pos(k);
        assert(p < 0x800_0000_0000_0000_0000_0000_0000) by (nonlinear_arith)
            requires
                2 * distance(r.mantissa * d, n * p) <= d,
                0 < r.mantissa < BEYOND,
                n >= 1,
                0 < d <= BEYOND,
                p > 0,
        ;
        lemma_exponent_bound(k);
    }
}

/// The exponents of integers, products and quotients stay near those they come from.
pub proof fn exponents_of_results(n: int, a: Real, b: Real)
    requires
        0 <= n <= u64::MAX,
        normal(a),
        normal(b),
    ensures
        -107 < of_int(n).exponent < 107,
        product(a, b).exponent == 0 || a.exponent + b.exponent - 107 < product(a, b).exponent < a.exponent
            + b.exponent + 107,
        b.mantissa > 0 ==> quotient(a, b).exponent == 0 || a.exponent - b.exponent - 107 < quotient(
            a,
            b,
        ).exponent < a.exponent - b.exponent + 107,
{
    if n > 0 {
        exponents_stay_near(n, 1, 0);
    }
    products_are_zero_with_a_factor_only(a, b);
    if a.mantissa > 0 && b.mantissa > 0 {
        assert(0 < a.mantissa * b.mantissa < BEYOND * BEYOND) by (nonlinear_arith)
            requires
                0 < a.mantissa < BEYOND,
                0 < b.mantissa < BEYOND,
        ;
        exponents_stay_near(a.mantissa * b.mantissa, 1, a.exponent + b.exponent);
    }
    if a.mantissa > 0 && b.mantissa > 0 {
        exponents_stay_near(a.mantissa, b.mantissa, a.exponent - b.exponent);
    }
    if a.mantissa == 0 && b.mantissa > 0 {
        nearest_is_normal(0, b.mantissa, a.exponent - b.exponent);
    }
}

} // verus!
