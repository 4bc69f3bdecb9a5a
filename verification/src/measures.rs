//! Shares and other doubles of reports, as the integers that replies show.
//!
//! A double of a report is held by its IEEE-754 bits.

use crate::double::{at_most, below, close, distance, half_even, nearest_is_close, nearest_is_normal, nearest_is_up_to, nearest_keeps_order, nearest_of_shifted_numerator, normal, of_bits, of_int, product, products_are_zero_with_a_factor_only, quotient, rounded, rounded_is_close, rounded_is_not_negative, small_integer_is_shifted, small_quotients_are_rounded_once, up_to, zero, Double, Real, BEYOND, LEAST};
use crate::json::{as_f64, duplicate, is_f64, is_null, json_of, Json};
use serde_json::Value;
use vstd::arithmetic::power2::{lemma2_to64, lemma2_to64_rest, lemma_pow2_adds, lemma_pow2_pos, lemma_pow2_strictly_increases, lemma_pow2_unfold, pow2};
use vstd::prelude::*;

verus! {

/// The bits of the double that is greater than every number.
pub const INFINITY: u64 = 0x7FF0_0000_0000_0000;

/// Whether the double with these bits is a number, and not without limit.
pub open spec fn finite(bits: u64) -> bool {
    (bits / LEAST) % 2048 != 2047
}

/// The double with these bits in JSON, which has no way to write one that is not finite.
pub open spec fn number_json(bits: u64) -> Json {
    if finite(bits) {
        Json::Real(bits)
    } else {
        Json::Null
    }
}

/// A double that replies show as it is: its bits, and the JSON value that shows it.
pub struct Measured {
    /// The bits.
    bits: u64,
    /// The JSON value, which is always that of the bits.
    shown: Value,
}

impl View for Measured {
    type V = u64;

    closed spec fn view(&self) -> u64 {
        self.bits
    }
}

impl Measured {
    /// The JSON value shows the double with these bits.
    #[verifier::type_invariant]
    spec fn shows_its_bits(self) -> bool {
        json_of(self.shown) == number_json(self.bits)
    }

    /// The double with these bits, where `shown` is that double in JSON.
    pub fn new(bits: u64, shown: Value) -> (measured: Option<Measured>)
        ensures
            match measured {
                Some(m) => m@ == bits && json_of(shown) == number_json(bits),
                None => json_of(shown) != number_json(bits),
            },
    {
        let fits: bool = if (bits / LEAST) % 2048 == 2047 {
            is_null(&shown)
        } else if is_f64(&shown) {
            match as_f64(&shown) {
                Some(b) => b == bits,
                None => false,
            }
        } else {
            false
        };
        if fits {
            Some(Measured { bits, shown })
        } else {
            None
        }
    }

    /// The bits.
    pub fn bits(&self) -> (bits: u64)
        ensures
            bits == self@,
    {
        self.bits
    }

    /// The double in JSON.
    pub fn to_json(&self) -> (value: Value)
        ensures
            json_of(value) == number_json(self@),
    {
        proof {
            use_type_invariant(self);
        }
        duplicate(&self.shown)
    }
}

/// `share * times` as the nearest integer.
pub open spec fn scaled(share: Real, times: int) -> int {
    at_most(rounded(product(share, of_int(times))), u32::MAX as int)
}

/// A share in hundredths of a percent.
pub open spec fn points(share: Real) -> int {
    scaled(share, 10000)
}

/// `share * times` as the nearest integer.
pub fn scale(share: Double, times: u64) -> (n: u32)
    requires
        share.within(2000),
    ensures
        n == scaled(share@, times as int),
{
    share.times(Double::of_u64(times)).to_u32()
}

/// The double with these bits, times `times`, as the nearest integer: the greatest `u32` where it is
/// greater, and zero where it is negative or no number.
pub open spec fn scaled_bits(bits: u64, times: int) -> int {
    if bits == INFINITY && times > 0 {
        u32::MAX as int
    } else {
        scaled(of_bits(bits), times)
    }
}

/// The share with these bits in hundredths of a percent.
pub open spec fn points_of(bits: u64) -> int {
    scaled_bits(bits, 10000)
}

/// The double with these bits, times `times`, as the nearest integer.
pub fn scale_bits(bits: u64, times: u64) -> (n: u32)
    ensures
        n == scaled_bits(bits, times as int),
{
    if bits == INFINITY && times > 0 {
        u32::MAX
    } else {
        scale(Double::of_bits(bits), times)
    }
}

/// The share with these bits in hundredths of a percent.
pub fn to_points(bits: u64) -> (n: u32)
    ensures
        n == points_of(bits),
{
    scale_bits(bits, 10000)
}

/// How unstable a file is that depends on `fan_out` others while `fan_in` depend on it: the share
/// of its dependencies among both, zero where it has none.
pub open spec fn instability(fan_in: int, fan_out: int) -> Real {
    if fan_in + fan_out > 0 {
        quotient(of_int(fan_out), of_int(fan_in + fan_out))
    } else {
        zero()
    }
}

/// An instability in hundredths of a percent is not negative and fits in 32 bits.
pub proof fn instability_in_points(fan_in: int, fan_out: int)
    requires
        fan_in >= 0,
        fan_out >= 0,
    ensures
        0 <= points(instability(fan_in, fan_out)) <= u32::MAX,
{
    let share = instability(fan_in, fan_out);
    if fan_in + fan_out > 0 {
        nearest_is_normal(fan_out, 1, 0);
        nearest_is_normal(fan_in + fan_out, 1, 0);
        nearest_is_normal(
            of_int(fan_out).mantissa,
            of_int(fan_in + fan_out).mantissa,
            of_int(fan_out).exponent - of_int(fan_in + fan_out).exponent,
        );
    }
    nearest_is_normal(10000, 1, 0);
    products_are_zero_with_a_factor_only(share, of_int(10000));
    rounded_is_not_negative(product(share, of_int(10000)));
}

/// How unstable a file is that depends on `fan_out` others while `fan_in` depend on it.
pub fn compute_instability(fan_in: usize, fan_out: usize) -> (r: Double)
    requires
        fan_in + fan_out <= usize::MAX,
    ensures
        r@ == instability(fan_in as int, fan_out as int),
        r.within(2000),
{
    let total: usize = fan_in + fan_out;
    if total > 0 {
        Double::of_u64(fan_out as u64).over(Double::of_u64(total as u64))
    } else {
        Double { mantissa: 0, exponent: 0 }
    }
}

/// A part of a whole is at most one in doubles too.
proof fn lemma_share_of_doubles(a: Real, b: Real)
    requires
        normal(a),
        LEAST <= b.mantissa < BEYOND,
        !below(b, a),
    ensures
        normal(quotient(a, b)),
        !below(of_int(1), quotient(a, b)),
        of_int(1) == (Real { mantissa: LEAST as int, exponent: -52 }),
{
    lemma2_to64();
    lemma2_to64_rest();
    nearest_of_shifted_numerator(1, 1, 0, 52);
    assert(1 * pow2(52) == LEAST) by (nonlinear_arith)
        requires
            pow2(52) == LEAST,
    ;
    assert(half_even(LEAST as int, 1) == LEAST);
    let e = a.exponent - b.exponent;
    nearest_is_normal(a.mantissa, b.mantissa, e);
    if a.mantissa > 0 {
        let one = of_int(1);
        let k = (-52 - e) as nat;
        if e <= -52 {
            assert(a.mantissa <= b.mantissa * (LEAST * pow2(k))) by {
                lemma_pow2_pos(k);
                assert(a.mantissa <= b.mantissa * (LEAST * pow2(k))) by (nonlinear_arith)
                    requires
                        a.mantissa < 2 * LEAST,
                        b.mantissa >= LEAST,
                        pow2(k) >= 1,
                ;
            }
        } else {
            let i = (e + 52) as nat;
            assert(a.mantissa * pow2(i) <= b.mantissa * LEAST) by {
                if e == 0 {
                    assert(a.mantissa * pow2(52) <= b.mantissa * LEAST) by (nonlinear_arith)
                        requires
                            a.mantissa <= b.mantissa,
                            pow2(52) == LEAST,
                    ;
                } else {
                    if i < 51 {
                        lemma_pow2_strictly_increases(i, 51);
                    }
                    assert(a.mantissa * pow2(i) <= b.mantissa * LEAST) by (nonlinear_arith)
                        requires
                            0 <= a.mantissa < 2 * LEAST,
                            b.mantissa >= LEAST,
                            0 <= 2 * pow2(i) <= LEAST,
                    ;
                }
            }
        }
        assert(up_to(a.mantissa, b.mantissa, e, one));
        nearest_is_up_to(a.mantissa, b.mantissa, e, one);
    }
}

/// No double up to one is more than 10000 hundredths of a percent.
proof fn lemma_points_of_share(share: Real)
    requires
        normal(share),
        of_int(1) == (Real { mantissa: LEAST as int, exponent: -52 }),
        !below(of_int(1), share),
    ensures
        points(share) <= 10000,
{
    lemma2_to64();
    lemma2_to64_rest();
    let top = of_int(10000);
    let m = 10000 * pow2(39);
    nearest_of_shifted_numerator(10000, 1, 0, 39);
    assert(m == 0x13_8800_0000_0000) by (nonlinear_arith)
        requires
            m == 10000 * pow2(39),
            pow2(39) == 0x80_0000_0000,
    ;
    assert(half_even(m as int, 1) == m);
    assert(top == (Real { mantissa: m as int, exponent: -39 }));
    products_are_zero_with_a_factor_only(share, top);
    let r = product(share, top);
    if share.mantissa > 0 {
        let n = share.mantissa * top.mantissa;
        let e = share.exponent + top.exponent;
        let k = (-39 - e) as nat;
        assert(n > 0) by (nonlinear_arith)
            requires
                n == share.mantissa * top.mantissa,
                share.mantissa > 0,
                top.mantissa > 0,
        ;
        assert(share.mantissa <= pow2(k)) by {
            if share.exponent < -53 {
                lemma_pow2_strictly_increases(53, k);
            }
        }
        assert(n <= 1 * (top.mantissa * pow2(k))) by (nonlinear_arith)
            requires
                n == share.mantissa * top.mantissa,
                share.mantissa <= pow2(k),
                top.mantissa > 0,
        ;
        assert(up_to(n, 1, e, top));
        nearest_is_up_to(n, 1, e, top);
        let d = pow2((-r.exponent) as nat) as int;
        let h = pow2((-r.exponent - 1) as nat) as int;
        lemma_pow2_unfold((-r.exponent) as nat);
        if r.exponent < -39 {
            if r.exponent < -40 {
                lemma_pow2_strictly_increases(40, (-r.exponent) as nat);
            }
        }
        assert((r.mantissa + h) / d <= 10000) by (nonlinear_arith)
            requires
                d == 2 * h,
                d > 0,
                r.mantissa <= 10000 * d,
        ;
    } else {
        assert(0 * pow2(0) == 0) by (nonlinear_arith);
    }
}

/// An instability is a share: between none and 10000 hundredths of a percent.
pub proof fn instability_is_a_share(fan_in: int, fan_out: int)
    requires
        fan_in >= 0,
        fan_out >= 0,
    ensures
        0 <= points(instability(fan_in, fan_out)) <= 10000,
{
    instability_in_points(fan_in, fan_out);
    let total = fan_in + fan_out;
    if total > 0 {
        nearest_is_normal(fan_out, 1, 0);
        nearest_is_normal(total, 1, 0);
        if fan_out > 0 {
            nearest_keeps_order(fan_out, total, 1, 0);
        }
        lemma_share_of_doubles(of_int(fan_out), of_int(total));
        lemma_points_of_share(instability(fan_in, fan_out));
    } else {
        nearest_is_normal(10000, 1, 0);
        products_are_zero_with_a_factor_only(zero(), of_int(10000));
        assert(0 * pow2(0) == 0) by (nonlinear_arith);
    }
}

/// A number scaled by an integer is the nearest integer to the product, but for the rounding of the
/// product to a double.
pub proof fn scaling_is_close(share: Real, times: int)
    requires
        LEAST <= share.mantissa < BEYOND,
        share.exponent <= 0,
        0 < times < BEYOND,
        share.mantissa * times < 0x8000_0000 * pow2((-share.exponent) as nat),
    ensures
        2 * distance(
            scaled(share, times) * pow2((-share.exponent) as nat),
            share.mantissa * times,
        ) <= pow2((-share.exponent) as nat) + 4 * times,
{
    lemma2_to64();
    lemma2_to64_rest();
    let k = (-share.exponent) as nat;
    let m = share.mantissa;
    let t = of_int(times);
    let i = small_integer_is_shifted(times);
    let r = product(share, t);
    let n = m * t.mantissa;
    let e = share.exponent - i;
    let top = pow2(k) as int;
    let shift = pow2(i) as int;
    lemma_pow2_pos(k);
    lemma_pow2_pos(i);
    assert(n > 0 && n == (m * times) * shift) by (nonlinear_arith)
        requires
            n == m * t.mantissa,
            t.mantissa == times * shift,
            m > 0,
            t.mantissa > 0,
    ;
    nearest_is_close(n, 1, e);
    nearest_is_normal(n, 1, e);
    lemma_pow2_adds(k, i);
    let whole = pow2(k + i) as int;
    assert(n < 0x8000_0000 * whole) by (nonlinear_arith)
        requires
            n == (m * times) * shift,
            m * times < 0x8000_0000 * top,
            whole == top * shift,
            shift > 0,
    ;
    assert(n >= LEAST * LEAST) by (nonlinear_arith)
        requires
            n == m * t.mantissa,
            m >= LEAST,
            t.mantissa >= LEAST,
    ;
    assert(n < BEYOND * BEYOND) by (nonlinear_arith)
        requires
            n == m * t.mantissa,
            0 < m < BEYOND,
            0 < t.mantissa < BEYOND,
    ;
    lemma_product_exponent(n, e, r, k + i);
    let j = (r.exponent - e) as nat;
    let c = (-r.exponent) as nat;
    let unit = pow2(j) as int;
    let cut = pow2(c) as int;
    lemma_pow2_adds(c, j);
    rounded_is_close(r);
    let p = rounded(r);
    rounded_is_not_negative(r);
    assert(unit * 1 == unit);
    assert(2 * distance(r.mantissa * unit, n) <= unit);
    lemma_pow2_pos(j);
    lemma_pow2_pos(c);
    assert(2 * distance(p * whole, n) <= whole + unit) by {
        assert(whole == cut * unit);
        assert(2 * distance((p * cut) * unit, r.mantissa * unit) <= cut * unit) by (nonlinear_arith)
            requires
                2 * distance(p * cut, r.mantissa) <= cut,
                unit > 0,
        ;
        assert((p * cut) * unit == p * (cut * unit)) by (nonlinear_arith);
    }
    assert(unit <= 4 * (times * shift)) by {
        assert(times * shift == t.mantissa);
        assert(unit <= 0x40_0000_0000_0000);
    }
    assert(p * whole == (p * top) * shift) by (nonlinear_arith)
        requires
            whole == top * shift,
    ;
    assert(2 * distance(p * top, m * times) <= top + 4 * times) by (nonlinear_arith)
        requires
            2 * distance((p * top) * shift, (m * times) * shift) <= top * shift + 4 * (times * shift),
            shift > 0,
    ;
    assert(p < u32::MAX) by {
        assert(4 * times <= top) by (nonlinear_arith)
            requires
                m * times < 0x8000_0000 * top,
                m >= LEAST,
                times > 0,
                top > 0,
        ;
        assert(p < u32::MAX) by (nonlinear_arith)
            requires
                2 * distance(p * top, m * times) <= top + 4 * times,
                4 * times <= top,
                m * times < 0x8000_0000 * top,
                top > 0,
                p >= 0,
        ;
    }
}

/// How the exponent of a product of two doubles is bounded by its size.
proof fn lemma_product_exponent(n: int, e: int, r: Real, k: nat)
    requires
        n >= LEAST * LEAST,
        n < 0x400_0000_0000_0000_0000_0000_0000,
        n < 0x8000_0000 * pow2(k),
        e == -(k as int),
        LEAST <= r.mantissa < BEYOND,
        close(n, 1, e, r),
    ensures
        r.exponent >= e,
        r.exponent < 0,
        pow2((r.exponent - e) as nat) <= 0x40_0000_0000_0000,
{
    lemma2_to64();
    lemma2_to64_rest();
    if r.exponent < e {
        let i = (e - r.exponent) as nat;
        lemma_pow2_pos(i);
        assert(false) by (nonlinear_arith)
            requires
                2 * distance(r.mantissa * 1, n * pow2(i)) <= 1,
                r.mantissa < BEYOND,
                n >= LEAST * LEAST,
                pow2(i) >= 1,
        ;
    }
    let j = (r.exponent - e) as nat;
    let unit = pow2(j) as int;
    lemma_pow2_pos(j);
    assert(unit * 1 == unit);
    assert(r.mantissa * unit >= LEAST * unit) by (nonlinear_arith)
        requires
            r.mantissa >= LEAST,
            unit > 0,
    ;
    assert(2 * n >= (2 * LEAST - 1) * unit) by (nonlinear_arith)
        requires
            2 * distance(r.mantissa * unit, n) <= unit,
            r.mantissa * unit >= LEAST * unit,
    ;
    if r.exponent >= 0 {
        if j > k {
            lemma_pow2_strictly_increases(k, j);
        }
        assert(false) by (nonlinear_arith)
            requires
                2 * n >= (2 * LEAST - 1) * unit,
                n < 0x8000_0000 * pow2(k),
                unit >= pow2(k),
                pow2(k) >= 0,
        ;
    }
    if j > 54 {
        if j > 55 {
            lemma_pow2_strictly_increases(55, j);
        }
        assert(unit >= 0x80_0000_0000_0000);
        assert(false);
    }
    if j < 54 {
        lemma_pow2_strictly_increases(j, 54);
    }
}

/// An instability in hundredths of a percent is the nearest integer to ten thousand times the share
/// of fan-out among both directions.
pub proof fn instability_is_the_share_of_fan_out(fan_in: int, fan_out: int)
    requires
        fan_in >= 0,
        fan_out >= 0,
        0 < fan_in + fan_out < 0x10_0000_0000,
    ensures
        2 * distance(points(instability(fan_in, fan_out)) * (fan_in + fan_out), 10000 * fan_out) <= fan_in
            + fan_out,
{
    lemma2_to64();
    lemma2_to64_rest();
    let total = fan_in + fan_out;
    if fan_out == 0 {
        nearest_is_normal(0, 1, 0);
        nearest_is_normal(total, 1, 0);
        nearest_is_normal(0, of_int(total).mantissa, of_int(0).exponent - of_int(total).exponent);
        nearest_is_normal(10000, 1, 0);
        products_are_zero_with_a_factor_only(instability(fan_in, fan_out), of_int(10000));
        assert(0 * pow2(0) == 0) by (nonlinear_arith);
        assert(0 * total == 0) by (nonlinear_arith);
    } else {
        nearest_is_normal(fan_out, 1, 0);
        nearest_is_normal(total, 1, 0);
        nearest_keeps_order(fan_out, total, 1, 0);
        lemma_share_of_doubles(of_int(fan_out), of_int(total));
        small_quotients_are_rounded_once(fan_out, total);
        nearest_is_close(fan_out, total, 0);
        nearest_is_normal(fan_out, total, 0);
        let q = instability(fan_in, fan_out);
        let m = q.mantissa;
        let k = (-q.exponent) as nat;
        let top = pow2(k) as int;
        assert(k >= 52);
        assert(top >= LEAST) by {
            if k > 52 {
                lemma_pow2_strictly_increases(52, k);
            }
        }
        assert(2 * distance(m * total, fan_out * top) <= total);
        assert(m * 10000 < 0x8000_0000 * top) by {
            assert(m <= 2 * top) by {
                if k == 52 {
                    assert(m == LEAST);
                }
            }
        }
        scaling_is_close(q, 10000);
        let p = points(q);
        assert(2 * distance(p * top, m * 10000) <= top + 40000);
        assert(2 * distance((p * top) * total, (m * 10000) * total) <= (top + 40000) * total) by (nonlinear_arith)
            requires
                2 * distance(p * top, m * 10000) <= top + 40000,
                total > 0,
        ;
        assert((m * 10000) * total == 10000 * (m * total)) by (nonlinear_arith);
        assert(10000 * (fan_out * top) == (10000 * fan_out) * top) by (nonlinear_arith);
        assert((p * top) * total == (p * total) * top) by (nonlinear_arith);
        assert((top + 40000) * total == total * top + 40000 * total) by (nonlinear_arith);
        assert(2 * distance((p * total) * top, (10000 * fan_out) * top) <= total * top + 50000 * total);
        assert(2 * distance(p * total, 10000 * fan_out) <= total) by (nonlinear_arith)
            requires
                2 * distance((p * total) * top, (10000 * fan_out) * top) <= total * top + 50000 * total,
                top >= LEAST,
                0 < total < 0x10_0000_0000,
        ;
    }
}

/// What is negative is shown as nothing, and what has no limit as the greatest number.
pub proof fn shares_out_of_range_are_shown_at_its_ends(bits: u64, times: int)
    requires
        times > 0,
    ensures
        bits >= 0x8000_0000_0000_0000 ==> scaled_bits(bits, times) == 0,
        scaled_bits(INFINITY, times) == u32::MAX,
        bits > INFINITY ==> scaled_bits(bits, times) == 0,
{
    if bits > INFINITY {
        assert(bits / LEAST >= 2047);
        nearest_is_normal(times, 1, 0);
        products_are_zero_with_a_factor_only(zero(), of_int(times));
        assert(0 * pow2(0) == 0) by (nonlinear_arith);
    }
}

/// The share with these bits, which stand for a mantissa and a power of two, is shown as the nearest
/// integer to its ten thousandfold, but for the rounding of that to a double.
pub proof fn shares_are_shown_in_hundredths_of_a_percent(bits: u64)
    requires
        1 <= bits / LEAST <= 1039,
    ensures
        2 * distance(
            points_of(bits) * pow2((1075 - bits / LEAST) as nat),
            10000 * (LEAST + bits % LEAST),
        ) <= pow2((1075 - bits / LEAST) as nat) + 40000,
{
    lemma2_to64();
    let share = of_bits(bits);
    let k = (1075 - bits / LEAST) as nat;
    if k > 36 {
        lemma_pow2_strictly_increases(36, k);
    }
    lemma2_to64_rest();
    assert(pow2(36) == 0x10_0000_0000);
    assert(share.mantissa * 10000 < 0x8000_0000 * pow2(k)) by (nonlinear_arith)
        requires
            share.mantissa < BEYOND,
            pow2(k) >= 0x10_0000_0000,
    ;
    assert(bits < INFINITY);
    scaling_is_close(share, 10000);
}

} // verus!
