//! What the numbers and their operations are, told from the bits and in integer arithmetic.

use vstd::prelude::*;

use crate::float::{F32, F64};

verus! {

/// A binary32 number is a sign bit, eight bits of exponent and 23 bits of fraction. Its value
/// counts the smallest positive one, `2^-149`: the fraction itself where the exponent is zero, and
/// otherwise the fraction behind a leading one, shifted by the exponent less one.
pub proof fn the_bits_are_sign_exponent_and_fraction(x: F32)
    ensures
        ({
            let p = x.bits as int % 0x8000_0000;
            let exponent = p / 0x80_0000;
            let fraction = p % 0x80_0000;
            let size = if exponent == 0 {
                fraction
            } else {
                (0x80_0000 + fraction) * vstd::arithmetic::power2::pow2((exponent - 1) as nat)
            };
            &&& x.negative() <==> x.bits >= 0x8000_0000
            &&& x.pattern() == p
            &&& x.nan() <==> p > 0x7f80_0000
            &&& x.finite() <==> exponent < 255
            &&& x.value() == if x.bits >= 0x8000_0000 {
                -size
            } else {
                size
            }
            &&& x.rank() == if x.bits >= 0x8000_0000 {
                -p
            } else {
                p
            }
            &&& x.canonical().bits == if p > 0x7f80_0000 {
                0x7fc0_0000
            } else {
                x.bits
            }
        }),
{
}

/// Numbers compare as their values do. Nothing compares with NaN, and both zeros are the same.
pub proof fn numbers_compare_by_value(x: F32, y: F32)
    ensures
        ({
            let comparable = x.bits as int % 0x8000_0000 <= 0x7f80_0000 && y.bits as int
                % 0x8000_0000 <= 0x7f80_0000;
            &&& x.less(y) <==> comparable && x.value() < y.value()
            &&& x.same(y) <==> comparable && x.value() == y.value()
        }),
        x.at_least_zero() <==> x.bits <= 0x7f80_0000 || x.bits == 0x8000_0000,
        x.at_least_zero() <==> x.bits as int % 0x8000_0000 <= 0x7f80_0000 && x.value() >= 0,
{
    if !x.nan() && !y.nan() {
        crate::float::binary32::the_order_is_that_of_the_values(x, y);
    }
    if x.pattern() > 0 {
        crate::float::rounding::lemma_magnitude_increases(0, x.pattern());
    }
}

/// The nearest pattern lies at least as near as any other, and is even where another is as near.
proof fn lemma_nearest_is_nearest(n: int, d: int, m: int, k: int)
    requires
        d > 0,
        crate::float::rounding::nearest(n, d, m),
        0 <= k <= 0x7f80_0000,
    ensures
        ({
            let off = vstd::math::abs(crate::float::rounding::magnitude(m) * d - n);
            let other = vstd::math::abs(crate::float::rounding::magnitude(k) * d - n);
            &&& off <= other
            &&& k != m && off == other ==> m % 2 == 0
        }),
{
    let vm = crate::float::rounding::magnitude(m);
    let vk = crate::float::rounding::magnitude(k);
    if k > m {
        let v1 = crate::float::rounding::magnitude(m + 1);
        crate::float::rounding::lemma_magnitude_increases(m, m + 1);
        if k > m + 1 {
            crate::float::rounding::lemma_magnitude_increases(m + 1, k);
        }
        assert(vm * d < v1 * d && v1 * d <= vk * d && d * (vm + v1) == vm * d + v1 * d)
            by (nonlinear_arith)
            requires
                d > 0,
                vm < v1,
                v1 <= vk,
        ;
    } else if k < m {
        let v1 = crate::float::rounding::magnitude(m - 1);
        crate::float::rounding::lemma_magnitude_increases(m - 1, m);
        if k < m - 1 {
            crate::float::rounding::lemma_magnitude_increases(k, m - 1);
        }
        assert(v1 * d < vm * d && vk * d <= v1 * d && d * (v1 + vm) == v1 * d + vm * d)
            by (nonlinear_arith)
            requires
                d > 0,
                v1 < vm,
                vk <= v1,
        ;
    }
}

proof fn lemma_size(x: F32)
    ensures
        vstd::math::abs(x.value()) == crate::float::rounding::magnitude(x.pattern()),
        vstd::math::abs(x.value()) >= 0,
        x.pattern() > 0 <==> vstd::math::abs(x.value()) > 0,
{
    if x.pattern() > 0 {
        crate::float::rounding::lemma_magnitude_increases(0, x.pattern());
    }
}

/// Dividing one finite number by another that is not zero gives the number nearest to the exact
/// quotient: no other number `z` is nearer, and where one is as near the result is even. Infinity
/// takes part as the power of two behind the largest finite number. The signs combine.
pub proof fn division_gives_the_nearest_number(x: F32, y: F32, z: F32)
    requires
        x.bits as int % 0x8000_0000 < 0x7f80_0000,
        0 < y.bits as int % 0x8000_0000 < 0x7f80_0000,
        z.bits <= 0x7f80_0000,
    ensures
        ({
            let q = x.quotient(y);
            let by = vstd::math::abs(y.value());
            let exact = vstd::math::abs(x.value()) * vstd::arithmetic::power2::pow2(149);
            let off = vstd::math::abs(vstd::math::abs(q.value()) * by - exact);
            let other = vstd::math::abs(vstd::math::abs(z.value()) * by - exact);
            &&& q.bits as int % 0x8000_0000 <= 0x7f80_0000
            &&& q.bits >= 0x8000_0000 <==> (x.bits >= 0x8000_0000) != (y.bits >= 0x8000_0000)
            &&& off <= other
            &&& z.bits as int != q.bits as int % 0x8000_0000 && off == other ==> q.bits % 2 == 0
        }),
{
    let q = x.quotient(y);
    let n = crate::float::rounding::magnitude(x.pattern()) * vstd::arithmetic::power2::pow2(149);
    let d = crate::float::rounding::magnitude(y.pattern());
    lemma_size(x);
    lemma_size(y);
    lemma_size(z);
    lemma_size(q);
    vstd::arithmetic::power2::lemma_pow2_pos(149);
    assert(n >= 0) by (nonlinear_arith)
        requires
            n == vstd::math::abs(x.value()) * vstd::arithmetic::power2::pow2(149),
            vstd::math::abs(x.value()) >= 0,
            vstd::arithmetic::power2::pow2(149) > 0,
    ;
    crate::float::rounding::lemma_nearest_exists(n, d);
    let m = F32::rounded(n, d);
    assert(crate::float::rounding::nearest(n, d, m));
    assert(q.pattern() == m);
    lemma_nearest_is_nearest(n, d, m, z.bits as int);
}

/// Multiplying two finite numbers gives the number nearest to the exact product, in the same sense.
pub proof fn multiplication_gives_the_nearest_number(x: F32, y: F32, z: F32)
    requires
        x.bits as int % 0x8000_0000 < 0x7f80_0000,
        y.bits as int % 0x8000_0000 < 0x7f80_0000,
        z.bits <= 0x7f80_0000,
    ensures
        ({
            let r = x.product(y);
            let exact = vstd::math::abs(x.value()) * vstd::math::abs(y.value());
            let unit = vstd::arithmetic::power2::pow2(149);
            let off = vstd::math::abs(vstd::math::abs(r.value()) * unit - exact);
            let other = vstd::math::abs(vstd::math::abs(z.value()) * unit - exact);
            &&& r.bits as int % 0x8000_0000 <= 0x7f80_0000
            &&& r.bits >= 0x8000_0000 <==> (x.bits >= 0x8000_0000) != (y.bits >= 0x8000_0000)
            &&& off <= other
            &&& z.bits as int != r.bits as int % 0x8000_0000 && off == other ==> r.bits % 2 == 0
        }),
{
    let r = x.product(y);
    let n = crate::float::rounding::magnitude(x.pattern()) * crate::float::rounding::magnitude(
        y.pattern(),
    );
    let d = vstd::arithmetic::power2::pow2(149) as int;
    lemma_size(x);
    lemma_size(y);
    lemma_size(z);
    lemma_size(r);
    vstd::arithmetic::power2::lemma_pow2_pos(149);
    assert(n >= 0) by (nonlinear_arith)
        requires
            n == vstd::math::abs(x.value()) * vstd::math::abs(y.value()),
            vstd::math::abs(x.value()) >= 0,
            vstd::math::abs(y.value()) >= 0,
    ;
    crate::float::rounding::lemma_nearest_exists(n, d);
    let m = F32::rounded(n, d);
    assert(crate::float::rounding::nearest(n, d, m));
    assert(r.pattern() == m);
    lemma_nearest_is_nearest(n, d, m, z.bits as int);
}

/// What division and multiplication give where a number is infinite, zero or no number.
pub proof fn arithmetic_at_the_limits(x: F32, y: F32)
    ensures
        ({
            let a = x.bits as int % 0x8000_0000;
            let b = y.bits as int % 0x8000_0000;
            let sign: int = if (x.bits >= 0x8000_0000) != (y.bits >= 0x8000_0000) {
                0x8000_0000
            } else {
                0
            };
            let q = x.quotient(y).bits;
            let r = x.product(y).bits;
            &&& a > 0x7f80_0000 || b > 0x7f80_0000 ==> q == 0x7fc0_0000 && r == 0x7fc0_0000
            &&& a == 0x7f80_0000 && b == 0x7f80_0000 ==> q == 0x7fc0_0000 && r == sign + 0x7f80_0000
            &&& a == 0x7f80_0000 && b < 0x7f80_0000 ==> q == sign + 0x7f80_0000
            &&& a < 0x7f80_0000 && b == 0x7f80_0000 ==> q == sign
            &&& a == 0 && b == 0 ==> q == 0x7fc0_0000
            &&& 0 < a < 0x7f80_0000 && b == 0 ==> q == sign + 0x7f80_0000
            &&& a == 0x7f80_0000 && b == 0 ==> r == 0x7fc0_0000
            &&& a == 0 && b == 0x7f80_0000 ==> r == 0x7fc0_0000
            &&& a == 0x7f80_0000 && 0 < b < 0x7f80_0000 ==> r == sign + 0x7f80_0000
            &&& 0 < a < 0x7f80_0000 && b == 0x7f80_0000 ==> r == sign + 0x7f80_0000
        }),
{
}

/// A number compares with zero, and with another double-precision number, by its bits.
pub proof fn doubles_compare_by_their_bits(x: F64, y: F64)
    ensures
        x.nan() <==> x.bits as int % 0x8000_0000_0000_0000 > 0x7ff0_0000_0000_0000,
        x.negative() <==> x.bits >= 0x8000_0000_0000_0000,
        x.at_most_zero() <==> x.bits == 0 || 0x8000_0000_0000_0000 <= x.bits
            <= 0xfff0_0000_0000_0000,
        x.same(y) <==> x.bits as int % 0x8000_0000_0000_0000 <= 0x7ff0_0000_0000_0000 && (x.bits
            == y.bits || (x.bits as int % 0x8000_0000_0000_0000 == 0 && y.bits as int
            % 0x8000_0000_0000_0000 == 0)),
{
}

/// Widening keeps a finite value exactly: in units of `2^-1074` the double-precision number is
/// `2^925` times the single-precision one in units of `2^-149`. It keeps the sign and infinity, and
/// folds NaN.
pub proof fn widening_keeps_the_value(x: F32)
    ensures
        ({
            let w = x.widened().bits;
            let p = w as int % 0x8000_0000_0000_0000;
            let exponent = p / 0x10_0000_0000_0000;
            let fraction = p % 0x10_0000_0000_0000;
            let narrow = x.bits as int % 0x8000_0000;
            &&& narrow > 0x7f80_0000 ==> w == 0x7ff8_0000_0000_0000
            &&& narrow <= 0x7f80_0000 ==> (w >= 0x8000_0000_0000_0000 <==> x.bits >= 0x8000_0000)
            &&& narrow == 0x7f80_0000 ==> p == 0x7ff0_0000_0000_0000
            &&& narrow < 0x7f80_0000 ==> exponent < 2047 && (if exponent == 0 {
                fraction
            } else {
                (0x10_0000_0000_0000 + fraction) * vstd::arithmetic::power2::pow2(
                    (exponent - 1) as nat,
                )
            }) == vstd::math::abs(x.value()) * vstd::arithmetic::power2::pow2(925)
        }),
{
    if x.finite() {
        lemma_size(x);
        crate::float::binary64::lemma_value_is_held(x.pattern());
        let m = choose|m: int| crate::float::binary64::holds_value(x.pattern(), m);
        assert(crate::float::binary64::holds_value(x.pattern(), m));
        assert(x.widened().pattern() == m);
    }
}

}
