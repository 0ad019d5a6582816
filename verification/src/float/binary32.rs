//! Single-precision numbers: order, equality, division and multiplication.

use vstd::prelude::*;

use crate::float::rounding::{round_significand, INFINITY};

verus! {

/// The sign bit.
pub const SIGN: u32 = 0x8000_0000;

/// The bit pattern of the number one.
pub const ONE: u32 = 0x3f80_0000;

/// The bit pattern that stands for every not-a-number result.
pub const NAN: u32 = 0x7fc0_0000;

/// An IEEE 754 binary32 number, held as its bit pattern.
#[derive(Clone, Copy, Debug)]
pub struct F32 {
    pub bits: u32,
}

impl F32 {
    /// The sign bit is set.
    pub open spec fn negative(self) -> bool {
        self.bits >= SIGN
    }

    /// The bits below the sign.
    pub open spec fn pattern(self) -> int {
        if self.negative() {
            self.bits - SIGN
        } else {
            self.bits as int
        }
    }

    /// Not a number.
    pub open spec fn nan(self) -> bool {
        self.pattern() > INFINITY
    }

    /// A number that is neither infinite nor NaN.
    pub open spec fn finite(self) -> bool {
        self.pattern() < INFINITY
    }

    /// The place of a number on the line of all numbers, counted from zero. Both zeros share
    /// place zero, and a number is less than another exactly when its place is lower.
    pub open spec fn rank(self) -> int {
        if self.negative() {
            -self.pattern()
        } else {
            self.pattern()
        }
    }

    /// The value as a multiple of the smallest positive one, `2^-149`.
    pub open spec fn value(self) -> int {
        if self.negative() {
            -crate::float::rounding::magnitude(self.pattern())
        } else {
            crate::float::rounding::magnitude(self.pattern())
        }
    }

    /// IEEE 754 `self < other`: false when either side is NaN.
    pub open spec fn less(self, other: F32) -> bool {
        !self.nan() && !other.nan() && self.rank() < other.rank()
    }

    /// IEEE 754 `self == other`: false when either side is NaN, true between the two zeros.
    pub open spec fn same(self, other: F32) -> bool {
        !self.nan() && !other.nan() && self.rank() == other.rank()
    }

    /// IEEE 754 `self >= 0`: true for negative zero, false for NaN.
    pub open spec fn at_least_zero(self) -> bool {
        !self.nan() && self.rank() >= 0
    }

    /// The number with every NaN pattern folded into one.
    pub open spec fn canonical(self) -> F32 {
        if self.nan() {
            F32 { bits: NAN }
        } else {
            self
        }
    }

    /// The number with sign `negative` over the magnitude pattern `m`.
    pub open spec fn signed(negative: bool, m: int) -> F32 {
        F32 {
            bits: (if negative {
                m + SIGN
            } else {
                m
            }) as u32,
        }
    }

    /// The pattern nearest to `n / d` multiples of the smallest positive value.
    pub open spec fn rounded(n: int, d: int) -> int {
        choose|m: int| crate::float::rounding::nearest(n, d, m)
    }

    /// IEEE 754 division, rounding to nearest with ties to even. Every NaN result is [`NAN`].
    pub open spec fn quotient(self, by: F32) -> F32 {
        let negative = self.negative() != by.negative();
        if self.nan() || by.nan() {
            F32 { bits: NAN }
        } else if self.pattern() == INFINITY {
            if by.pattern() == INFINITY {
                F32 { bits: NAN }
            } else {
                F32::signed(negative, INFINITY as int)
            }
        } else if by.pattern() == INFINITY {
            F32::signed(negative, 0)
        } else if by.pattern() == 0 {
            if self.pattern() == 0 {
                F32 { bits: NAN }
            } else {
                F32::signed(negative, INFINITY as int)
            }
        } else {
            F32::signed(
                negative,
                F32::rounded(
                    crate::float::rounding::magnitude(self.pattern())
                        * vstd::arithmetic::power2::pow2(149),
                    crate::float::rounding::magnitude(by.pattern()),
                ),
            )
        }
    }

    /// IEEE 754 multiplication, rounding to nearest with ties to even. Every NaN result is [`NAN`].
    pub open spec fn product(self, by: F32) -> F32 {
        let negative = self.negative() != by.negative();
        if self.nan() || by.nan() {
            F32 { bits: NAN }
        } else if self.pattern() == INFINITY || by.pattern() == INFINITY {
            if self.pattern() == 0 || by.pattern() == 0 {
                F32 { bits: NAN }
            } else {
                F32::signed(negative, INFINITY as int)
            }
        } else {
            F32::signed(
                negative,
                F32::rounded(
                    crate::float::rounding::magnitude(self.pattern())
                        * crate::float::rounding::magnitude(by.pattern()),
                    vstd::arithmetic::power2::pow2(149) as int,
                ),
            )
        }
    }

    /// The number with this bit pattern.
    pub fn from_bits(bits: u32) -> (r: F32)
        ensures
            r.bits == bits,
    {
        F32 { bits }
    }

    /// The bit pattern of the number.
    pub fn to_bits(self) -> (r: u32)
        ensures
            r == self.bits,
    {
        self.bits
    }

    pub(crate) fn split(self) -> (r: (bool, u32))
        ensures
            r.0 == self.negative(),
            r.1 == self.pattern(),
    {
        if self.bits >= SIGN {
            (true, self.bits - SIGN)
        } else {
            (false, self.bits)
        }
    }

    fn join(negative: bool, m: u32) -> (r: F32)
        requires
            m <= INFINITY,
        ensures
            r == F32::signed(negative, m as int),
    {
        if negative {
            F32 { bits: m + SIGN }
        } else {
            F32 { bits: m }
        }
    }

    /// Whether `self >= 0` holds, as IEEE 754 compares.
    pub fn is_at_least_zero(self) -> (r: bool)
        ensures
            r == self.at_least_zero(),
    {
        let (negative, m) = self.split();
        m <= INFINITY && (!negative || m == 0)
    }

    /// Whether `self == other` holds, as IEEE 754 compares.
    pub fn is_same(self, other: F32) -> (r: bool)
        ensures
            r == self.same(other),
    {
        let (negative, m) = self.split();
        let (other_negative, other_m) = other.split();
        m <= INFINITY && m == other_m && (negative == other_negative || m == 0)
    }
}

impl PartialEq for F32 {
    fn eq(&self, other: &F32) -> (r: bool) {
        self.is_same(*other)
    }
}

impl vstd::std_specs::cmp::PartialEqSpecImpl for F32 {
    open spec fn obeys_eq_spec() -> bool {
        true
    }

    open spec fn eq_spec(&self, other: &F32) -> bool {
        self.same(*other)
    }
}

/// The significand and exponent of a finite, nonzero magnitude pattern.
pub(crate) fn significand(m: u32) -> (r: (u32, u32))
    requires
        0 < m < INFINITY,
    ensures
        0 < r.0 < 0x100_0000,
        r.1 < 254,
        crate::float::rounding::magnitude(m as int) == r.0 * vstd::arithmetic::power2::pow2(
            r.1 as nat,
        ),
{
    proof {
        vstd::arithmetic::power2::lemma2_to64();
    }
    if m < 0x80_0000 {
        assert(m * 1 == m);
        (m, 0)
    } else {
        (0x80_0000 + m % 0x80_0000, m / 0x80_0000 - 1)
    }
}

impl F32 {
    /// Divides, as IEEE 754 does: rounding to nearest with ties to even.
    pub fn divide(self, by: F32) -> (r: F32)
        ensures
            r == self.quotient(by),
    {
        let (self_negative, m) = self.split();
        let (by_negative, by_m) = by.split();
        let negative = self_negative != by_negative;
        if m > INFINITY || by_m > INFINITY {
            return F32 { bits: NAN };
        }
        if m == INFINITY {
            return if by_m == INFINITY {
                F32 { bits: NAN }
            } else {
                F32::join(negative, INFINITY)
            };
        }
        if by_m == INFINITY {
            return F32::join(negative, 0);
        }
        if by_m == 0 {
            return if m == 0 {
                F32 { bits: NAN }
            } else {
                F32::join(negative, INFINITY)
            };
        }
        F32::join(negative, divide_magnitudes(m, by_m))
    }

    /// Multiplies, as IEEE 754 does: rounding to nearest with ties to even.
    pub fn multiply(self, by: F32) -> (r: F32)
        ensures
            r == self.product(by),
    {
        let (self_negative, m) = self.split();
        let (by_negative, by_m) = by.split();
        let negative = self_negative != by_negative;
        if m > INFINITY || by_m > INFINITY {
            return F32 { bits: NAN };
        }
        if m == INFINITY || by_m == INFINITY {
            return if m == 0 || by_m == 0 {
                F32 { bits: NAN }
            } else {
                F32::join(negative, INFINITY)
            };
        }
        F32::join(negative, multiply_magnitudes(m, by_m))
    }
}

/// Nothing over a positive number rounds to zero.
proof fn lemma_rounded_nothing(d: int)
    requires
        d > 0,
    ensures
        F32::rounded(0, d) == 0,
{
    assert(crate::float::rounding::nearest(0, d, 0));
    crate::float::rounding::lemma_nearest_unique(0, d, F32::rounded(0, d), 0);
}

fn divide_magnitudes(m: u32, by: u32) -> (r: u32)
    requires
        m < INFINITY,
        0 < by < INFINITY,
    ensures
        r <= INFINITY,
        r == F32::rounded(
            crate::float::rounding::magnitude(m as int) * vstd::arithmetic::power2::pow2(149),
            crate::float::rounding::magnitude(by as int),
        ),
{
    let ghost d = crate::float::rounding::magnitude(by as int);
    let ghost n = crate::float::rounding::magnitude(m as int) * vstd::arithmetic::power2::pow2(149);
    proof {
        crate::float::rounding::lemma_magnitude_increases(0, by as int);
    }
    if m == 0 {
        proof {
            assert(n == 0) by (nonlinear_arith)
                requires
                    n == 0 * vstd::arithmetic::power2::pow2(149),
            ;
            lemma_rounded_nothing(d);
        }
        return 0;
    }
    let (sa, ta) = significand(m);
    let (sb, tb) = significand(by);
    let top: u128 = sa as u128 * 0x1_0000_0000_0000;
    let below: u128 = sb as u128;
    let sig: u128 = top / below;
    let rest: u128 = top % below;
    let exp: u32 = 357 + ta - tb;
    proof {
        vstd::arithmetic::div_mod::lemma_fundamental_div_mod(top as int, below as int);
        lemma_quotient_bracket(
            sa as int,
            ta as nat,
            sb as int,
            tb as nat,
            sig as int,
            rest as int,
        );
        assert(sig >= 0x100_0000) by (nonlinear_arith)
            requires
                top == below * sig + rest,
                top >= 0x1_0000_0000_0000,
                rest < below < 0x100_0000,
        ;
        assert(sig <= top) by (nonlinear_arith)
            requires
                top == below * sig + rest,
                below >= 1,
                rest >= 0,
                sig >= 0,
        ;
    }
    let r = round_significand(sig, exp, rest != 0, Ghost(n), Ghost(d));
    proof {
        crate::float::rounding::lemma_nearest_unique(n, d, F32::rounded(n, d), r as int);
    }
    r
}

/// The integer quotient of the significands brackets the exact quotient.
proof fn lemma_quotient_bracket(sa: int, ta: nat, sb: int, tb: nat, sig: int, rest: int)
    requires
        ta < 254,
        tb < 254,
        sb > 0,
        sa * 0x1_0000_0000_0000 == sb * sig + rest,
        0 <= rest < sb,
    ensures
        ({
            let n = (sa * vstd::arithmetic::power2::pow2(ta)) * vstd::arithmetic::power2::pow2(149);
            let d = sb * vstd::arithmetic::power2::pow2(tb);
            let exact = n * vstd::arithmetic::power2::pow2(256);
            let unit = vstd::arithmetic::power2::pow2((357 + ta - tb) as nat) as int;
            &&& d * (sig * unit) <= exact < d * ((sig + 1) * unit)
            &&& rest != 0 <==> exact != d * (sig * unit)
        }),
{
    let pa = vstd::arithmetic::power2::pow2(ta) as int;
    let pb = vstd::arithmetic::power2::pow2(tb) as int;
    let unit = vstd::arithmetic::power2::pow2((357 + ta - tb) as nat) as int;
    let p149 = vstd::arithmetic::power2::pow2(149) as int;
    let p256 = vstd::arithmetic::power2::pow2(256) as int;
    let p48 = vstd::arithmetic::power2::pow2(48) as int;
    let p357 = vstd::arithmetic::power2::pow2(357) as int;
    vstd::arithmetic::power2::lemma2_to64_rest();
    vstd::arithmetic::power2::lemma_pow2_adds(149, 256);
    vstd::arithmetic::power2::lemma_pow2_adds(48, 357);
    vstd::arithmetic::power2::lemma_pow2_adds((357 + ta - tb) as nat, tb);
    vstd::arithmetic::power2::lemma_pow2_adds(357, ta);
    vstd::arithmetic::power2::lemma_pow2_pos(357);
    vstd::arithmetic::power2::lemma_pow2_pos(ta);
    assert(p149 * p256 == p48 * p357);
    assert(unit * pb == p357 * pa);
    let n = (sa * pa) * p149;
    let d = sb * pb;
    let exact = n * p256;
    let c = p357 * pa;
    assert(c > 0) by (nonlinear_arith)
        requires
            c == p357 * pa,
            p357 > 0,
            pa > 0,
    ;
    assert(exact == (sb * sig + rest) * c) by (nonlinear_arith)
        requires
            exact == ((sa * pa) * p149) * p256,
            p149 * p256 == p48 * p357,
            p48 == 0x1_0000_0000_0000,
            sa * 0x1_0000_0000_0000 == sb * sig + rest,
            c == p357 * pa,
    ;
    assert(d * (sig * unit) == (sb * sig) * c) by (nonlinear_arith)
        requires
            d == sb * pb,
            unit * pb == c,
    ;
    assert(d * ((sig + 1) * unit) == (sb * sig + sb) * c) by (nonlinear_arith)
        requires
            d == sb * pb,
            unit * pb == c,
    ;
    assert((sb * sig) * c <= (sb * sig + rest) * c < (sb * sig + sb) * c) by (nonlinear_arith)
        requires
            0 <= rest < sb,
            c > 0,
    ;
    assert(rest != 0 ==> (sb * sig) * c < (sb * sig + rest) * c) by (nonlinear_arith)
        requires
            0 <= rest < sb,
            c > 0,
    ;
}

fn multiply_magnitudes(m: u32, by: u32) -> (r: u32)
    requires
        m < INFINITY,
        by < INFINITY,
    ensures
        r <= INFINITY,
        r == F32::rounded(
            crate::float::rounding::magnitude(m as int) * crate::float::rounding::magnitude(
                by as int,
            ),
            vstd::arithmetic::power2::pow2(149) as int,
        ),
{
    let ghost d = vstd::arithmetic::power2::pow2(149) as int;
    let ghost n = crate::float::rounding::magnitude(m as int) * crate::float::rounding::magnitude(
        by as int,
    );
    proof {
        vstd::arithmetic::power2::lemma_pow2_pos(149);
    }
    if m == 0 || by == 0 {
        proof {
            assert(n == 0) by (nonlinear_arith)
                requires
                    n == crate::float::rounding::magnitude(m as int)
                        * crate::float::rounding::magnitude(by as int),
                    crate::float::rounding::magnitude(m as int) == 0
                        || crate::float::rounding::magnitude(by as int) == 0,
            ;
            lemma_rounded_nothing(d);
        }
        return 0;
    }
    let (sa, ta) = significand(m);
    let (sb, tb) = significand(by);
    assert(0 < sa * sb < 0x1_0000_0000_0000) by (nonlinear_arith)
        requires
            0 < sa < 0x100_0000,
            0 < sb < 0x100_0000,
    ;
    let sig: u128 = (sa as u128 * sb as u128) * 0x1_0000_0000_0000;
    let exp: u32 = 59 + ta + tb;
    proof {
        lemma_product_bracket(sa as int, ta as nat, sb as int, tb as nat);
    }
    let r = round_significand(sig, exp, false, Ghost(n), Ghost(d));
    proof {
        crate::float::rounding::lemma_nearest_unique(n, d, F32::rounded(n, d), r as int);
    }
    r
}

/// The product of the significands is the exact product.
proof fn lemma_product_bracket(sa: int, ta: nat, sb: int, tb: nat)
    ensures
        ({
            let n = (sa * vstd::arithmetic::power2::pow2(ta)) * (sb
                * vstd::arithmetic::power2::pow2(tb));
            let d = vstd::arithmetic::power2::pow2(149) as int;
            let exact = n * vstd::arithmetic::power2::pow2(256);
            let unit = vstd::arithmetic::power2::pow2((59 + ta + tb) as nat) as int;
            let sig = (sa * sb) * 0x1_0000_0000_0000;
            &&& exact == d * (sig * unit)
            &&& exact < d * ((sig + 1) * unit)
        }),
{
    let pa = vstd::arithmetic::power2::pow2(ta) as int;
    let pb = vstd::arithmetic::power2::pow2(tb) as int;
    let unit = vstd::arithmetic::power2::pow2((59 + ta + tb) as nat) as int;
    let d = vstd::arithmetic::power2::pow2(149) as int;
    let p48 = vstd::arithmetic::power2::pow2(48) as int;
    let p59 = vstd::arithmetic::power2::pow2(59) as int;
    let p256 = vstd::arithmetic::power2::pow2(256) as int;
    let p197 = vstd::arithmetic::power2::pow2(197) as int;
    let pab = vstd::arithmetic::power2::pow2(ta + tb) as int;
    vstd::arithmetic::power2::lemma2_to64_rest();
    vstd::arithmetic::power2::lemma_pow2_adds(149, 48);
    vstd::arithmetic::power2::lemma_pow2_adds(197, 59);
    vstd::arithmetic::power2::lemma_pow2_adds(ta, tb);
    vstd::arithmetic::power2::lemma_pow2_adds(59, ta + tb);
    vstd::arithmetic::power2::lemma_pow2_pos(149);
    vstd::arithmetic::power2::lemma_pow2_pos((59 + ta + tb) as nat);
    assert(p256 == (d * p48) * p59);
    assert(unit == p59 * (pa * pb));
    let n = (sa * pa) * (sb * pb);
    let sig = (sa * sb) * 0x1_0000_0000_0000;
    assert(n * p256 == d * (sig * unit)) by (nonlinear_arith)
        requires
            n == (sa * pa) * (sb * pb),
            sig == (sa * sb) * p48,
            p256 == (d * p48) * p59,
            unit == p59 * (pa * pb),
    ;
    assert(d * (sig * unit) < d * ((sig + 1) * unit)) by (nonlinear_arith)
        requires
            d > 0,
            unit > 0,
    ;
}

/// The order of two numbers is the order of their values.
pub proof fn the_order_is_that_of_the_values(a: F32, b: F32)
    requires
        !a.nan(),
        !b.nan(),
    ensures
        a.less(b) <==> a.value() < b.value(),
        a.same(b) <==> a.value() == b.value(),
{
    let m = a.pattern();
    let n = b.pattern();
    if m > 0 {
        crate::float::rounding::lemma_magnitude_increases(0, m);
    }
    if n > 0 {
        crate::float::rounding::lemma_magnitude_increases(0, n);
    }
    if m < n {
        crate::float::rounding::lemma_magnitude_increases(m, n);
    } else if n < m {
        crate::float::rounding::lemma_magnitude_increases(n, m);
    }
}

/// The value of one.
proof fn lemma_one()
    ensures
        crate::float::rounding::magnitude(ONE as int) == vstd::arithmetic::power2::pow2(149),
        vstd::arithmetic::power2::pow2(149) > 0,
{
    vstd::arithmetic::power2::lemma2_to64();
    vstd::arithmetic::power2::lemma_pow2_adds(23, 126);
    vstd::arithmetic::power2::lemma_pow2_pos(149);
    crate::float::rounding::lemma_magnitude_of_parts(126, 0x80_0000);
    assert(126 * 0x80_0000 + 0x80_0000 == ONE);
}

/// Dividing or multiplying a number by one leaves it as it is.
pub proof fn one_is_neutral(number: F32)
    requires
        !number.nan(),
    ensures
        number.quotient(F32 { bits: ONE }) == number,
        number.product(F32 { bits: ONE }) == number,
{
    let m = number.pattern();
    if m < INFINITY {
        let one = vstd::arithmetic::power2::pow2(149) as int;
        let v = crate::float::rounding::magnitude(m);
        let n = v * one;
        lemma_one();
        crate::float::rounding::lemma_magnitude_step(m);
        assert(one * (v + crate::float::rounding::magnitude(m + 1)) > 2 * n) by (nonlinear_arith)
            requires
                one > 0,
                n == v * one,
                crate::float::rounding::magnitude(m + 1) > v,
        ;
        if m > 0 {
            crate::float::rounding::lemma_magnitude_step(m - 1);
            assert(one * (crate::float::rounding::magnitude(m - 1) + v) < 2 * n)
                by (nonlinear_arith)
                requires
                    one > 0,
                    n == v * one,
                    crate::float::rounding::magnitude(m - 1) < v,
            ;
        }
        assert(crate::float::rounding::nearest(n, one, m));
        crate::float::rounding::lemma_nearest_unique(n, one, F32::rounded(n, one), m);
    }
}

}
