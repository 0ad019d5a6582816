//! Double-precision numbers: the comparisons that decoding makes, and the widening of a
//! single-precision number.

use vstd::prelude::*;

use crate::float::binary32::{significand, F32};

verus! {

/// The sign bit.
pub const SIGN: u64 = 0x8000_0000_0000_0000;

/// The bits of infinity below the sign.
pub const INFINITY: u64 = 0x7ff0_0000_0000_0000;

/// The bit pattern that stands for every not-a-number result.
pub const NAN: u64 = 0x7ff8_0000_0000_0000;

/// An IEEE 754 binary64 number, held as its bit pattern.
#[derive(Clone, Copy, Debug)]
pub struct F64 {
    pub bits: u64,
}

/// The value of the bits below the sign as a multiple of `2^-1074`, the smallest positive
/// binary64 value.
pub open spec fn magnitude(m: int) -> int {
    if m < 0x10_0000_0000_0000 {
        m
    } else {
        (0x10_0000_0000_0000 + m % 0x10_0000_0000_0000) * vstd::arithmetic::power2::pow2(
            (m / 0x10_0000_0000_0000 - 1) as nat,
        )
    }
}

impl F64 {
    /// The sign bit is set.
    pub open spec fn negative(self) -> bool {
        self.bits >= SIGN
    }

    /// The bits below the sign.
    pub open spec fn pattern(self) -> int {
        if self.negative() {
            self.bits - SIGN
        } else {
            self.bits as int
        }
    }

    /// Not a number.
    pub open spec fn nan(self) -> bool {
        self.pattern() > INFINITY
    }

    /// The place of a number on the line of all numbers, counted from zero.
    pub open spec fn rank(self) -> int {
        if self.negative() {
            -self.pattern()
        } else {
            self.pattern()
        }
    }

    /// IEEE 754 `self == other`: false when either side is NaN, true between the two zeros.
    pub open spec fn same(self, other: F64) -> bool {
        !self.nan() && !other.nan() && self.rank() == other.rank()
    }

    /// IEEE 754 `self <= 0`: true for both zeros, false for NaN.
    pub open spec fn at_most_zero(self) -> bool {
        !self.nan() && self.rank() <= 0
    }

    /// The number with sign `negative` over the bits `m`.
    pub open spec fn signed(negative: bool, m: int) -> F64 {
        F64 {
            bits: (if negative {
                m + SIGN
            } else {
                m
            }) as u64,
        }
    }

    /// The number with this bit pattern.
    pub fn from_bits(bits: u64) -> (r: F64)
        ensures
            r.bits == bits,
    {
        F64 { bits }
    }

    /// The bit pattern of the number.
    pub fn to_bits(self) -> (r: u64)
        ensures
            r == self.bits,
    {
        self.bits
    }

    fn split(self) -> (r: (bool, u64))
        ensures
            r.0 == self.negative(),
            r.1 == self.pattern(),
    {
        if self.bits >= SIGN {
            (true, self.bits - SIGN)
        } else {
            (false, self.bits)
        }
    }

    fn join(negative: bool, m: u64) -> (r: F64)
        requires
            m <= INFINITY,
        ensures
            r == F64::signed(negative, m as int),
    {
        if negative {
            F64 { bits: m + SIGN }
        } else {
            F64 { bits: m }
        }
    }

    /// Whether `self <= 0` holds, as IEEE 754 compares.
    pub fn is_at_most_zero(self) -> (r: bool)
        ensures
            r == self.at_most_zero(),
    {
        let (negative, m) = self.split();
        m <= INFINITY && (negative || m == 0)
    }

    /// Whether `self == other` holds, as IEEE 754 compares.
    pub fn is_same(self, other: F64) -> (r: bool)
        ensures
            r == self.same(other),
    {
        let (negative, m) = self.split();
        let (other_negative, other_m) = other.split();
        m <= INFINITY && m == other_m && (negative == other_negative || m == 0)
    }
}

impl PartialEq for F64 {
    fn eq(&self, other: &F64) -> (r: bool) {
        self.is_same(*other)
    }
}

impl vstd::std_specs::cmp::PartialEqSpecImpl for F64 {
    open spec fn obeys_eq_spec() -> bool {
        true
    }

    open spec fn eq_spec(&self, other: &F64) -> bool {
        self.same(*other)
    }
}

proof fn lemma_magnitude_step(m: int)
    requires
        0 <= m,
    ensures
        magnitude(m) < magnitude(m + 1),
{
    vstd::arithmetic::power2::lemma2_to64();
    if m + 1 >= 0x10_0000_0000_0000 {
        if m < 0x10_0000_0000_0000 {
            assert(magnitude(m + 1) == 0x10_0000_0000_0000 * vstd::arithmetic::power2::pow2(0));
        } else {
            let t = m / 0x10_0000_0000_0000 - 1;
            let q = 0x10_0000_0000_0000 + m % 0x10_0000_0000_0000;
            let p = vstd::arithmetic::power2::pow2(t as nat) as int;
            vstd::arithmetic::power2::lemma_pow2_pos(t as nat);
            vstd::arithmetic::power2::lemma_pow2_unfold((t + 1) as nat);
            assert(magnitude(m) == q * p);
            if q + 1 == 0x20_0000_0000_0000 {
                assert((m + 1) / 0x10_0000_0000_0000 == t + 2);
                assert((m + 1) % 0x10_0000_0000_0000 == 0);
                assert(magnitude(m + 1) == 0x10_0000_0000_0000 * (2 * p));
            } else {
                assert((m + 1) / 0x10_0000_0000_0000 == t + 1);
                assert(magnitude(m + 1) == (q + 1) * p);
            }
            assert(q * p < (q + 1) * p) by (nonlinear_arith)
                requires
                    p > 0,
            ;
        }
    }
}

/// Larger patterns have larger magnitudes.
pub proof fn lemma_magnitude_increases(a: int, b: int)
    requires
        0 <= a < b,
    ensures
        magnitude(a) < magnitude(b),
    decreases b - a,
{
    lemma_magnitude_step(b - 1);
    if a < b - 1 {
        lemma_magnitude_increases(a, b - 1);
    }
}

/// The pattern `m` of a finite binary64 number holds the value of the finite binary32 pattern
/// `narrow`.
pub open spec fn holds_value(narrow: int, m: int) -> bool {
    &&& 0 <= m < INFINITY
    &&& magnitude(m) == crate::float::rounding::magnitude(narrow)
        * vstd::arithmetic::power2::pow2(925)
}

/// Every finite binary32 value has a binary64 pattern.
pub(crate) proof fn lemma_value_is_held(narrow: int)
    requires
        0 <= narrow < crate::float::rounding::INFINITY,
    ensures
        exists|m: int| holds_value(narrow, m),
{
    vstd::arithmetic::power2::lemma2_to64();
    if narrow == 0 {
        assert(0 * vstd::arithmetic::power2::pow2(925) == 0);
        assert(holds_value(0, 0));
    } else if narrow < 0x80_0000 {
        let m = lemma_held_significand(narrow, 0, 0, narrow);
        assert(narrow * 1 == narrow);
        assert(holds_value(narrow, m));
    } else {
        let t = narrow / 0x80_0000 - 1;
        let q = 0x80_0000 + narrow % 0x80_0000;
        let m = lemma_held_significand(q, t as nat, 0, q);
        assert(holds_value(narrow, m));
    }
}

/// The pattern of `start * 2^t` in units of the smallest positive binary32 value, where `sig` is
/// `start` shifted left `k` times so far.
proof fn lemma_held_significand(start: int, t: nat, k: nat, sig: int) -> (m: int)
    requires
        0 < start,
        t < 254,
        k <= 23,
        0 < sig < 0x100_0000,
        sig == start * vstd::arithmetic::power2::pow2(k),
    ensures
        0 <= m < INFINITY,
        magnitude(m) == (start * vstd::arithmetic::power2::pow2(t))
            * vstd::arithmetic::power2::pow2(925),
    decreases 0x100_0000 - sig,
{
    let pk = vstd::arithmetic::power2::pow2(k) as int;
    vstd::arithmetic::power2::lemma2_to64();
    if sig < 0x80_0000 {
        vstd::arithmetic::power2::lemma_pow2_unfold(k + 1);
        assert(start * (2 * pk) == 2 * (start * pk)) by (nonlinear_arith);
        if k == 23 {
            assert(start * pk >= pk) by (nonlinear_arith)
                requires
                    start >= 1,
                    pk > 0,
            ;
        }
        lemma_held_significand(start, t, k + 1, 2 * sig)
    } else {
        let e = (896 + t - k) as nat;
        let q = sig * 0x2000_0000;
        let m = e * 0x10_0000_0000_0000 + q;
        assert(m / 0x10_0000_0000_0000 == e + 1);
        assert(m % 0x10_0000_0000_0000 == q - 0x10_0000_0000_0000);
        let pe = vstd::arithmetic::power2::pow2(e) as int;
        let pt = vstd::arithmetic::power2::pow2(t) as int;
        let p29 = vstd::arithmetic::power2::pow2(29) as int;
        let p925 = vstd::arithmetic::power2::pow2(925) as int;
        vstd::arithmetic::power2::lemma_pow2_adds(k, 29);
        vstd::arithmetic::power2::lemma_pow2_adds((k + 29) as nat, e);
        vstd::arithmetic::power2::lemma_pow2_adds(t, 925);
        assert(k + 29 + e == t + 925);
        assert((pk * p29) * pe == pt * p925);
        assert(magnitude(m) == q * pe);
        assert(q * pe == (start * pt) * p925) by (nonlinear_arith)
            requires
                q == sig * p29,
                sig == start * pk,
                (pk * p29) * pe == pt * p925,
        ;
        m
    }
}

/// Widening keeps NaN, and keeps the side of zero that a number lies on.
pub proof fn widening_keeps_the_sign(number: F32)
    ensures
        number.widened().nan() <==> number.nan(),
        !number.nan() ==> (number.widened().rank() < 0 <==> number.rank() < 0),
        !number.nan() ==> (number.widened().rank() > 0 <==> number.rank() > 0),
{
    if number.finite() {
        let narrow = number.pattern();
        lemma_value_is_held(narrow);
        let wide = choose|m: int| holds_value(narrow, m);
        let p = vstd::arithmetic::power2::pow2(925) as int;
        vstd::arithmetic::power2::lemma_pow2_pos(925);
        if narrow > 0 {
            crate::float::rounding::lemma_magnitude_increases(0, narrow);
            assert(crate::float::rounding::magnitude(narrow) * p > 0) by (nonlinear_arith)
                requires
                    crate::float::rounding::magnitude(narrow) > 0,
                    p > 0,
            ;
        } else {
            assert(0 * p == 0);
            if wide > 0 {
                lemma_magnitude_increases(0, wide);
            }
        }
    }
}

impl F32 {
    /// The binary64 number with the same value. Every NaN widens to [`NAN`].
    pub open spec fn widened(self) -> F64 {
        if self.nan() {
            F64 { bits: NAN }
        } else if !self.finite() {
            F64::signed(self.negative(), INFINITY as int)
        } else {
            F64::signed(self.negative(), choose|m: int| holds_value(self.pattern(), m))
        }
    }

    /// Converts to double precision, which every single-precision value fits exactly.
    pub fn widen(self) -> (r: F64)
        ensures
            r == self.widened(),
            r.nan() <==> self.nan(),
            !self.nan() ==> r.negative() == self.negative(),
            self.finite() ==> holds_value(self.pattern(), r.pattern()),
            !self.nan() && !self.finite() ==> r.pattern() == INFINITY,
    {
        let (negative, m) = self.split();
        if m > crate::float::rounding::INFINITY {
            F64 { bits: NAN }
        } else if m == crate::float::rounding::INFINITY {
            F64::join(negative, INFINITY)
        } else {
            let wide = widen_magnitude(m);
            proof {
                let chosen = choose|w: int| holds_value(m as int, w);
                if chosen < wide {
                    lemma_magnitude_increases(chosen, wide as int);
                } else if wide < chosen {
                    lemma_magnitude_increases(wide as int, chosen);
                }
            }
            F64::join(negative, wide)
        }
    }
}

fn widen_magnitude(m: u32) -> (r: u64)
    requires
        m < crate::float::rounding::INFINITY,
    ensures
        holds_value(m as int, r as int),
{
    if m == 0 {
        assert(0 * vstd::arithmetic::power2::pow2(925) == 0);
        return 0;
    }
    let (start, t) = significand(m);
    let mut sig: u32 = start;
    let mut k: u32 = 0;
    proof {
        vstd::arithmetic::power2::lemma2_to64();
    }
    while sig < 0x80_0000
        invariant
            0 < start,
            k <= 23,
            0 < sig < 0x100_0000,
            sig == start * vstd::arithmetic::power2::pow2(k as nat),
        decreases 0x100_0000 - sig,
    {
        proof {
            vstd::arithmetic::power2::lemma2_to64();
            vstd::arithmetic::power2::lemma_pow2_unfold((k + 1) as nat);
            let p = vstd::arithmetic::power2::pow2(k as nat) as int;
            assert(start * (2 * p) == 2 * (start * p)) by (nonlinear_arith);
            if k == 23 {
                assert(start * p >= p) by (nonlinear_arith)
                    requires
                        start >= 1,
                        p > 0,
                ;
            }
        }
        sig = 2 * sig;
        k = k + 1;
    }
    let r: u64 = (896 + t - k) as u64 * 0x10_0000_0000_0000 + sig as u64 * 0x2000_0000;
    proof {
        let q = sig * 0x2000_0000;
        let e = (896 + t - k) as nat;
        assert(r / 0x10_0000_0000_0000 == e + 1);
        assert(r % 0x10_0000_0000_0000 == q - 0x10_0000_0000_0000);
        let pk = vstd::arithmetic::power2::pow2(k as nat) as int;
        let pe = vstd::arithmetic::power2::pow2(e) as int;
        let pt = vstd::arithmetic::power2::pow2(t as nat) as int;
        let p29 = vstd::arithmetic::power2::pow2(29) as int;
        let p925 = vstd::arithmetic::power2::pow2(925) as int;
        vstd::arithmetic::power2::lemma2_to64();
        vstd::arithmetic::power2::lemma_pow2_adds(k as nat, 29);
        vstd::arithmetic::power2::lemma_pow2_adds((k + 29) as nat, e);
        vstd::arithmetic::power2::lemma_pow2_adds(t as nat, 925);
        assert(k + 29 + e == t + 925);
        assert((pk * p29) * pe == pt * p925);
        assert(magnitude(r as int) == q * pe);
        assert(q * pe == (start * pt) * p925) by (nonlinear_arith)
            requires
                q == sig * p29,
                sig == start * pk,
                (pk * p29) * pe == pt * p925,
        ;
    }
    r
}

}
