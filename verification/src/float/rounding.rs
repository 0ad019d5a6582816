//! Round-to-nearest-even for binary32 magnitudes, in integer arithmetic.
//!
//! A magnitude pattern is the low 31 bits of a binary32 number. Read as an integer it counts the
//! representable values from zero upwards, so the neighbours of the pattern `m` are `m - 1` and
//! `m + 1`, and the pattern after the largest finite one is infinity.

use vstd::prelude::*;

verus! {

/// The magnitude pattern of infinity.
pub const INFINITY: u32 = 0x7f80_0000;

/// The smallest magnitude pattern with a full-width significand.
pub const MIN_NORMAL: u32 = 0x0080_0000;

/// The value of a magnitude pattern as a multiple of `2^-149`, the smallest positive binary32
/// value. Infinity counts as the power of two that follows the largest finite value, which is
/// where IEEE 754 puts it when it decides whether a result overflows.
pub open spec fn magnitude(m: int) -> int {
    if m < 0x80_0000 {
        m
    } else {
        (0x80_0000 + m % 0x80_0000) * vstd::arithmetic::power2::pow2((m / 0x80_0000 - 1) as nat)
    }
}

/// The pattern `m` is the one nearest to `n / d` multiples of `2^-149`, and of two equally near
/// patterns the even one.
pub open spec fn nearest(n: int, d: int, m: int) -> bool {
    &&& 0 <= m <= INFINITY
    &&& m > 0 ==> {
        let floor = d * (magnitude(m - 1) + magnitude(m));
        2 * n > floor || (2 * n == floor && m % 2 == 0)
    }
    &&& m < INFINITY ==> {
        let ceiling = d * (magnitude(m) + magnitude(m + 1));
        2 * n < ceiling || (2 * n == ceiling && m % 2 == 0)
    }
}

/// A pattern written as `t` steps of the exponent above a significand `q` is worth `q * 2^t`.
pub proof fn lemma_magnitude_of_parts(t: int, q: int)
    requires
        0 <= t,
        0 <= q <= 0x100_0000,
        t == 0 || 0x80_0000 <= q,
    ensures
        magnitude(t * 0x80_0000 + q) == q * vstd::arithmetic::power2::pow2(t as nat),
{
    let m = t * 0x80_0000 + q;
    vstd::arithmetic::power2::lemma2_to64();
    if q == 0x100_0000 {
        assert(m / 0x80_0000 == t + 2 && m % 0x80_0000 == 0);
        let p = vstd::arithmetic::power2::pow2(t as nat) as int;
        vstd::arithmetic::power2::lemma_pow2_unfold((t + 1) as nat);
        assert(0x80_0000 * (2 * p) == 0x100_0000 * p);
    } else if 0x80_0000 <= q {
        assert(m / 0x80_0000 == t + 1 && m % 0x80_0000 == q - 0x80_0000);
    } else {
        assert(m == q && t as nat == 0);
        assert(q * 1 == q);
    }
}

/// Magnitudes are strictly increasing in the pattern.
pub proof fn lemma_magnitude_step(m: int)
    requires
        0 <= m,
    ensures
        magnitude(m) < magnitude(m + 1),
{
    vstd::arithmetic::power2::lemma2_to64();
    if m + 1 >= 0x80_0000 {
        if m < 0x80_0000 {
            assert(m + 1 == 0x80_0000);
            assert(magnitude(m + 1) == 0x80_0000 * vstd::arithmetic::power2::pow2(0));
        } else {
            let t = m / 0x80_0000 - 1;
            let q = 0x80_0000 + m % 0x80_0000;
            assert(m == t * 0x80_0000 + q);
            lemma_magnitude_of_parts(t, q);
            lemma_magnitude_of_parts(t, q + 1);
            let p = vstd::arithmetic::power2::pow2(t as nat) as int;
            vstd::arithmetic::power2::lemma_pow2_pos(t as nat);
            assert(q * p < (q + 1) * p) by (nonlinear_arith)
                requires
                    p > 0,
            ;
        }
    }
}

/// Larger patterns have larger magnitudes.
pub proof fn lemma_magnitude_increases(a: int, b: int)
    requires
        0 <= a < b,
    ensures
        0 <= magnitude(a) < magnitude(b),
    decreases b,
{
    lemma_magnitude_step(b - 1);
    if a < b - 1 {
        lemma_magnitude_increases(a, b - 1);
    } else if a > 0 {
        lemma_magnitude_increases(0, a);
    }
}

/// Rounding gives one answer.
pub proof fn lemma_nearest_unique(n: int, d: int, a: int, b: int)
    requires
        d > 0,
        nearest(n, d, a),
        nearest(n, d, b),
    ensures
        a == b,
{
    if a <= b {
        lemma_nearest_unique_ordered(n, d, a, b);
    } else {
        lemma_nearest_unique_ordered(n, d, b, a);
    }
}

proof fn lemma_nearest_unique_ordered(n: int, d: int, a: int, b: int)
    requires
        d > 0,
        nearest(n, d, a),
        nearest(n, d, b),
        a <= b,
    ensures
        a == b,
{
    let low = magnitude(a) + magnitude(a + 1);
    let high = magnitude(b - 1) + magnitude(b);
    if a + 1 < b {
        lemma_magnitude_increases(a + 1, b);
        lemma_magnitude_increases(a, b - 1);
        assert(d * low < d * high) by (nonlinear_arith)
            requires
                d > 0,
                low < high,
        ;
    } else if a + 1 == b {
        assert(low == high);
    }
}

/// Every ratio rounds to some pattern.
pub proof fn lemma_nearest_exists(n: int, d: int)
    requires
        n >= 0,
        d > 0,
    ensures
        exists|m: int| nearest(n, d, m),
{
    lemma_nearest_exists_up_to(n, d, INFINITY as int);
}

proof fn lemma_nearest_exists_up_to(n: int, d: int, m: int)
    requires
        n >= 0,
        d > 0,
        0 <= m <= INFINITY,
        m < INFINITY ==> {
            let ceiling = d * (magnitude(m) + magnitude(m + 1));
            2 * n < ceiling || (2 * n == ceiling && m % 2 == 0)
        },
    ensures
        exists|r: int| nearest(n, d, r),
    decreases m,
{
    if m > 0 {
        let floor = d * (magnitude(m - 1) + magnitude(m));
        if 2 * n > floor || (2 * n == floor && m % 2 == 0) {
            assert(nearest(n, d, m));
        } else {
            lemma_nearest_exists_up_to(n, d, m - 1);
        }
    } else {
        assert(nearest(n, d, m));
    }
}

/// A significand `q` at exponent `t` that is at most half a unit away from `n / d`, with ties
/// only on even significands, is the rounded result, saturated at infinity.
proof fn lemma_nearest_of_parts(n: int, d: int, t: int, q: int)
    requires
        d > 0,
        0 <= t,
        0 <= q <= 0x100_0000,
        t == 0 || 0x80_0000 <= q,
        ({
            let p = vstd::arithmetic::power2::pow2(t as nat) as int;
            &&& 2 * n <= d * ((2 * q + 1) * p)
            &&& 2 * n == d * ((2 * q + 1) * p) ==> q % 2 == 0
            &&& q > 0 ==> 2 * n >= d * ((2 * q - 1) * p)
            &&& q > 0 && 2 * n == d * ((2 * q - 1) * p) ==> q % 2 == 0
            &&& t > 0 && q == 0x80_0000 ==> n >= d * (q * p)
        }),
    ensures
        t * 0x80_0000 + q < INFINITY ==> nearest(n, d, t * 0x80_0000 + q),
        t * 0x80_0000 + q >= INFINITY ==> nearest(n, d, INFINITY as int),
{
    let m = t * 0x80_0000 + q;
    let p = vstd::arithmetic::power2::pow2(t as nat) as int;
    vstd::arithmetic::power2::lemma_pow2_pos(t as nat);
    lemma_magnitude_of_parts(t, q);
    assert(m % 2 == q % 2);

    if q == 0x100_0000 {
        lemma_magnitude_of_parts(t + 1, 0x80_0001);
        vstd::arithmetic::power2::lemma_pow2_unfold((t + 1) as nat);
        assert(m + 1 == (t + 1) * 0x80_0000 + 0x80_0001);
        assert(magnitude(m + 1) == 0x80_0001 * (2 * p));
        assert(magnitude(m) + magnitude(m + 1) > (2 * q + 1) * p) by (nonlinear_arith)
            requires
                p > 0,
                q == 0x100_0000,
                magnitude(m) == q * p,
                magnitude(m + 1) == 0x80_0001 * (2 * p),
        ;
    } else {
        lemma_magnitude_of_parts(t, q + 1);
        assert(m + 1 == t * 0x80_0000 + (q + 1));
        assert(magnitude(m) + magnitude(m + 1) == (2 * q + 1) * p) by (nonlinear_arith)
            requires
                magnitude(m) == q * p,
                magnitude(m + 1) == (q + 1) * p,
        ;
    }
    let above = magnitude(m) + magnitude(m + 1);
    assert(d * above >= d * ((2 * q + 1) * p)) by (nonlinear_arith)
        requires
            d > 0,
            above >= (2 * q + 1) * p,
    ;
    assert(above > (2 * q + 1) * p ==> d * above > d * ((2 * q + 1) * p)) by (nonlinear_arith)
        requires
            d > 0,
    ;

    if m > 0 {
        let below = magnitude(m - 1) + magnitude(m);
        if t > 0 && q == 0x80_0000 {
            lemma_magnitude_of_parts(t - 1, 0xff_ffff);
            assert(m - 1 == (t - 1) * 0x80_0000 + 0xff_ffff);
            vstd::arithmetic::power2::lemma_pow2_unfold(t as nat);
            let h = vstd::arithmetic::power2::pow2((t - 1) as nat) as int;
            vstd::arithmetic::power2::lemma_pow2_pos((t - 1) as nat);
            assert(below < 2 * (q * p)) by (nonlinear_arith)
                requires
                    h > 0,
                    p == 2 * h,
                    q == 0x80_0000,
                    below == 0xff_ffff * h + q * p,
            ;
            assert(d * below < 2 * (d * (q * p))) by (nonlinear_arith)
                requires
                    d > 0,
                    below < 2 * (q * p),
            ;
        } else {
            lemma_magnitude_of_parts(t, q - 1);
            assert(m - 1 == t * 0x80_0000 + (q - 1));
            assert(below == (2 * q - 1) * p) by (nonlinear_arith)
                requires
                    below == (q - 1) * p + q * p,
            ;
        }
    }
    if m > INFINITY {
        let top = magnitude(INFINITY - 1) + magnitude(INFINITY as int);
        let below = magnitude(m - 1) + magnitude(m);
        lemma_magnitude_increases(INFINITY as int, m);
        lemma_magnitude_increases(INFINITY - 1, m - 1);
        assert(d * top < d * below) by (nonlinear_arith)
            requires
                d > 0,
                top < below,
        ;
    }
}

/// One rounding decision. `sig` counts units of `2^exp / 2^256` and brackets the exact ratio from
/// below; it splits into `q` units of `pw` and a rest `r`, and `kept` is `q` or `q + 1`.
proof fn lemma_rounded_significand(
    n: int,
    d: int,
    sig: int,
    exp: nat,
    s: nat,
    q: int,
    r: int,
    inexact: bool,
    kept: int,
)
    requires
        d > 0,
        s >= 1,
        exp + s >= 256,
        ({
            let unit = vstd::arithmetic::power2::pow2(exp) as int;
            let exact = n * vstd::arithmetic::power2::pow2(256);
            let pw = vstd::arithmetic::power2::pow2(s) as int;
            let half = vstd::arithmetic::power2::pow2((s - 1) as nat) as int;
            &&& d * (sig * unit) <= exact < d * ((sig + 1) * unit)
            &&& inexact <==> exact != d * (sig * unit)
            &&& sig == q * pw + r
            &&& 0 <= r < pw
            &&& kept == if r > half || (r == half && (inexact || q % 2 == 1)) {
                q + 1
            } else {
                q
            }
        }),
    ensures
        ({
            let p = vstd::arithmetic::power2::pow2((exp + s - 256) as nat) as int;
            &&& 2 * n <= d * ((2 * kept + 1) * p)
            &&& 2 * n == d * ((2 * kept + 1) * p) ==> kept % 2 == 0
            &&& 2 * n >= d * ((2 * kept - 1) * p)
            &&& 2 * n == d * ((2 * kept - 1) * p) ==> kept % 2 == 0
            &&& n >= d * (q * p)
        }),
{
    let unit = vstd::arithmetic::power2::pow2(exp) as int;
    let k = vstd::arithmetic::power2::pow2(256) as int;
    let exact = n * k;
    let pw = vstd::arithmetic::power2::pow2(s) as int;
    let half = vstd::arithmetic::power2::pow2((s - 1) as nat) as int;
    let p = vstd::arithmetic::power2::pow2((exp + s - 256) as nat) as int;
    vstd::arithmetic::power2::lemma_pow2_unfold(s);
    vstd::arithmetic::power2::lemma_pow2_adds(exp, s);
    vstd::arithmetic::power2::lemma_pow2_adds((exp + s - 256) as nat, 256);
    vstd::arithmetic::power2::lemma_pow2_pos(exp);
    vstd::arithmetic::power2::lemma_pow2_pos(256);
    vstd::arithmetic::power2::lemma_pow2_pos((exp + s - 256) as nat);
    assert(unit * pw == p * k && pw == 2 * half);

    let a = d * unit;
    let w = a * pw;
    let ha = half * a;
    let ra = r * a;
    let qw = q * w;
    assert(a > 0) by (nonlinear_arith)
        requires
            d > 0,
            unit > 0,
            a == d * unit,
    ;
    assert(w == 2 * ha) by (nonlinear_arith)
        requires
            w == a * pw,
            pw == 2 * half,
            ha == half * a,
    ;
    assert(d * (sig * unit) == qw + ra) by (nonlinear_arith)
        requires
            sig == q * pw + r,
            a == d * unit,
            w == a * pw,
            ra == r * a,
            qw == q * w,
    ;
    assert(d * ((sig + 1) * unit) == d * (sig * unit) + a) by (nonlinear_arith)
        requires
            a == d * unit,
    ;
    assert(r < half ==> ra + a <= ha) by (nonlinear_arith)
        requires
            a > 0,
            ra == r * a,
            ha == half * a,
    ;
    assert(r > half ==> ra >= ha + a) by (nonlinear_arith)
        requires
            a > 0,
            ra == r * a,
            ha == half * a,
    ;
    assert(0 <= ra && ra + a <= w) by (nonlinear_arith)
        requires
            a > 0,
            0 <= r < pw,
            ra == r * a,
            w == a * pw,
    ;
    let kw = kept * w;
    assert(kept == q + 1 ==> kw == qw + w) by (nonlinear_arith)
        requires
            kw == kept * w,
            qw == q * w,
    ;
    assert(2 * exact <= 2 * kw + w);
    assert(2 * exact == 2 * kw + w ==> kept % 2 == 0);
    assert(2 * exact >= 2 * kw - w);
    assert(2 * exact == 2 * kw - w ==> kept % 2 == 0);
    assert(exact >= qw);

    let u = d * p;
    assert(w == u * k) by (nonlinear_arith)
        requires
            w == a * pw,
            a == d * unit,
            unit * pw == p * k,
            u == d * p,
    ;
    let up = d * ((2 * kept + 1) * p);
    let down = d * ((2 * kept - 1) * p);
    let base = d * (q * p);
    assert(up * k == 2 * kw + w && down * k == 2 * kw - w && base * k == qw) by (nonlinear_arith)
        requires
            w == u * k,
            u == d * p,
            kw == kept * w,
            qw == q * w,
            up == d * ((2 * kept + 1) * p),
            down == d * ((2 * kept - 1) * p),
            base == d * (q * p),
    ;
    lemma_cancel(2 * n, up, k);
    lemma_cancel(down, 2 * n, k);
    lemma_cancel(base, n, k);
    assert((2 * n) * k == 2 * exact) by (nonlinear_arith)
        requires
            exact == n * k,
    ;
}

/// A positive common factor does not change a comparison.
proof fn lemma_cancel(a: int, b: int, k: int)
    by (nonlinear_arith)
    requires
        k > 0,
    ensures
        a * k <= b * k ==> a <= b,
        a == b ==> a * k == b * k,
{
}

/// A ratio below half the smallest positive value rounds to zero.
proof fn lemma_rounds_to_zero(n: int, d: int, sig: int, exp: nat)
    requires
        d > 0,
        sig < 0x10_0000_0000_0000_0000_0000_0000,
        exp <= 154,
        n * vstd::arithmetic::power2::pow2(256) < d * ((sig + 1)
            * vstd::arithmetic::power2::pow2(exp)),
    ensures
        nearest(n, d, 0),
{
    let unit = vstd::arithmetic::power2::pow2(exp) as int;
    let k = vstd::arithmetic::power2::pow2(256) as int;
    let top = vstd::arithmetic::power2::pow2(100) as int;
    let whole = vstd::arithmetic::power2::pow2((100 + exp) as nat) as int;
    let bound = vstd::arithmetic::power2::pow2(255) as int;
    lemma_pow2_large();
    vstd::arithmetic::power2::lemma_pow2_adds(100, exp);
    vstd::arithmetic::power2::lemma_pow2_pos(exp);
    vstd::arithmetic::power2::lemma_pow2_pos(255);
    vstd::arithmetic::power2::lemma_pow2_strictly_increases((100 + exp) as nat, 255);
    vstd::arithmetic::power2::lemma_pow2_unfold(256);
    assert(d * ((sig + 1) * unit) <= d * bound) by (nonlinear_arith)
        requires
            d > 0,
            unit > 0,
            sig + 1 <= top,
            top * unit < bound,
    ;
    assert((2 * n) * bound < d * bound) by (nonlinear_arith)
        requires
            n * k < d * bound,
            k == 2 * bound,
    ;
    assert(2 * n < d) by (nonlinear_arith)
        requires
            bound > 0,
            (2 * n) * bound < d * bound,
    ;
    assert(magnitude(0) + magnitude(1) == 1);
    assert(d * 1 == d);
}

/// The powers of two that bound the intermediate significands.
proof fn lemma_pow2_large()
    ensures
        vstd::arithmetic::power2::pow2(24) == 0x100_0000,
        vstd::arithmetic::power2::pow2(48) == 0x1_0000_0000_0000,
        vstd::arithmetic::power2::pow2(100) == 0x10_0000_0000_0000_0000_0000_0000,
        vstd::arithmetic::power2::pow2(101) == 0x20_0000_0000_0000_0000_0000_0000,
{
    vstd::arithmetic::power2::lemma2_to64();
    vstd::arithmetic::power2::lemma2_to64_rest();
    vstd::arithmetic::power2::lemma_pow2_adds(64, 36);
    vstd::arithmetic::power2::lemma_pow2_adds(64, 37);
}

/// Rounds an exact ratio to the nearest magnitude pattern, ties to even.
///
/// The ratio `n / d` is given by its leading bits: `sig` units of `2^exp / 2^256`, and `inexact`
/// when a rest below one unit was cut off.
pub(crate) fn round_significand(
    sig: u128,
    exp: u32,
    inexact: bool,
    Ghost(n): Ghost<int>,
    Ghost(d): Ghost<int>,
) -> (m: u32)
    requires
        d > 0,
        0x100_0000 <= sig < 0x10_0000_0000_0000_0000_0000_0000,
        exp <= 1000,
        d * (sig * vstd::arithmetic::power2::pow2(exp as nat)) <= n
            * vstd::arithmetic::power2::pow2(256),
        n * vstd::arithmetic::power2::pow2(256) < d * ((sig + 1)
            * vstd::arithmetic::power2::pow2(exp as nat)),
        inexact <==> n * vstd::arithmetic::power2::pow2(256) != d * (sig
            * vstd::arithmetic::power2::pow2(exp as nat)),
    ensures
        nearest(n, d, m as int),
{
    let mut s: u32 = 1;
    let mut pw: u128 = 2;
    proof {
        lemma_pow2_large();
        vstd::arithmetic::power2::lemma2_to64();
    }
    while sig >= 0x100_0000 * pw || exp + s < 256
        invariant
            1 <= s <= 101,
            exp <= 1000,
            pw == vstd::arithmetic::power2::pow2(s as nat),
            pw <= 0x20_0000_0000_0000_0000_0000_0000,
            d > 0,
            0x100_0000 <= sig < 0x10_0000_0000_0000_0000_0000_0000,
            n * vstd::arithmetic::power2::pow2(256) < d * ((sig + 1)
                * vstd::arithmetic::power2::pow2(exp as nat)),
            exp + s > 256 ==> 2 * sig >= 0x100_0000 * pw,
        decreases 101 - s,
    {
        if s == 101 {
            proof {
                lemma_pow2_large();
                lemma_rounds_to_zero(n, d, sig as int, exp as nat);
            }
            return 0;
        }
        proof {
            lemma_pow2_large();
            vstd::arithmetic::power2::lemma_pow2_unfold((s + 1) as nat);
            if s + 1 < 101 {
                vstd::arithmetic::power2::lemma_pow2_strictly_increases((s + 1) as nat, 101);
            }
        }
        s = s + 1;
        pw = 2 * pw;
    }
    let q: u128 = sig / pw;
    let r: u128 = sig % pw;
    let half: u128 = pw / 2;
    let kept: u128 = if r > half || (r == half && (inexact || q % 2 == 1)) {
        q + 1
    } else {
        q
    };
    let t: u32 = exp + s - 256;
    proof {
        vstd::arithmetic::power2::lemma_pow2_unfold(s as nat);
        vstd::arithmetic::div_mod::lemma_fundamental_div_mod(sig as int, pw as int);
        assert(sig == q * pw + r) by (nonlinear_arith)
            requires
                sig == pw * q + r,
        ;
        assert(q < 0x100_0000) by (nonlinear_arith)
            requires
                sig < 0x100_0000 * pw,
                sig == q * pw + r,
                r >= 0,
                pw > 0,
        ;
        assert(t > 0 ==> q >= 0x80_0000) by (nonlinear_arith)
            requires
                t > 0 ==> 2 * sig >= 0x100_0000 * pw,
                sig == q * pw + r,
                r < pw,
                pw > 0,
        ;
        lemma_rounded_significand(
            n,
            d,
            sig as int,
            exp as nat,
            s as nat,
            q as int,
            r as int,
            inexact,
            kept as int,
        );
        lemma_nearest_of_parts(n, d, t as int, kept as int);
    }
    if t >= 255 {
        INFINITY
    } else {
        let m: u32 = t * 0x80_0000 + kept as u32;
        if m >= INFINITY {
            INFINITY
        } else {
            m
        }
    }
}

}
