//! How far one application of the penalty, and many of them, move a score.

use vstd::prelude::*;

use crate::float::binary32::ONE;
use crate::float::rounding::{INFINITY, MIN_NORMAL};
use crate::float::F32;

verus! {

/// The penalty is a number above one.
pub open spec fn above_one(penalty: F32) -> bool {
    F32 { bits: ONE }.less(penalty)
}

/// The value of one and of the next larger number, and the smallest penalty above one.
proof fn lemma_values_at_one(m: int)
    requires
        ONE < m < INFINITY,
    ensures
        ({
            let one = vstd::arithmetic::power2::pow2(149) as int;
            let step = vstd::arithmetic::power2::pow2(126) as int;
            &&& one == 0x80_0000 * step
            &&& step > 0
            &&& crate::float::rounding::magnitude(m) >= one + step
        }),
{
    let step = vstd::arithmetic::power2::pow2(126) as int;
    vstd::arithmetic::power2::lemma2_to64();
    vstd::arithmetic::power2::lemma_pow2_adds(23, 126);
    vstd::arithmetic::power2::lemma_pow2_pos(126);
    crate::float::rounding::lemma_magnitude_of_parts(126, 0x80_0001);
    assert(126 * 0x80_0000 + 0x80_0001 == ONE + 1);
    assert(0x80_0001 * step == 0x80_0000 * step + step) by (nonlinear_arith);
    if m > ONE + 1 {
        crate::float::rounding::lemma_magnitude_increases(ONE + 1, m);
    }
}

/// The neighbours of a pattern with a full-width significand lie one unit away, or half a unit
/// below at the start of a binade.
proof fn lemma_neighbours(m: int) -> (parts: (int, int))
    requires
        MIN_NORMAL <= m < INFINITY,
    ensures
        0x80_0000 <= parts.0 < 0x100_0000,
        parts.1 > 0,
        crate::float::rounding::magnitude(m) == parts.0 * parts.1,
        crate::float::rounding::magnitude(m + 1) == (parts.0 + 1) * parts.1,
        crate::float::rounding::magnitude(m - 1) >= (parts.0 - 1) * parts.1,
{
    let t = m / 0x80_0000 - 1;
    let q = 0x80_0000 + m % 0x80_0000;
    let p = vstd::arithmetic::power2::pow2(t as nat) as int;
    vstd::arithmetic::power2::lemma_pow2_pos(t as nat);
    crate::float::rounding::lemma_magnitude_of_parts(t, q);
    crate::float::rounding::lemma_magnitude_of_parts(t, q + 1);
    assert(m == t * 0x80_0000 + q);
    if t > 0 && q == 0x80_0000 {
        let h = vstd::arithmetic::power2::pow2((t - 1) as nat) as int;
        vstd::arithmetic::power2::lemma_pow2_unfold(t as nat);
        vstd::arithmetic::power2::lemma_pow2_pos((t - 1) as nat);
        crate::float::rounding::lemma_magnitude_of_parts(t - 1, 0xff_ffff);
        assert(m - 1 == (t - 1) * 0x80_0000 + 0xff_ffff);
        assert(0xff_ffff * h >= (q - 1) * p) by (nonlinear_arith)
            requires
                h > 0,
                p == 2 * h,
                q == 0x80_0000,
        ;
    } else {
        crate::float::rounding::lemma_magnitude_of_parts(t, q - 1);
        assert(m - 1 == t * 0x80_0000 + (q - 1));
    }
    (q, p)
}

/// The rounded pattern of a ratio.
proof fn lemma_rounded(n: int, d: int)
    requires
        n >= 0,
        d > 0,
    ensures
        crate::float::rounding::nearest(n, d, F32::rounded(n, d)),
{
    crate::float::rounding::lemma_nearest_exists(n, d);
}

/// A penalised score is a number or the canonical NaN.
proof fn lemma_penalised_is_folded(score: F32, penalty: F32)
    ensures
        crate::models::decode::penalised(score, penalty)
            == crate::models::decode::penalised(score, penalty).canonical(),
{
    let m = score.pattern();
    let by = penalty.pattern();
    if m < INFINITY && by < INFINITY {
        let one = vstd::arithmetic::power2::pow2(149) as int;
        let v = crate::float::rounding::magnitude(m);
        let b = crate::float::rounding::magnitude(by);
        vstd::arithmetic::power2::lemma_pow2_pos(149);
        crate::float::rounding::lemma_magnitude_increases(m, m + 1);
        if by > 0 {
            crate::float::rounding::lemma_magnitude_increases(0, by);
        }
        assert(v * one >= 0 && v * b >= 0) by (nonlinear_arith)
            requires
                v >= 0,
                b >= 0,
                one > 0,
        ;
        if by > 0 {
            lemma_rounded(v * one, b);
        }
        lemma_rounded(v * b, one);
    }
}

/// Folding NaN before the penalty is applied or after makes no difference.
pub(crate) proof fn lemma_folding_commutes(score: F32, penalty: F32, n: nat)
    ensures
        crate::models::decode::penalised_times(score, penalty, n).canonical()
            == crate::models::decode::penalised_times(score.canonical(), penalty, n),
    decreases n,
{
    if n > 0 {
        let before = crate::models::decode::penalised_times(score, penalty, (n - 1) as nat);
        lemma_folding_commutes(score, penalty, (n - 1) as nat);
        lemma_penalised_is_folded(before, penalty);
        assert(crate::models::decode::penalised(before.canonical(), penalty)
            == crate::models::decode::penalised(before, penalty));
    }
}

/// Division by a number above one does not move a magnitude up, and moves one with a full-width
/// significand down.
proof fn lemma_division_shrinks(m: int, by: int)
    requires
        0 <= m < INFINITY,
        ONE < by < INFINITY,
    ensures
        ({
            let r = F32::rounded(
                crate::float::rounding::magnitude(m) * vstd::arithmetic::power2::pow2(149),
                crate::float::rounding::magnitude(by),
            );
            &&& 0 <= r <= m
            &&& MIN_NORMAL <= m ==> r < m
        }),
{
    let one = vstd::arithmetic::power2::pow2(149) as int;
    let step = vstd::arithmetic::power2::pow2(126) as int;
    let v = crate::float::rounding::magnitude(m);
    let d = crate::float::rounding::magnitude(by);
    let n = v * one;
    lemma_values_at_one(by);
    crate::float::rounding::lemma_magnitude_increases(m, m + 1);
    assert(n >= 0) by (nonlinear_arith)
        requires
            n == v * one,
            v >= 0,
            one > 0,
    ;
    lemma_rounded(n, d);
    let r = F32::rounded(n, d);
    if r > m {
        let above = crate::float::rounding::magnitude(r - 1) + crate::float::rounding::magnitude(r);
        if r > m + 1 {
            crate::float::rounding::lemma_magnitude_increases(m, r - 1);
            crate::float::rounding::lemma_magnitude_increases(m + 1, r);
        }
        assert(d * above > 2 * n) by (nonlinear_arith)
            requires
                d > one,
                one > 0,
                n == v * one,
                v >= 0,
                above > 2 * v,
        ;
    }
    if MIN_NORMAL <= m && r == m {
        let (q, p) = lemma_neighbours(m);
        let around = crate::float::rounding::magnitude(m - 1) + v;
        assert(d * around > 2 * n) by (nonlinear_arith)
            requires
                d >= one + step,
                one == 0x80_0000 * step,
                step > 0,
                p > 0,
                q >= 0x80_0000,
                v == q * p,
                around >= (q - 1) * p + q * p,
                n == v * one,
        {
            assert(around >= (2 * q - 1) * p) by (nonlinear_arith)
                requires
                    around >= (q - 1) * p + q * p,
            ;
            let e = (2 * q - 1) * p;
            assert(e > 0) by (nonlinear_arith)
                requires
                    e == (2 * q - 1) * p,
                    q >= 0x80_0000,
                    p > 0,
            ;
            assert(d * around >= (one + step) * e) by (nonlinear_arith)
                requires
                    d >= one + step,
                    around >= e,
                    e > 0,
                    one + step > 0,
            ;
            let w = step * p;
            assert(w > 0) by (nonlinear_arith)
                requires
                    w == step * p,
                    step > 0,
                    p > 0,
            ;
            assert((one + step) * e == 0x80_0001 * (2 * q - 1) * w) by (nonlinear_arith)
                requires
                    one == 0x80_0000 * step,
                    e == (2 * q - 1) * p,
                    w == step * p,
            ;
            assert(2 * n == 0x100_0000 * q * w) by (nonlinear_arith)
                requires
                    n == (q * p) * one,
                    one == 0x80_0000 * step,
                    w == step * p,
            ;
            let x = 0x80_0001 * (2 * q - 1);
            let y = 0x100_0000 * q;
            assert(x > y);
            assert(x * w > y * w) by (nonlinear_arith)
                requires
                    x > y,
                    w > 0,
            ;
        }
    }
}

/// Multiplication by a number above one does not move a magnitude down, and moves one with a
/// full-width significand up.
proof fn lemma_multiplication_grows(m: int, by: int)
    requires
        0 <= m < INFINITY,
        ONE < by < INFINITY,
    ensures
        ({
            let r = F32::rounded(
                crate::float::rounding::magnitude(m) * crate::float::rounding::magnitude(by),
                vstd::arithmetic::power2::pow2(149) as int,
            );
            &&& m <= r <= INFINITY
            &&& MIN_NORMAL <= m ==> m < r
        }),
{
    let one = vstd::arithmetic::power2::pow2(149) as int;
    let step = vstd::arithmetic::power2::pow2(126) as int;
    let v = crate::float::rounding::magnitude(m);
    let b = crate::float::rounding::magnitude(by);
    let n = v * b;
    lemma_values_at_one(by);
    crate::float::rounding::lemma_magnitude_increases(m, m + 1);
    assert(n >= v * one && v * one >= 0) by (nonlinear_arith)
        requires
            n == v * b,
            v >= 0,
            b >= one,
            one > 0,
    ;
    lemma_rounded(n, one);
    let r = F32::rounded(n, one);
    if r < m {
        let below = crate::float::rounding::magnitude(r) + crate::float::rounding::magnitude(r + 1);
        crate::float::rounding::lemma_magnitude_increases(r, m);
        if r + 1 < m {
            crate::float::rounding::lemma_magnitude_increases(r + 1, m);
        }
        assert(one * below < 2 * (v * one)) by (nonlinear_arith)
            requires
                one > 0,
                below < 2 * v,
        ;
    }
    if MIN_NORMAL <= m && r == m {
        let (q, p) = lemma_neighbours(m);
        let around = v + crate::float::rounding::magnitude(m + 1);
        let w = step * p;
        assert(w > 0) by (nonlinear_arith)
            requires
                w == step * p,
                step > 0,
                p > 0,
        ;
        assert(one * around == 0x80_0000 * (2 * q + 1) * w) by (nonlinear_arith)
            requires
                one == 0x80_0000 * step,
                around == q * p + (q + 1) * p,
                w == step * p,
        ;
        assert(v * b >= v * (one + step)) by (nonlinear_arith)
            requires
                v >= 0,
                b >= one + step,
        ;
        assert(2 * (v * (one + step)) == 0x100_0002 * q * w) by (nonlinear_arith)
            requires
                v == q * p,
                one == 0x80_0000 * step,
                w == step * p,
        ;
        let x = 0x100_0002 * q;
        let y = 0x80_0000 * (2 * q + 1);
        assert(x > y);
        assert(x * w > y * w) by (nonlinear_arith)
            requires
                x > y,
                w > 0,
        ;
    }
}

/// Dividing infinity by infinity is the one case in which a penalty turns a number into NaN.
pub open spec fn comparable(score: F32, penalty: F32) -> bool {
    !score.nan() && (score.rank() < INFINITY || penalty.finite())
}

/// A penalty above one never raises a score, and lowers every finite score with a full-width
/// significand. A score that is at least zero stays so: a negative score is moved further down.
pub proof fn a_penalty_never_raises_a_score(score: F32, penalty: F32)
    requires
        above_one(penalty),
        comparable(score, penalty),
    ensures
        ({
            let after = crate::models::decode::penalised(score, penalty);
            &&& !after.nan()
            &&& !score.less(after)
            &&& MIN_NORMAL <= score.pattern() < INFINITY ==> after.less(score)
            &&& score.rank() >= 0 ==> after.rank() >= 0
            &&& comparable(after, penalty)
        }),
{
    let m = score.pattern();
    let by = penalty.pattern();
    if score.rank() >= 0 {
        if m < INFINITY && by < INFINITY {
            lemma_division_shrinks(m, by);
        }
    } else {
        if m < INFINITY && by < INFINITY {
            lemma_multiplication_grows(m, by);
        }
    }
}

/// Applying the penalty first and then `n` times is applying it `n + 1` times.
proof fn lemma_first_application(score: F32, penalty: F32, n: nat)
    ensures
        crate::models::decode::penalised_times(
            crate::models::decode::penalised(score, penalty),
            penalty,
            n,
        ) == crate::models::decode::penalised_times(score, penalty, n + 1),
    decreases n,
{
    if n > 0 {
        lemma_first_application(score, penalty, (n - 1) as nat);
    } else {
        assert(crate::models::decode::penalised_times(score, penalty, 0) == score);
    }
}

/// The pressure grows with every repeat: more applications of a penalty above one never leave a
/// higher score than fewer.
pub proof fn more_repeats_never_raise_a_score(score: F32, penalty: F32, fewer: nat, more: nat)
    requires
        above_one(penalty),
        comparable(score, penalty),
        fewer <= more,
    ensures
        ({
            let early = crate::models::decode::penalised_times(score, penalty, fewer);
            let late = crate::models::decode::penalised_times(score, penalty, more);
            &&& !early.nan() && !late.nan()
            &&& !early.less(late)
            &&& comparable(late, penalty)
        }),
    decreases more,
{
    if more == 0 {
    } else if fewer == more {
        more_repeats_never_raise_a_score(score, penalty, (more - 1) as nat, (more - 1) as nat);
        a_penalty_never_raises_a_score(
            crate::models::decode::penalised_times(score, penalty, (more - 1) as nat),
            penalty,
        );
    } else {
        more_repeats_never_raise_a_score(score, penalty, fewer, (more - 1) as nat);
        a_penalty_never_raises_a_score(
            crate::models::decode::penalised_times(score, penalty, (more - 1) as nat),
            penalty,
        );
    }
}

/// A score that the penalty leaves where it is.
pub open spec fn settled(score: F32, penalty: F32) -> bool {
    crate::models::decode::penalised(score, penalty).same(score)
}

/// Only a score without a full-width significand, or an infinite one, can settle.
pub proof fn a_settled_score_is_tiny_or_infinite(score: F32, penalty: F32)
    requires
        above_one(penalty),
        comparable(score, penalty),
        settled(score, penalty),
    ensures
        score.pattern() < MIN_NORMAL || score.pattern() == INFINITY,
{
    a_penalty_never_raises_a_score(score, penalty);
}

/// A settled score never moves again.
pub proof fn a_settled_score_stays(score: F32, penalty: F32, n: nat)
    requires
        above_one(penalty),
        comparable(score, penalty),
        settled(score, penalty),
    ensures
        crate::models::decode::penalised_times(score, penalty, n) == score,
    decreases n,
{
    if n > 0 {
        a_settled_score_stays(score, penalty, (n - 1) as nat);
        let after = crate::models::decode::penalised(score, penalty);
        if score.pattern() < INFINITY && penalty.pattern() < INFINITY {
            if score.rank() >= 0 {
                lemma_division_shrinks(score.pattern(), penalty.pattern());
            } else {
                lemma_multiplication_grows(score.pattern(), penalty.pattern());
            }
        }
        assert(after.negative() == score.negative() && after.pattern() == score.pattern());
        assert(after.bits == score.bits);
    }
}

/// Applying the penalty `n` times and then `k` times is applying it `n + k` times.
proof fn lemma_applications_add_up(score: F32, penalty: F32, n: nat, k: nat)
    ensures
        crate::models::decode::penalised_times(
            crate::models::decode::penalised_times(score, penalty, n),
            penalty,
            k,
        ) == crate::models::decode::penalised_times(score, penalty, n + k),
    decreases k,
{
    if k > 0 {
        lemma_applications_add_up(score, penalty, n, (k - 1) as nat);
    }
}

proof fn lemma_falls_behind_or_settles(score: F32, rival: F32, penalty: F32) -> (n: nat)
    requires
        above_one(penalty),
        comparable(score, penalty),
        !rival.nan(),
    ensures
        ({
            let after = crate::models::decode::penalised_times(score, penalty, n);
            &&& comparable(after, penalty)
            &&& !score.less(after)
            &&& score.rank() >= 0 ==> after.rank() >= 0
            &&& after.less(rival) || settled(after, penalty)
        }),
    decreases score.rank() + INFINITY,
{
    a_penalty_never_raises_a_score(score, penalty);
    if score.less(rival) || settled(score, penalty) {
        0
    } else {
        let next = crate::models::decode::penalised(score, penalty);
        let n = lemma_falls_behind_or_settles(next, rival, penalty);
        lemma_first_application(score, penalty, n);
        n + 1
    }
}

/// Repeating a penalty above one takes a score behind any rival for good, or the score settles
/// at a value that is not behind the rival and stays there.
pub proof fn a_repeated_score_falls_behind_or_settles(score: F32, rival: F32, penalty: F32) -> (n:
    nat)
    requires
        above_one(penalty),
        comparable(score, penalty),
        !rival.nan(),
    ensures
        ({
            let after = crate::models::decode::penalised_times(score, penalty, n);
            &&& comparable(after, penalty)
            &&& !score.less(after)
            &&& score.rank() >= 0 ==> after.rank() >= 0
            &&& {
                ||| forall|more: nat|
                    n <= more ==> (#[trigger] crate::models::decode::penalised_times(
                        score,
                        penalty,
                        more,
                    )).less(rival)
                ||| settled(after, penalty) && !after.less(rival) && forall|more: nat|
                    n <= more ==> #[trigger] crate::models::decode::penalised_times(
                        score,
                        penalty,
                        more,
                    ) == after
            }
        }),
{
    let n = lemma_falls_behind_or_settles(score, rival, penalty);
    let after = crate::models::decode::penalised_times(score, penalty, n);
    if after.less(rival) {
        assert forall|more: nat| n <= more implies (
        #[trigger] crate::models::decode::penalised_times(score, penalty, more)).less(rival) by {
            more_repeats_never_raise_a_score(score, penalty, n, more);
        }
    } else {
        assert forall|more: nat| n <= more implies #[trigger] crate::models::decode::penalised_times(
            score,
            penalty,
            more,
        ) == after by {
            a_settled_score_stays(after, penalty, (more - n) as nat);
            lemma_applications_add_up(score, penalty, n, (more - n) as nat);
        }
    }
    n
}

/// A token that is repeated often enough falls behind a rival, and stays behind.
///
/// The score must not be positive infinity. If it is at least zero, the rival must be at least
/// the smallest number with a full-width significand: division never takes a score below zero,
/// and may leave it at a tiny positive number. If it is negative, it must have a full-width
/// significand itself, and the rival must be above negative infinity.
pub proof fn a_repeated_score_falls_behind_for_good(score: F32, rival: F32, penalty: F32) -> (n: nat)
    requires
        above_one(penalty),
        !score.nan(),
        score.rank() < INFINITY,
        !rival.nan(),
        score.rank() >= 0 ==> rival.rank() >= MIN_NORMAL,
        score.rank() < 0 ==> score.pattern() >= MIN_NORMAL && rival.rank() > -INFINITY,
    ensures
        forall|more: nat|
            n <= more ==> (#[trigger] crate::models::decode::penalised_times(
                score,
                penalty,
                more,
            )).less(rival),
{
    let n = a_repeated_score_falls_behind_or_settles(score, rival, penalty);
    let after = crate::models::decode::penalised_times(score, penalty, n);
    if settled(after, penalty) && !after.less(rival) {
        a_settled_score_is_tiny_or_infinite(after, penalty);
    }
    n
}

}
