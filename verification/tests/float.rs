use xberg_candle_ocr::float::{F32, F64};

fn b32(x: f32) -> F32 {
    F32::from_bits(x.to_bits())
}

fn b64(x: f64) -> F64 {
    F64::from_bits(x.to_bits())
}

/// The bits with every NaN folded into one.
fn folded(bits: u32) -> u32 {
    if f32::from_bits(bits).is_nan() {
        0x7fc0_0000
    } else {
        bits
    }
}

/// Patterns around every boundary of the format, and a spread of others.
fn samples() -> Vec<u32> {
    let mut bits: Vec<u32> = vec![
        0, 1, 2, 3, 0x40_0000, 0x7f_fffe, 0x7f_ffff, 0x80_0000, 0x80_0001, 0xff_ffff, 0x100_0000,
        0x3f7f_ffff, 0x3f80_0000, 0x3f80_0001, 0x3f8c_cccd, 0x3fff_ffff, 0x4000_0000, 0x4040_0000,
        0x7f7f_fffe, 0x7f7f_ffff, 0x7f80_0000, 0x7fc0_0000, 0x7f80_0001,
    ];
    let mut state: u32 = 12345;
    for _ in 0..120 {
        state = state.wrapping_mul(1_664_525).wrapping_add(1_013_904_223);
        bits.push(state & 0x7fff_ffff);
    }
    let negatives: Vec<u32> = bits.iter().map(|b| b | 0x8000_0000).collect();
    bits.extend(negatives);
    bits
}

#[test]
fn division_is_that_of_the_machine() {
    for &a in samples().iter() {
        for &b in samples().iter() {
            let expected = f32::from_bits(a) / f32::from_bits(b);
            let got = F32::from_bits(a).divide(F32::from_bits(b));
            assert_eq!(folded(got.to_bits()), folded(expected.to_bits()), "{a:#x} / {b:#x}");
        }
    }
}

#[test]
fn multiplication_is_that_of_the_machine() {
    for &a in samples().iter() {
        for &b in samples().iter() {
            let expected = f32::from_bits(a) * f32::from_bits(b);
            let got = F32::from_bits(a).multiply(F32::from_bits(b));
            assert_eq!(folded(got.to_bits()), folded(expected.to_bits()), "{a:#x} * {b:#x}");
        }
    }
}

#[test]
fn division_and_multiplication_give_exact_known_values() {
    assert_eq!(b32(0.9).divide(b32(2.0)).to_bits(), 0.45f32.to_bits());
    assert_eq!(b32(-0.4).multiply(b32(2.0)).to_bits(), (-0.8f32).to_bits());
    assert_eq!(b32(5.0).divide(b32(1.1)).to_bits(), (5.0f32 / 1.1f32).to_bits());
    // A tie goes to the even neighbour: half of the smallest positive value is zero.
    assert_eq!(F32::from_bits(1).divide(b32(2.0)).to_bits(), 0);
    assert_eq!(F32::from_bits(3).divide(b32(2.0)).to_bits(), 2);
    // Overflow goes to infinity, and zero over zero is NaN.
    assert_eq!(b32(f32::MAX).multiply(b32(2.0)).to_bits(), f32::INFINITY.to_bits());
    assert_eq!(b32(0.0).divide(b32(0.0)).to_bits(), 0x7fc0_0000);
}

#[test]
fn dividing_or_multiplying_by_one_changes_nothing() {
    for &a in samples().iter() {
        let number = F32::from_bits(a);
        assert_eq!(folded(number.divide(b32(1.0)).to_bits()), folded(a));
        assert_eq!(folded(number.multiply(b32(1.0)).to_bits()), folded(a));
    }
}

#[test]
fn comparisons_are_those_of_the_machine() {
    for &a in samples().iter() {
        let x = f32::from_bits(a);
        assert_eq!(F32::from_bits(a).is_at_least_zero(), x >= 0.0, "{a:#x}");
        for &b in samples().iter() {
            let y = f32::from_bits(b);
            assert_eq!(F32::from_bits(a) == F32::from_bits(b), x == y, "{a:#x} == {b:#x}");
        }
    }
}

#[test]
fn the_zeros_are_equal_and_nan_is_not() {
    assert!(b32(0.0) == b32(-0.0));
    assert!(b32(f32::NAN) != b32(f32::NAN));
    assert!(b64(0.0) == b64(-0.0));
    assert!(b64(f64::NAN) != b64(f64::NAN));
    assert!(b64(1.5) == b64(1.5));
    assert!(b64(1.5) != b64(-1.5));
    assert!(b32(-0.0).is_at_least_zero());
}

#[test]
fn widening_is_that_of_the_machine() {
    for &a in samples().iter() {
        let x = f32::from_bits(a);
        let wide = f64::from_bits(F32::from_bits(a).widen().to_bits());
        if x.is_nan() {
            assert!(wide.is_nan());
        } else {
            assert_eq!(wide.to_bits(), f64::from(x).to_bits(), "{a:#x}");
        }
    }
    assert_eq!(b32(0.1).widen().to_bits(), 0x3fb9_9999_a000_0000);
}

#[test]
fn at_most_zero_is_that_of_the_machine() {
    for x in [0.0, -0.0, 1.0, -1.0, 1e-310, -1e-310, f64::INFINITY, f64::NEG_INFINITY, f64::NAN] {
        assert_eq!(b64(x).is_at_most_zero(), x <= 0.0, "{x}");
    }
}
