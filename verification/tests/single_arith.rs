use complex_num::arith::NAN_BITS;
use complex_num::Single;

fn single(x: f32) -> Single {
    Single::from_bits(x.to_bits())
}

/// The same encoding, or not-a-number on both sides.
fn agree(got: Single, want: f32) -> bool {
    if want.is_nan() {
        got.is_nan() && got.to_bits() == NAN_BITS
    } else {
        got.to_bits() == want.to_bits()
    }
}

fn edge_values() -> Vec<f32> {
    let mut out = vec![
        0.0,
        -0.0,
        1.0,
        -1.0,
        1.5,
        2.0,
        3.0,
        4.0,
        5.0,
        10.0,
        0.1,
        0.2,
        0.3,
        -0.1,
        1.0e-20,
        1.0e20,
        -1.0e20,
        3.0e38,
        -3.0e38,
        1.0e-38,
        1.0e-45,
        16777216.0,
        16777217.0,
        33554432.0,
        f32::MIN_POSITIVE,
        -f32::MIN_POSITIVE,
        f32::MAX,
        f32::MIN,
        f32::EPSILON,
        f32::INFINITY,
        f32::NEG_INFINITY,
        f32::NAN,
    ];
    for bits in [
        0x0000_0001u32,
        0x0000_0002,
        0x0000_0003,
        0x007f_ffff,
        0x0080_0000,
        0x0080_0001,
        0x00ff_ffff,
        0x0100_0000,
        0x3f7f_ffff,
        0x3f80_0001,
        0x3f80_0002,
        0x3f80_0003,
        0x4b00_0000,
        0x4b00_0001,
        0x4b7f_ffff,
        0x4b80_0000,
        0x4b80_0001,
        0x7f00_0000,
        0x7f7f_fffe,
        0x7f7f_ffff,
        0x8000_0001,
        0x807f_ffff,
        0x8080_0000,
        0xbf80_0001,
        0xff7f_ffff,
        0x1fff_ffff,
        0x2000_0001,
        0x5f80_0000,
        0x6000_0001,
    ] {
        out.push(f32::from_bits(bits));
    }
    out
}

/// A fixed sequence of encodings that covers all exponents.
fn scattered(count: usize) -> Vec<f32> {
    let mut state: u64 = 0x9e37_79b9_7f4a_7c15;
    let mut out = Vec::new();
    for _ in 0..count {
        state = state
            .wrapping_mul(6364136223846793005)
            .wrapping_add(1442695040888963407);
        out.push(f32::from_bits((state >> 32) as u32));
    }
    out
}

#[test]
fn sum_agrees_with_native_on_edges() {
    for x in edge_values() {
        for y in edge_values() {
            let got = single(x).add(single(y));
            assert!(agree(got, x + y), "{:?} + {:?}: {:#010x} vs {:#010x}", x, y, got.to_bits(), (x + y).to_bits());
        }
    }
}

#[test]
fn difference_agrees_with_native_on_edges() {
    for x in edge_values() {
        for y in edge_values() {
            let got = single(x).sub(single(y));
            assert!(agree(got, x - y), "{:?} - {:?}: {:#010x} vs {:#010x}", x, y, got.to_bits(), (x - y).to_bits());
        }
    }
}

#[test]
fn product_agrees_with_native_on_edges() {
    for x in edge_values() {
        for y in edge_values() {
            let got = single(x).mul(single(y));
            assert!(agree(got, x * y), "{:?} * {:?}: {:#010x} vs {:#010x}", x, y, got.to_bits(), (x * y).to_bits());
        }
    }
}

#[test]
fn sum_and_difference_agree_with_native_on_scattered_values() {
    let xs = scattered(300);
    let ys = scattered(600);
    for (i, &x) in xs.iter().enumerate() {
        let y = ys[599 - i];
        assert!(agree(single(x).add(single(y)), x + y), "{:?} + {:?}", x, y);
        assert!(agree(single(x).sub(single(y)), x - y), "{:?} - {:?}", x, y);
    }
}

#[test]
fn product_agrees_with_native_on_scattered_values() {
    let xs = scattered(300);
    let ys = scattered(600);
    for (i, &x) in xs.iter().enumerate() {
        let y = ys[599 - i];
        assert!(agree(single(x).mul(single(y)), x * y), "{:?} * {:?}", x, y);
    }
}

#[test]
fn sums_of_close_exponents_agree_with_native() {
    // operands a few binades apart, where alignment and rounding interact
    let xs = scattered(200);
    for &x in &xs {
        if !x.is_finite() {
            continue;
        }
        for k in 0..30 {
            let y = f32::from_bits(x.to_bits().wrapping_sub(k << 23) ^ (k & 1) << 31);
            assert!(agree(single(x).add(single(y)), x + y), "{:?} + {:?}", x, y);
            assert!(agree(single(x).sub(single(y)), x - y), "{:?} - {:?}", x, y);
            assert!(agree(single(x).mul(single(y)), x * y), "{:?} * {:?}", x, y);
        }
    }
}

#[test]
fn exact_sums_and_products() {
    assert_eq!(single(1.0).add(single(2.0)).to_bits(), 3.0f32.to_bits());
    assert_eq!(single(1.0).add(single(-1.0)).to_bits(), 0.0f32.to_bits());
    assert_eq!(single(5.0).mul(single(2.0)).to_bits(), 10.0f32.to_bits());
    assert_eq!(single(3.0).mul(single(3.0)).to_bits(), 9.0f32.to_bits());
    assert_eq!(single(4.0).mul(single(4.0)).to_bits(), 16.0f32.to_bits());
    assert_eq!(single(1.5).sub(single(0.25)).to_bits(), 1.25f32.to_bits());
    assert_eq!(single(0.5).mul(single(0.5)).to_bits(), 0.25f32.to_bits());
}

#[test]
fn ties_go_to_the_even_neighbour() {
    // 2^24 + 1 lies midway between 2^24 and 2^24 + 2
    assert_eq!(single(16777216.0).add(single(1.0)).to_bits(), 16777216.0f32.to_bits());
    // 2^24 + 3 lies midway between 2^24 + 2 and 2^24 + 4
    assert_eq!(single(16777218.0).add(single(1.0)).to_bits(), 16777220.0f32.to_bits());
    assert_eq!(single(16777216.0).sub(single(1.0)).to_bits(), 16777215.0f32.to_bits());
}

#[test]
fn zero_results_have_the_stated_sign() {
    assert_eq!(single(0.0).add(single(-0.0)).to_bits(), 0);
    assert_eq!(single(-0.0).add(single(-0.0)).to_bits(), 0x8000_0000);
    assert_eq!(single(1.0).sub(single(1.0)).to_bits(), 0);
    assert_eq!(single(-1.0).add(single(1.0)).to_bits(), 0);
    assert_eq!(single(-0.0).sub(single(0.0)).to_bits(), 0x8000_0000);
    assert_eq!(single(0.0).sub(single(0.0)).to_bits(), 0);
    assert_eq!(single(-0.0).mul(single(5.0)).to_bits(), 0x8000_0000);
    assert_eq!(single(-0.0).mul(single(-5.0)).to_bits(), 0);
    assert_eq!(single(0.0).mul(single(-5.0)).to_bits(), 0x8000_0000);
    // a product too small for the smallest subnormal is a zero with the sign of the product
    assert_eq!(single(1.0e-30).mul(single(-1.0e-30)).to_bits(), 0x8000_0000);
    assert_eq!(single(1.0e-30).mul(single(1.0e-30)).to_bits(), 0);
}

#[test]
fn overflow_gives_infinity() {
    assert_eq!(single(f32::MAX).add(single(f32::MAX)).to_bits(), f32::INFINITY.to_bits());
    assert_eq!(single(f32::MIN).add(single(f32::MIN)).to_bits(), f32::NEG_INFINITY.to_bits());
    assert_eq!(single(f32::MAX).mul(single(2.0)).to_bits(), f32::INFINITY.to_bits());
    assert_eq!(single(f32::MAX).mul(single(-2.0)).to_bits(), f32::NEG_INFINITY.to_bits());
    // less than half a step beyond the largest number stays finite
    assert_eq!(single(f32::MAX).add(single(1.0e30)).to_bits(), f32::MAX.to_bits());
}

#[test]
fn undefined_results_are_the_one_nan() {
    assert_eq!(single(f32::INFINITY).sub(single(f32::INFINITY)).to_bits(), NAN_BITS);
    assert_eq!(single(f32::INFINITY).add(single(f32::NEG_INFINITY)).to_bits(), NAN_BITS);
    assert_eq!(single(f32::INFINITY).mul(single(0.0)).to_bits(), NAN_BITS);
    assert_eq!(single(-0.0).mul(single(f32::NEG_INFINITY)).to_bits(), NAN_BITS);
    assert_eq!(Single::from_bits(0xffc0_1234).add(single(1.0)).to_bits(), NAN_BITS);
    assert_eq!(single(1.0).mul(Single::from_bits(0x7f80_0001)).to_bits(), NAN_BITS);
    assert_eq!(NAN_BITS, 0x7fc0_0000);
}

#[test]
fn negation_flips_the_sign_bit_only() {
    for x in edge_values() {
        assert_eq!(single(x).neg().to_bits(), x.to_bits() ^ 0x8000_0000);
    }
}

#[test]
fn sum_commutes_on_samples() {
    for x in edge_values() {
        for y in edge_values() {
            assert_eq!(single(x).add(single(y)).to_bits(), single(y).add(single(x)).to_bits());
            assert_eq!(single(x).mul(single(y)).to_bits(), single(y).mul(single(x)).to_bits());
        }
    }
}
