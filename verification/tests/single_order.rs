use complex_num::single::{Single, HIDDEN_BIT, INFINITY_BITS, SIGN_BIT};
use std::cmp::Ordering;

fn single(x: f32) -> Single {
    Single::from_bits(x.to_bits())
}

/// Values from every class of encoding, with neighbours across each boundary.
fn samples() -> Vec<f32> {
    let mut out = vec![
        0.0,
        -0.0,
        1.0,
        -1.0,
        1.5,
        -1.5,
        2.0,
        3.0,
        4.0,
        5.0,
        10.0,
        0.1,
        -0.1,
        16777216.0,
        16777218.0,
        f32::MIN_POSITIVE,
        -f32::MIN_POSITIVE,
        f32::MAX,
        f32::MIN,
        f32::EPSILON,
        f32::INFINITY,
        f32::NEG_INFINITY,
        f32::NAN,
        -f32::NAN,
    ];
    for bits in [
        0x0000_0001u32,
        0x0000_0002,
        0x007f_ffff,
        0x0080_0000,
        0x0080_0001,
        0x00ff_ffff,
        0x0100_0000,
        0x3f7f_ffff,
        0x3f80_0001,
        0x7f7f_ffff,
        0x7f80_0001,
        0x7fff_ffff,
        0x8000_0001,
        0x807f_ffff,
        0x8080_0000,
        0xff7f_ffff,
        0xff80_0001,
        0xffff_ffff,
    ] {
        out.push(f32::from_bits(bits));
    }
    out
}

#[test]
fn bits_round_trip() {
    for bits in [0u32, 1, 0x3f80_0000, 0x7fc0_0000, 0x8000_0000, 0xffff_ffff] {
        assert_eq!(Single::from_bits(bits).to_bits(), bits);
        assert_eq!(Single::from_bits(bits).bits, bits);
    }
}

#[test]
fn encoding_constants() {
    assert_eq!(SIGN_BIT, (-0.0f32).to_bits());
    assert_eq!(INFINITY_BITS, f32::INFINITY.to_bits());
    assert_eq!(HIDDEN_BIT, 1u32 << 23);
    assert_eq!(HIDDEN_BIT, f32::MIN_POSITIVE.to_bits());
}

#[test]
fn zero_is_positive_zero() {
    assert_eq!(Single::zero().to_bits(), 0);
    assert_eq!(Single::zero().to_bits(), 0.0f32.to_bits());
    assert!(Single::zero() == single(0.0));
}

#[test]
fn is_nan_agrees_with_native() {
    for x in samples() {
        assert_eq!(single(x).is_nan(), x.is_nan(), "{:#010x}", x.to_bits());
    }
}

#[test]
fn is_nan_at_the_boundaries() {
    assert!(!Single::from_bits(0x7f80_0000).is_nan());
    assert!(Single::from_bits(0x7f80_0001).is_nan());
    assert!(!Single::from_bits(0xff80_0000).is_nan());
    assert!(Single::from_bits(0xff80_0001).is_nan());
    assert!(Single::from_bits(0xffff_ffff).is_nan());
    assert!(!Single::from_bits(0x7f7f_ffff).is_nan());
}

#[test]
fn equality_agrees_with_native() {
    for x in samples() {
        for y in samples() {
            let want = x == y;
            assert_eq!(single(x) == single(y), want, "{:?} == {:?}", x, y);
            assert_eq!(single(x) != single(y), !want, "{:?} != {:?}", x, y);
        }
    }
}

#[test]
fn comparison_agrees_with_native() {
    for x in samples() {
        for y in samples() {
            let (a, b) = (single(x), single(y));
            assert_eq!(a.partial_cmp(&b), x.partial_cmp(&y), "{:?} ? {:?}", x, y);
            assert_eq!(a < b, x < y, "{:?} < {:?}", x, y);
            assert_eq!(a <= b, x <= y, "{:?} <= {:?}", x, y);
            assert_eq!(a > b, x > y, "{:?} > {:?}", x, y);
            assert_eq!(a >= b, x >= y, "{:?} >= {:?}", x, y);
        }
    }
}

#[test]
fn nan_is_not_equal_to_itself() {
    let nan = single(f32::NAN);
    assert!(!(nan == nan));
    assert!(nan != nan);
    assert_eq!(nan.partial_cmp(&nan), None);
    assert!(!(nan < nan) && !(nan > nan) && !(nan <= nan) && !(nan >= nan));
}

#[test]
fn the_two_zeros_are_equal() {
    let plus = single(0.0);
    let minus = single(-0.0);
    assert_ne!(plus.to_bits(), minus.to_bits());
    assert!(plus == minus);
    assert_eq!(plus.partial_cmp(&minus), Some(Ordering::Equal));
    assert_eq!(minus.partial_cmp(&plus), Some(Ordering::Equal));
}

#[test]
fn exact_comparisons() {
    assert_eq!(single(1.0).partial_cmp(&single(2.0)), Some(Ordering::Less));
    assert_eq!(single(2.0).partial_cmp(&single(1.0)), Some(Ordering::Greater));
    assert_eq!(single(-1.0).partial_cmp(&single(-2.0)), Some(Ordering::Greater));
    assert_eq!(single(-2.0).partial_cmp(&single(-1.0)), Some(Ordering::Less));
    assert_eq!(single(-1.0).partial_cmp(&single(1.0)), Some(Ordering::Less));
    assert_eq!(single(3.0).partial_cmp(&single(3.0)), Some(Ordering::Equal));
    assert_eq!(
        single(f32::NEG_INFINITY).partial_cmp(&single(f32::MIN)),
        Some(Ordering::Less)
    );
    assert_eq!(
        single(f32::INFINITY).partial_cmp(&single(f32::MAX)),
        Some(Ordering::Greater)
    );
    assert_eq!(
        single(f32::INFINITY).partial_cmp(&single(f32::INFINITY)),
        Some(Ordering::Equal)
    );
    assert_eq!(single(1.0).partial_cmp(&single(f32::NAN)), None);
    assert_eq!(single(f32::NAN).partial_cmp(&single(1.0)), None);
}

#[test]
fn subnormals_order_below_normals() {
    let largest_subnormal = Single::from_bits(0x007f_ffff);
    let smallest_normal = Single::from_bits(0x0080_0000);
    let smallest_subnormal = Single::from_bits(1);
    assert!(smallest_subnormal > Single::zero());
    assert!(smallest_subnormal < largest_subnormal);
    assert!(largest_subnormal < smallest_normal);
    assert!(Single::from_bits(0x8000_0001) < Single::from_bits(0x8000_0000));
    assert!(Single::from_bits(0x8000_0001) < smallest_subnormal);
}

#[test]
fn equality_is_symmetric_and_transitive_on_samples() {
    let all = samples();
    for &x in &all {
        for &y in &all {
            assert_eq!(single(x) == single(y), single(y) == single(x));
            for &z in &all {
                if single(x) == single(y) && single(y) == single(z) {
                    assert!(single(x) == single(z));
                }
                if single(x) < single(y) && single(y) < single(z) {
                    assert!(single(x) < single(z));
                }
            }
        }
    }
}

#[test]
fn copies_keep_the_encoding() {
    let x = Single::from_bits(0x7fc0_1234);
    let y = x;
    let z = x.clone();
    assert_eq!(y.to_bits(), 0x7fc0_1234);
    assert_eq!(z.to_bits(), 0x7fc0_1234);
    assert_eq!(format!("{:?}", x), format!("{:?}", y));
}
