use complex_num::{Complex, Single};
use std::cmp::Ordering;

/// The pair of native floats that a `Complex` stands for, with the
/// comparisons that the language derives for such a pair.
#[derive(Debug, Clone, Copy, PartialEq, PartialOrd)]
struct Native {
    a: f32,
    b: f32,
}

fn single(x: f32) -> Single {
    Single::from_bits(x.to_bits())
}

fn complex(a: f32, b: f32) -> Complex {
    Complex::new(single(a), single(b))
}

fn parts() -> Vec<f32> {
    vec![
        0.0,
        -0.0,
        1.0,
        -1.0,
        2.5,
        -2.5,
        f32::from_bits(1),
        f32::MAX,
        f32::MIN,
        f32::INFINITY,
        f32::NEG_INFINITY,
        f32::NAN,
    ]
}

fn pairs() -> Vec<Native> {
    let mut out = Vec::new();
    for a in parts() {
        for b in parts() {
            out.push(Native { a, b });
        }
    }
    out
}

#[test]
fn new_keeps_both_parts() {
    let c = complex(3.0, 2.0);
    assert_eq!(c.re.to_bits(), 3.0f32.to_bits());
    assert_eq!(c.im.to_bits(), 2.0f32.to_bits());
}

#[test]
fn new_accepts_non_finite_parts_as_they_are() {
    let c = Complex::new(Single::from_bits(0x7fc0_0001), single(f32::NEG_INFINITY));
    assert_eq!(c.re.to_bits(), 0x7fc0_0001);
    assert_eq!(c.im.to_bits(), 0xff80_0000);
    let d = complex(-0.0, -0.0);
    assert_eq!(d.re.to_bits(), 0x8000_0000);
    assert_eq!(d.im.to_bits(), 0x8000_0000);
}

#[test]
fn from_real_has_zero_imaginary_part() {
    let c = Complex::from_real(single(5.0));
    assert_eq!(c.re.to_bits(), 5.0f32.to_bits());
    assert_eq!(c.im.to_bits(), 0);
    assert!(c == complex(5.0, 0.0));
}

#[test]
fn imaginary_has_zero_real_part() {
    let c = Complex::imaginary(single(2.0));
    assert_eq!(c.re.to_bits(), 0);
    assert_eq!(c.im.to_bits(), 2.0f32.to_bits());
    assert!(c == complex(0.0, 2.0));
}

#[test]
fn conversion_from_a_scalar_is_from_real() {
    for x in parts() {
        let by_from = Complex::from(single(x));
        let by_into: Complex = single(x).into();
        let by_name = Complex::from_real(single(x));
        assert_eq!(by_from.re.to_bits(), by_name.re.to_bits());
        assert_eq!(by_from.im.to_bits(), by_name.im.to_bits());
        assert_eq!(by_into.re.to_bits(), x.to_bits());
        assert_eq!(by_into.im.to_bits(), 0);
    }
}

#[test]
fn default_is_zero() {
    let d = Complex::default();
    assert!(d == complex(0.0, 0.0));
    assert_eq!(d.re.to_bits(), 0);
    assert_eq!(d.im.to_bits(), 0);
    let native = Native { a: f32::default(), b: f32::default() };
    assert_eq!(d.re.to_bits(), native.a.to_bits());
    assert_eq!(d.im.to_bits(), native.b.to_bits());
}

#[test]
fn equality_agrees_with_native_pairs() {
    for x in pairs() {
        for y in pairs() {
            let (p, q) = (complex(x.a, x.b), complex(y.a, y.b));
            assert_eq!(p == q, x == y, "{:?} == {:?}", x, y);
            assert_eq!(p != q, x != y, "{:?} != {:?}", x, y);
        }
    }
}

#[test]
fn comparison_agrees_with_native_pairs() {
    for x in pairs() {
        for y in pairs() {
            let (p, q) = (complex(x.a, x.b), complex(y.a, y.b));
            assert_eq!(p.partial_cmp(&q), x.partial_cmp(&y), "{:?} ? {:?}", x, y);
            assert_eq!(p < q, x < y, "{:?} < {:?}", x, y);
            assert_eq!(p <= q, x <= y, "{:?} <= {:?}", x, y);
            assert_eq!(p > q, x > y, "{:?} > {:?}", x, y);
            assert_eq!(p >= q, x >= y, "{:?} >= {:?}", x, y);
        }
    }
}

#[test]
fn a_nan_part_makes_a_number_unequal_to_itself() {
    let c = complex(f32::NAN, 1.0);
    let d = complex(1.0, f32::NAN);
    assert!(!(c == c));
    assert!(!(d == d));
    assert!(c != c);
    assert_eq!(c.partial_cmp(&c), None);
    assert_eq!(d.partial_cmp(&d), None);
}

#[test]
fn real_parts_decide_before_imaginary_parts() {
    assert_eq!(complex(1.0, 9.0).partial_cmp(&complex(2.0, 0.0)), Some(Ordering::Less));
    assert_eq!(complex(2.0, 0.0).partial_cmp(&complex(1.0, 9.0)), Some(Ordering::Greater));
    assert_eq!(complex(1.0, 1.0).partial_cmp(&complex(1.0, 2.0)), Some(Ordering::Less));
    assert_eq!(complex(1.0, 2.0).partial_cmp(&complex(1.0, 1.0)), Some(Ordering::Greater));
    assert_eq!(complex(1.0, 2.0).partial_cmp(&complex(1.0, 2.0)), Some(Ordering::Equal));
    // a NaN in the imaginary part does not matter where the real parts differ
    assert_eq!(complex(1.0, f32::NAN).partial_cmp(&complex(2.0, 0.0)), Some(Ordering::Less));
    assert_eq!(complex(1.0, f32::NAN).partial_cmp(&complex(1.0, 0.0)), None);
    assert_eq!(complex(f32::NAN, 0.0).partial_cmp(&complex(1.0, 0.0)), None);
}

#[test]
fn zeros_of_either_sign_are_equal() {
    assert!(complex(0.0, -0.0) == complex(-0.0, 0.0));
    assert_eq!(
        complex(-0.0, 1.0).partial_cmp(&complex(0.0, 1.0)),
        Some(Ordering::Equal)
    );
    assert!(Complex::default() == complex(-0.0, -0.0));
}

#[test]
fn small_integer_values_compare_as_written() {
    assert!(complex(3.0, 0.0) == Complex::from_real(single(3.0)));
    assert!(complex(0.0, 10.0) == Complex::imaginary(single(10.0)));
    assert!(complex(3.0, 0.0) != complex(3.0, 4.0));
    assert!(complex(3.0, 4.0) > complex(3.0, 0.0));
}

#[test]
fn copies_are_independent_values() {
    let c = complex(1.0, -1.0);
    let d = c;
    let e = c.clone();
    assert!(c == d && d == e);
    assert_eq!(format!("{:?}", c), format!("{:?}", e));
}
