//! Complex numbers `a + bi` whose two parts are single-precision values.
//!
//! A `Complex` is a plain pair: nothing is normalised, and every pair of
//! encodings, finite or not, is a value. Equality and ordering go part by
//! part with the numeric comparisons of `Single`, the real part first.

use crate::arith::{
    lemma_encoding_is_unique, lemma_fused_with_one_and_zero, lemma_one_denotes_one,
    lemma_product_with_one_and_zero, lemma_sum_commutes, ONE_BITS,
};
use crate::rounding::lemma_scaled_of_parts;
use crate::single::{Single, Value};
use core::cmp::Ordering;
use vstd::prelude::*;

verus! {

/// The complex number `re + im·i`.
#[derive(Clone, Copy, Debug)]
pub struct Complex {
    pub re: Single,
    pub im: Single,
}

impl Complex {
    /// `re + im·i`, with both parts taken as they are.
    pub fn new(re: Single, im: Single) -> (r: Self)
        ensures
            r.re == re,
            r.im == im,
    {
        Complex { re, im }
    }

    /// The real number `re`, as `re + 0i`.
    pub fn from_real(re: Single) -> (r: Self)
        ensures
            r.re == re,
            r.im.bits == 0,
    {
        Complex { re, im: Single::zero() }
    }

    /// The imaginary number `im·i`, as `0 + im·i`.
    pub fn imaginary(im: Single) -> (r: Self)
        ensures
            r.re.bits == 0,
            r.im == im,
    {
        Complex { re: Single::zero(), im }
    }

    /// Whether `self` is the sum of `a` and `b`: part by part, each part
    /// rounded to nearest.
    pub open spec fn is_sum(self, a: Complex, b: Complex) -> bool {
        &&& self.re.encodes(a.re@.sum(b.re@), a.re.is_negative() && b.re.is_negative())
        &&& self.im.encodes(a.im@.sum(b.im@), a.im.is_negative() && b.im.is_negative())
    }

    /// Whether `self` is the difference of `a` and `b`: part by part, each
    /// part rounded to nearest.
    pub open spec fn is_difference(self, a: Complex, b: Complex) -> bool {
        &&& self.re.encodes(a.re@.difference(b.re@), a.re.is_negative() && !b.re.is_negative())
        &&& self.im.encodes(a.im@.difference(b.im@), a.im.is_negative() && !b.im.is_negative())
    }

    /// Whether both parts are finite numbers.
    pub open spec fn is_finite(self) -> bool {
        self.re@ is Finite && self.im@ is Finite
    }

    /// The sum, part by part, each part rounded to nearest.
    pub fn add(self, rhs: Complex) -> (r: Complex)
        ensures
            r.is_sum(self, rhs),
    {
        Complex { re: self.re.add(rhs.re), im: self.im.add(rhs.im) }
    }

    /// The difference, part by part, each part rounded to nearest.
    pub fn sub(self, rhs: Complex) -> (r: Complex)
        ensures
            r.is_difference(self, rhs),
    {
        Complex { re: self.re.sub(rhs.re), im: self.im.sub(rhs.im) }
    }

    /// The product with a real scalar: each part times `s`, rounded to nearest.
    pub fn mul_scalar(self, s: Single) -> (r: Complex)
        ensures
            r.re.encodes(self.re@.product(s@), self.re.is_negative() != s.is_negative()),
            r.im.encodes(self.im@.product(s@), self.im.is_negative() != s.is_negative()),
    {
        Complex { re: self.re.mul(s), im: self.im.mul(s) }
    }

    /// Whether `self` is the product of `a` and `b`: the real part is
    /// `a.re · b.re − a.im · b.im` and the imaginary part `a.re · b.im +
    /// a.im · b.re`, in each the second product rounded first and the rest
    /// rounded once.
    pub open spec fn is_product(self, a: Complex, b: Complex) -> bool {
        &&& self.re.encodes(
            a.re@.fused(b.re@, a.im@.product(b.im@).negation()),
            a.re.fused_zero_is_negative(
                b.re,
                a.im@.product(b.im@).negation(),
                a.im.is_negative() == b.im.is_negative(),
            ),
        )
        &&& self.im.encodes(
            a.re@.fused(b.im@, a.im@.product(b.re@)),
            a.re.fused_zero_is_negative(
                b.im,
                a.im@.product(b.re@),
                a.im.is_negative() != b.re.is_negative(),
            ),
        )
    }

    /// The complex product.
    pub fn mul(self, rhs: Complex) -> (r: Complex)
        ensures
            r.is_product(self, rhs),
    {
        let re: Single = self.re.mul_add(rhs.re, self.im.mul(rhs.im).neg());
        let im: Single = self.re.mul_add(rhs.im, self.im.mul(rhs.re));
        Complex { re, im }
    }

    /// The square: the product of the number with itself.
    pub fn squared(self) -> (r: Complex)
        ensures
            r.is_product(self, self),
    {
        self.mul(self)
    }

    /// `re² + im²`: the square of the imaginary part rounded first, then
    /// the square of the real part added to it and the whole rounded once.
    pub fn squared_magnitude(self) -> (r: Single)
        ensures
            r.encodes(
                self.re@.fused(self.re@, self.im@.product(self.im@)),
                self.re.fused_zero_is_negative(self.re, self.im@.product(self.im@), false),
            ),
    {
        self.re.mul_add(self.re, self.im.mul(self.im))
    }

    /// Whether either part is not a number.
    pub open spec fn has_nan(self) -> bool {
        self.re@ is Nan || self.im@ is Nan
    }

    /// Equality part by part, each part compared as a number.
    pub open spec fn equals(self, other: Complex) -> bool {
        self.re.equals(other.re) && self.im.equals(other.im)
    }

    /// Lexicographic comparison: that of the real parts unless they are
    /// equal, and then that of the imaginary parts.
    pub open spec fn compare(self, other: Complex) -> Option<Ordering> {
        match self.re.compare(other.re) {
            Some(Ordering::Equal) => self.im.compare(other.im),
            decided => decided,
        }
    }
}

impl Default for Complex {
    /// `0 + 0i`, both zeros positive.
    fn default() -> (r: Self)
        ensures
            r.re.bits == 0,
            r.im.bits == 0,
    {
        Complex { re: Single::zero(), im: Single::zero() }
    }
}

impl From<Single> for Complex {
    /// A real scalar as a complex number: the same as `Complex::from_real`.
    fn from(re: Single) -> (r: Self) {
        Complex::from_real(re)
    }
}

impl vstd::std_specs::convert::FromSpecImpl<Single> for Complex {
    open spec fn obeys_from_spec() -> bool {
        true
    }

    open spec fn from_spec(re: Single) -> Self {
        Complex { re, im: Single { bits: 0 } }
    }
}

impl PartialEq for Complex {
    /// Equal where the real parts are equal and the imaginary parts are.
    fn eq(&self, other: &Self) -> (r: bool) {
        self.re == other.re && self.im == other.im
    }
}

impl vstd::std_specs::cmp::PartialEqSpecImpl for Complex {
    open spec fn obeys_eq_spec() -> bool {
        true
    }

    open spec fn eq_spec(&self, other: &Self) -> bool {
        self.equals(*other)
    }
}

impl PartialOrd for Complex {
    /// Lexicographic: the order of the real parts decides unless they are
    /// equal, and then the order of the imaginary parts does. Where the
    /// deciding parts do not compare, neither do the numbers.
    fn partial_cmp(&self, other: &Self) -> (r: Option<Ordering>) {
        match self.re.partial_cmp(&other.re) {
            Some(Ordering::Equal) => self.im.partial_cmp(&other.im),
            decided => decided,
        }
    }
}

impl vstd::std_specs::cmp::PartialOrdSpecImpl for Complex {
    open spec fn obeys_partial_cmp_spec() -> bool {
        true
    }

    open spec fn partial_cmp_spec(&self, other: &Self) -> Option<Ordering> {
        self.compare(*other)
    }
}

/// A complex number equals itself unless a part of it is NaN.
pub proof fn lemma_equals_reflexive_unless_nan(a: Complex)
    ensures
        a.equals(a) <==> !a.has_nan(),
{
}

/// Equality does not depend on the side.
pub proof fn lemma_equals_symmetric(a: Complex, b: Complex)
    ensures
        a.equals(b) <==> b.equals(a),
{
}

/// Two numbers equal to a third are equal to each other.
pub proof fn lemma_equals_transitive(a: Complex, b: Complex, c: Complex)
    requires
        a.equals(b),
        b.equals(c),
    ensures
        a.equals(c),
{
}

/// Equal numbers have no NaN part, and their parts denote the same values;
/// the sign of a zero part is the one thing that may differ.
pub proof fn lemma_equals_by_values(a: Complex, b: Complex)
    ensures
        a.equals(b) <==> !a.has_nan() && a.re@ == b.re@ && a.im@ == b.im@,
{
}

/// Two numbers do not compare exactly where a real part is NaN, or the real
/// parts are equal and an imaginary part is NaN.
pub proof fn lemma_compare_none(a: Complex, b: Complex)
    ensures
        a.compare(b) is None <==> a.re@ is Nan || b.re@ is Nan || (a.re.equals(b.re) && (a.im@ is Nan
            || b.im@ is Nan)),
{
}

/// The comparison says `Equal` exactly where equality holds.
pub proof fn lemma_compare_equal_iff_equals(a: Complex, b: Complex)
    ensures
        a.compare(b) == Some(Ordering::Equal) <==> a.equals(b),
{
}

/// Swapping the sides swaps `Less` and `Greater` and keeps the rest.
pub proof fn lemma_compare_converse(a: Complex, b: Complex)
    ensures
        a.compare(b) == Some(Ordering::Less) <==> b.compare(a) == Some(Ordering::Greater),
        a.compare(b) == Some(Ordering::Equal) <==> b.compare(a) == Some(Ordering::Equal),
        a.compare(b) is None <==> b.compare(a) is None,
{
}

/// `Less` is transitive, also through `Equal` on either side.
pub proof fn lemma_compare_transitive(a: Complex, b: Complex, c: Complex)
    requires
        a.compare(b) == Some(Ordering::Less) || a.compare(b) == Some(Ordering::Equal),
        b.compare(c) == Some(Ordering::Less) || b.compare(c) == Some(Ordering::Equal),
    ensures
        a.compare(c) == if a.compare(b) == Some(Ordering::Equal) && b.compare(c) == Some(
            Ordering::Equal,
        ) {
            Some(Ordering::Equal)
        } else {
            Some(Ordering::Less)
        },
{
}

/// Where the real parts differ they alone decide the comparison.
pub proof fn lemma_compare_by_real_part(a: Complex, b: Complex)
    requires
        !a.re.equals(b.re),
    ensures
        a.compare(b) == a.re.compare(b.re),
        !a.equals(b),
{
}

/// The sum does not depend on the order of its terms: both orders give the
/// same encoding.
pub proof fn lemma_add_commutes(a: Complex, b: Complex, left: Complex, right: Complex)
    requires
        left.is_sum(a, b),
        right.is_sum(b, a),
    ensures
        left == right,
{
    lemma_sum_commutes(a.re@, b.re@);
    lemma_sum_commutes(a.im@, b.im@);
    lemma_encoding_is_unique(
        left.re,
        right.re,
        a.re@.sum(b.re@),
        a.re.is_negative() && b.re.is_negative(),
    );
    lemma_encoding_is_unique(
        left.im,
        right.im,
        a.im@.sum(b.im@),
        a.im.is_negative() && b.im.is_negative(),
    );
}

/// A product has one encoding. Hence the square of a number is its product
/// with itself, bit for bit.
pub proof fn lemma_product_is_unique(a: Complex, b: Complex, first: Complex, second: Complex)
    requires
        first.is_product(a, b),
        second.is_product(a, b),
    ensures
        first == second,
{
    lemma_encoding_is_unique(
        first.re,
        second.re,
        a.re@.fused(b.re@, a.im@.product(b.im@).negation()),
        a.re.fused_zero_is_negative(
            b.re,
            a.im@.product(b.im@).negation(),
            a.im.is_negative() == b.im.is_negative(),
        ),
    );
    lemma_encoding_is_unique(
        first.im,
        second.im,
        a.re@.fused(b.im@, a.im@.product(b.re@)),
        a.re.fused_zero_is_negative(
            b.im,
            a.im@.product(b.re@),
            a.im.is_negative() != b.re.is_negative(),
        ),
    );
}

/// The product of a finite number with the real number one equals that
/// number.
pub proof fn lemma_product_with_one(a: Complex, one: Complex, r: Complex)
    requires
        a.is_finite(),
        one.re.bits == ONE_BITS,
        one.im.bits == 0,
        r.is_product(a, one),
    ensures
        r.equals(a),
{
    lemma_one_denotes_one();
    lemma_scaled_of_parts(0, 0);
    lemma_product_with_one_and_zero(a.im);
    lemma_fused_with_one_and_zero(a.re, a.im);
}

/// The product of a finite number with the real number zero equals zero.
pub proof fn lemma_product_with_zero(a: Complex, zero: Complex, r: Complex)
    requires
        a.is_finite(),
        zero.re.bits == 0,
        zero.im.bits == 0,
        r.is_product(a, zero),
    ensures
        r.re@ == Value::Finite(0),
        r.im@ == Value::Finite(0),
        r.equals(zero),
{
    lemma_scaled_of_parts(0, 0);
    lemma_product_with_one_and_zero(a.im);
    lemma_fused_with_one_and_zero(a.re, zero.re);
}

} // verus!
