//! The operators `+`, `-` and `*` on complex numbers.
//!
//! Each is the method of the same name; what it returns is fixed to the bit
//! by the encodings of the rounded results.

use crate::arith::{encoding_of, lemma_encoding_of};
use crate::complex::Complex;
use crate::single::Single;
use vstd::prelude::*;

verus! {

impl Complex {
    /// The sum of `self` and `rhs`.
    pub open spec fn sum_with(self, rhs: Complex) -> Complex {
        Complex {
            re: encoding_of(
                self.re@.sum(rhs.re@),
                self.re.is_negative() && rhs.re.is_negative(),
            ),
            im: encoding_of(
                self.im@.sum(rhs.im@),
                self.im.is_negative() && rhs.im.is_negative(),
            ),
        }
    }

    /// The difference of `self` and `rhs`.
    pub open spec fn difference_with(self, rhs: Complex) -> Complex {
        Complex {
            re: encoding_of(
                self.re@.difference(rhs.re@),
                self.re.is_negative() && !rhs.re.is_negative(),
            ),
            im: encoding_of(
                self.im@.difference(rhs.im@),
                self.im.is_negative() && !rhs.im.is_negative(),
            ),
        }
    }

    /// The product of `self` and the real scalar `s`.
    pub open spec fn scaled_by(self, s: Single) -> Complex {
        Complex {
            re: encoding_of(self.re@.product(s@), self.re.is_negative() != s.is_negative()),
            im: encoding_of(self.im@.product(s@), self.im.is_negative() != s.is_negative()),
        }
    }

    /// The product of `self` and `rhs`.
    pub open spec fn product_with(self, rhs: Complex) -> Complex {
        Complex {
            re: encoding_of(
                self.re@.fused(rhs.re@, self.im@.product(rhs.im@).negation()),
                self.re.fused_zero_is_negative(
                    rhs.re,
                    self.im@.product(rhs.im@).negation(),
                    self.im.is_negative() == rhs.im.is_negative(),
                ),
            ),
            im: encoding_of(
                self.re@.fused(rhs.im@, self.im@.product(rhs.re@)),
                self.re.fused_zero_is_negative(
                    rhs.im,
                    self.im@.product(rhs.re@),
                    self.im.is_negative() != rhs.re.is_negative(),
                ),
            ),
        }
    }
}

impl core::ops::Add for Complex {
    type Output = Complex;

    fn add(self, rhs: Complex) -> (r: Complex) {
        let r = Complex::add(self, rhs);
        proof {
            lemma_encoding_of(
                r.re,
                self.re@.sum(rhs.re@),
                self.re.is_negative() && rhs.re.is_negative(),
            );
            lemma_encoding_of(
                r.im,
                self.im@.sum(rhs.im@),
                self.im.is_negative() && rhs.im.is_negative(),
            );
        }
        r
    }
}

impl vstd::std_specs::ops::AddSpecImpl for Complex {
    open spec fn obeys_add_spec() -> bool {
        true
    }

    open spec fn add_req(self, rhs: Complex) -> bool {
        true
    }

    open spec fn add_spec(self, rhs: Complex) -> Complex {
        self.sum_with(rhs)
    }
}

impl core::ops::Sub for Complex {
    type Output = Complex;

    fn sub(self, rhs: Complex) -> (r: Complex) {
        let r = Complex::sub(self, rhs);
        proof {
            lemma_encoding_of(
                r.re,
                self.re@.difference(rhs.re@),
                self.re.is_negative() && !rhs.re.is_negative(),
            );
            lemma_encoding_of(
                r.im,
                self.im@.difference(rhs.im@),
                self.im.is_negative() && !rhs.im.is_negative(),
            );
        }
        r
    }
}

impl vstd::std_specs::ops::SubSpecImpl for Complex {
    open spec fn obeys_sub_spec() -> bool {
        true
    }

    open spec fn sub_req(self, rhs: Complex) -> bool {
        true
    }

    open spec fn sub_spec(self, rhs: Complex) -> Complex {
        self.difference_with(rhs)
    }
}

impl core::ops::Mul<Single> for Complex {
    type Output = Complex;

    fn mul(self, rhs: Single) -> (r: Complex) {
        let r = self.mul_scalar(rhs);
        proof {
            lemma_encoding_of(
                r.re,
                self.re@.product(rhs@),
                self.re.is_negative() != rhs.is_negative(),
            );
            lemma_encoding_of(
                r.im,
                self.im@.product(rhs@),
                self.im.is_negative() != rhs.is_negative(),
            );
        }
        r
    }
}

impl vstd::std_specs::ops::MulSpecImpl<Single> for Complex {
    open spec fn obeys_mul_spec() -> bool {
        true
    }

    open spec fn mul_req(self, rhs: Single) -> bool {
        true
    }

    open spec fn mul_spec(self, rhs: Single) -> Complex {
        self.scaled_by(rhs)
    }
}

impl core::ops::Mul for Complex {
    type Output = Complex;

    fn mul(self, rhs: Complex) -> (r: Complex) {
        let r = Complex::mul(self, rhs);
        proof {
            lemma_encoding_of(
                r.re,
                self.re@.fused(rhs.re@, self.im@.product(rhs.im@).negation()),
                self.re.fused_zero_is_negative(
                    rhs.re,
                    self.im@.product(rhs.im@).negation(),
                    self.im.is_negative() == rhs.im.is_negative(),
                ),
            );
            lemma_encoding_of(
                r.im,
                self.re@.fused(rhs.im@, self.im@.product(rhs.re@)),
                self.re.fused_zero_is_negative(
                    rhs.im,
                    self.im@.product(rhs.re@),
                    self.im.is_negative() != rhs.re.is_negative(),
                ),
            );
        }
        r
    }
}

impl vstd::std_specs::ops::MulSpecImpl for Complex {
    open spec fn obeys_mul_spec() -> bool {
        true
    }

    open spec fn mul_req(self, rhs: Complex) -> bool {
        true
    }

    open spec fn mul_spec(self, rhs: Complex) -> Complex {
        self.product_with(rhs)
    }
}

} // verus!
