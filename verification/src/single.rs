//! Single-precision values, represented by their IEEE-754 binary32 encodings.
//!
//! A `Single` carries the 32 bits of an encoding and nothing else. What the
//! bits denote is given by its view, a `Value`: not-a-number, one of the two
//! infinities, or a real number. Equality and ordering are stated over that
//! view and computed on the bits alone.

use core::cmp::Ordering;
use vstd::arithmetic::power2::{lemma_pow2_pos, lemma_pow2_strictly_increases, pow2};
use vstd::prelude::*;

verus! {

/// The sign bit of an encoding.
pub const SIGN_BIT: u32 = 0x8000_0000;

/// The encoding of positive infinity: every exponent bit set, no fraction bit.
pub const INFINITY_BITS: u32 = 0x7f80_0000;

/// Two to the power 23: the number of fraction patterns per exponent, and the
/// leading bit that a normal number's significand has beyond its fraction.
pub const HIDDEN_BIT: u32 = 0x0080_0000;

/// What an encoding denotes.
///
/// Every finite binary32 number is a multiple of two to the power -149, so a
/// finite value is held exactly as that multiple. Both zeros denote `Finite(0)`
/// and every not-a-number pattern denotes `Nan`: comparisons see no more.
pub enum Value {
    Nan,
    NegInfinity,
    Finite(int),
    PosInfinity,
}

impl Value {
    /// The strict order of the extended real line; `Nan` stands in no relation.
    pub open spec fn below(self, other: Value) -> bool {
        match (self, other) {
            (Value::Nan, _) | (_, Value::Nan) => false,
            (Value::NegInfinity, Value::NegInfinity) => false,
            (Value::NegInfinity, _) => true,
            (_, Value::NegInfinity) => false,
            (Value::PosInfinity, _) => false,
            (_, Value::PosInfinity) => true,
            (Value::Finite(x), Value::Finite(y)) => x < y,
        }
    }

    /// How two values compare: not at all where either is `Nan`, else by
    /// their place on the extended real line.
    pub open spec fn compare(self, other: Value) -> Option<Ordering> {
        if self is Nan || other is Nan {
            None
        } else if self.below(other) {
            Some(Ordering::Less)
        } else if other.below(self) {
            Some(Ordering::Greater)
        } else {
            Some(Ordering::Equal)
        }
    }
}

/// The number that the exponent and fraction bits `m` of a finite encoding
/// denote, as a multiple of two to the power -149.
///
/// With exponent field `e` and fraction field `f`: a subnormal (`e == 0`)
/// is `f`, a normal number is `(2^23 + f) * 2^(e - 1)`.
pub open spec fn scaled_magnitude(m: int) -> int {
    let e = m / (HIDDEN_BIT as int);
    let f = m % (HIDDEN_BIT as int);
    if e <= 0 {
        f
    } else {
        (HIDDEN_BIT + f) * pow2((e - 1) as nat)
    }
}

/// A binary32 value, carried as the 32 bits of its encoding: one sign bit,
/// eight exponent bits, twenty-three fraction bits.
#[derive(Clone, Copy, Debug)]
pub struct Single {
    pub bits: u32,
}

impl View for Single {
    type V = Value;

    open spec fn view(&self) -> Value {
        if self.magnitude() > INFINITY_BITS {
            Value::Nan
        } else if self.magnitude() == INFINITY_BITS {
            if self.is_negative() {
                Value::NegInfinity
            } else {
                Value::PosInfinity
            }
        } else if self.is_negative() {
            Value::Finite(-scaled_magnitude(self.magnitude()))
        } else {
            Value::Finite(scaled_magnitude(self.magnitude()))
        }
    }
}

impl Single {
    /// Whether the sign bit is set.
    pub open spec fn is_negative(self) -> bool {
        self.bits >= SIGN_BIT
    }

    /// The exponent and fraction bits: the encoding without its sign bit.
    pub open spec fn magnitude(self) -> int {
        if self.bits >= SIGN_BIT {
            self.bits - SIGN_BIT
        } else {
            self.bits as int
        }
    }

    /// The encoding read as a sign-and-magnitude integer.
    pub open spec fn rank(self) -> int {
        if self.is_negative() {
            -self.magnitude()
        } else {
            self.magnitude()
        }
    }

    /// Numeric equality: neither side is NaN and both denote the same value.
    pub open spec fn equals(self, other: Single) -> bool {
        !(self@ is Nan) && self@ == other@
    }

    /// Numeric comparison: that of the two values.
    pub open spec fn compare(self, other: Single) -> Option<Ordering> {
        self@.compare(other@)
    }

    /// The value whose encoding is `bits`.
    pub fn from_bits(bits: u32) -> (r: Self)
        ensures
            r.bits == bits,
    {
        Single { bits }
    }

    /// The encoding of this value.
    pub fn to_bits(self) -> (r: u32)
        ensures
            r == self.bits,
    {
        self.bits
    }

    /// Positive zero.
    pub fn zero() -> (r: Self)
        ensures
            r.bits == 0,
            r@ == Value::Finite(0),
    {
        Single { bits: 0 }
    }

    /// Whether this is a not-a-number pattern.
    pub fn is_nan(self) -> (r: bool)
        ensures
            r <==> self@ is Nan,
    {
        if self.bits >= SIGN_BIT {
            self.bits - SIGN_BIT > INFINITY_BITS
        } else {
            self.bits > INFINITY_BITS
        }
    }

    /// The encoding as a signed integer: the magnitude, negated where the
    /// sign bit is set.
    fn signed_magnitude(self) -> (r: i64)
        ensures
            r == self.rank(),
    {
        if self.bits >= SIGN_BIT {
            let m: u32 = self.bits - SIGN_BIT;
            -(m as i64)
        } else {
            self.bits as i64
        }
    }
}

/// A larger magnitude denotes a larger number.
pub proof fn lemma_scaled_magnitude_increases(m1: int, m2: int)
    requires
        0 <= m1 < m2,
    ensures
        0 <= scaled_magnitude(m1) < scaled_magnitude(m2),
{
    let h = HIDDEN_BIT as int;
    let e1 = m1 / h;
    let f1 = m1 % h;
    let e2 = m2 / h;
    let f2 = m2 % h;
    if e1 == e2 {
        if e1 > 0 {
            let scale = pow2((e1 - 1) as nat) as int;
            lemma_pow2_pos((e1 - 1) as nat);
            assert((h + f1) * scale < (h + f2) * scale) by (nonlinear_arith)
                requires
                    h + f1 < h + f2,
                    scale > 0,
            ;
            assert(0 <= (h + f1) * scale) by (nonlinear_arith)
                requires
                    0 <= h + f1,
                    scale > 0,
            ;
        }
    } else {
        // e1 < e2, so m2 is normal and at least as large as 2^23 * 2^(e2 - 1)
        let high = pow2((e2 - 1) as nat) as int;
        lemma_pow2_pos((e2 - 1) as nat);
        assert(h * high <= (h + f2) * high) by (nonlinear_arith)
            requires
                0 <= f2,
                high > 0,
        ;
        if e1 == 0 {
            assert(h <= h * high) by (nonlinear_arith)
                requires
                    h > 0,
                    high >= 1,
            ;
        } else {
            let low = pow2((e1 - 1) as nat) as int;
            lemma_pow2_pos((e1 - 1) as nat);
            // the exponent of m1 is the smaller, so twice its power of two fits
            lemma_pow2_doubles((e1 - 1) as nat, (e2 - 1) as nat);
            assert((h + f1) * low < h * high) by (nonlinear_arith)
                requires
                    0 <= f1 < h,
                    low > 0,
                    2 * low <= high,
            ;
            assert(0 <= (h + f1) * low) by (nonlinear_arith)
                requires
                    0 <= h + f1,
                    low > 0,
            ;
        }
    }
}

/// A strictly larger exponent gives at least twice the power of two.
proof fn lemma_pow2_doubles(e1: nat, e2: nat)
    requires
        e1 < e2,
    ensures
        2 * pow2(e1) <= pow2(e2),
{
    vstd::arithmetic::power2::lemma_pow2_unfold(e1 + 1);
    if e1 + 1 < e2 {
        lemma_pow2_strictly_increases(e1 + 1, e2);
    }
}

/// Among encodings that are not NaN, the sign-and-magnitude integers stand in
/// the order of the values: equal exactly where the values are equal, smaller
/// exactly where the value is smaller.
pub proof fn lemma_rank_orders_values(a: Single, b: Single)
    requires
        !(a@ is Nan),
        !(b@ is Nan),
    ensures
        a.rank() == b.rank() <==> a@ == b@,
        a.rank() < b.rank() <==> a@.below(b@),
{
    let ma = a.magnitude();
    let mb = b.magnitude();
    if 0 < ma < INFINITY_BITS {
        lemma_scaled_magnitude_increases(0, ma);
    }
    if 0 < mb < INFINITY_BITS {
        lemma_scaled_magnitude_increases(0, mb);
    }
    if ma < mb < INFINITY_BITS {
        lemma_scaled_magnitude_increases(ma, mb);
    }
    if mb < ma < INFINITY_BITS {
        lemma_scaled_magnitude_increases(mb, ma);
    }
}

impl PartialEq for Single {
    /// Numeric equality: false where either side is NaN, true of the two zeros.
    fn eq(&self, other: &Self) -> (r: bool) {
        if self.is_nan() || other.is_nan() {
            false
        } else {
            proof {
                lemma_rank_orders_values(*self, *other);
            }
            self.signed_magnitude() == other.signed_magnitude()
        }
    }
}

impl vstd::std_specs::cmp::PartialEqSpecImpl for Single {
    open spec fn obeys_eq_spec() -> bool {
        true
    }

    open spec fn eq_spec(&self, other: &Self) -> bool {
        self.equals(*other)
    }
}

impl PartialOrd for Single {
    /// Numeric order: none where either side is NaN, else that of the values.
    fn partial_cmp(&self, other: &Self) -> (r: Option<Ordering>) {
        if self.is_nan() || other.is_nan() {
            None
        } else {
            proof {
                lemma_rank_orders_values(*self, *other);
                lemma_rank_orders_values(*other, *self);
            }
            let x: i64 = self.signed_magnitude();
            let y: i64 = other.signed_magnitude();
            if x < y {
                Some(Ordering::Less)
            } else if x > y {
                Some(Ordering::Greater)
            } else {
                Some(Ordering::Equal)
            }
        }
    }
}

impl vstd::std_specs::cmp::PartialOrdSpecImpl for Single {
    open spec fn obeys_partial_cmp_spec() -> bool {
        true
    }

    open spec fn partial_cmp_spec(&self, other: &Self) -> Option<Ordering> {
        self.compare(*other)
    }
}

/// Two encodings are numerically equal exactly where neither is NaN and
/// either the bits agree or both are zeros, of whichever sign.
pub proof fn lemma_equals_by_encoding(a: Single, b: Single)
    ensures
        a.equals(b) <==> !(a@ is Nan) && !(b@ is Nan) && (a.bits == b.bits || (a.magnitude() == 0
            && b.magnitude() == 0)),
{
    if !(a@ is Nan) && !(b@ is Nan) {
        lemma_rank_orders_values(a, b);
    }
}

/// A value equals itself unless it is NaN, which equals nothing.
pub proof fn lemma_equals_reflexive_unless_nan(a: Single)
    ensures
        a.equals(a) <==> !(a@ is Nan),
{
}

/// Equality does not depend on the side.
pub proof fn lemma_equals_symmetric(a: Single, b: Single)
    ensures
        a.equals(b) <==> b.equals(a),
{
}

/// Two values equal to a third are equal to each other.
pub proof fn lemma_equals_transitive(a: Single, b: Single, c: Single)
    requires
        a.equals(b),
        b.equals(c),
    ensures
        a.equals(c),
{
}

/// Two values do not compare exactly where one of them is NaN.
pub proof fn lemma_compare_none_iff_nan(a: Single, b: Single)
    ensures
        a.compare(b) is None <==> a@ is Nan || b@ is Nan,
{
}

/// The comparison says `Equal` exactly where equality holds. Hence of two
/// values without NaN exactly one holds: less, equal, greater.
pub proof fn lemma_compare_equal_iff_equals(a: Single, b: Single)
    ensures
        a.compare(b) == Some(Ordering::Equal) <==> a.equals(b),
{
}

/// Swapping the sides swaps `Less` and `Greater` and keeps the rest.
pub proof fn lemma_compare_converse(a: Single, b: Single)
    ensures
        a.compare(b) == Some(Ordering::Less) <==> b.compare(a) == Some(Ordering::Greater),
        a.compare(b) == Some(Ordering::Equal) <==> b.compare(a) == Some(Ordering::Equal),
        a.compare(b) is None <==> b.compare(a) is None,
{
}

/// `Less` is transitive, also through `Equal` on either side.
pub proof fn lemma_compare_transitive(a: Single, b: Single, c: Single)
    requires
        a.compare(b) == Some(Ordering::Less) || a.compare(b) == Some(Ordering::Equal),
        b.compare(c) == Some(Ordering::Less) || b.compare(c) == Some(Ordering::Equal),
    ensures
        a.compare(c) == if a.compare(b) == Some(Ordering::Equal) && b.compare(c) == Some(
            Ordering::Equal,
        ) {
            Some(Ordering::Equal)
        } else {
            Some(Ordering::Less)
        },
{
}

} // verus!
