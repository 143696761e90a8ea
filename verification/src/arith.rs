//! Sums, differences, products and fused multiply-adds of single-precision
//! values, computed on the encodings and each rounded once to the nearest
//! value, ties to even.
//!
//! The results are stated over what the operands denote. Where that leaves
//! the encoding open it is fixed beside: the sign of a zero result, and the
//! one pattern that stands for every not-a-number result.

use crate::rounding::{
    excess, is_nearest, lemma_nearest_is_unique, lemma_nearest_rescale, lemma_scaled_of_parts,
    lemma_zero_rounds_to_zero, lies_within, nearest_magnitude, positive_part, round_magnitude,
    round_with_rest, signed_value,
};
use crate::single::{scaled_magnitude, Single, Value, HIDDEN_BIT, INFINITY_BITS, SIGN_BIT};
use vstd::arithmetic::power2::{lemma_pow2_adds, lemma_pow2_pos, lemma_pow2_unfold, pow2};
use vstd::prelude::*;

verus! {

/// The pattern of every not-a-number result: quiet, positive, no payload.
pub const NAN_BITS: u32 = 0x7fc0_0000;

impl Value {
    /// Whether the value lies below zero.
    pub open spec fn is_below_zero(self) -> bool {
        match self {
            Value::NegInfinity => true,
            Value::Finite(x) => x < 0,
            _ => false,
        }
    }

    /// The value with its sign changed.
    pub open spec fn negation(self) -> Value {
        match self {
            Value::Nan => Value::Nan,
            Value::NegInfinity => Value::PosInfinity,
            Value::PosInfinity => Value::NegInfinity,
            Value::Finite(x) => Value::Finite(-x),
        }
    }

    /// The rounded sum. Infinities of opposite sign have none; an infinity
    /// absorbs what is finite; the exact sum of two finite values is rounded.
    pub open spec fn sum(self, other: Value) -> Value {
        match (self, other) {
            (Value::Nan, _) | (_, Value::Nan) => Value::Nan,
            (Value::PosInfinity, Value::NegInfinity) => Value::Nan,
            (Value::NegInfinity, Value::PosInfinity) => Value::Nan,
            (Value::PosInfinity, _) | (_, Value::PosInfinity) => Value::PosInfinity,
            (Value::NegInfinity, _) | (_, Value::NegInfinity) => Value::NegInfinity,
            (Value::Finite(x), Value::Finite(y)) => Value::rounded(x + y, 0),
        }
    }

    /// The rounded difference: the sum with the negation.
    pub open spec fn difference(self, other: Value) -> Value {
        self.sum(other.negation())
    }

    /// The rounded product. An infinity times zero has none; an infinity
    /// times anything else is an infinity, negative where one factor is
    /// below zero; the exact product of two finite values, an amount in
    /// units of two to the power -298, is rounded.
    pub open spec fn product(self, other: Value) -> Value {
        match (self, other) {
            (Value::Nan, _) | (_, Value::Nan) => Value::Nan,
            (Value::Finite(x), Value::Finite(y)) => Value::rounded(x * y, -149),
            (Value::Finite(x), _) if x == 0 => Value::Nan,
            (_, Value::Finite(y)) if y == 0 => Value::Nan,
            _ => if self.is_below_zero() != other.is_below_zero() {
                Value::NegInfinity
            } else {
                Value::PosInfinity
            },
        }
    }

    /// The product with `b` plus `c`, rounded once. Of three finite values it
    /// is the rounding of the exact `x·y + z`, an amount in units of two to
    /// the power -298; with finite factors a `c` that is not finite is the
    /// result; otherwise it is the sum of the product and `c`.
    pub open spec fn fused(self, b: Value, c: Value) -> Value {
        match (self, b, c) {
            (Value::Finite(x), Value::Finite(y), Value::Finite(z)) => Value::rounded(
                x * y + z * pow2(149),
                -149,
            ),
            (Value::Finite(_), Value::Finite(_), _) => c,
            _ => self.product(b).sum(c),
        }
    }
}

impl Single {
    /// Whether the zero that `self · b + c` may round to is negative: the
    /// exact result lies below zero, or it is zero, the product of a
    /// negative and a positive factor, and `c` negative as well. Of `c`
    /// the value and the sign bit are given.
    pub open spec fn fused_zero_is_negative(self, b: Single, c: Value, c_negative: bool) -> bool {
        match (self@, b@, c) {
            (Value::Finite(x), Value::Finite(y), Value::Finite(z)) => {
                let n = x * y + z * pow2(149);
                n < 0 || (n == 0 && self.is_negative() != b.is_negative() && c_negative)
            },
            _ => false,
        }
    }

    /// Whether this is the encoding of the result `v`: it denotes `v`, a
    /// zero has its sign bit set exactly where `negative_zero`, and
    /// not-a-number is the one pattern `NAN_BITS`.
    pub open spec fn encodes(self, v: Value, negative_zero: bool) -> bool {
        &&& self@ == v
        &&& v is Nan ==> self.bits == NAN_BITS
        &&& v == Value::Finite(0) ==> (self.is_negative() <==> negative_zero)
    }

    /// The encoding with the given sign and magnitude.
    fn pack(negative: bool, m: u32) -> (r: Single)
        requires
            m <= INFINITY_BITS,
        ensures
            r@ == signed_value(negative, m as int),
            r.is_negative() == negative,
            r.magnitude() == m,
    {
        if negative {
            Single { bits: m + SIGN_BIT }
        } else {
            Single { bits: m }
        }
    }

    /// The exponent and fraction bits.
    fn magnitude_bits(self) -> (m: u32)
        ensures
            m == self.magnitude(),
    {
        if self.bits >= SIGN_BIT {
            self.bits - SIGN_BIT
        } else {
            self.bits
        }
    }

    /// The significand and the exponent step of a finite magnitude: the
    /// number it denotes is `sig · 2^step`.
    fn parts(m: u32) -> (r: (u32, u32))
        requires
            m < INFINITY_BITS,
        ensures
            scaled_magnitude(m as int) == r.0 * pow2(r.1 as nat),
            m == r.1 * HIDDEN_BIT + r.0,
            r.0 < 2 * HIDDEN_BIT,
            r.1 <= 253,
            r.1 == 0 || r.0 >= HIDDEN_BIT,
    {
        let e: u32 = m / HIDDEN_BIT;
        let f: u32 = m % HIDDEN_BIT;
        let r: (u32, u32) = if e == 0 {
            (f, 0)
        } else {
            (f + HIDDEN_BIT, e - 1)
        };
        proof {
            lemma_scaled_of_parts(r.1 as int, r.0 as int);
            assert(m == r.1 * HIDDEN_BIT + r.0) by (nonlinear_arith)
                requires
                    m == e * HIDDEN_BIT + f,
                    e == 0 ==> r.0 == f && r.1 == 0,
                    e != 0 ==> r.0 == f + HIDDEN_BIT && r.1 == e - 1,
            ;
        }
        r
    }

    /// The value with its sign bit flipped.
    pub fn neg(self) -> (r: Single)
        ensures
            r@ == self@.negation(),
            r.magnitude() == self.magnitude(),
            r.is_negative() != self.is_negative(),
    {
        if self.bits >= SIGN_BIT {
            Single { bits: self.bits - SIGN_BIT }
        } else {
            Single { bits: self.bits + SIGN_BIT }
        }
    }

    /// Two to the power `d`.
    fn two_to(d: u32) -> (r: u128)
        requires
            d <= 64,
        ensures
            r == pow2(d as nat),
            r <= 0x1_0000_0000_0000_0000,
    {
        let mut r: u128 = 1;
        let mut i: u32 = 0;
        proof {
            vstd::arithmetic::power2::lemma2_to64();
        }
        while i < d
            invariant
                i <= d <= 64,
                r == pow2(i as nat),
                r <= 0x1_0000_0000_0000_0000,
            decreases d - i,
        {
            proof {
                lemma_pow2_unfold((i + 1) as nat);
                vstd::arithmetic::power2::lemma2_to64();
                if i + 1 < 64 {
                    vstd::arithmetic::power2::lemma_pow2_strictly_increases((i + 1) as nat, 64);
                }
            }
            r = r * 2;
            i = i + 1;
        }
        r
    }

    /// The sum of two finite values given by sign, magnitude and parts, the
    /// first with the exponent step that is not the smaller.
    fn add_ordered(
        na: bool,
        ma: u32,
        sa: u32,
        ea: u32,
        nb: bool,
        mb: u32,
        sb: u32,
        eb: u32,
    ) -> (r: Single)
        requires
            ma < INFINITY_BITS,
            mb < INFINITY_BITS,
            scaled_magnitude(ma as int) == sa * pow2(ea as nat),
            scaled_magnitude(mb as int) == sb * pow2(eb as nat),
            ma == ea * HIDDEN_BIT + sa,
            sa < 2 * HIDDEN_BIT,
            sb < 2 * HIDDEN_BIT,
            ea == 0 || sa >= HIDDEN_BIT,
            eb <= ea <= 253,
        ensures
            r@ == Value::rounded(
                signed_amount(na, scaled_magnitude(ma as int)) + signed_amount(
                    nb,
                    scaled_magnitude(mb as int),
                ),
                0,
            ),
            r@ == Value::Finite(0) ==> (r.is_negative() <==> na && nb),
    {
        let d: u32 = ea - eb;
        let ghost x = scaled_magnitude(ma as int);
        let ghost y = scaled_magnitude(mb as int);
        let ghost unit = pow2(eb as nat) as int;
        proof {
            lemma_pow2_pos(eb as nat);
            lemma_pow2_pos(ea as nat);
            assert(y >= 0 && x >= 0) by (nonlinear_arith)
                requires
                    x == sa * pow2(ea as nat),
                    y == sb * pow2(eb as nat),
                    pow2(ea as nat) > 0,
                    pow2(eb as nat) > 0,
                    sa >= 0,
                    sb >= 0,
            ;
        }
        if d > 64 {
            proof {
                lemma_small_beside_large(ea as int, eb as int, sb as int);
                let yy = signed_amount(nb, y);
                if na {
                    lemma_far_sum(ma as int, sa as int, ea as int, -yy);
                    lemma_nearest_is_unique(x - yy, 0, ma as int, ma as int);
                } else {
                    lemma_far_sum(ma as int, sa as int, ea as int, yy);
                    lemma_nearest_is_unique(x + yy, 0, ma as int, ma as int);
                }
                crate::single::lemma_scaled_magnitude_increases(0, ma as int);
            }
            return Single::pack(na, ma);
        }
        let scale: u128 = Single::two_to(d);
        proof {
            assert(sa * scale < 0x100_0000 * 0x1_0000_0000_0000_0000) by (nonlinear_arith)
                requires
                    sa < 0x100_0000,
                    scale <= 0x1_0000_0000_0000_0000,
            ;
            lemma_pow2_adds(d as nat, eb as nat);
            assert(d as nat + eb as nat == ea as nat);
            assert(x == (sa * scale) * unit) by (nonlinear_arith)
                requires
                    x == sa * pow2(ea as nat),
                    pow2(ea as nat) == scale * unit,
            ;
        }
        let a: u128 = (sa as u128) * scale;
        let b: u128 = sb as u128;
        let negative: bool;
        let sig: u128;
        if na == nb {
            negative = na;
            sig = a + b;
        } else if a > b {
            negative = na;
            sig = a - b;
        } else if a < b {
            negative = nb;
            sig = b - a;
        } else {
            negative = false;
            sig = 0;
        }
        let m: u32 = round_magnitude(sig, eb as i32);
        proof {
            lemma_nearest_rescale(sig as int, eb as int, eb as nat, m as int);
            lemma_nearest_is_unique(sig * unit, 0, m as int, m as int);
            lemma_zero_rounds_to_zero(0);
            assert((a + b) * unit == a * unit + b * unit && (a - b) * unit == a * unit - b * unit
                && (b - a) * unit == b * unit - a * unit) by (nonlinear_arith);
            assert(sig * unit >= 0 && (sig > 0 ==> sig * unit > 0)) by (nonlinear_arith)
                requires
                    sig >= 0,
                    unit > 0,
            ;
            let total = signed_amount(na, x) + signed_amount(nb, y);
            assert(total == signed_amount(negative, sig * unit));
            if sig > 0 {
                lemma_whole_amount_is_not_zero(sig as int, eb as nat, m as int);
                if m < INFINITY_BITS {
                    crate::single::lemma_scaled_magnitude_increases(0, m as int);
                }
            } else {
                assert(sig * unit == 0);
            }
        }
        Single::pack(negative, m)
    }

    /// The sum, rounded to nearest, ties to even.
    ///
    /// A zero result is negative exactly where both operands have their sign
    /// bit set.
    pub fn add(self, rhs: Single) -> (r: Single)
        ensures
            r@ == self@.sum(rhs@),
            r@ is Nan ==> r.bits == NAN_BITS,
            r@ == Value::Finite(0) ==> (r.is_negative() <==> self.is_negative()
                && rhs.is_negative()),
    {
        let ma: u32 = self.magnitude_bits();
        let mb: u32 = rhs.magnitude_bits();
        let na: bool = self.bits >= SIGN_BIT;
        let nb: bool = rhs.bits >= SIGN_BIT;
        if ma > INFINITY_BITS || mb > INFINITY_BITS {
            return Single { bits: NAN_BITS };
        }
        if ma == INFINITY_BITS {
            if mb == INFINITY_BITS && na != nb {
                return Single { bits: NAN_BITS };
            }
            return Single::pack(na, INFINITY_BITS);
        }
        if mb == INFINITY_BITS {
            return Single::pack(nb, INFINITY_BITS);
        }
        let (sa, ea) = Single::parts(ma);
        let (sb, eb) = Single::parts(mb);
        if ea >= eb {
            Single::add_ordered(na, ma, sa, ea, nb, mb, sb, eb)
        } else {
            Single::add_ordered(nb, mb, sb, eb, na, ma, sa, ea)
        }
    }

    /// The difference, rounded to nearest, ties to even.
    ///
    /// A zero result is negative exactly where `self` has its sign bit set
    /// and `rhs` has not.
    pub fn sub(self, rhs: Single) -> (r: Single)
        ensures
            r@ == self@.difference(rhs@),
            r@ is Nan ==> r.bits == NAN_BITS,
            r@ == Value::Finite(0) ==> (r.is_negative() <==> self.is_negative()
                && !rhs.is_negative()),
    {
        self.add(rhs.neg())
    }

    /// The rounding of a product `± p · 2^eab` plus `± sc · 2^(ec + 149)`,
    /// both in units of two to the power -298, where the product leads by
    /// more than 64 binary places.
    fn fused_product_leads(np: bool, p: u128, eab: u32, nc: bool, sc: u32, ec: u32) -> (r: Single)
        requires
            0 < p < 0x1_0000_0000_0000,
            0 < sc < 2 * HIDDEN_BIT,
            eab <= 506,
            ec <= 253,
            eab - 149 > ec + 64,
        ensures
            r@ == Value::rounded(fused_amount(np, p as int, eab as nat, nc, sc as int, ec as nat), -149),
            r.is_negative() == np,
            (fused_amount(np, p as int, eab as nat, nc, sc as int, ec as nat) < 0) == np,
            fused_amount(np, p as int, eab as nat, nc, sc as int, ec as nat) != 0,
    {
        let lead: u128 = p * 0x800_0000;
        let sig: u128 = if np == nc {
            lead
        } else {
            lead - 1
        };
        let shift: i32 = eab as i32 - 149 - 27;
        let m: u32 = round_with_rest(sig, shift, true);
        proof {
            let u = pow2(eab as nat) as int;
            let v = pow2((ec + 149) as nat) as int;
            let w = pow2((eab - 27) as nat) as int;
            vstd::arithmetic::power2::lemma2_to64();
            lemma_pow2_adds(27, (eab - 27) as nat);
            lemma_pow2_adds(24, (ec + 149) as nat);
            lemma_pow2_pos((ec + 149) as nat);
            if ec + 173 < eab - 27 {
                vstd::arithmetic::power2::lemma_pow2_strictly_increases(
                    (ec + 173) as nat,
                    (eab - 27) as nat,
                );
            }
            assert(24 + (ec + 149) as nat == (ec + 173) as nat);
            assert(27 + (eab - 27) as nat == eab as nat);
            assert((shift + 149) as nat == (eab - 27) as nat);
            assert(p * u == lead * w) by (nonlinear_arith)
                requires
                    lead == p * 0x800_0000,
                    u == 0x800_0000 * w,
            ;
            assert(0 < sc * v < w) by (nonlinear_arith)
                requires
                    0 < sc < 0x100_0000,
                    v > 0,
                    0x100_0000 * v <= w,
            ;
            lemma_fused_far(lead as int, shift as int, w, p * u, sc as int, v, np == nc, m as int);
        }
        Single::pack(np, m)
    }

    /// The same where `± sc · 2^(ec + 149)` leads by more than 64 binary
    /// places.
    fn fused_addend_leads(np: bool, p: u128, eab: u32, nc: bool, sc: u32, ec: u32) -> (r: Single)
        requires
            0 < p < 0x1_0000_0000_0000,
            0 < sc < 2 * HIDDEN_BIT,
            ec == 0 || sc >= HIDDEN_BIT,
            eab <= 506,
            ec <= 253,
            ec > eab - 149 + 64,
        ensures
            r@ == Value::rounded(fused_amount(np, p as int, eab as nat, nc, sc as int, ec as nat), -149),
            r.is_negative() == nc,
            (fused_amount(np, p as int, eab as nat, nc, sc as int, ec as nat) < 0) == nc,
            fused_amount(np, p as int, eab as nat, nc, sc as int, ec as nat) != 0,
    {
        let lead: u128 = (sc as u128) * 0x400;
        let sig: u128 = if np == nc {
            lead
        } else {
            lead - 1
        };
        let shift: i32 = ec as i32 - 10;
        let m: u32 = round_with_rest(sig, shift, true);
        proof {
            let u = pow2(eab as nat) as int;
            let v = pow2((ec + 149) as nat) as int;
            let w = pow2((ec + 139) as nat) as int;
            vstd::arithmetic::power2::lemma2_to64();
            lemma_pow2_adds(10, (ec + 139) as nat);
            lemma_pow2_adds(24, 24);
            lemma_pow2_adds(48, eab as nat);
            lemma_pow2_pos(eab as nat);
            if eab + 48 < ec + 139 {
                vstd::arithmetic::power2::lemma_pow2_strictly_increases(
                    (eab + 48) as nat,
                    (ec + 139) as nat,
                );
            }
            assert(48 + eab as nat == (eab + 48) as nat);
            assert(10 + (ec + 139) as nat == (ec + 149) as nat);
            assert((shift + 149) as nat == (ec + 139) as nat);
            assert(pow2(48) == 0x1_0000_0000_0000) by (nonlinear_arith)
                requires
                    pow2(48) == pow2(24) * pow2(24),
                    pow2(24) == 0x100_0000,
            ;
            assert(sc * v == lead * w) by (nonlinear_arith)
                requires
                    lead == sc * 0x400,
                    v == 0x400 * w,
            ;
            assert(0 < p * u < w) by (nonlinear_arith)
                requires
                    0 < p < 0x1_0000_0000_0000,
                    u > 0,
                    0x1_0000_0000_0000 * u <= w,
            ;
            lemma_fused_far(lead as int, shift as int, w, sc * v, p as int, u, np == nc, m as int);
        }
        Single::pack(nc, m)
    }

    /// The same where neither leads by more than 64 binary places.
    fn fused_near(np: bool, p: u128, eab: u32, nc: bool, sc: u32, ec: u32) -> (r: Single)
        requires
            0 < p < 0x1_0000_0000_0000,
            0 < sc < 2 * HIDDEN_BIT,
            eab <= 506,
            ec <= 253,
            eab - 149 <= ec + 64,
            ec <= eab - 149 + 64,
        ensures
            r@ == Value::rounded(fused_amount(np, p as int, eab as nat, nc, sc as int, ec as nat), -149),
            r@ == Value::Finite(0) ==> (r.is_negative() <==> fused_amount(
                np,
                p as int,
                eab as nat,
                nc,
                sc as int,
                ec as nat,
            ) < 0),
            fused_amount(np, p as int, eab as nat, nc, sc as int, ec as nat) == 0 ==> np != nc,
    {
        let ep: i32 = eab as i32 - 149;
        let step: i32 = ec as i32;
        let low: i32 = if ep < step {
            ep
        } else {
            step
        };
        let up_a: u128 = Single::two_to((ep - low) as u32);
        let up_b: u128 = Single::two_to((step - low) as u32);
        proof {
            assert(p * up_a < 0x1_0000_0000_0000 * 0x1_0000_0000_0000_0000) by (nonlinear_arith)
                requires
                    p < 0x1_0000_0000_0000,
                    up_a <= 0x1_0000_0000_0000_0000,
            ;
            assert(sc * up_b < 0x100_0000 * 0x1_0000_0000_0000_0000) by (nonlinear_arith)
                requires
                    sc < 0x100_0000,
                    up_b <= 0x1_0000_0000_0000_0000,
            ;
            lemma_pow2_pos((ep - low) as nat);
            lemma_pow2_pos((step - low) as nat);
            assert(p * up_a > 0 && sc * up_b > 0) by (nonlinear_arith)
                requires
                    p > 0,
                    sc > 0,
                    up_a > 0,
                    up_b > 0,
            ;
        }
        let a: u128 = p * up_a;
        let b: u128 = (sc as u128) * up_b;
        let negative: bool;
        let sig: u128;
        if np == nc {
            negative = np;
            sig = a + b;
        } else if a > b {
            negative = np;
            sig = a - b;
        } else if a < b {
            negative = nc;
            sig = b - a;
        } else {
            negative = false;
            sig = 0;
        }
        let m: u32 = round_magnitude(sig, low);
        proof {
            let u = pow2(eab as nat) as int;
            let v = pow2((ec + 149) as nat) as int;
            let j = (low + 149) as nat;
            let unit = pow2(j) as int;
            lemma_pow2_pos(j);
            lemma_pow2_adds((ep - low) as nat, j);
            lemma_pow2_adds((step - low) as nat, j);
            assert((ep - low) as nat + j == eab as nat);
            assert((step - low) as nat + j == (ec + 149) as nat);
            assert(a * unit == p * u) by (nonlinear_arith)
                requires
                    a == p * up_a,
                    u == up_a * unit,
            ;
            assert(b * unit == sc * v) by (nonlinear_arith)
                requires
                    b == sc * up_b,
                    v == up_b * unit,
            ;
            assert((a + b) * unit == a * unit + b * unit && (a - b) * unit == a * unit - b * unit
                && (b - a) * unit == b * unit - a * unit) by (nonlinear_arith);
            assert(sig * unit >= 0 && (sig > 0 ==> sig * unit > 0)) by (nonlinear_arith)
                requires
                    sig >= 0,
                    unit > 0,
            ;
            lemma_nearest_rescale(sig as int, low as int, j, m as int);
            assert(low - j == -149);
            lemma_nearest_is_unique(sig * unit, -149, m as int, m as int);
            lemma_zero_rounds_to_zero(-149);
            let n = fused_amount(np, p as int, eab as nat, nc, sc as int, ec as nat);
            assert(n == signed_amount(negative, sig * unit));
            if sig == 0 {
                assert(sig * unit == 0);
            }
        }
        Single::pack(negative, m)
    }

    /// The rounding of a product `± p · 2^eab` plus the finite value with
    /// sign `nc` and magnitude `mc`.
    fn fused_finite(np: bool, p: u128, eab: u32, nc: bool, mc: u32) -> (r: Single)
        requires
            p < 0x1_0000_0000_0000,
            eab <= 506,
            mc < INFINITY_BITS,
        ensures
            r@ == Value::rounded(
                signed_amount(np, p * pow2(eab as nat)) + signed_amount(
                    nc,
                    scaled_magnitude(mc as int) * pow2(149),
                ),
                -149,
            ),
            r@ == Value::Finite(0) ==> (r.is_negative() <==> {
                let n = signed_amount(np, p * pow2(eab as nat)) + signed_amount(
                    nc,
                    scaled_magnitude(mc as int) * pow2(149),
                );
                n < 0 || (n == 0 && np && nc)
            }),
    {
        let (sc, ec) = Single::parts(mc);
        let ghost u = pow2(eab as nat) as int;
        let ghost v = pow2((ec + 149) as nat) as int;
        let ghost z = scaled_magnitude(mc as int);
        proof {
            lemma_pow2_pos(eab as nat);
            lemma_pow2_pos((ec + 149) as nat);
            lemma_pow2_pos(ec as nat);
            lemma_pow2_adds(ec as nat, 149);
            assert(z * pow2(149) == sc * v) by (nonlinear_arith)
                requires
                    z == sc * pow2(ec as nat),
                    v == pow2(ec as nat) * pow2(149),
            ;
            assert(p * u >= 0 && (p > 0 ==> p * u > 0) && (p == 0 ==> p * u == 0) && sc * v >= 0
                && (sc > 0 ==> sc * v > 0) && (sc == 0 ==> sc * v == 0)) by (nonlinear_arith)
                requires
                    p >= 0,
                    sc >= 0,
                    u > 0,
                    v > 0,
            ;
            lemma_zero_rounds_to_zero(-149);
            if mc > 0 {
                crate::single::lemma_scaled_magnitude_increases(0, mc as int);
                assert(sc > 0) by (nonlinear_arith)
                    requires
                        sc * pow2(ec as nat) > 0,
                        sc >= 0,
                ;
            }
        }
        if p == 0 {
            if mc == 0 {
                return Single::pack(np && nc, 0);
            }
            proof {
                lemma_exact_rounds_to_itself(mc as int);
                lemma_nearest_rescale(z, 0, 149, mc as int);
                lemma_nearest_is_unique(z * pow2(149), -149, mc as int, mc as int);
            }
            return Single::pack(nc, mc);
        }
        if mc == 0 {
            let m: u32 = round_magnitude(p, eab as i32 - 149);
            proof {
                lemma_nearest_rescale(p as int, eab - 149, eab as nat, m as int);
                lemma_nearest_is_unique(p * u, -149, m as int, m as int);
            }
            return Single::pack(np, m);
        }
        if eab as i32 - 149 > ec as i32 + 64 {
            Single::fused_product_leads(np, p, eab, nc, sc, ec)
        } else if ec as i32 > eab as i32 - 149 + 64 {
            Single::fused_addend_leads(np, p, eab, nc, sc, ec)
        } else {
            Single::fused_near(np, p, eab, nc, sc, ec)
        }
    }

    /// `self · b + c`, rounded once to nearest, ties to even.
    pub fn mul_add(self, b: Single, c: Single) -> (r: Single)
        ensures
            r@ == self@.fused(b@, c@),
            r@ is Nan ==> r.bits == NAN_BITS,
            r@ == Value::Finite(0) ==> (r.is_negative() <==> self.fused_zero_is_negative(
                b,
                c@,
                c.is_negative(),
            )),
    {
        let ma: u32 = self.magnitude_bits();
        let mb: u32 = b.magnitude_bits();
        let mc: u32 = c.magnitude_bits();
        let np: bool = (self.bits >= SIGN_BIT) != (b.bits >= SIGN_BIT);
        let nc: bool = c.bits >= SIGN_BIT;
        if ma > INFINITY_BITS || mb > INFINITY_BITS || mc > INFINITY_BITS {
            return Single { bits: NAN_BITS };
        }
        if ma == INFINITY_BITS || mb == INFINITY_BITS {
            return self.mul(b).add(c);
        }
        if mc == INFINITY_BITS {
            return Single::pack(nc, INFINITY_BITS);
        }
        let (sa, ea) = Single::parts(ma);
        let (sb, eb) = Single::parts(mb);
        proof {
            assert(sa * sb < 0x1_0000_0000_0000) by (nonlinear_arith)
                requires
                    sa < 0x100_0000,
                    sb < 0x100_0000,
            ;
            lemma_fused_amounts(self, b, c, sa as int, ea as nat, sb as int, eb as nat);
        }
        let p: u128 = (sa as u128) * (sb as u128);
        Single::fused_finite(np, p, ea + eb, nc, mc)
    }

    /// The product, rounded to nearest, ties to even.
    ///
    /// A result that is a number, zero included, is negative exactly where
    /// one factor has its sign bit set and the other has not.
    pub fn mul(self, rhs: Single) -> (r: Single)
        ensures
            r@ == self@.product(rhs@),
            r@ is Nan ==> r.bits == NAN_BITS,
            !(r@ is Nan) ==> (r.is_negative() <==> self.is_negative() != rhs.is_negative()),
    {
        let ma: u32 = self.magnitude_bits();
        let mb: u32 = rhs.magnitude_bits();
        let negative: bool = (self.bits >= SIGN_BIT) != (rhs.bits >= SIGN_BIT);
        proof {
            if 0 < ma {
                crate::single::lemma_scaled_magnitude_increases(0, ma as int);
            }
            if 0 < mb {
                crate::single::lemma_scaled_magnitude_increases(0, mb as int);
            }
            lemma_scaled_of_parts(0, 0);
        }
        if ma > INFINITY_BITS || mb > INFINITY_BITS {
            return Single { bits: NAN_BITS };
        }
        if ma == INFINITY_BITS || mb == INFINITY_BITS {
            if ma == 0 || mb == 0 {
                return Single { bits: NAN_BITS };
            }
            return Single::pack(negative, INFINITY_BITS);
        }
        let (sa, ea) = Single::parts(ma);
        let (sb, eb) = Single::parts(mb);
        proof {
            assert(sa * sb < 0x1_0000_0000_0000) by (nonlinear_arith)
                requires
                    sa < 0x100_0000,
                    sb < 0x100_0000,
            ;
        }
        let sig: u128 = (sa as u128) * (sb as u128);
        let shift: i32 = (ea + eb) as i32 - 149;
        let m: u32 = round_magnitude(sig, shift);
        proof {
            let j = (ea + eb) as nat;
            let x = scaled_magnitude(ma as int);
            let y = scaled_magnitude(mb as int);
            lemma_pow2_adds(ea as nat, eb as nat);
            assert(x * y == sig * pow2(j)) by (nonlinear_arith)
                requires
                    x == sa * pow2(ea as nat),
                    y == sb * pow2(eb as nat),
                    sig == sa * sb,
                    pow2(j) == pow2(ea as nat) * pow2(eb as nat),
            ;
            lemma_nearest_rescale(sig as int, shift as int, j, m as int);
            lemma_nearest_is_unique(x * y, -149, m as int, m as int);
            lemma_signed_product(self, rhs, x, y);
            lemma_zero_rounds_to_zero(-149);
        }
        Single::pack(negative, m)
    }
}

/// `v`, negated where `negative`.
pub open spec fn signed_amount(negative: bool, v: int) -> int {
    if negative {
        -v
    } else {
        v
    }
}

/// A whole number of steps that is not zero does not round to zero.
proof fn lemma_whole_amount_is_not_zero(sig: int, shift: nat, m: int)
    requires
        sig >= 1,
        is_nearest(sig, shift as int, m),
    ensures
        m >= 1,
{
    vstd::arithmetic::power2::lemma2_to64();
    lemma_scaled_of_parts(0, 0);
    lemma_scaled_of_parts(0, 1);
    lemma_pow2_pos(shift);
    let u = pow2(positive_part(shift as int)) as int;
    let k = pow2(positive_part(-(shift as int))) as int;
    assert(k == 1);
    assert(2 * sig * u - (0 + 1 * 1) * k > 0) by (nonlinear_arith)
        requires
            sig >= 1,
            u >= 1,
            k == 1,
    ;
}

/// A value whose exponent step is lower by 27 or more is under an eighth of
/// the step of the larger.
proof fn lemma_small_beside_large(ea: int, eb: int, sb: int)
    requires
        0 <= eb,
        eb + 27 <= ea,
        0 <= sb < 2 * HIDDEN_BIT,
    ensures
        2 * (sb * pow2(eb as nat)) < pow2((ea - 2) as nat),
{
    vstd::arithmetic::power2::lemma2_to64();
    lemma_pow2_adds(25, eb as nat);
    lemma_pow2_pos(eb as nat);
    let u = pow2(eb as nat) as int;
    assert(2 * (sb * u) < 0x200_0000 * u) by (nonlinear_arith)
        requires
            0 <= sb < 0x100_0000,
            u > 0,
    ;
    if 25 + eb < ea - 2 {
        vstd::arithmetic::power2::lemma_pow2_strictly_increases((25 + eb) as nat, (ea - 2) as nat);
    }
    assert(25 + eb as nat == (25 + eb) as nat);
}

/// A normal value keeps its magnitude when something under an eighth of
/// its step is added or taken away.
proof fn lemma_far_sum(ma: int, sa: int, ea: int, y: int)
    requires
        ma == ea * HIDDEN_BIT + sa,
        ma < INFINITY_BITS,
        HIDDEN_BIT <= sa < 2 * HIDDEN_BIT,
        ea >= 2,
        -pow2((ea - 2) as nat) < 2 * y < pow2((ea - 2) as nat),
    ensures
        scaled_magnitude(ma) + y > 0,
        is_nearest(scaled_magnitude(ma) + y, 0, ma),
{
    let h = HIDDEN_BIT as int;
    let t = scaled_magnitude(ma) + y;
    let step = pow2(ea as nat) as int;
    let eighth = pow2((ea - 2) as nat) as int;
    vstd::arithmetic::power2::lemma2_to64();
    lemma_pow2_unfold(ea as nat);
    lemma_pow2_unfold((ea - 1) as nat);
    lemma_pow2_pos((ea - 2) as nat);
    assert(step == 4 * eighth);
    lemma_scaled_of_parts(ea, sa);
    lemma_scaled_of_parts(ea, sa + 1);
    assert(ma + 1 == ea * h + (sa + 1));
    let here = scaled_magnitude(ma);
    let above = scaled_magnitude(ma + 1);
    let below = scaled_magnitude(ma - 1);
    assert(above - here == step) by (nonlinear_arith)
        requires
            above == (sa + 1) * step,
            here == sa * step,
    ;
    assert(here >= step) by (nonlinear_arith)
        requires
            here == sa * step,
            sa >= 1,
            step > 0,
    ;
    if sa > h {
        lemma_scaled_of_parts(ea, sa - 1);
        assert(ma - 1 == ea * h + (sa - 1));
        assert(here - below == step) by (nonlinear_arith)
            requires
                below == (sa - 1) * step,
                here == sa * step,
        ;
    } else {
        lemma_scaled_of_parts(ea - 1, 2 * h - 1);
        assert(ma - 1 == (ea - 1) * h + (2 * h - 1)) by (nonlinear_arith)
            requires
                ma == ea * h + sa,
                sa == h,
        ;
        let half = pow2((ea - 1) as nat) as int;
        assert(here - below == half) by (nonlinear_arith)
            requires
                below == (2 * h - 1) * half,
                here == sa * step,
                sa == h,
                step == 2 * half,
        ;
    }
    let one = pow2(0) as int;
    assert(one == 1);
    assert(positive_part(0) == 0);
    assert(excess(t, 0, below + here) == 2 * t * one - (below + here) * one);
    assert(excess(t, 0, here + above) == 2 * t * one - (here + above) * one);
    assert(2 * t * one - (below + here) * one == (here - below) + 2 * y) by (nonlinear_arith)
        requires
            one == 1,
            t == here + y,
    ;
    assert(2 * t * one - (here + above) * one == 2 * y - (above - here)) by (nonlinear_arith)
        requires
            one == 1,
            t == here + y,
    ;
}

/// A finite magnitude is the nearest to the number it denotes.
pub proof fn lemma_exact_rounds_to_itself(m: int)
    requires
        0 <= m < INFINITY_BITS,
    ensures
        is_nearest(scaled_magnitude(m), 0, m),
{
    vstd::arithmetic::power2::lemma2_to64();
    let here = scaled_magnitude(m);
    let one = pow2(0) as int;
    assert(positive_part(0) == 0);
    crate::single::lemma_scaled_magnitude_increases(m, m + 1);
    let above = scaled_magnitude(m + 1);
    assert(2 * here * one - (here + above) * one < 0) by (nonlinear_arith)
        requires
            one == 1,
            here < above,
    ;
    if m > 0 {
        crate::single::lemma_scaled_magnitude_increases(m - 1, m);
        let below = scaled_magnitude(m - 1);
        assert(2 * here * one - (below + here) * one > 0) by (nonlinear_arith)
            requires
                one == 1,
                below < here,
        ;
    }
}

/// The sum of a product `± p · 2^eab` and a value `± sc · 2^ec`, in units
/// of two to the power -298.
pub open spec fn fused_amount(np: bool, p: int, eab: nat, nc: bool, sc: int, ec: nat) -> int {
    signed_amount(np, p * pow2(eab)) + signed_amount(nc, sc * pow2(ec + 149))
}

/// The exact `x·y + z` of three finite encodings, in units of two to the
/// power -298, by the parts of the factors' magnitudes.
proof fn lemma_fused_amounts(a: Single, b: Single, c: Single, sa: int, ea: nat, sb: int, eb: nat)
    requires
        a.magnitude() < INFINITY_BITS,
        b.magnitude() < INFINITY_BITS,
        c.magnitude() < INFINITY_BITS,
        scaled_magnitude(a.magnitude()) == sa * pow2(ea),
        scaled_magnitude(b.magnitude()) == sb * pow2(eb),
    ensures
        a@ is Finite,
        b@ is Finite,
        c@ is Finite,
        a@->Finite_0 * b@->Finite_0 + c@->Finite_0 * pow2(149) == signed_amount(
            a.is_negative() != b.is_negative(),
            (sa * sb) * pow2(ea + eb),
        ) + signed_amount(c.is_negative(), scaled_magnitude(c.magnitude()) * pow2(149)),
{
    let x = scaled_magnitude(a.magnitude());
    let y = scaled_magnitude(b.magnitude());
    let z = scaled_magnitude(c.magnitude());
    let pa = pow2(ea) as int;
    let pb = pow2(eb) as int;
    let k = pow2(149) as int;
    lemma_pow2_adds(ea, eb);
    assert(x * y == (sa * sb) * (pa * pb)) by (nonlinear_arith)
        requires
            x == sa * pa,
            y == sb * pb,
    ;
    assert((-x) * y == -(x * y) && x * (-y) == -(x * y) && (-x) * (-y) == x * y && (-z) * k == -(z
        * k)) by (nonlinear_arith);
}

/// Where one term leads by far, the sum shares its rounding with every
/// amount that follows the leading term, or precedes it, by less than a unit.
proof fn lemma_fused_far(
    lead: int,
    shift: int,
    w: int,
    leading: int,
    small: int,
    small_unit: int,
    same: bool,
    m: int,
)
    requires
        shift + 149 >= 0,
        w == pow2((shift + 149) as nat),
        leading == lead * w,
        0 < small * small_unit < w,
        lead >= 1,
        forall|big: int, s: int|
            lies_within(
                if same {
                    lead
                } else {
                    lead - 1
                },
                shift,
                big,
                s,
            ) ==> #[trigger] is_nearest(big, s, m),
    ensures
        same ==> nearest_magnitude(leading + small * small_unit, -149) == m,
        !same ==> nearest_magnitude(leading - small * small_unit, -149) == m,
        leading - small * small_unit > 0,
{
    let tiny = small * small_unit;
    let big = if same {
        leading + tiny
    } else {
        leading - tiny
    };
    let sig = if same {
        lead
    } else {
        lead - 1
    };
    assert(sig * w < big < (sig + 1) * w) by (nonlinear_arith)
        requires
            leading == lead * w,
            0 < tiny < w,
            same ==> big == leading + tiny && sig == lead,
            !same ==> big == leading - tiny && sig == lead - 1,
    ;
    assert(leading - tiny > 0) by (nonlinear_arith)
        requires
            leading == lead * w,
            lead >= 1,
            0 < tiny < w,
    ;
    assert((shift - (-149)) as nat == (shift + 149) as nat);
    assert(lies_within(sig, shift, big, -149));
    assert(is_nearest(big, -149, m));
    lemma_nearest_is_unique(big, -149, m, m);
}

/// The product of what two finite encodings denote is the product of their
/// magnitudes, negated where exactly one sign bit is set.
proof fn lemma_signed_product(a: Single, b: Single, x: int, y: int)
    requires
        a.magnitude() < INFINITY_BITS,
        b.magnitude() < INFINITY_BITS,
        x == scaled_magnitude(a.magnitude()),
        y == scaled_magnitude(b.magnitude()),
        x >= 0,
        y >= 0,
    ensures
        a@ is Finite,
        b@ is Finite,
        a.is_negative() == b.is_negative() ==> a@->Finite_0 * b@->Finite_0 == x * y,
        a.is_negative() != b.is_negative() ==> a@->Finite_0 * b@->Finite_0 == -(x * y),
        x * y >= 0,
{
    assert(x * y >= 0) by (nonlinear_arith)
        requires
            x >= 0,
            y >= 0,
    ;
    assert((-x) * y == -(x * y) && x * (-y) == -(x * y) && (-x) * (-y) == x * y)
        by (nonlinear_arith);
}

/// The encoding of the result `v`, a zero negative where `negative_zero`.
pub open spec fn encoding_of(v: Value, negative_zero: bool) -> Single {
    choose|r: Single| r.encodes(v, negative_zero)
}

/// An encoding of a result is the encoding of that result.
pub proof fn lemma_encoding_of(r: Single, v: Value, negative_zero: bool)
    requires
        r.encodes(v, negative_zero),
    ensures
        r == encoding_of(v, negative_zero),
{
    lemma_encoding_is_unique(r, encoding_of(v, negative_zero), v, negative_zero);
}

/// A result has one encoding: what it denotes, the sign of a zero and the
/// one pattern of not-a-number leave no bit open.
pub proof fn lemma_encoding_is_unique(r1: Single, r2: Single, v: Value, negative_zero: bool)
    requires
        r1.encodes(v, negative_zero),
        r2.encodes(v, negative_zero),
    ensures
        r1 == r2,
{
    if !(v is Nan) {
        crate::single::lemma_rank_orders_values(r1, r2);
        lemma_scaled_of_parts(0, 0);
        if r1.magnitude() > 0 {
            crate::single::lemma_scaled_magnitude_increases(0, r1.magnitude());
        }
        if r2.magnitude() > 0 {
            crate::single::lemma_scaled_magnitude_increases(0, r2.magnitude());
        }
    }
}

/// The rounded sum does not depend on the order of its terms.
pub proof fn lemma_sum_commutes(x: Value, y: Value)
    ensures
        x.sum(y) == y.sum(x),
{
}

/// The rounded product does not depend on the order of its factors.
pub proof fn lemma_product_commutes(x: Value, y: Value)
    ensures
        x.product(y) == y.product(x),
{
    if let (Value::Finite(a), Value::Finite(b)) = (x, y) {
        assert(a * b == b * a) by (nonlinear_arith);
    }
}

/// A finite value is its own rounding: what an encoding denotes, written in
/// units of two to the power -298, rounds to that encoding's value.
pub proof fn lemma_value_rounds_to_itself(a: Single)
    requires
        a@ is Finite,
    ensures
        Value::rounded(a@->Finite_0 * pow2(149), -149) == a@,
{
    let m = a.magnitude();
    let g = scaled_magnitude(m);
    let k = pow2(149) as int;
    lemma_pow2_pos(149);
    lemma_scaled_of_parts(0, 0);
    if m > 0 {
        crate::single::lemma_scaled_magnitude_increases(0, m);
    }
    lemma_exact_rounds_to_itself(m);
    lemma_nearest_rescale(g, 0, 149, m);
    lemma_nearest_is_unique(g * k, -149, m, m);
    assert(g * k >= 0 && (g > 0 ==> g * k > 0) && (-g) * k == -(g * k)) by (nonlinear_arith)
        requires
            g >= 0,
            k > 0,
    ;
}

/// The encoding of one.
pub const ONE_BITS: u32 = 0x3f80_0000;

/// The encoding `ONE_BITS` denotes one: two to the power 149 units.
pub proof fn lemma_one_denotes_one()
    ensures
        (Single { bits: ONE_BITS })@ == Value::Finite(pow2(149) as int),
{
    vstd::arithmetic::power2::lemma2_to64();
    lemma_pow2_adds(23, 126);
    lemma_scaled_of_parts(126, HIDDEN_BIT as int);
    assert(126 * HIDDEN_BIT + HIDDEN_BIT == ONE_BITS);
}

/// A finite value times one is itself, and times zero is zero.
pub proof fn lemma_product_with_one_and_zero(a: Single)
    requires
        a@ is Finite,
    ensures
        a@.product(Value::Finite(pow2(149) as int)) == a@,
        a@.product(Value::Finite(0)) == Value::Finite(0),
{
    lemma_value_rounds_to_itself(a);
    lemma_zero_rounds_to_zero(-149);
    let x = a@->Finite_0;
    assert(x * 0 == 0) by (nonlinear_arith);
}

/// With one as the second factor and a zero added, the fused result is the
/// first factor; with zero as the second factor it is what is added.
pub proof fn lemma_fused_with_one_and_zero(a: Single, c: Single)
    requires
        a@ is Finite,
        c@ is Finite,
    ensures
        a@.fused(Value::Finite(pow2(149) as int), Value::Finite(0)) == a@,
        a@.fused(Value::Finite(0), c@) == c@,
{
    lemma_value_rounds_to_itself(a);
    lemma_value_rounds_to_itself(c);
    let x = a@->Finite_0;
    let k = pow2(149) as int;
    assert(x * 0 == 0 && 0 * k == 0) by (nonlinear_arith);
}

} // verus!
