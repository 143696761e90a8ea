//! Rounding to the nearest single-precision value, ties to even.
//!
//! An amount is given as `sig · 2^shift` in units of two to the power -149,
//! with `sig` a natural number and `shift` of either sign. Its rounding is the
//! magnitude of the encoding nearest to it; the encoding of infinity stands
//! for two to the power 128, so that what lies beyond the largest finite
//! number by half a step or more rounds to infinity.

use crate::single::{
    lemma_scaled_magnitude_increases, scaled_magnitude, Value, HIDDEN_BIT, INFINITY_BITS,
};
use vstd::arithmetic::power2::{lemma_pow2_adds, lemma_pow2_pos, lemma_pow2_unfold, pow2};
use vstd::prelude::*;

verus! {

/// `s` where it is positive, else zero.
pub open spec fn positive_part(s: int) -> nat {
    if s > 0 {
        s as nat
    } else {
        0
    }
}

/// Twice the amount `sig · 2^shift` less `v`, times a positive power of two
/// that makes both whole. Only its sign is of interest.
pub open spec fn excess(sig: int, shift: int, v: int) -> int {
    2 * sig * pow2(positive_part(shift)) - v * pow2(positive_part(-shift))
}

/// Whether `m` is the magnitude nearest to the amount `sig · 2^shift`: the
/// amount lies between the midpoints to the two neighbours of `m`, and on a
/// midpoint only where `m` is even.
pub open spec fn is_nearest(sig: int, shift: int, m: int) -> bool {
    &&& 0 <= m <= INFINITY_BITS
    &&& m == 0 || {
        let d = excess(sig, shift, scaled_magnitude(m - 1) + scaled_magnitude(m));
        d > 0 || (d == 0 && m % 2 == 0)
    }
    &&& m == INFINITY_BITS || {
        let d = excess(sig, shift, scaled_magnitude(m) + scaled_magnitude(m + 1));
        d < 0 || (d == 0 && m % 2 == 0)
    }
}

/// The magnitude nearest to the amount `sig · 2^shift`, ties to even.
pub open spec fn nearest_magnitude(sig: int, shift: int) -> int {
    choose|m: int| is_nearest(sig, shift, m)
}

/// What a magnitude and a sign denote together.
pub open spec fn signed_value(negative: bool, m: int) -> Value {
    if m >= INFINITY_BITS {
        if negative {
            Value::NegInfinity
        } else {
            Value::PosInfinity
        }
    } else if negative {
        Value::Finite(-scaled_magnitude(m))
    } else {
        Value::Finite(scaled_magnitude(m))
    }
}

impl Value {
    /// The value nearest to the amount `n · 2^shift`, of either sign.
    pub open spec fn rounded(n: int, shift: int) -> Value {
        if n >= 0 {
            signed_value(false, nearest_magnitude(n, shift))
        } else {
            signed_value(true, nearest_magnitude(-n, shift))
        }
    }
}

/// The magnitude with exponent step `e` and significand `q` denotes
/// `q · 2^e`. The significand is normal, or the step is the lowest; a
/// significand of two to the power 24 carries into the next exponent.
pub proof fn lemma_scaled_of_parts(e: int, q: int)
    requires
        0 <= e,
        0 <= q <= 2 * HIDDEN_BIT,
        e == 0 || q >= HIDDEN_BIT,
    ensures
        scaled_magnitude(e * HIDDEN_BIT + q) == q * pow2(e as nat),
{
    let h = HIDDEN_BIT as int;
    let m = e * h + q;
    let p = pow2(e as nat) as int;
    vstd::arithmetic::power2::lemma2_to64();
    if q == 2 * h {
        assert(m == (e + 2) * h) by (nonlinear_arith)
            requires
                m == e * h + q,
                q == 2 * h,
        ;
        assert(m / h == e + 2 && m % h == 0) by (nonlinear_arith)
            requires
                m == (e + 2) * h,
                h == 0x80_0000,
        ;
        lemma_pow2_unfold((e + 1) as nat);
        assert(pow2(((e + 2) - 1) as nat) == 2 * p);
        assert((h + 0) * (2 * p) == (2 * h) * p) by (nonlinear_arith);
        assert(scaled_magnitude(m) == q * p);
    } else if q < h {
        assert(m == q) by (nonlinear_arith)
            requires
                m == e * h + q,
                e == 0,
        ;
        assert(m / h == 0 && m % h == q);
        assert(q * p == q) by (nonlinear_arith)
            requires
                p == 1,
        ;
        assert(scaled_magnitude(m) == q * p);
    } else {
        assert(m == (e + 1) * h + (q - h)) by (nonlinear_arith)
            requires
                m == e * h + q,
        ;
        assert(m / h == e + 1 && m % h == q - h) by (nonlinear_arith)
            requires
                m == (e + 1) * h + (q - h),
                0 <= q - h < h,
                h == 0x80_0000,
        ;
        assert(((e + 1) - 1) as nat == e as nat);
        assert(scaled_magnitude(m) == (h + (q - h)) * p);
    }
}

/// A larger `v` has the smaller excess, and the same `v` the same.
pub proof fn lemma_excess_decreases(sig: int, shift: int, v1: int, v2: int)
    requires
        v1 <= v2,
    ensures
        excess(sig, shift, v1) >= excess(sig, shift, v2),
        v1 < v2 ==> excess(sig, shift, v1) > excess(sig, shift, v2),
{
    let k = pow2(positive_part(-shift)) as int;
    lemma_pow2_pos(positive_part(-shift));
    assert(v1 * k <= v2 * k) by (nonlinear_arith)
        requires
            v1 <= v2,
            k > 0,
    ;
    if v1 < v2 {
        assert(v1 * k < v2 * k) by (nonlinear_arith)
            requires
                v1 < v2,
                k > 0,
        ;
    }
}

/// An amount has one nearest magnitude.
pub proof fn lemma_nearest_is_unique(sig: int, shift: int, m1: int, m2: int)
    requires
        is_nearest(sig, shift, m1),
        is_nearest(sig, shift, m2),
    ensures
        m1 == m2,
        nearest_magnitude(sig, shift) == m1,
{
    lemma_nearest_differ(sig, shift, m1, m2);
    lemma_nearest_differ(sig, shift, m2, m1);
    let m = nearest_magnitude(sig, shift);
    lemma_nearest_differ(sig, shift, m1, m);
    lemma_nearest_differ(sig, shift, m, m1);
}

/// Of two magnitudes nearest to one amount, the first is not the smaller.
proof fn lemma_nearest_differ(sig: int, shift: int, m1: int, m2: int)
    requires
        is_nearest(sig, shift, m1),
        is_nearest(sig, shift, m2),
    ensures
        m1 >= m2,
{
    if m1 < m2 {
        let up = scaled_magnitude(m1) + scaled_magnitude(m1 + 1);
        let down = scaled_magnitude(m2 - 1) + scaled_magnitude(m2);
        if m1 + 1 < m2 {
            lemma_scaled_magnitude_increases(m1, m2 - 1);
            lemma_scaled_magnitude_increases(m1 + 1, m2);
        }
        lemma_excess_decreases(sig, shift, up, down);
    }
}

/// The same amount written with another shift has the same nearest magnitude.
pub proof fn lemma_nearest_rescale(sig: int, shift: int, j: nat, m: int)
    ensures
        is_nearest(sig * pow2(j), shift - j, m) <==> is_nearest(sig, shift, m),
{
    if 0 <= m <= INFINITY_BITS {
        if m != 0 {
            lemma_excess_rescale(sig, shift, j, scaled_magnitude(m - 1) + scaled_magnitude(m));
        }
        if m != INFINITY_BITS {
            lemma_excess_rescale(sig, shift, j, scaled_magnitude(m) + scaled_magnitude(m + 1));
        }
    }
}

/// Writing the amount with another shift multiplies the excess by a positive
/// number.
proof fn lemma_excess_rescale(sig: int, shift: int, j: nat, v: int)
    ensures
        excess(sig * pow2(j), shift - j, v) > 0 <==> excess(sig, shift, v) > 0,
        excess(sig * pow2(j), shift - j, v) == 0 <==> excess(sig, shift, v) == 0,
{
    let a = excess(sig, shift, v);
    let b = excess(sig * pow2(j), shift - j, v);
    let pj = pow2(j) as int;
    lemma_pow2_pos(j);
    vstd::arithmetic::power2::lemma2_to64();
    let one = pow2(0) as int;
    assert(one == 1);
    let c: int = if shift >= j {
        // both shifts are upward
        let r = pow2((shift - j) as nat) as int;
        let u = pow2(shift as nat) as int;
        lemma_pow2_adds(j, (shift - j) as nat);
        assert(j + (shift - j) as nat == shift as nat);
        assert(u == pj * r);
        assert(positive_part(shift - j) == (shift - j) as nat);
        assert(positive_part(shift) == shift as nat);
        assert(positive_part(-shift) == 0 && positive_part(-(shift - j)) == 0);
        assert(a == 2 * sig * u - v * one);
        assert(b == 2 * (sig * pj) * r - v * one);
        assert(2 * (sig * pj) * r == 2 * sig * (pj * r)) by (nonlinear_arith);
        assert(b == 1 * a);
        1
    } else if shift >= 0 {
        // the old shift is upward, the new one downward
        let u = pow2(shift as nat) as int;
        let d = pow2((j - shift) as nat) as int;
        lemma_pow2_adds(shift as nat, (j - shift) as nat);
        assert(shift as nat + (j - shift) as nat == j);
        assert(pj == u * d);
        lemma_pow2_pos((j - shift) as nat);
        assert(positive_part(shift - j) == 0);
        assert(positive_part(-(shift - j)) == (j - shift) as nat);
        assert(positive_part(shift) == shift as nat);
        assert(positive_part(-shift) == 0);
        assert(a == 2 * sig * u - v * one);
        assert(b == 2 * (sig * pj) * one - v * d);
        assert(2 * (sig * (u * d)) * 1 - v * d == d * (2 * sig * u - v * 1)) by (nonlinear_arith);
        assert(b == d * a);
        d
    } else {
        // both are downward
        let d = pow2((-shift) as nat) as int;
        let dd = pow2((j - shift) as nat) as int;
        lemma_pow2_adds(j, (-shift) as nat);
        assert(j + (-shift) as nat == (j - shift) as nat);
        assert(dd == pj * d);
        assert(positive_part(shift - j) == 0 && positive_part(shift) == 0);
        assert(positive_part(-(shift - j)) == (j - shift) as nat);
        assert(positive_part(-shift) == (-shift) as nat);
        assert(a == 2 * sig * one - v * d);
        assert(b == 2 * (sig * pj) * one - v * dd);
        assert(2 * (sig * pj) * 1 - v * (pj * d) == pj * (2 * sig * 1 - v * d)) by (nonlinear_arith);
        assert(b == pj * a);
        pj
    };
    assert(b == c * a && c > 0);
    assert((b > 0 <==> a > 0) && (b == 0 <==> a == 0)) by (nonlinear_arith)
        requires
            b == c * a,
            c > 0,
    ;
}

/// The excess over a multiple `c · 2^e` of a step, for an amount given by
/// its parts: `sig · 2^shift == (q0 · p) / 2^k` and `2^e == (p · r) / 2^k`,
/// with `2^k` the scale of the excess.
proof fn lemma_excess_of_parts(sig: int, shift: int, q0: int, p: int, r: int, e: nat, c: int)
    requires
        sig * pow2(positive_part(shift)) == q0 * p,
        pow2(e) * pow2(positive_part(-shift)) == p * r,
    ensures
        excess(sig, shift, c * pow2(e)) == p * (2 * q0 - c * r),
{
    let u = pow2(positive_part(shift)) as int;
    let k = pow2(positive_part(-shift)) as int;
    let pe = pow2(e) as int;
    assert(2 * sig * u - (c * pe) * k == p * (2 * q0 - c * r)) by (nonlinear_arith)
        requires
            sig * u == q0 * p,
            pe * k == p * r,
    ;
}

/// The magnitude for a significand `q` at exponent step `e`, one more where
/// `up`, and the encoding of infinity where that lies beyond.
pub open spec fn assembled(e: int, q: int, up: bool) -> int {
    let m = e * HIDDEN_BIT + q + if up {
        1int
    } else {
        0int
    };
    if m >= INFINITY_BITS {
        INFINITY_BITS as int
    } else {
        m
    }
}

/// An amount `(q + rem / r) · 2^e` rounds to the significand `q`, or to
/// `q + 1` where the remainder is over half, or is half and `q` is odd.
proof fn lemma_round_parts(
    sig: int,
    shift: int,
    p: int,
    r: int,
    e: nat,
    q: int,
    rem: int,
    up: bool,
)
    requires
        p > 0,
        0 <= rem < r,
        0 <= q < 2 * HIDDEN_BIT,
        e == 0 || q >= HIDDEN_BIT,
        sig * pow2(positive_part(shift)) == (q * r + rem) * p,
        pow2(e) * pow2(positive_part(-shift)) == p * r,
        up <==> (2 * rem > r || (2 * rem == r && q % 2 == 1)),
    ensures
        is_nearest(sig, shift, assembled(e as int, q, up)),
{
    let h = HIDDEN_BIT as int;
    let q0 = q * r + rem;
    let pe = pow2(e) as int;
    let qq = if up {
        q + 1
    } else {
        q
    };
    let mu = e * h + qq;
    lemma_pow2_pos(e);
    assert(0 <= e * h) by (nonlinear_arith)
        requires
            e >= 0,
            h > 0,
    ;
    assert(mu % 2 == qq % 2) by (nonlinear_arith)
        requires
            mu == e * h + qq,
            h == 0x80_0000,
    ;
    lemma_scaled_of_parts(e as int, qq);
    // the excess over the lower midpoint is not negative, and zero only where
    // the rounded significand is even
    let low = if mu > 0 {
        scaled_magnitude(mu - 1) + scaled_magnitude(mu)
    } else {
        0
    };
    let low_excess = excess(sig, shift, low);
    if up {
        lemma_scaled_of_parts(e as int, q);
        assert(mu - 1 == e * h + q);
        assert(q * pe + (q + 1) * pe == (2 * q + 1) * pe) by (nonlinear_arith);
        lemma_excess_of_parts(sig, shift, q0, p, r, e, 2 * q + 1);
        assert(p * (2 * q0 - (2 * q + 1) * r) == p * (2 * rem - r)) by (nonlinear_arith)
            requires
                q0 == q * r + rem,
        ;
        assert(p * (2 * rem - r) >= 0 && (p * (2 * rem - r) == 0 ==> 2 * rem == r))
            by (nonlinear_arith)
            requires
                p > 0,
                2 * rem >= r,
        ;
        assert(low_excess > 0 || (low_excess == 0 && mu % 2 == 0));
        if mu < INFINITY_BITS {
            // the amount is at most the rounded value itself
            lemma_excess_of_parts(sig, shift, q0, p, r, e, 2 * (q + 1));
            assert((q + 1) * pe + (q + 1) * pe == (2 * (q + 1)) * pe) by (nonlinear_arith);
            assert(p * (2 * q0 - (2 * (q + 1)) * r) < 0) by (nonlinear_arith)
                requires
                    q0 == q * r + rem,
                    rem < r,
                    p > 0,
            ;
            lemma_scaled_magnitude_increases(mu, mu + 1);
            lemma_excess_decreases(
                sig,
                shift,
                2 * scaled_magnitude(mu),
                scaled_magnitude(mu) + scaled_magnitude(mu + 1),
            );
        }
    } else {
        lemma_excess_of_parts(sig, shift, q0, p, r, e, 2 * q);
        assert(q * pe + q * pe == (2 * q) * pe) by (nonlinear_arith);
        assert(p * (2 * q0 - (2 * q) * r) >= 0) by (nonlinear_arith)
            requires
                q0 == q * r + rem,
                rem >= 0,
                p > 0,
        ;
        if mu > 0 {
            lemma_scaled_magnitude_increases(mu - 1, mu);
            lemma_excess_decreases(
                sig,
                shift,
                scaled_magnitude(mu - 1) + scaled_magnitude(mu),
                2 * scaled_magnitude(mu),
            );
            assert(low_excess > 0);
        }
        if mu < INFINITY_BITS {
            lemma_scaled_of_parts(e as int, q + 1);
            assert(mu + 1 == e * h + (q + 1));
            assert(q * pe + (q + 1) * pe == (2 * q + 1) * pe) by (nonlinear_arith);
            lemma_excess_of_parts(sig, shift, q0, p, r, e, 2 * q + 1);
            assert(p * (2 * q0 - (2 * q + 1) * r) == p * (2 * rem - r)) by (nonlinear_arith)
                requires
                    q0 == q * r + rem,
            ;
            assert(p * (2 * rem - r) <= 0 && (p * (2 * rem - r) == 0 ==> 2 * rem == r))
                by (nonlinear_arith)
                requires
                    p > 0,
                    2 * rem <= r,
            ;
        }
    }
    if mu > INFINITY_BITS {
        // beyond infinity: the lower midpoint of infinity lies lower still
        let top = INFINITY_BITS as int;
        lemma_scaled_magnitude_increases(top - 1, mu - 1);
        lemma_scaled_magnitude_increases(top, mu);
        lemma_excess_decreases(
            sig,
            shift,
            scaled_magnitude(top - 1) + scaled_magnitude(top),
            low,
        );
    }
}

/// Nothing rounds to zero.
pub proof fn lemma_zero_rounds_to_zero(shift: int)
    ensures
        is_nearest(0, shift, 0),
        nearest_magnitude(0, shift) == 0,
        scaled_magnitude(0) == 0,
{
    vstd::arithmetic::power2::lemma2_to64();
    lemma_scaled_of_parts(0, 0);
    lemma_scaled_of_parts(0, 1);
    lemma_pow2_pos(positive_part(-shift));
    let k = pow2(positive_part(-shift)) as int;
    let u = pow2(positive_part(shift)) as int;
    assert(2 * 0 * u - (0 + 1 * 1) * k < 0) by (nonlinear_arith)
        requires
            k > 0,
    ;
    assert(is_nearest(0, shift, 0));
    lemma_nearest_is_unique(0, shift, 0, 0);
}

/// An amount under half the smallest step rounds to zero.
proof fn lemma_tiny_rounds_to_zero(sig: int, shift: int, rs: nat)
    requires
        0 <= sig < pow2(rs),
        shift + rs < 0,
    ensures
        is_nearest(sig, shift, 0),
{
    vstd::arithmetic::power2::lemma2_to64();
    lemma_scaled_of_parts(0, 0);
    lemma_scaled_of_parts(0, 1);
    let k = pow2((-shift) as nat) as int;
    let u = pow2(0) as int;
    lemma_pow2_adds(rs, (-shift - rs) as nat);
    assert(rs + (-shift - rs) as nat == (-shift) as nat);
    lemma_pow2_unfold((-shift - rs) as nat);
    lemma_pow2_pos((-shift - rs - 1) as nat);
    let r = pow2(rs) as int;
    let g = pow2((-shift - rs) as nat) as int;
    assert(2 * sig * 1 - (0 + 1 * 1) * k < 0) by (nonlinear_arith)
        requires
            k == r * g,
            g >= 2,
            0 <= sig < r,
    ;
}

/// Two to the power 125: the bound on the significands that are rounded.
pub const SIG_LIMIT: u128 = 0x2000_0000_0000_0000_0000_0000_0000_0000;

/// Whether the amount `big · 2^s` lies strictly between `sig · 2^shift` and
/// `(sig + 1) · 2^shift`.
pub open spec fn lies_within(sig: int, shift: int, big: int, s: int) -> bool {
    &&& s <= shift
    &&& sig * pow2((shift - s) as nat) < big < (sig + 1) * pow2((shift - s) as nat)
}

/// The magnitude nearest to `sig · 2^shift` units, ties to even.
pub(crate) fn round_magnitude(sig: u128, shift: i32) -> (m: u32)
    requires
        sig < SIG_LIMIT,
        -1000 <= shift <= 1000,
    ensures
        is_nearest(sig as int, shift as int, m as int),
        m as int == nearest_magnitude(sig as int, shift as int),
{
    round_with_rest(sig, shift, false)
}

/// The magnitude nearest to an amount of which `sig · 2^shift` is the
/// leading part. Where `rest` is set, something more than nothing and less
/// than one unit of `sig` follows it, and the result is that of every such
/// amount.
pub(crate) fn round_with_rest(sig: u128, shift: i32, rest: bool) -> (m: u32)
    requires
        sig < SIG_LIMIT,
        -1000 <= shift <= 1000,
        rest ==> sig >= 0x200_0000 || shift < 0,
    ensures
        m <= INFINITY_BITS,
        !rest ==> is_nearest(sig as int, shift as int, m as int) && m as int == nearest_magnitude(
            sig as int,
            shift as int,
        ),
        rest ==> forall|big: int, s: int|
            lies_within(sig as int, shift as int, big, s) ==> #[trigger] is_nearest(
                big,
                s,
                m as int,
            ),
{
    if sig == 0 {
        proof {
            lemma_zero_rounds_to_zero(shift as int);
            lemma_nearest_is_unique(sig as int, shift as int, 0, 0);
            if rest {
                assert forall|big: int, s: int|
                    lies_within(sig as int, shift as int, big, s) implies #[trigger] is_nearest(
                    big,
                    s,
                    0,
                ) by {
                    let k = pow2((shift - s) as nat) as int;
                    assert((0 + 1) * k == k && 0 * k == 0) by (nonlinear_arith);
                    lemma_tiny_rounds_to_zero(big, s, (shift - s) as nat);
                }
            }
        }
        return 0;
    }
    // bring a short significand up to 24 bits while the shift is upward
    let mut q: u128 = sig;
    let mut sh: i32 = shift;
    while sh > 0 && q < 0x80_0000
        invariant
            0 < q < SIG_LIMIT,
            shift <= 0 ==> sh == shift && q == sig,
            shift > 0 ==> 0 <= sh <= shift,
            q * pow2(positive_part(sh as int)) == sig * pow2(positive_part(shift as int)),
            rest ==> sig >= 0x200_0000 || shift < 0,
            rest ==> sh == shift && q == sig,
        decreases sh,
    {
        proof {
            lemma_pow2_unfold(sh as nat);
            let lower = pow2((sh - 1) as nat) as int;
            assert((q * 2) * lower == q * (2 * lower)) by (nonlinear_arith);
        }
        q = q * 2;
        sh = sh - 1;
    }
    let ghost p: int = pow2(positive_part(sh as int)) as int;
    let ghost q0: int = q as int;
    let ghost sh0: int = sh as int;
    let ghost mut rs: nat = 0;
    let mut r: u128 = 1;
    let mut rem: u128 = 0;
    proof {
        vstd::arithmetic::power2::lemma2_to64();
        lemma_pow2_pos(positive_part(sh as int));
        assert(q as int == q * 1 + 0) by (nonlinear_arith);
    }
    // halve until the significand has 24 bits and the shift is not downward
    while sh < 0 || q >= 0x100_0000
        invariant
            q0 == q * r + rem,
            0 < q0 < SIG_LIMIT,
            0 <= rem < r,
            r == pow2(rs),
            sh == sh0 + rs,
            -1000 <= sh0 <= 1000,
            sh <= 0 || q >= 0x80_0000,
            q < SIG_LIMIT,
            sh <= 1000 + 125,
            p == pow2(positive_part(sh0)),
            p > 0,
            q0 * p == sig * pow2(positive_part(shift as int)),
            shift <= 0 ==> sh0 == shift && q0 == sig,
            shift > 0 ==> sh0 >= 0,
            rest ==> sh0 == shift && q0 == sig,
            rest ==> sig >= 0x200_0000 || shift < 0,
            rs == 0 ==> q == q0 && sh == sh0,
        decreases q,
    {
        if q == 0 {
            proof {
                assert(q0 == rem) by (nonlinear_arith)
                    requires
                        q0 == q * r + rem,
                        q == 0,
                ;
                lemma_tiny_rounds_to_zero(sig as int, shift as int, rs);
                lemma_nearest_is_unique(sig as int, shift as int, 0, 0);
                if rest {
                    assert forall|big: int, s: int|
                        lies_within(sig as int, shift as int, big, s) implies #[trigger] is_nearest(
                        big,
                        s,
                        0,
                    ) by {
                        let k = pow2((shift - s) as nat) as int;
                        lemma_pow2_adds(rs, (shift - s) as nat);
                        assert((sig + 1) * k <= r * k) by (nonlinear_arith)
                            requires
                                sig + 1 <= r,
                                k >= 0,
                        ;
                        lemma_tiny_rounds_to_zero(big, s, rs + (shift - s) as nat);
                    }
                }
            }
            return 0;
        }
        proof {
            assert(r <= q0) by (nonlinear_arith)
                requires
                    q0 == q * r + rem,
                    q >= 1,
                    rem >= 0,
                    r >= 0,
            ;
            lemma_pow2_unfold(rs + 1);
            let half_q = (q / 2) as int;
            let bit = (q % 2) as int;
            assert(q * r + rem == half_q * (2 * r) + (rem + bit * r)) by (nonlinear_arith)
                requires
                    q == 2 * half_q + bit,
            ;
            assert(bit * r <= r && bit * r >= 0) by (nonlinear_arith)
                requires
                    0 <= bit <= 1,
                    r >= 0,
            ;
            lemma_halvings_are_few(q0, q as int, rs);
        }
        let ghost before: int = q * r + rem;
        let ghost old_q: int = q as int;
        let ghost old_r: int = r as int;
        let ghost old_rem: int = rem as int;
        if q % 2 == 1 {
            rem = rem + r;
        }
        q = q / 2;
        r = r * 2;
        sh = sh + 1;
        proof {
            rs = rs + 1;
            let bit = old_q % 2;
            assert(rem == old_rem + bit * old_r) by (nonlinear_arith)
                requires
                    bit == 0 || bit == 1,
                    bit == 1 ==> rem == old_rem + old_r,
                    bit == 0 ==> rem == old_rem,
            ;
            assert(q * r + rem == before) by (nonlinear_arith)
                requires
                    old_q == 2 * q + bit,
                    r == 2 * old_r,
                    rem == old_rem + bit * old_r,
                    before == old_q * old_r + old_rem,
            ;
        }
    }
    let half: u128 = r / 2;
    let up: bool = r > 1 && (rem > half || (rem == half && (rest || q % 2 == 1)));
    proof {
        if rs > 0 {
            lemma_pow2_unfold(rs);
        }
        // the exponent step, the scale and the divisor fit together
        vstd::arithmetic::power2::lemma2_to64();
        let step = pow2(sh as nat) as int;
        let scale = pow2(positive_part(-(shift as int))) as int;
        if shift >= 0 {
            lemma_pow2_adds(sh0 as nat, rs);
            assert(sh0 as nat + rs == sh as nat);
            assert(positive_part(-(shift as int)) == 0);
            assert(positive_part(sh0) == sh0 as nat);
            assert(step * scale == p * r) by (nonlinear_arith)
                requires
                    step == p * r,
                    scale == 1,
            ;
        } else {
            lemma_pow2_adds(sh as nat, (-shift) as nat);
            assert(sh as nat + (-shift) as nat == rs);
            assert(positive_part(sh0) == 0);
            assert(positive_part(-(shift as int)) == (-shift) as nat);
            assert(step * scale == p * r) by (nonlinear_arith)
                requires
                    step * scale == r,
                    p == 1,
            ;
        }
        if rest {
            assert(rs > 0);
            assert(sig as int == q * r + rem);
            assert forall|big: int, s: int|
                lies_within(sig as int, shift as int, big, s) implies #[trigger] is_nearest(
                big,
                s,
                assembled(sh as int, q as int, up),
            ) by {
                lemma_round_parts_with_rest(
                    sig as int,
                    shift as int,
                    big,
                    s,
                    r as int,
                    sh as nat,
                    q as int,
                    rem as int,
                );
            }
        } else {
            lemma_round_parts(
                sig as int,
                shift as int,
                p,
                r as int,
                sh as nat,
                q as int,
                rem as int,
                up,
            );
            lemma_nearest_is_unique(
                sig as int,
                shift as int,
                assembled(sh as int, q as int, up),
                assembled(sh as int, q as int, up),
            );
        }
    }
    let rounded: u64 = if up {
        q as u64 + 1
    } else {
        q as u64
    };
    let wide: u64 = (sh as u64) * 0x80_0000 + rounded;
    if wide >= 0x7f80_0000 {
        INFINITY_BITS
    } else {
        wide as u32
    }
}

/// An amount that goes on after `(q + rem / r) · 2^e` with less than one unit
/// of the remainder rounds up exactly where the remainder is a half or more.
proof fn lemma_round_parts_with_rest(
    sig: int,
    shift: int,
    big: int,
    s: int,
    r: int,
    e: nat,
    q: int,
    rem: int,
)
    requires
        lies_within(sig, shift, big, s),
        0 <= rem < r,
        r % 2 == 0,
        0 <= q < 2 * HIDDEN_BIT,
        e == 0 || q >= HIDDEN_BIT,
        sig == q * r + rem,
        pow2(e) * pow2(positive_part(-shift)) == pow2(positive_part(shift)) * r,
    ensures
        is_nearest(big, s, assembled(e as int, q, 2 * rem >= r)),
{
    let k = pow2((shift - s) as nat) as int;
    lemma_pow2_pos((shift - s) as nat);
    let c = big - sig * k;
    assert(0 < c < k) by (nonlinear_arith)
        requires
            sig * k < big < (sig + 1) * k,
            c == big - sig * k,
    ;
    let wide_r = r * k;
    let wide_rem = rem * k + c;
    assert(big == q * wide_r + wide_rem) by (nonlinear_arith)
        requires
            big == sig * k + c,
            sig == q * r + rem,
            wide_r == r * k,
            wide_rem == rem * k + c,
    ;
    assert(0 <= wide_rem < wide_r) by (nonlinear_arith)
        requires
            0 <= rem,
            rem + 1 <= r,
            0 < c < k,
            wide_r == r * k,
            wide_rem == rem * k + c,
    ;
    let up = 2 * rem >= r;
    assert(up <==> (2 * wide_rem > wide_r || (2 * wide_rem == wide_r && q % 2 == 1)))
        by (nonlinear_arith)
        requires
            up <==> 2 * rem >= r,
            !up ==> 2 * rem + 2 <= r,
            0 < c < k,
            wide_r == r * k,
            wide_rem == rem * k + c,
    ;
    // the exponent step, the scale and the wider divisor fit together
    let a = pow2(positive_part(shift)) as int;
    let b = pow2(positive_part(-shift)) as int;
    let aa = pow2(positive_part(s)) as int;
    let bb = pow2(positive_part(-s)) as int;
    let pe = pow2(e) as int;
    lemma_pow2_pos(positive_part(shift));
    lemma_pow2_pos(positive_part(s));
    lemma_pow2_adds(positive_part(-s), positive_part(shift));
    lemma_pow2_adds(positive_part(s), (shift - s) as nat);
    lemma_pow2_adds(positive_part(s) + (shift - s) as nat, positive_part(-shift));
    assert(positive_part(-s) + positive_part(shift) == positive_part(s) + (shift - s) as nat
        + positive_part(-shift));
    assert(bb * a == (aa * k) * b);
    assert(pe * bb == aa * wide_r) by (nonlinear_arith)
        requires
            bb * a == (aa * k) * b,
            pe * b == a * r,
            wide_r == r * k,
            a > 0,
    ;
    assert(big * aa == (q * wide_r + wide_rem) * aa);
    lemma_round_parts(big, s, aa, wide_r, e, q, wide_rem, up);
}

/// While the quotient is not zero, the divisor has not passed the dividend.
proof fn lemma_halvings_are_few(q0: int, q: int, rs: nat)
    requires
        q >= 1,
        0 < q0 < SIG_LIMIT,
        pow2(rs) <= q0,
    ensures
        rs < 125,
{
    vstd::arithmetic::power2::lemma2_to64_rest();
    if rs >= 125 {
        lemma_pow2_adds(125, (rs - 125) as nat);
        lemma_pow2_pos((rs - 125) as nat);
        lemma_pow2_adds(64, 61);
        vstd::arithmetic::power2::lemma2_to64();
        let a = pow2(125) as int;
        let b = pow2((rs - 125) as nat) as int;
        assert(a * b >= a) by (nonlinear_arith)
            requires
                a > 0,
                b >= 1,
        ;
        assert(rs == 125 + (rs - 125) as nat);
    }
}

} // verus!
