//! Samples as 16-bit PCM and back: clamped, scaled and rounded as binary32
//! arithmetic does it.
use crate::level::{Binary32, INFINITY_32, SIGN_32};
use crate::number::{capped, lemma_pow2_monotone, lemma_pow2_step, nearest_whole, round_to_whole};
use crate::order::{lemma_nearest_wholes_are_ordered, lemma_order_in_units};
use crate::single::{
    lemma_24_bits_are_exact, lemma_gain_keeps_order, lemma_grains_are_ordered, lemma_negated_grains,
    lemma_negated_quotient, lemma_nearest_error,
    lemma_one_is_many_grains, lemma_one_is_neutral, lemma_single_scales,
    lemma_small_wholes_are_exact, lemma_sum_commutes, lemma_whole_is_finite, nearest_single,
    negated, product_32, quotient_32, whole_32, ONE_BITS, TWO_23, TWO_24,
};
use vstd::arithmetic::power2::{lemma_pow2_adds, pow2};
use vstd::prelude::*;

verus! {

/// The largest 16-bit sample.
pub const FULL_SCALE: u32 = 32767;

/// The largest 16-bit sample, as a binary32 pattern.
pub const FULL_SCALE_BITS: u32 = 0x46FF_FE00;

/// A magnitude at full scale: its binary32 product with the largest sample,
/// rounded to a whole number; what is beyond one is the largest sample.
pub open spec fn scaled_magnitude(x: Binary32) -> nat {
    if x.bits % SIGN_32 >= ONE_BITS {
        FULL_SCALE as nat
    } else {
        let p = product_32(x.magnitude(), Binary32 { bits: FULL_SCALE_BITS });
        capped(nearest_whole(p.value()), FULL_SCALE as nat)
    }
}

/// A sample as 16-bit PCM; what is not a number is silence.
pub open spec fn pcm_value(x: Binary32) -> int {
    if x.is_nan() {
        0
    } else if x.bits >= SIGN_32 {
        -scaled_magnitude(x)
    } else {
        scaled_magnitude(x) as int
    }
}

/// Convert a normalized sample to 16-bit PCM, clamping to avoid wrap-around.
pub fn pcm_sample(x: Binary32) -> (r: i16)
    ensures
        r == pcm_value(x),
{
    let magnitude: u32 = x.bits % SIGN_32;
    if magnitude > INFINITY_32 {
        return 0;
    }
    let scaled: i16 = if magnitude >= ONE_BITS {
        32767
    } else {
        let p = x.abs().times(Binary32 { bits: FULL_SCALE_BITS });
        let (units, power) = p.parts();
        let whole: u64 = round_to_whole(units as u128, power as i32 - 149);
        if whole > FULL_SCALE as u64 {
            32767
        } else {
            whole as i16
        }
    };
    if x.bits >= SIGN_32 {
        -scaled
    } else {
        scaled
    }
}

/// An integer sample of so many bits as a value between minus one and one: its
/// share of the power of two that the bits stand for.
pub open spec fn decoded_value(sample: int, bits: nat) -> Binary32 {
    let full = whole_32(pow2((bits - 1) as nat));
    if sample < 0 {
        quotient_32(negated(whole_32((-sample) as nat)), full)
    } else {
        quotient_32(whole_32(sample as nat), full)
    }
}

/// Convert an integer sample of a WAV file to a normalized sample.
pub fn decoded_sample(sample: i32, bits: u16) -> (r: Binary32)
    requires
        1 <= bits <= 32,
    ensures
        r == decoded_value(sample as int, bits as nat),
{
    let mut full: u64 = 1;
    let mut k: u16 = 1;
    proof {
        lemma_pow2_step(0);
        vstd::arithmetic::power2::lemma2_to64();
    }
    while k < bits
        invariant
            1 <= k <= bits <= 32,
            full == pow2((k - 1) as nat),
            pow2(31) == 0x8000_0000,
        decreases bits - k,
    {
        proof {
            lemma_pow2_step((k - 1) as nat);
            crate::number::lemma_pow2_monotone(k as nat, 31);
        }
        full = full * 2;
        k += 1;
    }
    let most = Binary32::from_whole(full);
    if sample < 0 {
        Binary32::from_whole((-(sample as i64)) as u64).negative().over(most)
    } else {
        Binary32::from_whole(sample as u64).over(most)
    }
}

/// A sample stays within the 16-bit range, silence stays silence, and a sample and
/// its negative are as loud.
#[verifier::rlimit(50)]
pub proof fn lemma_pcm_is_limited(x: Binary32, y: Binary32)
    requires
        x.bits < SIGN_32,
        y.bits == x.bits + SIGN_32,
    ensures
        -FULL_SCALE <= pcm_value(x) <= FULL_SCALE,
        pcm_value(y) == -pcm_value(x),
        x.bits == 0 ==> pcm_value(x) == 0,
{
    if x.bits == 0 {
        let full = Binary32 { bits: FULL_SCALE_BITS };
        crate::single::lemma_zero_silences(full);
        crate::single::lemma_sum_commutes(x, full);
        lemma_pow2_step(148);
        vstd::arithmetic::div_mod::lemma_basic_div(pow2(148) as int, pow2(149) as int);
    }
}

/// A louder magnitude is no smaller at full scale.
#[verifier::spinoff_prover]
#[verifier::rlimit(60)]
proof fn lemma_scaled_is_ordered(x: Binary32, y: Binary32)
    requires
        x.magnitude().bits <= y.magnitude().bits,
        !y.is_nan(),
    ensures
        scaled_magnitude(x) <= scaled_magnitude(y) <= FULL_SCALE,
{
    if y.magnitude().bits < ONE_BITS {
        let full = Binary32 { bits: FULL_SCALE_BITS };
        let p = product_32(x.magnitude(), full);
        let q = product_32(y.magnitude(), full);
        lemma_gain_keeps_order(x.magnitude(), y.magnitude(), full);
        lemma_gain_keeps_order(y.magnitude(), Binary32 { bits: ONE_BITS }, full);
        lemma_one_is_neutral(full);
        lemma_sum_commutes(Binary32 { bits: ONE_BITS }, full);
        lemma_grains_are_ordered(p, q);
        lemma_order_in_units(p.value(), q.value(), -149);
        lemma_nearest_wholes_are_ordered(p.value(), q.value());
    }
}

/// A greater sample never gives a smaller PCM value.
pub proof fn lemma_pcm_keeps_order(x: Binary32, y: Binary32)
    requires
        y.at_least(x),
    ensures
        pcm_value(x) <= pcm_value(y),
{
    if x.bits < SIGN_32 && y.bits < SIGN_32 {
        lemma_scaled_is_ordered(x, y);
    } else if x.bits >= SIGN_32 && y.bits >= SIGN_32 {
        lemma_scaled_is_ordered(y, x);
    } else if x.bits < SIGN_32 {
        lemma_pcm_is_limited(x, y);
    }
}

/// A sample between minus one and one that is written as 16-bit PCM and read back
/// is off by no more than one part in `2^14`, which is less than a thousandth.
#[verifier::rlimit(50)]
pub proof fn lemma_pcm_is_read_back(x: Binary32)
    requires
        x.magnitude().bits <= ONE_BITS,
    ensures
        ({
            let off = decoded_value(pcm_value(x), 16).signed_grains() - x.signed_grains();
            &&& off * 0x4000 <= pow2(149) && -off * 0x4000 <= pow2(149)
            &&& off * 1000 < pow2(149) && -off * 1000 < pow2(149)
        }),
{
    let c = pow2(149);
    let w = scaled_magnitude(x);
    let y = decoded_value(pcm_value(x), 16);
    lemma_pow2_step(149);
    lemma_scaled_is_near(x);
    lemma_decoded_is_exact(w);
    lemma_grains_are_ordered(x, x);
    let d = pow2(134);
    lemma_pow2_adds(15, 134);
    vstd::arithmetic::power2::lemma2_to64();
    let g = x.grains();
    assert(w * c == 0x8000 * (w * d)) by (nonlinear_arith)
        requires
            c == 0x8000 * d,
    ;
    assert(g <= c) by {
        lemma_grains_are_ordered(x, Binary32 { bits: ONE_BITS });
        lemma_one_is_many_grains();
    }
    lemma_step_is_small((w * d) as int, g as int, c as int);
    lemma_decoded_sign(w);
    if x.bits >= SIGN_32 {
        assert(y.signed_grains() == -(w * d));
    } else {
        assert(y.signed_grains() == w * d);
    }
}

/// What is off by five eighths of a step of full scale is off by little.
proof fn lemma_step_is_small(w: int, g: int, c: int)
    requires
        0 <= g <= c,
        0 < c,
        8 * (0x8000 * w - FULL_SCALE * g) <= 5 * c,
        -8 * (0x8000 * w - FULL_SCALE * g) <= 5 * c,
    ensures
        (w - g) * 0x4000 <= c,
        -(w - g) * 0x4000 <= c,
        (w - g) * 1000 < c,
        -(w - g) * 1000 < c,
{
}

/// A sample at full scale is within a little more than half a step of its exact
/// share.
#[verifier::rlimit(50)]
proof fn lemma_scaled_is_near(x: Binary32)
    requires
        x.magnitude().bits <= ONE_BITS,
    ensures
        ({
            let c = pow2(149);
            let e = scaled_magnitude(x) * c - FULL_SCALE * x.grains();
            &&& 8 * e <= 5 * c && -8 * e <= 5 * c
            &&& scaled_magnitude(x) <= FULL_SCALE
        }),
{
    let c = pow2(149);
    let full = Binary32 { bits: FULL_SCALE_BITS };
    let one = Binary32 { bits: ONE_BITS };
    let w = scaled_magnitude(x);
    let g = x.grains();
    lemma_pow2_step(149);
    lemma_one_is_many_grains();
    lemma_grains_are_ordered(x, one);
    if x.magnitude().bits == ONE_BITS {
        lemma_grains_are_ordered(one, x);
        assert(g == c);
    } else {
        let p = product_32(x.magnitude(), full);
        let v = p.grains();
        lemma_full_scale_grains();
        lemma_gain_keeps_order(x.magnitude(), one, full);
        lemma_gain_keeps_order(x.magnitude(), x.magnitude(), full);
        lemma_one_is_neutral(full);
        lemma_sum_commutes(one, full);
        assert(p.bits <= FULL_SCALE_BITS);
        assert(x.magnitude().grains() == g);
        lemma_nearest_error(g * full.grains(), c, p);
        assert(g * (FULL_SCALE * c) == (FULL_SCALE * g) * c) by (nonlinear_arith);
        assert((v - FULL_SCALE * g) * TWO_24 <= FULL_SCALE * g + TWO_23 && (FULL_SCALE * g - v) * TWO_24
            <= FULL_SCALE * g + TWO_23) by (nonlinear_arith)
            requires
                (v * c - (FULL_SCALE * g) * c) * TWO_24 <= (FULL_SCALE * g) * c + TWO_23 * c,
                ((FULL_SCALE * g) * c - v * c) * TWO_24 <= (FULL_SCALE * g) * c + TWO_23 * c,
                c > 0,
        ;
        lemma_rounded_to_whole(p);
        lemma_pow2_monotone(40, 149);
        vstd::arithmetic::power2::lemma2_to64_rest();
    }
}

/// Full scale is its whole number of ones.
proof fn lemma_full_scale_grains()
    ensures
        (Binary32 { bits: FULL_SCALE_BITS }).grains() == FULL_SCALE * pow2(149),
{
    let full = Binary32 { bits: FULL_SCALE_BITS };
    vstd::arithmetic::power2::lemma2_to64();
    lemma_pow2_adds(9, 140);
    assert(full.value().units == 0xFF_FE00 && full.value().exponent == -9);
    assert(0xFF_FE00 * pow2(140) == 32767 * (0x200 * pow2(140))) by (nonlinear_arith);
}

/// Rounding a value of at most full scale to a whole number is off by at most half.
proof fn lemma_rounded_to_whole(p: Binary32)
    requires
        p.bits <= FULL_SCALE_BITS,
    ensures
        ({
            let c = pow2(149);
            let w = nearest_whole(p.value());
            &&& 2 * (w * c - p.grains()) <= c && 2 * (p.grains() - w * c) <= c
            &&& w <= FULL_SCALE
        }),
{
    let c = pow2(149);
    let v = p.value();
    let w = nearest_whole(v);
    let e = (-v.exponent) as nat;
    assert(-149 <= v.exponent <= -9);
    let low = pow2((149 - e) as nat);
    let unit = pow2(e);
    let half = pow2((e - 1) as nat);
    lemma_pow2_step((e - 1) as nat);
    lemma_pow2_step((149 - e) as nat);
    lemma_pow2_step(149);
    lemma_pow2_adds((149 - e) as nat, e);
    assert(p.grains() == v.units * low);
    vstd::arithmetic::div_mod::lemma_fundamental_div_mod((v.units + half) as int, unit as int);
    let rest = (v.units + half) % unit;
    assert(unit * w + rest == v.units + half);
    assert(2 * (w * unit - v.units) <= unit && 2 * (v.units - w * unit) <= unit) by {
        assert(unit * w == w * unit) by (nonlinear_arith);
    }
    assert(2 * (w * c - v.units * low) <= c && 2 * (v.units * low - w * c) <= c) by (nonlinear_arith)
        requires
            c == low * unit,
            2 * (w * unit - v.units) <= unit,
            2 * (v.units - w * unit) <= unit,
            low > 0,
    ;
    lemma_full_scale_grains();
    lemma_grains_are_ordered(p, Binary32 { bits: FULL_SCALE_BITS });
    assert(w <= 32767) by (nonlinear_arith)
        requires
            2 * (w * c - p.grains()) <= c,
            p.grains() <= 32767 * c,
            c > 0,
    ;
}

/// A 16-bit sample is decoded without rounding.
proof fn lemma_decoded_is_exact(w: nat)
    requires
        w <= FULL_SCALE,
    ensures
        decoded_value(w as int, 16).bits < INFINITY_32,
        decoded_value(w as int, 16).grains() == w * pow2(134),
{
    let (a, b) = (whole_32(w), whole_32(0x8000));
    let (c, d) = (pow2(149), pow2(134));
    vstd::arithmetic::power2::lemma2_to64();
    lemma_pow2_step(149);
    lemma_pow2_step(134);
    lemma_pow2_adds(15, 134);
    lemma_small_wholes_are_exact(w);
    lemma_small_wholes_are_exact(0x8000);
    lemma_whole_is_finite(w as u64);
    lemma_whole_is_finite(0x8000);
    let x = decoded_value(w as int, 16);
    assert(x == quotient_32(a, b));
    assert(a.grains() * c == (w * d) * (0x8000 * c)) by (nonlinear_arith)
        requires
            a.grains() == w * c,
            c == 0x8000 * d,
    ;
    lemma_single_scales(w * d, 1, 0x8000 * c);
    assert(1 * (0x8000 * c) == 0x8000 * c);
    assert(x.bits == nearest_single(w * d, 1));
    lemma_24_bits_are_exact(w, 134, x);
}

/// A 16-bit sample and its negative are decoded to the two signs of one magnitude.
proof fn lemma_decoded_sign(w: nat)
    requires
        w <= FULL_SCALE,
    ensures
        decoded_value(w as int, 16).signed_grains() == w * pow2(134),
        decoded_value(-w, 16).signed_grains() == -(w * pow2(134)),
{
    lemma_decoded_is_exact(w);
    let (a, b) = (whole_32(w), whole_32(0x8000));
    vstd::arithmetic::power2::lemma2_to64();
    lemma_whole_is_finite(w as u64);
    lemma_whole_is_finite(0x8000);
    if w > 0 {
        lemma_negated_quotient(a, b);
        lemma_negated_grains(decoded_value(w as int, 16));
    } else {
        assert(0 * pow2(134) == 0);
    }
}

} // verus!
