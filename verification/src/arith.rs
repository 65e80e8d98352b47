//! Arithmetic on binary64 patterns: products with whole numbers, sums, and the
//! texts that show them, rounded as the machine rounds them.
use crate::number::{
    excess_bits, fixed_text, lemma_excess_unit, lemma_pow2_monotone, lemma_pow2_step,
    product, quotient, sum, whole_value, Binary64, Dyadic, Value,
    INFINITY, SIGN, TWO_52, TWO_53,
};
use vstd::arithmetic::power2::pow2;
use vstd::prelude::*;

verus! {

/// A pattern that is not a number.
pub const NAN: u64 = 0x7FF8_0000_0000_0000;

/// Whether a value has at most 53 leading bits, with none missing above the
/// smallest unit.
pub open spec fn is_canonical(v: Value) -> bool {
    &&& v.units <= TWO_53
    &&& v.units > 0 ==> v.exponent >= -1074 && (v.units >= TWO_52 || v.exponent == -1074)
}

/// The pattern of a canonical value: infinity beyond the largest finite one.
pub open spec fn packed(v: Value) -> u64 {
    if v.units == 0 {
        0
    } else if v.exponent > 971 {
        INFINITY
    } else {
        ((v.exponent + 1074) * TWO_52 + v.units) as u64
    }
}

impl Dyadic {
    /// The value as a binary64 pattern.
    pub fn pack(self) -> (r: Binary64)
        requires
            is_canonical(self@),
        ensures
            r.bits == packed(self@),
            r.bits <= INFINITY,
    {
        if self.units == 0 {
            Binary64 { bits: 0 }
        } else if self.exponent > 971 {
            Binary64 { bits: INFINITY }
        } else {
            let field: u64 = (self.exponent + 1074) as u64;
            Binary64 { bits: field * TWO_52 + self.units }
        }
    }
}

/// Rounding a whole number leaves 53 leading bits, or the number itself where it
/// has no more.
pub(crate) proof fn lemma_whole_value_bounds(n: nat)
    ensures
        n >= TWO_52 ==> TWO_52 <= whole_value(n).units,
        whole_value(n).units <= TWO_53,
        n < TWO_53 ==> whole_value(n) == (Value { units: n, exponent: 0 }),
{
    let unit = pow2(excess_bits(n));
    lemma_excess_unit(n);
    lemma_leading_bits(n);
    let q = n / unit;
    vstd::arithmetic::div_mod::lemma_div_by_multiple(q as int, unit as int);
    vstd::arithmetic::div_mod::lemma_div_by_multiple((q + 1) as int, unit as int);
    if n < TWO_53 {
        lemma_pow2_step(0);
        assert(n / 1 == n && n % 1 == 0);
    }
}

/// The leading bits of a number are 53 wherever it has as many.
pub(crate) proof fn lemma_leading_bits(n: nat)
    ensures
        n / pow2(excess_bits(n)) < TWO_53,
        n >= TWO_52 ==> n / pow2(excess_bits(n)) >= TWO_52,
    decreases n,
{
    lemma_pow2_step(0);
    if n < TWO_53 {
        assert(n / 1 == n);
    } else {
        let k = excess_bits(n / 2);
        lemma_leading_bits(n / 2);
        lemma_pow2_step(k);
        vstd::arithmetic::div_mod::lemma_div_denominator(n as int, 2, pow2(k) as int);
    }
}

/// A number of 53 leading bits over a smaller rest has as many further bits as
/// the rest has room for.
proof fn lemma_excess_over_rest(a: nat, d: nat, rest: nat)
    requires
        TWO_52 <= a < TWO_53,
        rest < pow2(d),
    ensures
        excess_bits(a * pow2(d) + rest) == d,
    decreases d,
{
    lemma_pow2_step(0);
    if d == 0 {
        assert(a * 1 == a);
    } else {
        let half = pow2((d - 1) as nat);
        let n = a * pow2(d) + rest;
        lemma_pow2_step((d - 1) as nat);
        assert(a * (2 * half) == 2 * (a * half)) by (nonlinear_arith);
        assert(a * half >= a) by (nonlinear_arith)
            requires
                half >= 1,
        ;
        assert(n / 2 == a * half + rest / 2);
        lemma_excess_over_rest(a, (d - 1) as nat, rest / 2);
    }
}

/// Adding less than half of the last bit changes nothing.
pub(crate) proof fn lemma_small_addend(a: nat, d: nat, rest: nat)
    requires
        TWO_52 <= a < TWO_53,
        2 * rest < pow2(d),
    ensures
        whole_value(a * pow2(d) + rest) == (Value { units: a, exponent: d as int }),
{
    lemma_pow2_step(d);
    lemma_excess_over_rest(a, d, rest);
    let unit = pow2(d);
    let n = a * unit + rest;
    vstd::arithmetic::div_mod::lemma_fundamental_div_mod_converse(
        n as int,
        unit as int,
        a as int,
        rest as int,
    );
    vstd::arithmetic::div_mod::lemma_div_by_multiple(a as int, unit as int);
}

/// A canonical value of less than `2^53` units below infinity is decoded from its
/// pattern as it was packed.
pub proof fn lemma_packed_decodes(v: Value, x: Binary64)
    requires
        is_canonical(v),
        0 < v.units < TWO_53,
        v.exponent <= 971,
        x.bits == packed(v),
    ensures
        x.value() == v,
        x.bits < INFINITY,
{
    if v.units >= TWO_52 {
        let field = v.exponent + 1075;
        assert(x.bits == field * TWO_52 + (v.units - TWO_52));
        assert(x.bits / TWO_52 == field && x.bits % TWO_52 == v.units - TWO_52) by (nonlinear_arith)
            requires
                x.bits == field * 0x10_0000_0000_0000 + (v.units - 0x10_0000_0000_0000),
                0x10_0000_0000_0000 <= v.units < 0x20_0000_0000_0000,
                TWO_52 == 0x10_0000_0000_0000,
                field >= 0,
        ;
    }
}

/// Whether a pattern is an infinity.
pub open spec fn is_infinite(x: Binary64) -> bool {
    x.bits % SIGN == INFINITY
}

/// The sign bit of a pattern.
pub open spec fn sign_of(x: Binary64) -> u64 {
    if x.bits >= SIGN {
        SIGN
    } else {
        0
    }
}

/// A product with a whole number keeps the sign.
pub proof fn lemma_times_keeps_sign(x: Binary64, n: nat)
    ensures
        times_whole(x, n).is_nan() || sign_of(times_whole(x, n)) == sign_of(x),
{
    lemma_product_is_canonical(x, n);
}

/// The binary64 product of a pattern and a whole number.
pub open spec fn times_whole(x: Binary64, n: nat) -> Binary64 {
    if x.is_nan() || (is_infinite(x) && n == 0) {
        Binary64 { bits: NAN }
    } else if is_infinite(x) {
        x
    } else {
        Binary64 { bits: (sign_of(x) + packed(product(x.value(), whole_value(n)))) as u64 }
    }
}

/// The binary64 sum of two patterns of one sign.
pub open spec fn plus(x: Binary64, y: Binary64) -> Binary64 {
    if x.is_nan() || y.is_nan() {
        Binary64 { bits: NAN }
    } else if is_infinite(x) {
        x
    } else if is_infinite(y) {
        y
    } else {
        Binary64 { bits: (sign_of(x) + packed(sum(x.value(), y.value()))) as u64 }
    }
}

/// A decoded pattern is canonical, and 53 leading bits are less than `2^53`.
pub(crate) proof fn lemma_value_is_canonical(x: Binary64)
    ensures
        is_canonical(x.value()),
        x.value().units < TWO_53,
        x.value().exponent >= -1074,
        x.value().exponent > -1074 ==> x.value().units >= TWO_52,
{
}

/// A product with a whole number is canonical.
pub(crate) proof fn lemma_product_is_canonical(x: Binary64, n: nat)
    ensures
        is_canonical(product(x.value(), whole_value(n))),
{
    let v = x.value();
    let w = whole_value(n);
    lemma_value_is_canonical(x);
    lemma_whole_value_bounds(v.units * w.units);
    if n == 0 {
        lemma_whole_value_bounds(0);
        assert(v.units * 0 == 0);
        lemma_whole_value_bounds(0);
    } else if v.units == 0 {
        assert(0 * w.units == 0);
        lemma_whole_value_bounds(0);
    } else {
        crate::number::lemma_whole_value_positive(n);
        assert(v.units * w.units >= v.units && v.units * w.units >= w.units) by (nonlinear_arith)
            requires
                v.units >= 1,
                w.units >= 1,
        ;
        lemma_whole_value_bounds(n);
    }
}

/// A sum is canonical.
pub(crate) proof fn lemma_sum_is_canonical(x: Binary64, y: Binary64)
    ensures
        is_canonical(sum(x.value(), y.value())),
{
    let a = x.value();
    let b = y.value();
    lemma_value_is_canonical(x);
    lemma_value_is_canonical(y);
    let low = if a.exponent <= b.exponent {
        a.exponent
    } else {
        b.exponent
    };
    let p = a.units * pow2((a.exponent - low) as nat);
    let q = b.units * pow2((b.exponent - low) as nat);
    lemma_pow2_step((a.exponent - low) as nat);
    lemma_pow2_step((b.exponent - low) as nat);
    assert(p >= a.units) by (nonlinear_arith)
        requires
            p == a.units * pow2((a.exponent - low) as nat),
            pow2((a.exponent - low) as nat) >= 1,
    ;
    assert(q >= b.units) by (nonlinear_arith)
        requires
            q == b.units * pow2((b.exponent - low) as nat),
            pow2((b.exponent - low) as nat) >= 1,
    ;
    lemma_whole_value_bounds(p + q);
    if low == -1074 && p + q < TWO_52 {
        assert(sum(a, b) == (Value { units: p + q, exponent: low }));
    }
}

impl Dyadic {
    /// The sum of two values as decoded from patterns.
    fn add_decoded(self, other: Dyadic) -> (r: Dyadic)
        requires
            exists|x: Binary64| x.value() == self@,
            exists|x: Binary64| x.value() == other@,
        ensures
            r@ == sum(self@, other@),
    {
        proof {
            lemma_value_is_canonical(choose|x: Binary64| x.value() == self@);
            lemma_value_is_canonical(choose|x: Binary64| x.value() == other@);
        }
        let (high, low) = if self.exponent >= other.exponent {
            (self, other)
        } else {
            (other, self)
        };
        assert(sum(self@, other@) == sum(high@, low@));
        let d: i32 = high.exponent - low.exponent;
        if d <= 66 {
            high.plus(low)
        } else {
            proof {
                lemma_pow2_step(0);
                assert(low.units * 1 == low.units);
                lemma_pow2_monotone(66, d as nat);
                vstd::arithmetic::power2::lemma2_to64();
                lemma_pow2_step(64);
                lemma_pow2_step(65);
                lemma_small_addend(high.units as nat, d as nat, low.units as nat);
            }
            high
        }
    }
}

impl Binary64 {
    /// The product with a whole number.
    pub fn times(self, n: u64) -> (r: Binary64)
        ensures
            r == times_whole(self, n as nat),
            self.bits <= INFINITY && !(self.bits == INFINITY && n == 0) ==> r.bits <= INFINITY,
    {
        if self.bits % SIGN > INFINITY || (self.bits % SIGN == INFINITY && n == 0) {
            Binary64 { bits: NAN }
        } else if self.bits % SIGN == INFINITY {
            self
        } else {
            proof {
                lemma_product_is_canonical(self, n as nat);
            }
            let p = self.decode().times(Dyadic::from_whole(n as u128)).pack();
            if self.bits >= SIGN {
                Binary64 { bits: SIGN + p.bits }
            } else {
                p
            }
        }
    }

    /// The sum with a pattern of the same sign; what is not a number has none.
    pub fn after(self, other: Binary64) -> (r: Binary64)
        requires
            self.is_nan() || other.is_nan() || sign_of(self) == sign_of(other),
        ensures
            r == plus(self, other),
            self.bits <= INFINITY && other.bits <= INFINITY ==> r.bits <= INFINITY,
    {
        if self.bits % SIGN > INFINITY || other.bits % SIGN > INFINITY {
            Binary64 { bits: NAN }
        } else if self.bits % SIGN == INFINITY {
            self
        } else if other.bits % SIGN == INFINITY {
            other
        } else {
            proof {
                lemma_sum_is_canonical(self, other);
            }
            let p = self.decode().add_decoded(other.decode()).pack();
            if self.bits >= SIGN {
                Binary64 { bits: SIGN + p.bits }
            } else {
                p
            }
        }
    }
}

/// The text of a pattern with `places` digits after the point.
pub open spec fn shown(x: Binary64, places: nat) -> Seq<char> {
    if x.is_nan() {
        "NaN"@
    } else if is_infinite(x) {
        if x.bits >= SIGN {
            "-inf"@
        } else {
            "inf"@
        }
    } else if x.bits >= SIGN {
        "-"@ + fixed_text(x.value(), places)
    } else {
        fixed_text(x.value(), places)
    }
}

/// The text of a pattern divided by a whole number.
pub open spec fn shown_over(x: Binary64, d: nat, places: nat) -> Seq<char> {
    if x.is_nan() {
        "NaN"@
    } else if is_infinite(x) {
        if x.bits >= SIGN {
            "-inf"@
        } else {
            "inf"@
        }
    } else if x.bits >= SIGN {
        "-"@ + fixed_text(quotient(x.value(), whole_value(d)), places)
    } else {
        fixed_text(quotient(x.value(), whole_value(d)), places)
    }
}

impl Binary64 {
    /// Writes the value with `places` digits after the point.
    pub fn fixed(self, places: u32) -> (r: String)
        requires
            places <= 3,
        ensures
            r@ == shown(self, places as nat),
    {
        if self.bits % SIGN > INFINITY {
            "NaN".to_string()
        } else if self.bits % SIGN == INFINITY {
            if self.bits >= SIGN {
                "-inf".to_string()
            } else {
                "inf".to_string()
            }
        } else if self.bits >= SIGN {
            let mut s = "-".to_string();
            s.append(self.decode().fixed(places).as_str());
            s
        } else {
            self.decode().fixed(places)
        }
    }

    /// Writes the value divided by `d`, with `places` digits after the point.
    pub fn fixed_over(self, d: u64, places: u32) -> (r: String)
        requires
            places <= 3,
            d > 0,
        ensures
            r@ == shown_over(self, d as nat, places as nat),
    {
        if self.bits % SIGN > INFINITY {
            "NaN".to_string()
        } else if self.bits % SIGN == INFINITY {
            if self.bits >= SIGN {
                "-inf".to_string()
            } else {
                "inf".to_string()
            }
        } else {
            proof {
                crate::number::lemma_whole_value_positive(d as nat);
            }
            let magnitude = self.decode().over(Dyadic::from_whole(d as u128)).fixed(places);
            if self.bits >= SIGN {
                let mut s = "-".to_string();
                s.append(magnitude.as_str());
                s
            } else {
                magnitude
            }
        }
    }
}

} // verus!
