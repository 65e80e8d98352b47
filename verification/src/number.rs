//! Numbers as IEEE 754 binary64 patterns, and the few operations on them
//! that lengths, times and displayed shares are made of.
//!
//! A finite non-negative value is `units * 2^exponent` for whole `units`. The
//! operations round as binary64 arithmetic does: to 53 significant bits, ties
//! to even.
use crate::digits::decimal_of_shifted;
use crate::text::{decimal, decimal_text, pad_left, padded_left};
use vstd::arithmetic::div_mod::lemma_div_denominator;
use vstd::arithmetic::power2::{lemma_pow2_pos, lemma_pow2_unfold, pow2};
use vstd::prelude::*;

verus! {

/// The pattern of positive infinity.
pub const INFINITY: u64 = 0x7FF0_0000_0000_0000;

/// The first pattern with the sign bit set, that of negative zero.
pub const SIGN: u64 = 0x8000_0000_0000_0000;

/// `2^52`.
pub const TWO_52: u64 = 0x10_0000_0000_0000;

/// `2^53`.
pub const TWO_53: u64 = 0x20_0000_0000_0000;

/// A binary64 value, by its pattern.
#[derive(Copy, Clone, Debug, PartialEq, Eq, Structural)]
pub struct Binary64 {
    /// The sign bit, the exponent field and the fraction field.
    pub bits: u64,
}

/// A number as it was given: its value, and the text that shows it.
#[derive(Debug)]
pub struct Number {
    /// The value.
    pub value: Binary64,
    /// The value in decimal, as messages and file names show it.
    pub text: String,
}

/// A non-negative value `units * 2^exponent`.
#[derive(Copy, Clone, Debug, PartialEq, Eq, Structural)]
pub struct Dyadic {
    /// How many times `2^exponent`.
    pub units: u64,
    /// The power of two that one unit is worth.
    pub exponent: i32,
}

/// A non-negative value `units * 2^exponent`, without bounds.
#[verifier::ext_equal]
pub struct Value {
    /// How many times `2^exponent`.
    pub units: nat,
    /// The power of two that one unit is worth.
    pub exponent: int,
}

impl View for Dyadic {
    type V = Value;

    open spec fn view(&self) -> Value {
        Value { units: self.units as nat, exponent: self.exponent as int }
    }
}

/// The multiple of `unit` nearest to `n`; of two equally near ones the even multiple.
pub open spec fn nearest_multiple(n: nat, unit: nat) -> nat {
    let q = n / unit;
    let r = n % unit;
    if 2 * r < unit || (2 * r == unit && q % 2 == 0) {
        q * unit
    } else {
        (q + 1) * unit
    }
}

/// How many low bits `n` has beyond its 53 leading ones.
pub open spec fn excess_bits(n: nat) -> nat
    decreases n,
{
    if n < TWO_53 {
        0
    } else {
        1 + excess_bits(n / 2)
    }
}

/// `n` rounded to 53 significant bits, ties to even.
pub open spec fn to_53_bits(n: nat) -> nat {
    nearest_multiple(n, pow2(excess_bits(n)))
}

/// The whole part of a value.
pub open spec fn whole_part(v: Value) -> nat {
    if v.exponent >= 0 {
        v.units * pow2(v.exponent as nat)
    } else {
        v.units / pow2((-v.exponent) as nat)
    }
}

/// The whole number nearest to a value; a half goes up.
pub open spec fn nearest_whole(v: Value) -> nat {
    if v.exponent >= 0 {
        v.units * pow2(v.exponent as nat)
    } else {
        (v.units + pow2((-v.exponent - 1) as nat)) / pow2((-v.exponent) as nat)
    }
}

impl Binary64 {
    /// The exponent field.
    pub open spec fn exponent_field(self) -> nat {
        ((self.bits / TWO_52) % 2048) as nat
    }

    /// Whether the pattern is not a number.
    pub open spec fn is_nan(self) -> bool {
        self.bits % SIGN > INFINITY
    }

    /// Whether the value is greater than zero.
    pub open spec fn is_positive(self) -> bool {
        !self.is_nan() && self.bits < SIGN && self.bits > 0
    }

    /// Whether the value is zero or greater; negative zero is zero.
    pub open spec fn is_non_negative(self) -> bool {
        !self.is_nan() && self.bits <= SIGN
    }

    /// The whole number `m` of a magnitude `m * 2^e`.
    pub open spec fn mantissa(self) -> nat {
        if self.exponent_field() == 0 {
            (self.bits % TWO_52) as nat
        } else {
            (self.bits % TWO_52 + TWO_52) as nat
        }
    }

    /// The exponent `e` of a magnitude `m * 2^e`.
    pub open spec fn exponent(self) -> int {
        if self.exponent_field() == 0 {
            -1074
        } else {
            self.exponent_field() - 1075
        }
    }

    /// The magnitude.
    pub open spec fn value(self) -> Value {
        Value { units: self.mantissa(), exponent: self.exponent() }
    }

    /// The value times `factor` as a binary64 product, rounded to a whole number.
    pub open spec fn scaled(self, factor: nat) -> nat {
        nearest_whole(
            Value { units: to_53_bits(self.mantissa() * factor), exponent: self.exponent() },
        )
    }

    /// Whether the value is greater than zero.
    pub fn positive(self) -> (r: bool)
        ensures
            r == self.is_positive(),
    {
        0 < self.bits && self.bits <= INFINITY
    }

    /// Whether the value is zero or greater.
    pub fn non_negative(self) -> (r: bool)
        ensures
            r == self.is_non_negative(),
    {
        self.bits <= INFINITY || self.bits == SIGN
    }

    /// Takes the magnitude apart.
    pub fn decode(self) -> (r: Dyadic)
        ensures
            r@ == self.value(),
            r.units < TWO_53,
            -1074 <= r.exponent <= 972,
    {
        let field: u64 = (self.bits / TWO_52) % 2048;
        let fraction: u64 = self.bits % TWO_52;
        if field == 0 {
            Dyadic { units: fraction, exponent: -1074 }
        } else {
            Dyadic { units: fraction + TWO_52, exponent: field as i32 - 1075 }
        }
    }
}

/// Powers of two grow, and are the usual small numbers.
pub(crate) proof fn lemma_pow2_step(k: nat)
    ensures
        pow2(k + 1) == 2 * pow2(k),
        pow2(k) > 0,
        pow2(0) == 1,
{
    lemma_pow2_pos(k);
    lemma_pow2_unfold(k + 1);
    vstd::arithmetic::power2::lemma2_to64();
}

/// Rounding to 53 bits at most doubles, and leaves zero alone.
pub proof fn lemma_to_53_bits_bound(n: nat)
    ensures
        to_53_bits(n) <= 2 * n,
        n < TWO_53 ==> to_53_bits(n) == n,
{
    let unit = pow2(excess_bits(n));
    lemma_excess_unit(n);
    lemma_pow2_step(0);
    if n >= TWO_53 {
        let q = n / unit;
        assert(q * unit + n % unit == n && q >= 1) by (nonlinear_arith)
            requires
                unit > 0,
                n >= unit,
                q == n / unit,
        ;
        assert((q + 1) * unit == q * unit + unit) by (nonlinear_arith);
        assert(q * unit >= unit) by (nonlinear_arith)
            requires
                q >= 1,
                unit > 0,
        ;
    } else {
        assert(n / 1 == n && n % 1 == 0);
    }
}

/// The unit that rounding uses is no larger than the number itself.
pub(crate) proof fn lemma_excess_unit(n: nat)
    ensures
        pow2(excess_bits(n)) > 0,
        n >= TWO_53 ==> pow2(excess_bits(n)) <= n,
    decreases n,
{
    lemma_pow2_step(excess_bits(n));
    if n >= TWO_53 {
        lemma_excess_unit(n / 2);
        lemma_pow2_step(excess_bits(n / 2));
        if n / 2 < TWO_53 {
            lemma_pow2_step(0);
        }
    }
}

/// A number below `2^(53 + k)` has at most `k` bits beyond the leading ones.
pub(crate) proof fn lemma_excess_bits_bound(n: nat, k: nat)
    requires
        n < TWO_53 * pow2(k),
    ensures
        excess_bits(n) <= k,
    decreases n,
{
    lemma_pow2_step(0);
    if n >= TWO_53 {
        if k == 0 {
            assert(n < TWO_53 * 1);
        } else {
            let half = pow2((k - 1) as nat);
            lemma_pow2_step((k - 1) as nat);
            assert(n / 2 < TWO_53 * half) by (nonlinear_arith)
                requires
                    n < TWO_53 * (2 * half),
            ;
            lemma_excess_bits_bound(n / 2, (k - 1) as nat);
        }
    }
}

/// The unit `2^k` that the last of the 53 leading bits of `n` is worth, and `k`.
fn last_leading_bit(n: u128) -> (r: (u128, u32))
    requires
        n < 0x100_0000_0000_0000_0000_0000_0000_0000,
    ensures
        r.1 == excess_bits(n as nat),
        r.0 == pow2(excess_bits(n as nat)),
        r.0 > 0,
        r.0 <= n || r.0 == 1,
        r.1 <= 120,
        n / r.0 < TWO_53,
{
    let mut unit: u128 = 1;
    let mut k: u32 = 0;
    proof {
        lemma_pow2_step(0);
        assert(n as nat / 1 == n);
    }
    while n / unit >= TWO_53 as u128
        invariant
            unit == pow2(k as nat),
            k < unit,
            unit > 0,
            unit <= n || unit == 1,
            n < 0x100_0000_0000_0000_0000_0000_0000_0000,
            k <= 120,
            excess_bits(n as nat) == k + excess_bits((n / unit) as nat),
        decreases n / unit,
    {
        proof {
            lemma_pow2_step(k as nat);
            lemma_div_denominator(n as int, unit as int, 2);
            assert(n / unit <= n && unit * 2 <= n) by (nonlinear_arith)
                requires
                    unit > 0,
                    n / unit >= 2,
            ;
            assert((n / unit) / 2 < n / unit);
            if k >= 120 {
                lemma_pow2_monotone(120, k as nat);
                vstd::arithmetic::power2::lemma2_to64_rest();
                vstd::arithmetic::power2::lemma_pow2_adds(60, 60);
            }
        }
        unit = unit * 2;
        k += 1;
    }
    (unit, k)
}

/// Rounds `n` to 53 significant bits.
pub fn round_to_53_bits(n: u128) -> (r: u128)
    requires
        n < 0x100_0000_0000_0000_0000_0000_0000_0000,
    ensures
        r == to_53_bits(n as nat),
        r <= 2 * n,
{
    let (unit, _k) = last_leading_bit(n);
    let q: u128 = n / unit;
    let rest: u128 = n % unit;
    proof {
        lemma_to_53_bits_bound(n as nat);
        assert(q * unit <= n && (q + 1) * unit == q * unit + unit) by (nonlinear_arith)
            requires
                unit > 0,
                q == n / unit,
        ;
    }
    if 2 * rest < unit || (2 * rest == unit && q % 2 == 0) {
        q * unit
    } else {
        (q + 1) * unit
    }
}

/// A whole number as the nearest value of 53 significant bits.
pub open spec fn whole_value(n: nat) -> Value {
    Value {
        units: to_53_bits(n) / pow2(excess_bits(n)),
        exponent: excess_bits(n) as int,
    }
}

/// The binary64 product of two values, within the range of the exponents.
pub open spec fn product(a: Value, b: Value) -> Value {
    let p = whole_value(a.units * b.units);
    Value { units: p.units, exponent: p.exponent + a.exponent + b.exponent }
}

/// The binary64 sum of two values, within the range of the exponents.
pub open spec fn sum(a: Value, b: Value) -> Value {
    let low = if a.exponent <= b.exponent {
        a.exponent
    } else {
        b.exponent
    };
    let p = whole_value(
        a.units * pow2((a.exponent - low) as nat) + b.units * pow2((b.exponent - low) as nat),
    );
    Value { units: p.units, exponent: p.exponent + low }
}

/// How often `a` is doubled until it reaches `b`.
pub open spec fn doublings(a: nat, b: nat) -> nat
    decreases
            (if a < b {
                b - a
            } else {
                0
            }),
{
    if a == 0 || a >= b {
        0
    } else {
        1 + doublings(2 * a, b)
    }
}

/// The binary64 quotient of two values, within the range of the exponents.
pub open spec fn quotient(a: Value, b: Value) -> Value {
    let k = doublings(a.units, b.units * (TWO_52 as nat));
    Value {
        units: nearest_multiple(a.units * pow2(k), b.units) / b.units,
        exponent: a.exponent - b.exponent - k,
    }
}

/// Rounding to 53 bits makes nothing of nothing only.
pub proof fn lemma_whole_value_positive(n: nat)
    requires
        n > 0,
    ensures
        whole_value(n).units > 0,
{
    let unit = pow2(excess_bits(n));
    lemma_excess_unit(n);
    let q = n / unit;
    if n >= TWO_53 {
        assert(q >= 1) by (nonlinear_arith)
            requires
                unit > 0,
                n >= unit,
                q == n / unit,
        ;
    } else {
        lemma_pow2_step(0);
        assert(n / 1 == n);
    }
    vstd::arithmetic::div_mod::lemma_div_by_multiple(q as int, unit as int);
    vstd::arithmetic::div_mod::lemma_div_by_multiple((q + 1) as int, unit as int);
}

impl Dyadic {
    /// The value of a whole number, to 53 significant bits.
    pub fn from_whole(n: u128) -> (r: Dyadic)
        requires
            n < 0x100_0000_0000_0000_0000_0000_0000_0000,
        ensures
            r@ == whole_value(n as nat),
            r.units <= TWO_53,
            0 <= r.exponent <= 121,
            n <= u64::MAX ==> r.exponent <= 11,
            n <= 0x400_0000_0000_0000_0000_0000_0000 ==> r.exponent <= 54,
    {
        proof {
            vstd::arithmetic::power2::lemma2_to64();
            vstd::arithmetic::power2::lemma2_to64_rest();
            if n <= u64::MAX {
                lemma_excess_bits_bound(n as nat, 11);
            }
            if n <= 0x400_0000_0000_0000_0000_0000_0000 {
                lemma_excess_bits_bound(n as nat, 54);
            }
        }
        let (unit, k) = last_leading_bit(n);
        let q: u128 = n / unit;
        let rest: u128 = n % unit;
        proof {
            vstd::arithmetic::div_mod::lemma_div_by_multiple(q as int, unit as int);
            vstd::arithmetic::div_mod::lemma_div_by_multiple(q + 1, unit as int);
        }
        if 2 * rest < unit || (2 * rest == unit && q % 2 == 0) {
            Dyadic { units: q as u64, exponent: k as i32 }
        } else {
            Dyadic { units: (q + 1) as u64, exponent: k as i32 }
        }
    }

    /// The product of two values.
    pub fn times(self, other: Dyadic) -> (r: Dyadic)
        requires
            self.units <= TWO_53,
            other.units <= TWO_53,
            -0x1000_0000 <= self.exponent <= 0x1000_0000,
            -0x1000_0000 <= other.exponent <= 0x1000_0000,
        ensures
            r@ == product(self@, other@),
            r.units <= TWO_53,
            self.exponent + other.exponent <= r.exponent <= self.exponent + other.exponent + 54,
    {
        proof {
            assert(self.units * other.units <= 0x20_0000_0000_0000 * 0x20_0000_0000_0000)
                by (nonlinear_arith)
                requires
                    self.units <= 0x20_0000_0000_0000,
                    other.units <= 0x20_0000_0000_0000,
            ;
        }
        let p = Dyadic::from_whole(self.units as u128 * other.units as u128);
        Dyadic { units: p.units, exponent: p.exponent + self.exponent + other.exponent }
    }

    /// The sum of two values of which the first has no smaller unit.
    pub fn plus(self, other: Dyadic) -> (r: Dyadic)
        requires
            self.units <= TWO_53,
            other.units <= TWO_53,
            -0x1000_0000 <= other.exponent <= self.exponent <= other.exponent + 66,
            self.exponent <= 0x1000_0000,
        ensures
            r@ == sum(self@, other@),
            r.units <= TWO_53,
            other.exponent <= r.exponent <= other.exponent + 121,
    {
        let shift: u128 = power_of_two((self.exponent - other.exponent) as u32);
        proof {
            lemma_pow2_step(0);
            lemma_pow2_monotone((self.exponent - other.exponent) as nat, 66);
            vstd::arithmetic::power2::lemma2_to64();
            lemma_pow2_step(64);
            lemma_pow2_step(65);
            assert(self.units * shift <= 0x20_0000_0000_0000 * 0x4_0000_0000_0000_0000)
                by (nonlinear_arith)
                requires
                    self.units <= 0x20_0000_0000_0000,
                    shift <= 0x4_0000_0000_0000_0000,
            ;
            assert(other.units * 1 == other.units);
            if self.exponent == other.exponent {
                assert(self.units * 1 == self.units);
            }
        }
        let p = Dyadic::from_whole(self.units as u128 * shift + other.units as u128);
        Dyadic { units: p.units, exponent: p.exponent + other.exponent }
    }

    /// The quotient of two values.
    pub fn over(self, other: Dyadic) -> (r: Dyadic)
        requires
            self.units <= TWO_53,
            0 < other.units <= TWO_53,
            -0x1000_0000 <= self.exponent <= 0x1000_0000,
            -0x1000_0000 <= other.exponent <= 0x1000_0000,
        ensures
            r@ == quotient(self@, other@),
            r.units <= TWO_53,
            self.exponent - other.exponent - 121 <= r.exponent <= self.exponent - other.exponent,
            self.units > 0 ==> r.units >= TWO_52,
            self.units == 0 ==> r.units == 0,
    {
        let n: u128 = other.units as u128;
        let goal: u128 = n * TWO_52 as u128;
        let mut m: u128 = self.units as u128;
        let mut k: i32 = 0;
        let ghost all = doublings(self.units as nat, goal as nat);
        proof {
            lemma_pow2_step(0);
            assert(self.units * 1 == self.units);
        }
        while m != 0 && m < goal
            invariant
                0 <= k <= 120,
                goal == n * 0x10_0000_0000_0000,
                1 <= n <= 0x20_0000_0000_0000,
                self.units <= 0x20_0000_0000_0000,
                m == self.units * pow2(k as nat),
                k > 0 ==> m < 2 * goal,
                self.units > 0 ==> pow2(k as nat) <= m && m > 0,
                self.units == 0 ==> m == 0,
                all == k + doublings(m as nat, goal as nat),
            decreases 2 * goal - m,
        {
            proof {
                let half = pow2(k as nat);
                lemma_pow2_step(k as nat);
                assert(self.units * (2 * half) == 2 * (self.units * half)) by (nonlinear_arith);
                if k >= 120 {
                    vstd::arithmetic::power2::lemma2_to64_rest();
                    vstd::arithmetic::power2::lemma_pow2_adds(60, 60);
                }
            }
            m = m * 2;
            k += 1;
        }
        let q: u128 = m / n;
        let rest: u128 = m % n;
        proof {
            vstd::arithmetic::div_mod::lemma_div_by_multiple(q as int, n as int);
            vstd::arithmetic::div_mod::lemma_div_by_multiple(q + 1, n as int);
            assert(m < 0x20_0000_0000_0000 * n || (m == 0x20_0000_0000_0000 && n == 1));
            assert(q < 0x20_0000_0000_0000 || (q == 0x20_0000_0000_0000 && rest == 0))
                by (nonlinear_arith)
                requires
                    n >= 1,
                    q == m / n,
                    rest == m % n,
                    m < 0x20_0000_0000_0000 * n || (m == 0x20_0000_0000_0000 && n == 1),
            ;
            if self.units > 0 {
                assert(q >= 0x10_0000_0000_0000) by (nonlinear_arith)
                    requires
                        n >= 1,
                        q == m / n,
                        m >= n * 0x10_0000_0000_0000,
                ;
            } else {
                assert(0nat * pow2(k as nat) == 0);
                vstd::arithmetic::div_mod::lemma_div_of0(n as int);
            }
        }
        if 2 * rest < n || (2 * rest == n && q % 2 == 0) {
            Dyadic { units: q as u64, exponent: self.exponent - other.exponent - k }
        } else {
            Dyadic { units: (q + 1) as u64, exponent: self.exponent - other.exponent - k }
        }
    }

    /// The whole part, capped at the largest `u64`.
    pub fn floor(self) -> (r: u64)
        ensures
            r == capped(whole_part(self@), u64::MAX as nat),
    {
        if self.exponent >= 0 {
            round_to_whole(self.units as u128, self.exponent)
        } else if self.exponent < -100 {
            proof {
                lemma_pow2_monotone(100, (-self.exponent) as nat);
                vstd::arithmetic::power2::lemma2_to64_rest();
                vstd::arithmetic::power2::lemma_pow2_adds(50, 50);
                vstd::arithmetic::power2::lemma2_to64();
                vstd::arithmetic::div_mod::lemma_basic_div(
                    self.units as int,
                    pow2((-self.exponent) as nat) as int,
                );
            }
            0
        } else {
            let unit: u128 = power_of_two((-self.exponent) as u32);
            proof {
                assert(self.units as u128 / unit <= self.units) by (nonlinear_arith)
                    requires
                        unit >= 1,
                ;
            }
            (self.units as u128 / unit) as u64
        }
    }

    /// The nearest whole number, capped at the largest `u64`.
    pub fn nearest(self) -> (r: u64)
        ensures
            r == capped(nearest_whole(self@), u64::MAX as nat),
    {
        round_to_whole(self.units as u128, self.exponent)
    }
}

/// The larger power of two is the larger number.
pub(crate) proof fn lemma_pow2_monotone(a: nat, b: nat)
    requires
        a <= b,
    ensures
        0 < pow2(a) <= pow2(b),
    decreases b,
{
    lemma_pow2_step(a);
    if a < b {
        lemma_pow2_monotone(a, (b - 1) as nat);
        lemma_pow2_step((b - 1) as nat);
    }
}

/// `2^k`.
pub(crate) fn power_of_two(k: u32) -> (r: u128)
    requires
        k <= 100,
    ensures
        r == pow2(k as nat),
        0 < r <= 0x10_0000_0000_0000_0000_0000_0000,
{
    let mut r: u128 = 1;
    let mut i: u32 = 0;
    proof {
        lemma_pow2_step(0);
        vstd::arithmetic::power2::lemma2_to64();
        vstd::arithmetic::power2::lemma2_to64_rest();
        vstd::arithmetic::power2::lemma_pow2_adds(50, 50);
    }
    while i < k
        invariant
            i <= k <= 100,
            r == pow2(i as nat),
            pow2(100) == 0x10_0000_0000_0000_0000_0000_0000,
        decreases k - i,
    {
        proof {
            lemma_pow2_step(i as nat);
            lemma_pow2_monotone((i + 1) as nat, 100);
        }
        r = r * 2;
        i += 1;
    }
    proof {
        lemma_pow2_monotone(i as nat, 100);
    }
    r
}

/// `n`, or `max` where `n` is larger.
pub open spec fn capped(n: nat, max: nat) -> nat {
    if n <= max {
        n
    } else {
        max
    }
}

/// The whole number nearest to `units * 2^exponent`, capped at the largest `u64`.
pub fn round_to_whole(units: u128, exponent: i32) -> (r: u64)
    requires
        units < 0x100_0000_0000_0000_0000_0000,
    ensures
        r == capped(
            nearest_whole(Value { units: units as nat, exponent: exponent as int }),
            u64::MAX as nat,
        ),
{
    if exponent >= 0 {
        let mut value: u128 = units;
        let mut k: i32 = 0;
        proof {
            lemma_pow2_step(0);
            assert(units * 1 == units);
        }
        while k < exponent && value <= u64::MAX as u128
            invariant
                0 <= k <= exponent,
                value == units * pow2(k as nat),
                units < 0x100_0000_0000_0000_0000_0000,
                value <= u64::MAX || value <= 0x100_0000_0000_0000_0000_0000,
            decreases exponent - k,
        {
            proof {
                let half = pow2(k as nat);
                lemma_pow2_step(k as nat);
                assert(units * (2 * half) == 2 * (units * half)) by (nonlinear_arith);
            }
            value = value * 2;
            k += 1;
        }
        if value > u64::MAX as u128 {
            proof {
                let low = pow2(k as nat);
                let high = pow2(exponent as nat);
                lemma_pow2_monotone(k as nat, exponent as nat);
                assert(units * high >= units * low) by (nonlinear_arith)
                    requires
                        high >= low,
                        units >= 0,
                ;
            }
            u64::MAX
        } else {
            value as u64
        }
    } else if exponent < -100 {
        proof {
            let k = (-exponent) as nat;
            let half = pow2((k - 1) as nat);
            lemma_pow2_step((k - 1) as nat);
            lemma_pow2_monotone(100, (k - 1) as nat);
            vstd::arithmetic::power2::lemma2_to64_rest();
            vstd::arithmetic::power2::lemma2_to64();
            vstd::arithmetic::power2::lemma_pow2_adds(50, 50);
            assert((units + half) / (2 * half) as int == 0) by (nonlinear_arith)
                requires
                    0 <= units < half,
            ;
        }
        0
    } else {
        let half: u128 = power_of_two((-exponent - 1) as u32);
        proof {
            lemma_pow2_step((-exponent - 1) as nat);
        }
        let value: u128 = (units + half) / (2 * half);
        if value > u64::MAX as u128 {
            u64::MAX
        } else {
            value as u64
        }
    }
}

impl Binary64 {
    /// The value times `factor`, rounded to a whole number; a result beyond the
    /// largest `u64` is that one.
    pub fn scale(self, factor: u32) -> (r: u64)
        requires
            self.is_non_negative(),
        ensures
            r == capped(self.scaled(factor as nat), u64::MAX as nat),
    {
        let parts = self.decode();
        proof {
            assert(parts.units * factor < 0x20_0000_0000_0000 * 0x1_0000_0000) by (nonlinear_arith)
                requires
                    parts.units < 0x20_0000_0000_0000,
                    factor < 0x1_0000_0000,
            ;
        }
        let product: u128 = round_to_53_bits(parts.units as u128 * factor as u128);
        round_to_whole(product, parts.exponent)
    }
}

/// A power of ten.
pub open spec fn ten_to(places: nat) -> nat
    decreases places,
{
    if places == 0 {
        1
    } else {
        10 * ten_to((places - 1) as nat)
    }
}

/// A value in steps of `10^-places`: the nearest step, ties to even.
pub open spec fn decimal_steps(v: Value, places: nat) -> nat {
    if v.exponent >= 0 {
        v.units * pow2(v.exponent as nat) * ten_to(places)
    } else {
        let unit = pow2((-v.exponent) as nat);
        nearest_multiple(v.units * ten_to(places), unit) / unit
    }
}

/// A value in decimal with exactly `places` digits after the point.
pub open spec fn fixed_text(v: Value, places: nat) -> Seq<char> {
    let steps = decimal_steps(v, places);
    let whole = decimal(steps / ten_to(places));
    if places == 0 {
        whole
    } else {
        whole + "."@ + padded_left(decimal(steps % ten_to(places)), places, '0')
    }
}

/// The nearest whole number to `n / 2^k`, ties to even.
fn nearest_quotient(n: u128, k: u32) -> (r: u128)
    requires
        n < 0x1000_0000_0000_0000_0000,
        k > 0,
    ensures
        r == nearest_multiple(n as nat, pow2(k as nat)) / pow2(k as nat),
        2 * r <= n + 2,
{
    if k > 100 {
        proof {
            let unit = pow2(k as nat);
            lemma_pow2_monotone(100, k as nat);
            vstd::arithmetic::power2::lemma2_to64();
            vstd::arithmetic::power2::lemma2_to64_rest();
            vstd::arithmetic::power2::lemma_pow2_adds(50, 50);
            vstd::arithmetic::div_mod::lemma_basic_div(n as int, unit as int);
            vstd::arithmetic::div_mod::lemma_small_mod(n as nat, unit);
            assert(0nat * unit == 0);
            vstd::arithmetic::div_mod::lemma_div_of0(unit as int);
        }
        0
    } else {
        let unit: u128 = power_of_two(k);
        let q: u128 = n / unit;
        let rest: u128 = n % unit;
        proof {
            lemma_pow2_step((k - 1) as nat);
            assert(unit >= 2);
            assert(2 * q <= n) by (nonlinear_arith)
                requires
                    unit >= 2,
                    q == n / unit,
            ;
            vstd::arithmetic::div_mod::lemma_div_by_multiple(q as int, unit as int);
            vstd::arithmetic::div_mod::lemma_div_by_multiple(q + 1, unit as int);
        }
        if 2 * rest < unit || (2 * rest == unit && q % 2 == 0) {
            q
        } else {
            q + 1
        }
    }
}

/// `10^places`.
fn power_of_ten(places: u32) -> (r: u64)
    requires
        places <= 3,
    ensures
        r == ten_to(places as nat),
        1 <= r <= 1000,
{
    proof {
        reveal_with_fuel(ten_to, 4);
    }
    if places == 0 {
        1
    } else if places == 1 {
        10
    } else if places == 2 {
        100
    } else {
        1000
    }
}

impl Dyadic {
    /// Writes the value in decimal with exactly `places` digits after the point.
    pub fn fixed(self, places: u32) -> (r: String)
        requires
            places <= 3,
        ensures
            r@ == fixed_text(self@, places as nat),
    {
        let ten: u64 = power_of_ten(places);
        let mut s: String;
        let fraction: u64;
        if self.exponent >= 0 {
            s = decimal_of_shifted(self.units, self.exponent as u32);
            fraction = 0;
            proof {
                let whole = self.units as nat * pow2(self.exponent as nat);
                vstd::arithmetic::div_mod::lemma_div_by_multiple(whole as int, ten as int);
                vstd::arithmetic::div_mod::lemma_mod_multiples_basic(whole as int, ten as int);
            }
        } else {
            proof {
                assert(self.units * ten <= 0xFFFF_FFFF_FFFF_FFFF * 1000) by (nonlinear_arith)
                    requires
                        self.units <= 0xFFFF_FFFF_FFFF_FFFF,
                        ten <= 1000,
                ;
            }
            let n: u128 = self.units as u128 * ten as u128;
            let steps: u128 = nearest_quotient(n, (-(self.exponent as i64)) as u32);
            proof {
                assert(steps / ten as u128 <= u64::MAX) by (nonlinear_arith)
                    requires
                        2 * steps <= self.units * ten + 2,
                        ten >= 1,
                        self.units <= u64::MAX,
                ;
            }
            s = decimal_text((steps / ten as u128) as u64);
            fraction = (steps % ten as u128) as u64;
        }
        if places > 0 {
            s.append(".");
            let tail = decimal_text(fraction);
            let tail = pad_left(tail.as_str(), places as usize, '0');
            s.append(tail.as_str());
        }
        s
    }
}

impl Binary64 {
    /// A number that orders patterns as the values they stand for: the pattern
    /// without its sign bit, negated where that bit is set.
    pub open spec fn rank(self) -> int {
        if self.bits < SIGN {
            self.bits as int
        } else {
            SIGN - self.bits
        }
    }

    /// Whether both are numbers and this one is not less than the other.
    pub open spec fn at_least(self, other: Binary64) -> bool {
        !self.is_nan() && !other.is_nan() && self.rank() >= other.rank()
    }

    /// Whether this value is a number that reaches the other.
    pub fn reaches(self, other: Binary64) -> (r: bool)
        ensures
            r == self.at_least(other),
    {
        if self.bits % SIGN > INFINITY || other.bits % SIGN > INFINITY {
            false
        } else if self.bits < SIGN {
            if other.bits < SIGN {
                self.bits >= other.bits
            } else {
                true
            }
        } else if other.bits < SIGN {
            self.bits == SIGN && other.bits == 0
        } else {
            self.bits <= other.bits
        }
    }
}

} // verus!
