//! Arithmetic on samples: sums, products and quotients of binary32 patterns,
//! rounded as binary32 arithmetic does it, to 24 significant bits, ties to even.
//!
//! Every finite binary32 value is a whole number of grains of `2^-149`, the
//! smallest positive one. A result is the pattern nearest to a fraction of grains.
use crate::level::{Binary32, INFINITY_32, SIGN_32};
use crate::number::{lemma_pow2_monotone, lemma_pow2_step, power_of_two, Dyadic, Value};
use vstd::arithmetic::power2::{lemma_pow2_adds, pow2};
use vstd::prelude::*;

verus! {

/// `2^23`, the patterns from one power of two to the next.
pub const TWO_23: u32 = 0x80_0000;

/// `2^24`.
pub const TWO_24: u32 = 0x100_0000;

/// One, as a binary32 pattern.
pub const ONE_BITS: u32 = 0x3F80_0000;

/// A binary32 pattern that is not a number.
pub const NAN_32: u32 = 0x7FC0_0000;

/// How many low bits `n` has beyond its 24 leading ones.
pub open spec fn bits_beyond_24(n: nat) -> nat
    decreases n,
{
    if n < TWO_24 {
        0
    } else {
        1 + bits_beyond_24(n / 2)
    }
}

/// The whole number nearest to `p / q`; of two equally near ones the even one.
pub open spec fn nearest_quotient(p: nat, q: nat) -> nat {
    let low = p / q;
    let rest = p % q;
    if 2 * rest < q || (2 * rest == q && low % 2 == 0) {
        low
    } else {
        low + 1
    }
}

/// The pattern of the binary32 value nearest to `p / q` grains: infinity beyond
/// the largest finite one.
pub open spec fn nearest_single(p: nat, q: nat) -> nat {
    let k = bits_beyond_24(p / q);
    let pattern = k * TWO_23 as nat + nearest_quotient(p, q * pow2(k));
    if pattern < INFINITY_32 {
        pattern
    } else {
        INFINITY_32 as nat
    }
}

/// `2^s`, or one where `s` is negative.
pub open spec fn upward(s: int) -> nat {
    if s > 0 {
        pow2(s as nat)
    } else {
        1
    }
}

/// A fraction in other units is the same fraction.
pub(crate) proof fn lemma_quotient_scales(p: nat, q: nat, c: nat)
    requires
        q > 0,
        c > 0,
    ensures
        (p * c) / (q * c) == p / q,
        nearest_quotient(p * c, q * c) == nearest_quotient(p, q),
        q * c > 0,
{
    let low = p / q;
    let rest = p % q;
    assert(q * c > 0) by (nonlinear_arith)
        requires
            q > 0,
            c > 0,
    ;
    vstd::arithmetic::div_mod::lemma_fundamental_div_mod(p as int, q as int);
    assert(p * c == low * (q * c) + rest * c) by (nonlinear_arith)
        requires
            p == q * low + rest,
    ;
    assert(rest * c < q * c) by (nonlinear_arith)
        requires
            rest < q,
            c > 0,
    ;
    vstd::arithmetic::div_mod::lemma_fundamental_div_mod_converse(
        (p * c) as int,
        (q * c) as int,
        low as int,
        (rest * c) as int,
    );
    assert((2 * rest < q <==> 2 * (rest * c) < q * c) && (2 * rest == q <==> 2 * (rest * c) == q
        * c)) by (nonlinear_arith)
        requires
            c > 0,
    ;
}

/// The nearest pattern of a fraction in other units is the same.
pub(crate) proof fn lemma_single_scales(p: nat, q: nat, c: nat)
    requires
        q > 0,
        c > 0,
    ensures
        nearest_single(p * c, q * c) == nearest_single(p, q),
{
    lemma_quotient_scales(p, q, c);
    let k = bits_beyond_24(p / q);
    lemma_pow2_step(k);
    assert(q * pow2(k) > 0) by (nonlinear_arith)
        requires
            q > 0,
            pow2(k) > 0,
    ;
    lemma_quotient_scales(p, q * pow2(k), c);
    assert(q * pow2(k) * c == q * c * pow2(k)) by (nonlinear_arith);
}

/// Powers of two on both sides of a fraction cancel.
proof fn lemma_single_shifts(a: nat, b: nat, i: nat, j: nat)
    requires
        b > 0,
    ensures
        nearest_single(a * pow2(i), b * pow2(j)) == nearest_single(
            a * upward(i - j),
            b * upward(j - i),
        ),
{
    lemma_pow2_step(0);
    lemma_pow2_step(i);
    lemma_pow2_step(j);
    if i >= j {
        let s = (i - j) as nat;
        lemma_pow2_adds(s, j);
        assert(a * pow2(i) == (a * pow2(s)) * pow2(j)) by (nonlinear_arith)
            requires
                pow2(i) == pow2(s) * pow2(j),
        ;
        lemma_single_scales(a * pow2(s), b, pow2(j));
        assert(b * 1 == b);
        assert(pow2(s) == upward(i - j));
    } else {
        let s = (j - i) as nat;
        lemma_pow2_step(s);
        lemma_pow2_adds(s, i);
        assert(b * pow2(j) == (b * pow2(s)) * pow2(i)) by (nonlinear_arith)
            requires
                pow2(j) == pow2(s) * pow2(i),
        ;
        assert(b * pow2(s) > 0) by (nonlinear_arith)
            requires
                b > 0,
                pow2(s) > 0,
        ;
        lemma_single_scales(a, b * pow2(s), pow2(i));
        assert(a * 1 == a);
    }
}

/// Each doubling of a number of 24 bits or more adds a low bit.
proof fn lemma_doubling_adds_a_bit(n: nat, d: nat, s: nat)
    requires
        d > 0,
        n / d >= TWO_23,
    ensures
        bits_beyond_24((n * pow2(s)) / d) == s + bits_beyond_24(n / d),
    decreases s,
{
    lemma_pow2_step(0);
    if s == 0 {
        assert(n * 1 == n);
    } else {
        let half = n * pow2((s - 1) as nat);
        lemma_pow2_step((s - 1) as nat);
        lemma_doubling_adds_a_bit(n, d, (s - 1) as nat);
        assert(n * pow2(s) == half * 2) by (nonlinear_arith)
            requires
                half == n * pow2((s - 1) as nat),
                pow2(s) == 2 * pow2((s - 1) as nat),
        ;
        assert(half >= n) by (nonlinear_arith)
            requires
                half == n * pow2((s - 1) as nat),
                pow2((s - 1) as nat) >= 1,
        ;
        vstd::arithmetic::div_mod::lemma_div_denominator((half * 2) as int, d as int, 2);
        vstd::arithmetic::div_mod::lemma_div_denominator((half * 2) as int, 2, d as int);
        assert(d * 2 == 2 * d);
        assert((half * 2) / 2 == half);
        assert((half * 2) / d / 2 == half / d);
        assert(half / d >= n / d) by {
            vstd::arithmetic::div_mod::lemma_div_is_ordered(n as int, half as int, d as int);
        }
    }
}

/// The 24 leading bits of `n / q`, rounded, and how many bits there are below them.
fn leading_24(n: u128, q: u128) -> (r: (u32, u32))
    requires
        n < 0x8_0000_0000_0000_0000_0000_0000,
        0 < q < 0x2000_0000_0000_0000_0000_0000_0000_0000,
    ensures
        r.1 == bits_beyond_24(n as nat / q as nat),
        r.0 == nearest_quotient(n as nat, q as nat * pow2(r.1 as nat)),
        r.0 <= TWO_24,
        r.1 <= 99,
{
    let top: u128 = n / TWO_24 as u128;
    let mut unit: u128 = q;
    let mut k: u32 = 0;
    proof {
        lemma_pow2_step(0);
        assert(q * 1 == q);
    }
    while unit <= top
        invariant
            top == n / 0x100_0000,
            n < 0x8_0000_0000_0000_0000_0000_0000,
            0 < unit < 0x2000_0000_0000_0000_0000_0000_0000_0000,
            unit == q * pow2(k as nat),
            k == 0 || pow2(k as nat) <= unit <= 2 * top,
            k <= 99,
            bits_beyond_24(n as nat / q as nat) == k + bits_beyond_24(n as nat / unit as nat),
        decreases 2 * top + 1 - unit,
    {
        proof {
            let half = pow2(k as nat);
            lemma_pow2_step(k as nat);
            assert(q * (2 * half) == 2 * (q * half)) by (nonlinear_arith);
            assert(unit >= half) by (nonlinear_arith)
                requires
                    unit == q * half,
                    q >= 1,
            ;
            assert(n / unit >= 0x100_0000) by (nonlinear_arith)
                requires
                    unit <= n / 0x100_0000,
                    unit > 0,
            ;
            vstd::arithmetic::div_mod::lemma_div_denominator(n as int, unit as int, 2);
            if k >= 99 {
                lemma_pow2_monotone(99, k as nat);
                vstd::arithmetic::power2::lemma2_to64_rest();
                vstd::arithmetic::power2::lemma2_to64();
                lemma_pow2_adds(50, 49);
            }
        }
        unit = unit * 2;
        k += 1;
    }
    proof {
        assert(n / unit < 0x100_0000) by (nonlinear_arith)
            requires
                unit > n / 0x100_0000,
                unit > 0,
        ;
    }
    let low: u128 = n / unit;
    let rest: u128 = n % unit;
    if 2 * rest < unit || (2 * rest == unit && low % 2 == 0) {
        (low as u32, k)
    } else {
        (low as u32 + 1, k)
    }
}

/// The pattern nearest to `n / d * 2^s` grains.
fn nearest_pattern(n: u128, d: u128, s: i32) -> (r: u32)
    requires
        n < 0x8_0000_0000_0000_0000_0000_0000,
        0 < d <= TWO_24,
        -1000 <= s <= 1000,
    ensures
        r == nearest_single(n as nat * upward(s as int), d as nat * upward(-s)),
        r <= INFINITY_32,
{
    proof {
        assert(n * 1 == n && d * 1 == d);
        lemma_pow2_step(0);
    }
    if s < -100 {
        proof {
            let q = d as nat * upward(-s);
            lemma_pow2_monotone(100, (-s) as nat);
            vstd::arithmetic::power2::lemma2_to64_rest();
            vstd::arithmetic::power2::lemma2_to64();
            lemma_pow2_adds(50, 50);
            assert(2 * n < q) by (nonlinear_arith)
                requires
                    2 * n < pow2(100),
                    pow2(100) <= pow2((-s) as nat),
                    q == d * pow2((-s) as nat),
                    d >= 1,
            ;
            vstd::arithmetic::div_mod::lemma_basic_div(n as int, q as int);
            assert(n as nat % q == n) by {
                vstd::arithmetic::div_mod::lemma_small_mod(n as nat, q);
            }
            assert(q * 1 == q);
        }
        return 0;
    }
    if s <= 0 {
        let q: u128 = shifted(d, (-s) as u32);
        let (m, k) = leading_24(n, q);
        let pattern: u32 = k * TWO_23 + m;
        return if pattern < INFINITY_32 {
            pattern
        } else {
            INFINITY_32
        };
    }
    if n == 0 {
        proof {
            assert(0 * upward(s as int) == 0) by (nonlinear_arith);
            vstd::arithmetic::div_mod::lemma_div_of0(d as int);
            assert(d * 1 == d);
            assert(0nat % (d as nat) == 0) by {
                vstd::arithmetic::div_mod::lemma_small_mod(0, d as nat);
            }
        }
        return 0;
    }
    let least: u128 = d * TWO_23 as u128;
    let mut a: u128 = n;
    let mut t: i32 = s;
    while a < least && t > 0
        invariant
            0 < a < 0x8_0000_0000_0000_0000_0000_0000,
            least == d * 0x80_0000,
            0 < d <= 0x100_0000,
            0 <= t <= s <= 1000,
            a * pow2(t as nat) == n * pow2(s as nat),
        decreases t,
    {
        proof {
            let half = pow2((t - 1) as nat);
            lemma_pow2_step((t - 1) as nat);
            assert(a * (2 * half) == (a * 2) * half) by (nonlinear_arith);
        }
        a = a * 2;
        t = t - 1;
    }
    let (m, k) = leading_24(a, d);
    proof {
        let p = n as nat * pow2(s as nat);
        lemma_pow2_step(t as nat);
        lemma_pow2_step(k as nat);
        if t > 0 {
            assert(a / d >= 0x80_0000) by (nonlinear_arith)
                requires
                    a >= d * 0x80_0000,
                    d > 0,
            ;
            lemma_doubling_adds_a_bit(a as nat, d as nat, t as nat);
        }
        assert(bits_beyond_24(p / d as nat) == t + k) by {
            assert(a * 1 == a);
        }
        assert(d * pow2(k as nat) > 0) by (nonlinear_arith)
            requires
                d > 0,
                pow2(k as nat) > 0,
        ;
        lemma_quotient_scales(a as nat, d as nat * pow2(k as nat), pow2(t as nat));
        lemma_pow2_adds(k as nat, t as nat);
        assert(d * pow2(k as nat) * pow2(t as nat) == d * pow2((t + k) as nat)) by (nonlinear_arith)
            requires
                pow2((t + k) as nat) == pow2(k as nat) * pow2(t as nat),
        ;
    }
    let field: u32 = t as u32 + k;
    if field >= 255 {
        INFINITY_32
    } else {
        let pattern: u32 = field * TWO_23 + m;
        if pattern < INFINITY_32 {
            pattern
        } else {
            INFINITY_32
        }
    }
}

/// `d * 2^k`.
fn shifted(d: u128, k: u32) -> (r: u128)
    requires
        0 < d <= TWO_24,
        k <= 100,
    ensures
        r == d * pow2(k as nat),
        0 < r < 0x2000_0000_0000_0000_0000_0000_0000_0000,
{
    let unit: u128 = power_of_two(k);
    assert(0 < d * unit <= 0x100_0000 * 0x10_0000_0000_0000_0000_0000_0000) by (nonlinear_arith)
        requires
            0 < d <= 0x100_0000,
            0 < unit <= 0x10_0000_0000_0000_0000_0000_0000,
    ;
    d * unit
}

impl Binary32 {
    /// The magnitude of a finite pattern.
    pub open spec fn value(self) -> Value {
        let field = (self.bits / TWO_23) % 256;
        let fraction = self.bits % TWO_23;
        if field == 0 {
            Value { units: fraction as nat, exponent: -149 }
        } else {
            Value { units: (fraction + TWO_23) as nat, exponent: field - 150 }
        }
    }

    /// The magnitude of a finite pattern in grains.
    pub open spec fn grains(self) -> nat {
        self.value().units * pow2((self.value().exponent + 149) as nat)
    }

    /// Whether the pattern is an infinity.
    pub open spec fn is_infinite(self) -> bool {
        self.bits % SIGN_32 == INFINITY_32
    }

    /// Whether the pattern is a zero.
    pub open spec fn is_zero(self) -> bool {
        self.bits % SIGN_32 == 0
    }

    /// The sign bit.
    pub open spec fn sign(self) -> u32 {
        if self.bits >= SIGN_32 {
            SIGN_32
        } else {
            0
        }
    }

    /// A finite value in grains.
    pub open spec fn signed_grains(self) -> int {
        if self.bits >= SIGN_32 {
            -self.grains()
        } else {
            self.grains() as int
        }
    }

    /// The sign bit.
    fn sign_bit(self) -> (r: u32)
        ensures
            r == self.sign(),
    {
        if self.bits >= SIGN_32 {
            SIGN_32
        } else {
            0
        }
    }

    /// Takes the magnitude apart: how many times which power of two, in grains.
    pub(crate) fn parts(self) -> (r: (u32, u32))
        ensures
            r.0 == self.value().units,
            r.1 == self.value().exponent + 149,
            r.0 < TWO_24,
            r.1 <= 254,
            self.grains() == r.0 * pow2(r.1 as nat),
            r.1 > 0 ==> r.0 >= TWO_23,
            r.0 == 0 <==> self.is_zero(),
    {
        let field: u32 = (self.bits / TWO_23) % 256;
        let fraction: u32 = self.bits % TWO_23;
        if field == 0 {
            (fraction, 0)
        } else {
            (fraction + TWO_23, field - 1)
        }
    }
}

/// The sign of a product or quotient.
pub open spec fn joint_sign(x: Binary32, y: Binary32) -> nat {
    if x.sign() == y.sign() {
        0
    } else {
        SIGN_32 as nat
    }
}

/// A pattern with a sign and the pattern of a magnitude.
pub open spec fn signed(sign: nat, magnitude: nat) -> Binary32 {
    Binary32 { bits: (sign + magnitude) as u32 }
}

/// What is not a number.
pub open spec fn no_number() -> Binary32 {
    Binary32 { bits: NAN_32 }
}

/// The binary32 product.
pub open spec fn product_32(x: Binary32, y: Binary32) -> Binary32 {
    if x.is_nan() || y.is_nan() || (x.is_infinite() && y.is_zero()) || (x.is_zero()
        && y.is_infinite()) {
        no_number()
    } else if x.is_infinite() || y.is_infinite() {
        signed(joint_sign(x, y), INFINITY_32 as nat)
    } else {
        signed(joint_sign(x, y), nearest_single(x.grains() * y.grains(), pow2(149)))
    }
}

/// The binary32 quotient.
pub open spec fn quotient_32(x: Binary32, y: Binary32) -> Binary32 {
    if x.is_nan() || y.is_nan() || (x.is_infinite() && y.is_infinite()) || (x.is_zero()
        && y.is_zero()) {
        no_number()
    } else if x.is_infinite() || y.is_zero() {
        signed(joint_sign(x, y), INFINITY_32 as nat)
    } else if y.is_infinite() {
        signed(joint_sign(x, y), 0)
    } else {
        signed(joint_sign(x, y), nearest_single(x.grains() * pow2(149), y.grains()))
    }
}

/// The binary32 sum; a sum of nothing is negative only where both parts are.
pub open spec fn sum_32(x: Binary32, y: Binary32) -> Binary32 {
    if x.is_nan() || y.is_nan() || (x.is_infinite() && y.is_infinite() && x != y) {
        no_number()
    } else if x.is_infinite() {
        x
    } else if y.is_infinite() {
        y
    } else {
        let s = x.signed_grains() + y.signed_grains();
        if s > 0 {
            signed(0, nearest_single(s as nat, 1))
        } else if s < 0 {
            signed(SIGN_32 as nat, nearest_single((-s) as nat, 1))
        } else if x.sign() == y.sign() {
            signed(x.sign() as nat, 0)
        } else {
            signed(0, 0)
        }
    }
}

/// The value with the other sign.
pub open spec fn negated(x: Binary32) -> Binary32 {
    if x.bits >= SIGN_32 {
        Binary32 { bits: (x.bits - SIGN_32) as u32 }
    } else {
        Binary32 { bits: (x.bits + SIGN_32) as u32 }
    }
}

/// A whole number as the nearest binary32 value.
pub open spec fn whole_32(n: nat) -> Binary32 {
    signed(0, nearest_single(n * pow2(149), 1))
}

impl Binary32 {
    /// The product with another value.
    pub fn times(self, other: Binary32) -> (r: Binary32)
        ensures
            r == product_32(self, other),
    {
        let (a, b): (u32, u32) = (self.bits % SIGN_32, other.bits % SIGN_32);
        if a > INFINITY_32 || b > INFINITY_32 || (a == INFINITY_32 && b == 0) || (a == 0 && b
            == INFINITY_32) {
            return Binary32 { bits: NAN_32 };
        }
        let sign: u32 = if self.sign_bit() == other.sign_bit() {
            0
        } else {
            SIGN_32
        };
        if a == INFINITY_32 || b == INFINITY_32 {
            return Binary32 { bits: sign + INFINITY_32 };
        }
        let (m, i) = self.parts();
        let (n, j) = other.parts();
        proof {
            let (pi, pj) = (pow2(i as nat), pow2(j as nat));
            assert(m * n < 0x100_0000 * 0x100_0000) by (nonlinear_arith)
                requires
                    m < 0x100_0000,
                    n < 0x100_0000,
            ;
            lemma_pow2_adds(i as nat, j as nat);
            assert((m * pi) * (n * pj) == (m * n) * pow2((i + j) as nat)) by (nonlinear_arith)
                requires
                    pow2((i + j) as nat) == pi * pj,
            ;
            lemma_single_shifts((m * n) as nat, 1, (i + j) as nat, 149);
            assert(1 * pow2(149) == pow2(149));
        }
        let magnitude: u32 = nearest_pattern(
            m as u128 * n as u128,
            1,
            i as i32 + j as i32 - 149,
        );
        Binary32 { bits: sign + magnitude }
    }

    /// The quotient by another value.
    pub fn over(self, other: Binary32) -> (r: Binary32)
        ensures
            r == quotient_32(self, other),
    {
        let (a, b): (u32, u32) = (self.bits % SIGN_32, other.bits % SIGN_32);
        if a > INFINITY_32 || b > INFINITY_32 || (a == INFINITY_32 && b == INFINITY_32) || (a == 0
            && b == 0) {
            return Binary32 { bits: NAN_32 };
        }
        let sign: u32 = if self.sign_bit() == other.sign_bit() {
            0
        } else {
            SIGN_32
        };
        if a == INFINITY_32 || b == 0 {
            return Binary32 { bits: sign + INFINITY_32 };
        }
        if b == INFINITY_32 {
            return Binary32 { bits: sign };
        }
        let (m, i) = self.parts();
        let (n, j) = other.parts();
        proof {
            lemma_pow2_adds(i as nat, 149);
            assert((m * pow2(i as nat)) * pow2(149) == m * pow2((i + 149) as nat)) by (nonlinear_arith)
                requires
                    pow2((i + 149) as nat) == pow2(i as nat) * pow2(149),
            ;
            lemma_single_shifts(m as nat, n as nat, (i + 149) as nat, j as nat);
        }
        let magnitude: u32 = nearest_pattern(m as u128, n as u128, i as i32 + 149 - j as i32);
        Binary32 { bits: sign + magnitude }
    }

    /// The value with the other sign.
    pub fn negative(self) -> (r: Binary32)
        ensures
            r == negated(self),
    {
        if self.bits >= SIGN_32 {
            Binary32 { bits: self.bits - SIGN_32 }
        } else {
            Binary32 { bits: self.bits + SIGN_32 }
        }
    }

    /// The nearest value to a whole number.
    pub fn from_whole(n: u64) -> (r: Binary32)
        ensures
            r == whole_32(n as nat),
    {
        proof {
            assert(1 * 1 == 1nat);
        }
        Binary32 { bits: nearest_pattern(n as u128, 1, 149) }
    }
}

/// What a value has beyond its whole part, as the nearest binary32 value.
pub open spec fn fraction_32(v: Value) -> Binary32 {
    if v.exponent >= 0 {
        signed(0, 0)
    } else {
        let unit = pow2((-v.exponent) as nat);
        signed(0, nearest_single((v.units % unit) * pow2(149), unit))
    }
}

impl Dyadic {
    /// What the value has beyond its whole part.
    pub fn fraction(self) -> (r: Binary32)
        requires
            self.exponent >= -1000,
        ensures
            r == fraction_32(self@),
    {
        if self.exponent >= 0 {
            return Binary32 { bits: 0 };
        }
        let ghost unit = pow2((-self.exponent) as nat);
        let rest: u128 = if self.exponent < -100 {
            proof {
                lemma_pow2_monotone(100, (-self.exponent) as nat);
                vstd::arithmetic::power2::lemma2_to64_rest();
                vstd::arithmetic::power2::lemma2_to64();
                lemma_pow2_adds(50, 50);
                vstd::arithmetic::div_mod::lemma_small_mod(self.units as nat, unit);
            }
            self.units as u128
        } else {
            let whole: u128 = power_of_two((-self.exponent) as u32);
            proof {
                vstd::arithmetic::div_mod::lemma_mod_decreases(self.units as nat, whole as nat);
            }
            self.units as u128 % whole
        };
        proof {
            lemma_single_shifts(rest as nat, 1, 149, (-self.exponent) as nat);
            assert(1 * unit == unit);
        }
        Binary32 { bits: nearest_pattern(rest, 1, 149 + self.exponent) }
    }
}

/// 24 leading bits over a smaller rest have as many further bits as the rest has
/// room for.
proof fn lemma_bits_over_rest(a: nat, e: nat, rest: nat)
    requires
        TWO_23 <= a < TWO_24,
        rest < pow2(e),
    ensures
        bits_beyond_24(a * pow2(e) + rest) == e,
    decreases e,
{
    lemma_pow2_step(0);
    if e == 0 {
        assert(a * 1 == a);
    } else {
        let half = pow2((e - 1) as nat);
        lemma_pow2_step((e - 1) as nat);
        assert(a * (2 * half) == 2 * (a * half)) by (nonlinear_arith);
        assert(a * half >= a) by (nonlinear_arith)
            requires
                half >= 1,
        ;
        assert((a * pow2(e) + rest) / 2 == a * half + rest / 2);
        lemma_bits_over_rest(a, (e - 1) as nat, rest / 2);
    }
}

/// What is less than a quarter of the last bit changes nothing, whether it is
/// added or taken away.
proof fn lemma_small_part(a: nat, e: nat, t: nat)
    requires
        TWO_23 <= a < TWO_24,
        2 <= e <= 253,
        4 * t < pow2(e),
    ensures
        nearest_single(a * pow2(e) + t, 1) == e * TWO_23 + a,
        a * pow2(e) > t,
        nearest_single((a * pow2(e) - t) as nat, 1) == e * TWO_23 + a,
{
    let unit = pow2(e);
    let half = pow2((e - 1) as nat);
    lemma_pow2_step(e);
    lemma_pow2_step((e - 1) as nat);
    assert(1 * unit == unit && 1 * half == half);
    assert(a * unit > unit) by (nonlinear_arith)
        requires
            a >= 2,
            unit > 0,
    ;
    let above = a * unit + t;
    lemma_bits_over_rest(a, e, t);
    assert(above / 1 == above);
    vstd::arithmetic::div_mod::lemma_fundamental_div_mod_converse(
        above as int,
        unit as int,
        a as int,
        t as int,
    );
    let below = (a * unit - t) as nat;
    assert(below / 1 == below);
    if t == 0 {
    } else if a > TWO_23 {
        let rest = (unit - t) as nat;
        assert((a - 1) * unit + rest == below) by (nonlinear_arith)
            requires
                below == a * unit - t,
                rest == unit - t,
        ;
        lemma_bits_over_rest((a - 1) as nat, e, rest);
        vstd::arithmetic::div_mod::lemma_fundamental_div_mod_converse(
            below as int,
            unit as int,
            a - 1,
            rest as int,
        );
    } else {
        let rest = (half - t) as nat;
        assert(0xFF_FFFF * half + rest == below) by (nonlinear_arith)
            requires
                below == a * unit - t,
                a == 0x80_0000,
                unit == 2 * half,
                rest == half - t,
        ;
        lemma_bits_over_rest(0xFF_FFFF, (e - 1) as nat, rest);
        vstd::arithmetic::div_mod::lemma_fundamental_div_mod_converse(
            below as int,
            half as int,
            0xFF_FFFF,
            rest as int,
        );
    }
}

impl Binary32 {
    /// The sum of two finite values of which the first has no smaller unit.
    #[verifier::spinoff_prover]
    #[verifier::rlimit(60)]
    fn add_finite(self, other: Binary32) -> (r: Binary32)
        requires
            !self.is_nan() && !self.is_infinite(),
            !other.is_nan() && !other.is_infinite(),
            self.value().exponent >= other.value().exponent,
        ensures
            r == sum_32(self, other),
    {
        let (m, i) = self.parts();
        let (n, j) = other.parts();
        let d: u32 = i - j;
        let same: bool = self.sign_bit() == other.sign_bit();
        if d > 60 {
            proof {
                let (pi, pj) = (pow2(i as nat), pow2(j as nat));
                let t = n * pj;
                lemma_pow2_step(0);
                lemma_pow2_step(j as nat);
                lemma_pow2_adds(j as nat, d as nat);
                lemma_pow2_monotone(60, d as nat);
                vstd::arithmetic::power2::lemma2_to64_rest();
                assert(4 * t < pi) by (nonlinear_arith)
                    requires
                        t == n * pj,
                        n < 0x100_0000,
                        pi == pj * pow2(d as nat),
                        pow2(d as nat) >= 0x400_0000,
                        pj > 0,
                ;
                lemma_small_part(m as nat, i as nat, t as nat);
            }
            return self;
        }
        let unit: u128 = power_of_two(d);
        proof {
            lemma_pow2_monotone(d as nat, 60);
            vstd::arithmetic::power2::lemma2_to64_rest();
            assert(m * unit < 0x100_0000 * 0x1000_0000_0000_0000) by (nonlinear_arith)
                requires
                    m < 0x100_0000,
                    0 < unit <= 0x1000_0000_0000_0000,
            ;
        }
        let a: u128 = m as u128 * unit;
        let b: u128 = n as u128;
        proof {
            let (pi, pj) = (pow2(i as nat), pow2(j as nat));
            lemma_pow2_step(j as nat);
            lemma_pow2_adds(j as nat, d as nat);
            assert(m * pi == a * pj) by (nonlinear_arith)
                requires
                    a == m * unit,
                    pi == pj * unit,
            ;
            assert((a + b) * pj == a * pj + b * pj) by (nonlinear_arith);
            assert((a - b) * pj == a * pj - b * pj) by (nonlinear_arith);
            assert((b - a) * pj == b * pj - a * pj) by (nonlinear_arith);
            assert(a > b ==> a * pj > b * pj) by (nonlinear_arith)
                requires
                    pj > 0,
            ;
            assert(a < b ==> a * pj < b * pj) by (nonlinear_arith)
                requires
                    pj > 0,
            ;
            assert(upward(j as int) == pj && upward(-(j as int)) == 1) by {
                lemma_pow2_step(0);
            }
            if a + b > 0 {
                assert((a + b) * pj > 0) by (nonlinear_arith)
                    requires
                        a + b > 0,
                        pj > 0,
                ;
            } else {
                assert((a + b) * pj == 0) by (nonlinear_arith)
                    requires
                        a + b == 0,
                ;
            }
        }
        let own: u32 = self.sign_bit();
        let others: u32 = other.sign_bit();
        if same {
            let magnitude: u32 = nearest_pattern(a + b, 1, j as i32);
            proof {
                if a + b == 0 {
                    lemma_nothing_is_zero();
                }
            }
            Binary32 { bits: own + magnitude }
        } else if a > b {
            let magnitude: u32 = nearest_pattern(a - b, 1, j as i32);
            Binary32 { bits: own + magnitude }
        } else if a < b {
            let magnitude: u32 = nearest_pattern(b - a, 1, j as i32);
            Binary32 { bits: others + magnitude }
        } else {
            Binary32 { bits: 0 }
        }
    }

    /// The sum with another value.
    pub fn plus(self, other: Binary32) -> (r: Binary32)
        ensures
            r == sum_32(self, other),
    {
        let (a, b): (u32, u32) = (self.bits % SIGN_32, other.bits % SIGN_32);
        proof {
            lemma_field_of_magnitude(self);
            lemma_field_of_magnitude(other);
            lemma_sum_commutes(self, other);
        }
        if a > INFINITY_32 || b > INFINITY_32 || (a == INFINITY_32 && b == INFINITY_32 && self.bits
            != other.bits) {
            Binary32 { bits: NAN_32 }
        } else if a == INFINITY_32 {
            self
        } else if b == INFINITY_32 {
            other
        } else if a / TWO_23 >= b / TWO_23 {
            self.add_finite(other)
        } else {
            other.add_finite(self)
        }
    }

    /// The difference from another value.
    pub fn minus(self, other: Binary32) -> (r: Binary32)
        ensures
            r == sum_32(self, negated(other)),
    {
        self.plus(other.negative())
    }
}

/// The exponent field follows the magnitude.
proof fn lemma_field_of_magnitude(x: Binary32)
    ensures
        (x.bits / TWO_23) % 256 == (x.bits % SIGN_32) / TWO_23,
        x.value().exponent == (if (x.bits % SIGN_32) / TWO_23 == 0 {
            -149
        } else {
            (x.bits % SIGN_32) / TWO_23 - 150
        }),
{
}

/// The pattern of nothing is zero.
proof fn lemma_nothing_is_zero()
    ensures
        nearest_single(0, 1) == 0,
{
    lemma_pow2_step(0);
    assert(0nat / 1 == 0 && 0nat % 1 == 0);
}

/// A finite value is its own nearest one.
pub proof fn lemma_values_are_kept(x: Binary32)
    requires
        !x.is_nan(),
        !x.is_infinite(),
    ensures
        nearest_single(x.grains(), 1) == x.bits % SIGN_32,
{
    let m = x.value().units;
    let e = (x.value().exponent + 149) as nat;
    let g = x.grains();
    lemma_pow2_step(0);
    lemma_pow2_step(e);
    assert(g / 1 == g);
    assert(1 * pow2(e) == pow2(e));
    if e == 0 {
        assert(m * 1 == m);
        assert(m / 1 == m && m % 1 == 0);
    } else {
        lemma_bits_over_rest(m, e, 0);
        vstd::arithmetic::div_mod::lemma_fundamental_div_mod_converse(
            g as int,
            pow2(e) as int,
            m as int,
            0,
        );
    }
}

/// One is neutral for products: a gain of one leaves a sample as it is.
pub proof fn lemma_one_is_neutral(x: Binary32)
    requires
        !x.is_nan(),
    ensures
        product_32(x, Binary32 { bits: ONE_BITS }) == x,
{
    let one = Binary32 { bits: ONE_BITS };
    if !x.is_infinite() {
        lemma_values_are_kept(x);
        lemma_one_is_many_grains();
        lemma_pow2_step(149);
        lemma_single_scales(x.grains(), 1, pow2(149));
        assert(1 * pow2(149) == pow2(149));
    }
}

/// A finite sample times zero is silence.
pub proof fn lemma_zero_silences(x: Binary32)
    requires
        !x.is_nan(),
        !x.is_infinite(),
    ensures
        product_32(x, Binary32 { bits: 0 }).is_zero(),
{
    let zero = Binary32 { bits: 0 };
    lemma_pow2_step(149);
    lemma_pow2_step(0);
    assert(zero.value() == (Value { units: 0, exponent: -149 }));
    assert(zero.grains() == 0 * pow2(0)) by (nonlinear_arith)
        requires
            zero.grains() == 0 * pow2(0),
    ;
    assert(0 * pow2(0) == 0) by (nonlinear_arith);
    assert(x.grains() * 0 == 0) by (nonlinear_arith);
    vstd::arithmetic::div_mod::lemma_div_of0(pow2(149) as int);
    vstd::arithmetic::div_mod::lemma_small_mod(0, pow2(149));
    assert(pow2(149) * 1 == pow2(149));
    assert(nearest_single(0, pow2(149)) == 0);
}

/// A sum does not depend on the order of its parts.
pub proof fn lemma_sum_commutes(x: Binary32, y: Binary32)
    ensures
        sum_32(x, y) == sum_32(y, x),
        product_32(x, y) == product_32(y, x),
{
    assert(x.grains() * y.grains() == y.grains() * x.grains()) by (nonlinear_arith);
}

/// A fraction has 24 leading bits wherever it has as many above the grain.
proof fn lemma_leading_bits_of_fraction(p: nat, q: nat)
    requires
        q > 0,
    ensures
        ({
            let k = bits_beyond_24(p / q);
            let m = nearest_quotient(p, q * pow2(k));
            &&& q * pow2(k) > 0
            &&& m <= TWO_24
            &&& k > 0 ==> m >= TWO_23
            &&& k > 0 ==> TWO_23 * (q * pow2(k)) <= p
        }),
{
    let n = p / q;
    let k = bits_beyond_24(n);
    let unit = pow2(k);
    lemma_pow2_step(k);
    lemma_leading_of_whole(n);
    assert(q * unit > 0) by (nonlinear_arith)
        requires
            q > 0,
            unit > 0,
    ;
    vstd::arithmetic::div_mod::lemma_div_denominator(p as int, q as int, unit as int);
    let low = p / (q * unit);
    assert(low == n / unit);
    if k > 0 {
        assert(n >= TWO_24);
        assert(0x80_0000 * (q * unit) <= p) by (nonlinear_arith)
            requires
                low == p / (q * unit),
                low >= 0x80_0000,
                q * unit > 0,
        ;
    }
}

/// The leading bits of a whole number are 24 wherever it has as many.
proof fn lemma_leading_of_whole(n: nat)
    ensures
        n / pow2(bits_beyond_24(n)) < TWO_24,
        n >= TWO_23 ==> n / pow2(bits_beyond_24(n)) >= TWO_23,
    decreases n,
{
    lemma_pow2_step(0);
    if n < TWO_24 {
        assert(n / 1 == n);
    } else {
        let k = bits_beyond_24(n / 2);
        lemma_leading_of_whole(n / 2);
        lemma_pow2_step(k);
        vstd::arithmetic::div_mod::lemma_div_denominator(n as int, 2, pow2(k) as int);
    }
}

/// A larger fraction has no smaller nearest pattern.
pub proof fn lemma_nearest_is_monotone(p: nat, r: nat, q: nat)
    requires
        q > 0,
        p <= r,
    ensures
        nearest_single(p, q) <= nearest_single(r, q),
{
    let (j, k) = (bits_beyond_24(p / q), bits_beyond_24(r / q));
    lemma_leading_bits_of_fraction(p, q);
    lemma_leading_bits_of_fraction(r, q);
    vstd::arithmetic::div_mod::lemma_div_is_ordered(p as int, r as int, q as int);
    lemma_bits_are_monotone(p / q, r / q);
    if j == k {
        let d = q * pow2(k);
        lemma_rounding_is_monotone(p, r, d);
    }
}

/// A larger number has no fewer bits.
proof fn lemma_bits_are_monotone(a: nat, b: nat)
    requires
        a <= b,
    ensures
        bits_beyond_24(a) <= bits_beyond_24(b),
    decreases b,
{
    if a >= TWO_24 {
        lemma_bits_are_monotone(a / 2, b / 2);
    }
}

/// A larger fraction has no smaller nearest whole number.
pub(crate) proof fn lemma_rounding_is_monotone(p: nat, r: nat, d: nat)
    requires
        d > 0,
        p <= r,
    ensures
        nearest_quotient(p, d) <= nearest_quotient(r, d),
{
    vstd::arithmetic::div_mod::lemma_div_is_ordered(p as int, r as int, d as int);
    vstd::arithmetic::div_mod::lemma_fundamental_div_mod(p as int, d as int);
    vstd::arithmetic::div_mod::lemma_fundamental_div_mod(r as int, d as int);
    if p / d == r / d {
        assert(d * (p / d) == d * (r / d));
    }
}

/// A nearest pattern below infinity is off by at most half of its last bit: half a
/// grain, or one part in `2^24` of the fraction.
pub proof fn lemma_nearest_error(p: nat, q: nat, x: Binary32)
    requires
        q > 0,
        x.bits == nearest_single(p, q),
        x.bits < INFINITY_32,
    ensures
        (x.grains() * q - p) * TWO_24 <= p + TWO_23 * q,
        (p - x.grains() * q) * TWO_24 <= p + TWO_23 * q,
        p >= TWO_23 * q ==> (x.grains() * q - p) * TWO_24 <= p,
        p >= TWO_23 * q ==> (p - x.grains() * q) * TWO_24 <= p,
{
    let k = bits_beyond_24(p / q);
    let d = q * pow2(k);
    let m = nearest_quotient(p, d);
    lemma_leading_bits_of_fraction(p, q);
    lemma_pattern_is_read_back(m, k, x);
    vstd::arithmetic::div_mod::lemma_fundamental_div_mod(p as int, d as int);
    let low = p / d;
    let rest = p % d;
    assert(low * d + rest == p && (low + 1) * d == low * d + d) by (nonlinear_arith)
        requires
            p == d * low + rest,
    ;
    assert(x.grains() * q == m * d) by (nonlinear_arith)
        requires
            x.grains() == m * pow2(k),
            d == q * pow2(k),
    ;
    lemma_pow2_step(0);
    if k == 0 {
        assert(q * 1 == q);
    } else {
        assert(0x80_0000 * d <= p);
    }
}

/// A nearest pattern below infinity is off by no more than one part in `2^24` of a
/// fraction that is not too small.
pub proof fn lemma_nearest_is_near(p: nat, q: nat, x: Binary32)
    requires
        q > 0,
        x.bits == nearest_single(p, q),
        x.bits < INFINITY_32,
        p >= TWO_23 * q,
    ensures
        (x.grains() * q - p) * TWO_24 <= p,
        (p - x.grains() * q) * TWO_24 <= p,
{
    lemma_nearest_error(p, q, x);
}

/// A number below `2^(24 + k)` has at most `k` bits beyond the leading ones.
proof fn lemma_bits_bound(n: nat, k: nat)
    requires
        n < TWO_24 * pow2(k),
    ensures
        bits_beyond_24(n) <= k,
    decreases n,
{
    lemma_pow2_step(0);
    if n >= TWO_24 {
        if k == 0 {
            assert(n < TWO_24 * 1);
        } else {
            let half = pow2((k - 1) as nat);
            lemma_pow2_step((k - 1) as nat);
            assert(n / 2 < 0x100_0000 * half) by (nonlinear_arith)
                requires
                    n < 0x100_0000 * (2 * half),
            ;
            lemma_bits_bound(n / 2, (k - 1) as nat);
        }
    }
}

/// 24 bits in any place are kept without rounding.
pub proof fn lemma_24_bits_are_exact(a: nat, s: nat, x: Binary32)
    requires
        a < TWO_24,
        s <= 200,
        x.bits == nearest_single(a * pow2(s), 1),
    ensures
        x.bits < INFINITY_32,
        x.grains() == a * pow2(s),
{
    let n = a * pow2(s);
    let k = bits_beyond_24(n);
    lemma_pow2_step(s);
    lemma_pow2_step(k);
    assert(n / 1 == n);
    assert(n < 0x100_0000 * pow2(s)) by (nonlinear_arith)
        requires
            n == a * pow2(s),
            a < 0x100_0000,
            pow2(s) > 0,
    ;
    lemma_bits_bound(n, s);
    let rest = (s - k) as nat;
    let m = a * pow2(rest);
    lemma_pow2_adds(rest, k);
    assert(n == m * pow2(k)) by (nonlinear_arith)
        requires
            n == a * pow2(s),
            m == a * pow2(rest),
            pow2(s) == pow2(rest) * pow2(k),
    ;
    assert(1 * pow2(k) == pow2(k));
    vstd::arithmetic::div_mod::lemma_fundamental_div_mod_converse(n as int, pow2(k) as int, m as int, 0);
    lemma_leading_bits_of_fraction(n, 1);
    lemma_pattern_is_read_back(m, k, x);
}

/// A pattern is read back as the leading bits and the power it was made of.
proof fn lemma_pattern_is_read_back(m: nat, k: nat, x: Binary32)
    requires
        m <= TWO_24,
        k > 0 ==> m >= TWO_23,
        x.bits == k * TWO_23 + m,
        x.bits < INFINITY_32,
    ensures
        x.grains() == m * pow2(k),
{
    lemma_pow2_step(k);
    lemma_pow2_step(0);
    let field = x.bits as nat / 0x80_0000;
    if m == TWO_24 {
        assert(field == k + 2);
        assert(x.value() == (Value { units: TWO_23 as nat, exponent: k + 2 - 150 }));
        assert(0x80_0000 * (2 * pow2(k)) == 0x100_0000 * pow2(k)) by (nonlinear_arith);
    } else if m >= TWO_23 {
        assert(field == k + 1);
        assert(x.value() == (Value { units: m, exponent: k + 1 - 150 }));
    } else {
        assert(x.value() == (Value { units: m, exponent: -149 }));
    }
}

/// A louder pattern has no fewer grains.
#[verifier::rlimit(50)]
pub proof fn lemma_grains_are_ordered(x: Binary32, y: Binary32)
    requires
        x.magnitude().bits <= y.magnitude().bits,
        !y.is_nan(),
    ensures
        x.grains() <= y.grains(),
        x.grains() == x.magnitude().grains(),
{
    lemma_field_of_magnitude(x);
    lemma_field_of_magnitude(y);
    lemma_field_of_magnitude(x.magnitude());
    let (m, n) = (x.value().units, y.value().units);
    let (i, j) = ((x.value().exponent + 149) as nat, (y.value().exponent + 149) as nat);
    lemma_pow2_step(i);
    assert(i <= j);
    if i == j {
        assert(m * pow2(i) <= n * pow2(i)) by (nonlinear_arith)
            requires
                m <= n,
        ;
    } else {
        lemma_pow2_monotone(i + 1, j);
        assert(m * pow2(i) <= n * pow2(j)) by (nonlinear_arith)
            requires
                m <= 0x100_0000,
                n >= 0x80_0000,
                2 * pow2(i) <= pow2(j),
        ;
    }
}

/// The magnitude of a product is the product of the magnitudes.
proof fn lemma_product_magnitude(x: Binary32, y: Binary32)
    requires
        x.magnitude().bits < INFINITY_32,
        y.magnitude().bits < INFINITY_32,
    ensures
        product_32(x, y).magnitude().bits == nearest_single(x.grains() * y.grains(), pow2(149)),
{
    let magnitude = nearest_single(x.grains() * y.grains(), pow2(149));
    assert(product_32(x, y) == signed(joint_sign(x, y), magnitude));
    assert(magnitude <= INFINITY_32);
    if joint_sign(x, y) == 0 {
        assert(signed(0, magnitude).bits == magnitude);
    } else {
        assert(signed(SIGN_32 as nat, magnitude).bits == SIGN_32 + magnitude);
    }
}

/// A louder sample stays the louder one under the same gain.
pub proof fn lemma_gain_keeps_order(x: Binary32, y: Binary32, gain: Binary32)
    requires
        x.magnitude().bits <= y.magnitude().bits,
        y.magnitude().bits < INFINITY_32,
        gain.magnitude().bits < INFINITY_32,
    ensures
        product_32(x, gain).magnitude().bits <= product_32(y, gain).magnitude().bits,
        product_32(y, gain).magnitude().bits == nearest_single(y.grains() * gain.grains(), pow2(149)),
        product_32(y, gain).magnitude().bits <= INFINITY_32,
{
    lemma_grains_are_ordered(x, y);
    lemma_product_magnitude(x, gain);
    lemma_product_magnitude(y, gain);
    lemma_pow2_step(149);
    assert(x.grains() * gain.grains() <= y.grains() * gain.grains()) by (nonlinear_arith)
        requires
            x.grains() <= y.grains(),
    ;
    lemma_nearest_is_monotone(x.grains() * gain.grains(), y.grains() * gain.grains(), pow2(149));
}

/// A whole number of up to 64 bits is finite as a binary32 value, and zero only
/// where it is nothing.
pub proof fn lemma_whole_is_finite(n: u64)
    ensures
        whole_32(n as nat).bits < INFINITY_32,
        whole_32(n as nat).is_zero() <==> n == 0,
{
    let p = n as nat * pow2(149);
    lemma_pow2_step(149);
    lemma_pow2_step(0);
    assert(p / 1 == p);
    if n == 0 {
        assert(0 * pow2(149) == 0) by (nonlinear_arith);
        lemma_nothing_is_zero();
    } else {
        let k = bits_beyond_24(p);
        lemma_leading_bits_of_fraction(p, 1);
        lemma_pow2_step(k);
        assert(1 * pow2(k) == pow2(k));
        lemma_pow2_adds(64, 149);
        vstd::arithmetic::power2::lemma2_to64();
        assert(p < pow2(213)) by (nonlinear_arith)
            requires
                p == n * pow2(149),
                n < 0x1_0000_0000_0000_0000,
                pow2(213) == 0x1_0000_0000_0000_0000 * pow2(149),
                pow2(149) > 0,
        ;
        assert(p >= pow2(149)) by (nonlinear_arith)
            requires
                p == n * pow2(149),
                n >= 1,
        ;
        lemma_pow2_monotone(24, 149);
        assert(p >= TWO_24);
        assert(k > 0);
        if k > 213 {
            lemma_pow2_monotone(213, k);
        }
    }
}

/// A finite nonzero value over itself is one.
pub proof fn lemma_whole_over_itself(x: Binary32)
    requires
        0 < x.bits < INFINITY_32,
    ensures
        quotient_32(x, x) == (Binary32 { bits: ONE_BITS }),
{
    let one = Binary32 { bits: ONE_BITS };
    lemma_values_are_kept(one);
    lemma_one_is_many_grains();
    lemma_grains_of_nonzero(x);
    lemma_single_scales(pow2(149), 1, x.grains());
    assert(pow2(149) * x.grains() == x.grains() * pow2(149)) by (nonlinear_arith);
    assert(1 * x.grains() == x.grains());
}

/// Nothing over a finite nonzero value is nothing.
pub proof fn lemma_nothing_over(x: Binary32)
    requires
        0 < x.bits < INFINITY_32,
    ensures
        quotient_32(Binary32 { bits: 0 }, x) == (Binary32 { bits: 0 }),
{
    let zero = Binary32 { bits: 0 };
    lemma_grains_of_nonzero(x);
    lemma_pow2_step(0);
    assert(zero.value() == (Value { units: 0, exponent: -149 }));
    assert(0 * pow2(0) == 0) by (nonlinear_arith);
    assert(0 * pow2(149) == 0) by (nonlinear_arith);
    vstd::arithmetic::div_mod::lemma_div_of0(x.grains() as int);
    vstd::arithmetic::div_mod::lemma_small_mod(0, x.grains());
    assert(x.grains() * 1 == x.grains());
    assert(nearest_single(0, x.grains()) == 0);
}

/// One is `2^149` grains.
pub(crate) proof fn lemma_one_is_many_grains()
    ensures
        (Binary32 { bits: ONE_BITS }).grains() == pow2(149),
{
    let one = Binary32 { bits: ONE_BITS };
    lemma_pow2_adds(23, 126);
    vstd::arithmetic::power2::lemma2_to64();
    assert(one.value() == (Value { units: 0x80_0000, exponent: -23 }));
}

/// A value that is not zero has grains.
pub(crate) proof fn lemma_grains_of_nonzero(x: Binary32)
    requires
        !x.is_zero(),
    ensures
        x.grains() > 0,
{
    lemma_field_of_magnitude(x);
    let e = (x.value().exponent + 149) as nat;
    lemma_pow2_step(e);
    assert(x.value().units * pow2(e) > 0) by (nonlinear_arith)
        requires
            x.value().units > 0,
            pow2(e) > 0,
    ;
}

/// A whole number of up to 24 bits is kept without rounding.
pub proof fn lemma_small_wholes_are_exact(n: nat)
    requires
        n < TWO_24,
    ensures
        whole_32(n).bits < INFINITY_32,
        whole_32(n).grains() == n * pow2(149),
{
    lemma_24_bits_are_exact(n, 149, whole_32(n));
}

/// A value and the one with the other sign have as many grains.
pub proof fn lemma_negated_grains(x: Binary32)
    requires
        x.bits < SIGN_32,
    ensures
        negated(x).bits == x.bits + SIGN_32,
        negated(x).grains() == x.grains(),
        negated(x).signed_grains() == -x.signed_grains(),
{
    let y = negated(x);
    assert(y.bits == x.bits + SIGN_32);
    lemma_field_of_magnitude(x);
    lemma_field_of_magnitude(y);
    assert(y.bits % SIGN_32 == x.bits % SIGN_32);
    assert(y.bits % TWO_23 == x.bits % TWO_23);
    assert(y.value() == x.value());
}

/// The quotient of a value with the other sign is the quotient with the other sign.
pub proof fn lemma_negated_quotient(x: Binary32, y: Binary32)
    requires
        0 < x.bits < INFINITY_32,
        0 < y.bits < INFINITY_32,
    ensures
        quotient_32(negated(x), y) == negated(quotient_32(x, y)),
        quotient_32(x, y).bits <= INFINITY_32,
{
    lemma_negated_grains(x);
    let magnitude = nearest_single(x.grains() * pow2(149), y.grains());
    assert(magnitude <= INFINITY_32);
    assert(quotient_32(x, y) == signed(0, magnitude));
    assert(quotient_32(negated(x), y) == signed(SIGN_32 as nat, magnitude));
}

/// The rank of the value nearest to so many grains.
pub open spec fn nearest_rank(s: int) -> int {
    if s >= 0 {
        nearest_single(s as nat, 1) as int
    } else {
        -nearest_single((-s) as nat, 1)
    }
}

/// More grains have no lower rank.
pub proof fn lemma_nearest_rank_is_monotone(s: int, t: int)
    requires
        s <= t,
    ensures
        nearest_rank(s) <= nearest_rank(t),
{
    if s >= 0 {
        lemma_nearest_is_monotone(s as nat, t as nat, 1);
    } else if t < 0 {
        lemma_nearest_is_monotone((-t) as nat, (-s) as nat, 1);
    }
}

/// A finite value has the rank of its grains.
pub proof fn lemma_rank_of_value(x: Binary32)
    requires
        x.magnitude().bits < INFINITY_32,
    ensures
        x.rank() == nearest_rank(x.signed_grains()),
        x.signed_grains() > 0 <==> x.rank() > 0,
        x.signed_grains() < 0 <==> x.rank() < 0,
{
    lemma_values_are_kept(x);
    if x.is_zero() {
        lemma_grains_of_zero(x);
    } else {
        lemma_grains_of_nonzero(x);
    }
    lemma_nothing_is_zero();
}

/// A zero has no grains.
proof fn lemma_grains_of_zero(x: Binary32)
    requires
        x.is_zero(),
    ensures
        x.grains() == 0,
{
    lemma_field_of_magnitude(x);
    lemma_pow2_step(0);
    assert(x.value().units == 0);
    assert(0 * pow2(0) == 0) by (nonlinear_arith);
}

/// Finite values are ordered as their grains are.
pub proof fn lemma_rank_orders_grains(x: Binary32, y: Binary32)
    requires
        x.magnitude().bits < INFINITY_32,
        y.magnitude().bits < INFINITY_32,
        x.rank() <= y.rank(),
    ensures
        x.signed_grains() <= y.signed_grains(),
{
    lemma_rank_of_value(x);
    lemma_rank_of_value(y);
    if x.bits < SIGN_32 && y.bits < SIGN_32 {
        lemma_grains_are_ordered(x, y);
    } else if x.bits >= SIGN_32 && y.bits >= SIGN_32 {
        lemma_grains_are_ordered(y, x);
    }
}

/// A finite sum has the rank of the grains of its parts.
pub proof fn lemma_rank_of_sum(x: Binary32, y: Binary32)
    requires
        x.magnitude().bits < INFINITY_32,
        y.magnitude().bits < INFINITY_32,
    ensures
        sum_32(x, y).rank() == nearest_rank(x.signed_grains() + y.signed_grains()),
        !sum_32(x, y).is_nan(),
{
    let s = x.signed_grains() + y.signed_grains();
    lemma_nothing_is_zero();
    if s > 0 {
        let m = nearest_single(s as nat, 1);
        assert(m <= INFINITY_32);
        assert(sum_32(x, y) == signed(0, m));
        assert(sum_32(x, y).bits == m);
    } else if s < 0 {
        let m = nearest_single((-s) as nat, 1);
        assert(m <= INFINITY_32);
        assert(sum_32(x, y) == signed(SIGN_32 as nat, m));
        assert(sum_32(x, y).bits == SIGN_32 + m);
    }
}

/// A share of a value lies between nothing and the value.
pub proof fn lemma_share_lies_within(d: Binary32, share: Binary32)
    requires
        d.magnitude().bits < INFINITY_32,
        share.bits <= ONE_BITS,
    ensures
        ({
            let t = product_32(d, share);
            &&& t.magnitude().bits <= d.magnitude().bits
            &&& d.signed_grains() >= 0 ==> 0 <= t.signed_grains() <= d.signed_grains()
            &&& d.signed_grains() <= 0 ==> d.signed_grains() <= t.signed_grains() <= 0
        }),
{
    lemma_share_is_no_louder(d, share);
    lemma_product_sign(d, share);
    lemma_same_side_is_ordered(product_32(d, share), d);
}

/// A share of a value is no louder than the value.
proof fn lemma_share_is_no_louder(d: Binary32, share: Binary32)
    requires
        d.magnitude().bits < INFINITY_32,
        share.bits <= ONE_BITS,
    ensures
        product_32(d, share).magnitude().bits <= d.magnitude().bits,
{
    let one = Binary32 { bits: ONE_BITS };
    lemma_sum_commutes(d, share);
    lemma_sum_commutes(d, one);
    lemma_gain_keeps_order(share, one, d);
    lemma_one_is_neutral(d);
}

/// Of two values of one sign the quieter one lies between nothing and the other.
proof fn lemma_same_side_is_ordered(x: Binary32, y: Binary32)
    requires
        x.sign() == y.sign(),
        x.magnitude().bits <= y.magnitude().bits,
        y.magnitude().bits < INFINITY_32,
    ensures
        y.signed_grains() >= 0 ==> 0 <= x.signed_grains() <= y.signed_grains(),
        y.signed_grains() <= 0 ==> y.signed_grains() <= x.signed_grains() <= 0,
{
    lemma_grains_are_ordered(x, y);
}

/// A product with a finite positive value keeps the sign.
pub(crate) proof fn lemma_product_sign(d: Binary32, share: Binary32)
    requires
        d.magnitude().bits < INFINITY_32,
        share.bits < INFINITY_32,
    ensures
        product_32(d, share).sign() == d.sign(),
{
    let m = nearest_single(d.grains() * share.grains(), pow2(149));
    assert(m <= INFINITY_32);
    assert(product_32(d, share) == signed(joint_sign(d, share), m));
}

/// What a value has beyond its whole part is less than one, or rounded to it.
pub proof fn lemma_fraction_is_a_share(v: Value)
    ensures
        fraction_32(v).bits <= ONE_BITS,
{
    let one = Binary32 { bits: ONE_BITS };
    if v.exponent < 0 {
        let unit = pow2((-v.exponent) as nat);
        let rest = v.units % unit;
        lemma_pow2_step((-v.exponent) as nat);
        lemma_pow2_step(149);
        assert(rest * pow2(149) <= unit * pow2(149)) by (nonlinear_arith)
            requires
                rest < unit,
                pow2(149) > 0,
        ;
        lemma_nearest_is_monotone(rest * pow2(149), unit * pow2(149), unit);
        lemma_single_scales(pow2(149), 1, unit);
        assert(unit * pow2(149) == pow2(149) * unit) by (nonlinear_arith);
        assert(1 * unit == unit);
        lemma_one_is_many_grains();
        lemma_values_are_kept(one);
    }
}

/// The value with the other sign is as far from zero on the other side.
pub proof fn lemma_negated_value(x: Binary32)
    ensures
        negated(x).magnitude() == x.magnitude(),
        negated(x).signed_grains() == -x.signed_grains(),
        negated(x).sign() != x.sign(),
{
    if x.bits < SIGN_32 {
        lemma_negated_grains(x);
    } else {
        lemma_negated_grains(negated(x));
        assert(negated(negated(x)) == x);
    }
}

} // verus!
